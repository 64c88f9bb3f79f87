//! The points that the ship has to visit, the ship's state and the nine
//! commands of its keypad.
//!
//! A command changes the speed by at most one in each direction; the ship
//! then moves by its new speed. The keys are those of a numeric keypad: `5`
//! keeps the speed, `8` accelerates upwards, `6` to the right.
//!
//! A problem is a text with one point on each line: two integers that fit in
//! 32 bits, in decimal with an optional sign, separated by white space.

pub use crate::geometry::Vector2D;
use crate::text::bytes_of;
use vstd::prelude::*;
use vstd::string::StringExecFns;
use vstd::string::StringSliceAdditionalSpecFns;

verus! {

/// A command of the keypad.
#[derive(Clone, Copy, Debug, PartialEq, Eq, Structural)]
pub enum Command {
    UpLeft,
    Up,
    UpRight,
    Left,
    KeepSpeed,
    Right,
    DownLeft,
    Down,
    DownRight,
}

/// The change of the speed that a command asks for, to the right and
/// upwards.
pub open spec fn acceleration(command: Command) -> (int, int) {
    match command {
        Command::UpLeft => (-1, 1),
        Command::Up => (0, 1),
        Command::UpRight => (1, 1),
        Command::Left => (-1, 0),
        Command::KeepSpeed => (0, 0),
        Command::Right => (1, 0),
        Command::DownLeft => (-1, -1),
        Command::Down => (0, -1),
        Command::DownRight => (1, -1),
    }
}

/// The key of a command.
pub open spec fn key(command: Command) -> char {
    match command {
        Command::UpLeft => '7',
        Command::Up => '8',
        Command::UpRight => '9',
        Command::Left => '4',
        Command::KeepSpeed => '5',
        Command::Right => '6',
        Command::DownLeft => '1',
        Command::Down => '2',
        Command::DownRight => '3',
    }
}

/// A ship: where it is, how fast it moves, and the keys pressed so far.
#[derive(Debug)]
pub struct SpaceshipState {
    pub pos: Vector2D,
    pub speed: Vector2D,
    pub path: String,
}

impl SpaceshipState {
    pub fn new(pos: Vector2D, speed: Vector2D, path: String) -> (r: Self)
        ensures
            r.pos == pos,
            r.speed == speed,
            r.path == path,
    {
        SpaceshipState { pos, speed, path }
    }

    /// The state after a command: the speed changes by the command's
    /// acceleration, the ship moves by the new speed, and the command's key
    /// is added to the path. The new speed and the new position must fit.
    pub fn next(&self, command: Command) -> (r: SpaceshipState)
        requires
            i32::MIN <= self.speed.x + acceleration(command).0 <= i32::MAX,
            i32::MIN <= self.speed.y + acceleration(command).1 <= i32::MAX,
            i32::MIN <= self.pos.x + self.speed.x + acceleration(command).0 <= i32::MAX,
            i32::MIN <= self.pos.y + self.speed.y + acceleration(command).1 <= i32::MAX,
        ensures
            r.speed.x == self.speed.x + acceleration(command).0,
            r.speed.y == self.speed.y + acceleration(command).1,
            r.pos.x == self.pos.x + r.speed.x,
            r.pos.y == self.pos.y + r.speed.y,
            r.path@ == self.path@.push(key(command)),
    {
        proof {
            reveal_strlit("1");
            reveal_strlit("2");
            reveal_strlit("3");
            reveal_strlit("4");
            reveal_strlit("5");
            reveal_strlit("6");
            reveal_strlit("7");
            reveal_strlit("8");
            reveal_strlit("9");
        }
        let (change, pressed) = match command {
            Command::UpLeft => (Vector2D::new(-1, 1), "7"),
            Command::Up => (Vector2D::new(0, 1), "8"),
            Command::UpRight => (Vector2D::new(1, 1), "9"),
            Command::Left => (Vector2D::new(-1, 0), "4"),
            Command::KeepSpeed => (Vector2D::new(0, 0), "5"),
            Command::Right => (Vector2D::new(1, 0), "6"),
            Command::DownLeft => (Vector2D::new(-1, -1), "1"),
            Command::Down => (Vector2D::new(0, -1), "2"),
            Command::DownRight => (Vector2D::new(1, -1), "3"),
        };
        assert(pressed@ =~= seq![key(command)]);
        let new_speed = self.speed.add(change);
        let new_pos = self.pos.add(new_speed);
        let path = self.path.clone().concat(pressed);
        assert(path@ =~= self.path@.push(key(command)));
        SpaceshipState { pos: new_pos, speed: new_speed, path }
    }
}

/// The command for an acceleration of `x` upwards and `y` to the right, each
/// of them -1, 0 or 1.
pub fn accel_to_command(x: i32, y: i32) -> (r: Command)
    requires
        -1 <= x <= 1,
        -1 <= y <= 1,
    ensures
        acceleration(r) == (y as int, x as int),
{
    if x == 1 {
        if y == 1 {
            Command::UpRight
        } else if y == 0 {
            Command::Up
        } else {
            Command::UpLeft
        }
    } else if x == 0 {
        if y == 1 {
            Command::Right
        } else if y == 0 {
            Command::KeepSpeed
        } else {
            Command::Left
        }
    } else {
        if y == 1 {
            Command::DownRight
        } else if y == 0 {
            Command::Down
        } else {
            Command::DownLeft
        }
    }
}

/// The length of the white space character whose UTF-8 bytes begin at a
/// position before `end`; 0 where none begins there. White space is what
/// Unicode calls so: the ASCII blanks from tab to carriage return and the
/// space, U+0085, U+00A0, U+1680, U+2000 to U+200A, U+2028, U+2029, U+202F,
/// U+205F and U+3000.
pub open spec fn space_len(bytes: Seq<u8>, pos: int, end: int) -> int {
    if !(0 <= pos < end <= bytes.len()) {
        0
    } else if (9 <= bytes[pos] <= 13) || bytes[pos] == 32 {
        1
    } else if pos + 1 < end && bytes[pos] == 0xC2 && (bytes[pos + 1] == 0x85 || bytes[pos + 1]
        == 0xA0) {
        2
    } else if pos + 2 < end && ((bytes[pos] == 0xE1 && bytes[pos + 1] == 0x9A && bytes[pos + 2]
        == 0x80) || (bytes[pos] == 0xE2 && bytes[pos + 1] == 0x80 && (0x80 <= bytes[pos + 2]
        <= 0x8A || bytes[pos + 2] == 0xA8 || bytes[pos + 2] == 0xA9 || bytes[pos + 2] == 0xAF))
        || (bytes[pos] == 0xE2 && bytes[pos + 1] == 0x81 && bytes[pos + 2] == 0x9F) || (bytes[pos]
        == 0xE3 && bytes[pos + 1] == 0x80 && bytes[pos + 2] == 0x80)) {
        3
    } else {
        0
    }
}

/// The first position at or after `pos` at which no white space begins.
pub open spec fn spaces_end(bytes: Seq<u8>, pos: int, end: int) -> int
    decreases end - pos,
{
    let n = space_len(bytes, pos, end);
    if 0 < n && pos + n <= end {
        spaces_end(bytes, pos + n, end)
    } else {
        pos
    }
}

/// The first position at or after `pos` at which white space begins; `end`
/// where there is none.
pub open spec fn word_end(bytes: Seq<u8>, pos: int, end: int) -> int
    decreases end - pos,
{
    if 0 <= pos < end <= bytes.len() && space_len(bytes, pos, end) == 0 {
        word_end(bytes, pos + 1, end)
    } else {
        pos
    }
}

/// The first position at or after `pos` that holds a line feed; the length
/// where there is none.
pub open spec fn line_end(bytes: Seq<u8>, pos: int) -> int
    decreases bytes.len() - pos,
{
    if 0 <= pos < bytes.len() && bytes[pos] != 10 {
        line_end(bytes, pos + 1)
    } else {
        pos
    }
}

/// The decimal number of digits, read from the left; `cap` stands for every
/// number above it. `None` where a byte is no digit.
pub open spec fn capped_decimal(digits: Seq<u8>, cap: nat) -> Option<nat>
    decreases digits.len(),
{
    if digits.len() == 0 {
        Some(0)
    } else if !(48 <= digits.last() <= 57) {
        None
    } else {
        match capped_decimal(digits.drop_last(), cap) {
            None => None,
            Some(v) => {
                let next = v * 10 + (digits.last() - 48) as nat;
                if next > cap {
                    Some(cap)
                } else {
                    Some(next)
                }
            },
        }
    }
}

/// The integer that a word stands for: an optional sign and at least one
/// digit, within 32 bits.
pub open spec fn coordinate(word: Seq<u8>) -> Option<int> {
    let signed = word.len() > 0 && (word[0] == 45 || word[0] == 43);
    let digits = if signed {
        word.subrange(1, word.len() as int)
    } else {
        word
    };
    if digits.len() == 0 {
        None
    } else {
        match capped_decimal(digits, 2147483649) {
            Some(v) => if signed && word[0] == 45 {
                if v <= 2147483648 {
                    Some(-(v as int))
                } else {
                    None
                }
            } else {
                if v <= 2147483647 {
                    Some(v as int)
                } else {
                    None
                }
            },
            None => None,
        }
    }
}

/// The point of the line from `pos` up to `end`: its first two words. What
/// follows them is not looked at.
pub open spec fn line_point(bytes: Seq<u8>, pos: int, end: int) -> Option<Vector2D> {
    let x0 = spaces_end(bytes, pos, end);
    let x1 = word_end(bytes, x0, end);
    let y0 = spaces_end(bytes, x1, end);
    let y1 = word_end(bytes, y0, end);
    if 0 <= pos <= x0 < x1 <= y0 && y0 < y1 <= end <= bytes.len() {
        match (coordinate(bytes.subrange(x0, x1)), coordinate(bytes.subrange(y0, y1))) {
            (Some(x), Some(y)) => Some(Vector2D { x: x as i32, y: y as i32 }),
            _ => None,
        }
    } else {
        None
    }
}

/// The points of the lines from `pos` on; `None` where a line holds no
/// point. A line feed at the end of the text begins no further line.
pub open spec fn points_from(bytes: Seq<u8>, pos: int) -> Option<Seq<Vector2D>>
    decreases bytes.len() - pos,
{
    if !(0 <= pos < bytes.len()) {
        Some(Seq::empty())
    } else {
        let end = line_end(bytes, pos);
        if !(pos <= end <= bytes.len()) {
            None
        } else {
            match line_point(bytes, pos, end) {
                None => None,
                Some(p) => if end >= bytes.len() {
                    Some(seq![p])
                } else {
                    match points_from(bytes, end + 1) {
                        None => None,
                        Some(rest) => Some(seq![p] + rest),
                    }
                },
            }
        }
    }
}

/// The points read so far, followed by the points still to read.
pub open spec fn read_then(read: Seq<Vector2D>, rest: Option<Seq<Vector2D>>) -> Option<
    Seq<Vector2D>,
> {
    match rest {
        Some(more) => Some(read + more),
        None => None,
    }
}

pub proof fn lemma_line_end(bytes: Seq<u8>, pos: int)
    requires
        0 <= pos <= bytes.len(),
    ensures
        pos <= line_end(bytes, pos) <= bytes.len(),
    decreases bytes.len() - pos,
{
    if pos < bytes.len() && bytes[pos] != 10 {
        lemma_line_end(bytes, pos + 1);
    }
}

/// Digits of which a prefix is no number are no number.
proof fn lemma_capped_decimal_fails(digits: Seq<u8>, cap: nat, i: int, n: int)
    requires
        0 <= i <= n <= digits.len(),
        capped_decimal(digits.subrange(0, i), cap).is_none(),
    ensures
        capped_decimal(digits.subrange(0, n), cap).is_none(),
    decreases n - i,
{
    if i < n {
        lemma_capped_decimal_fails(digits, cap, i, n - 1);
        assert(digits.subrange(0, n).drop_last() =~= digits.subrange(0, n - 1));
    }
}

/// The length of the white space character that begins at a position.
fn space_at(bytes: &Vec<u8>, pos: usize, end: usize) -> (r: usize)
    requires
        end <= bytes.len(),
    ensures
        r == space_len(bytes@, pos as int, end as int),
        r <= 3,
        r > 0 ==> pos + r <= end,
{
    if pos >= end {
        return 0;
    }
    let b = bytes[pos];
    if (9 <= b && b <= 13) || b == 32 {
        return 1;
    }
    if end - pos >= 2 && b == 0xC2 && (bytes[pos + 1] == 0x85 || bytes[pos + 1] == 0xA0) {
        return 2;
    }
    if end - pos >= 3 {
        let c = bytes[pos + 1];
        let d = bytes[pos + 2];
        if (b == 0xE1 && c == 0x9A && d == 0x80) || (b == 0xE2 && c == 0x80 && ((0x80 <= d && d
            <= 0x8A) || d == 0xA8 || d == 0xA9 || d == 0xAF)) || (b == 0xE2 && c == 0x81 && d
            == 0x9F) || (b == 0xE3 && c == 0x80 && d == 0x80) {
            return 3;
        }
    }
    0
}

fn skip_spaces(bytes: &Vec<u8>, pos: usize, end: usize) -> (r: usize)
    requires
        pos <= end <= bytes.len(),
    ensures
        r == spaces_end(bytes@, pos as int, end as int),
        pos <= r <= end,
{
    let mut i = pos;
    loop
        invariant
            pos <= i <= end <= bytes.len(),
            spaces_end(bytes@, i as int, end as int) == spaces_end(bytes@, pos as int, end as int),
        decreases end - i,
    {
        let n = space_at(bytes, i, end);
        if n == 0 {
            return i;
        }
        i += n;
    }
}

fn skip_word(bytes: &Vec<u8>, pos: usize, end: usize) -> (r: usize)
    requires
        pos <= end <= bytes.len(),
    ensures
        r == word_end(bytes@, pos as int, end as int),
        pos <= r <= end,
{
    let mut i = pos;
    while i < end && space_at(bytes, i, end) == 0
        invariant
            pos <= i <= end <= bytes.len(),
            word_end(bytes@, i as int, end as int) == word_end(bytes@, pos as int, end as int),
        decreases end - i,
    {
        i += 1;
    }
    i
}

/// The integer that the word from `from` up to `to` stands for.
fn parse_coordinate(bytes: &Vec<u8>, from: usize, to: usize) -> (r: Option<i32>)
    requires
        from <= to <= bytes.len(),
    ensures
        match coordinate(bytes@.subrange(from as int, to as int)) {
            Some(v) => r == Some(v as i32) && i32::MIN <= v <= i32::MAX,
            None => r.is_none(),
        },
{
    let ghost word = bytes@.subrange(from as int, to as int);
    let signed = from < to && (bytes[from] == 45 || bytes[from] == 43);
    let first: usize = if signed {
        from + 1
    } else {
        from
    };
    proof {
        if from < to {
            assert(word[0] == bytes@[from as int]);
        }
    }
    if first == to {
        proof {
            if signed {
                assert(word.subrange(1, word.len() as int).len() == 0);
            }
        }
        return None;
    }
    let ghost digits = bytes@.subrange(first as int, to as int);
    proof {
        if signed {
            assert(word.subrange(1, word.len() as int) =~= digits);
        } else {
            assert(word =~= digits);
        }
        assert(digits.subrange(0, 0) =~= Seq::<u8>::empty());
    }
    let mut value: i64 = 0;
    let mut i: usize = first;
    while i < to
        invariant
            first <= i <= to <= bytes.len(),
            digits == bytes@.subrange(first as int, to as int),
            word == bytes@.subrange(from as int, to as int),
            signed == (word.len() > 0 && (word[0] == 45 || word[0] == 43)),
            digits == if signed {
                word.subrange(1, word.len() as int)
            } else {
                word
            },
            0 <= value <= 2147483649,
            capped_decimal(digits.subrange(0, i - first), 2147483649) == Some(value as nat),
        decreases to - i,
    {
        let b = bytes[i];
        proof {
            let prefix = digits.subrange(0, i - first + 1);
            assert(prefix.drop_last() =~= digits.subrange(0, i - first));
            assert(prefix.last() == b);
        }
        if b < 48 || b > 57 {
            proof {
                assert(capped_decimal(digits.subrange(0, i - first + 1), 2147483649).is_none());
                lemma_capped_decimal_fails(digits, 2147483649, i - first + 1, digits.len() as int);
                assert(digits.subrange(0, digits.len() as int) =~= digits);
            }
            return None;
        }
        let next: i64 = value * 10 + (b - 48) as i64;
        value = if next > 2147483649 {
            2147483649
        } else {
            next
        };
        i += 1;
    }
    proof {
        assert(digits.subrange(0, to - first) =~= digits);
    }
    if signed && bytes[from] == 45 {
        if value <= 2147483648 {
            Some((-value) as i32)
        } else {
            None
        }
    } else {
        if value <= 2147483647 {
            Some(value as i32)
        } else {
            None
        }
    }
}

/// The point of the line from `pos` up to `end`.
fn parse_line(bytes: &Vec<u8>, pos: usize, end: usize) -> (r: Option<Vector2D>)
    requires
        pos <= end <= bytes.len(),
    ensures
        r == line_point(bytes@, pos as int, end as int),
{
    let x0 = skip_spaces(bytes, pos, end);
    let x1 = skip_word(bytes, x0, end);
    let y0 = skip_spaces(bytes, x1, end);
    let y1 = skip_word(bytes, y0, end);
    if x0 == x1 || y0 == y1 {
        return None;
    }
    match (parse_coordinate(bytes, x0, x1), parse_coordinate(bytes, y0, y1)) {
        (Some(x), Some(y)) => Some(Vector2D { x, y }),
        _ => None,
    }
}

/// The points that the ship has to visit.
#[derive(Debug, Default)]
pub struct SpaceshipModel {
    pub points: Vec<Vector2D>,
}

impl SpaceshipModel {
    /// The points of a text, one on each line; `None` where a line does not
    /// begin with two integers.
    pub fn load(s: &str) -> (r: Option<SpaceshipModel>)
        ensures
            match points_from(s.spec_bytes(), 0) {
                Some(points) => r.is_some() && r.unwrap().points@ == points,
                None => r.is_none(),
            },
    {
        let bytes = bytes_of(s);
        let n = bytes.len();
        let mut points: Vec<Vector2D> = Vec::new();
        let mut cursor: usize = 0;
        proof {
            let whole = points_from(bytes@, 0);
            if whole.is_some() {
                assert(Seq::<Vector2D>::empty() + whole.unwrap() =~= whole.unwrap());
            }
        }
        while cursor < n
            invariant
                cursor <= n,
                n == bytes@.len(),
                bytes@ == s.spec_bytes(),
                points_from(bytes@, 0) == read_then(points@, points_from(bytes@, cursor as int)),
            decreases n - cursor,
        {
            let mut end: usize = cursor;
            while end < n && bytes[end] != 10
                invariant
                    cursor <= end <= n,
                    n == bytes@.len(),
                    line_end(bytes@, end as int) == line_end(bytes@, cursor as int),
                decreases n - end,
            {
                end += 1;
            }
            proof {
                lemma_line_end(bytes@, cursor as int);
            }
            let p = match parse_line(&bytes, cursor, end) {
                Some(p) => p,
                None => {
                    return None;
                },
            };
            let ghost before = points@;
            points.push(p);
            proof {
                if end >= n {
                    assert(before + seq![p] =~= points@);
                } else {
                    let rest = points_from(bytes@, end + 1);
                    if rest.is_some() {
                        assert(before + (seq![p] + rest.unwrap()) =~= points@ + rest.unwrap());
                    }
                }
            }
            if end >= n {
                return Some(SpaceshipModel { points });
            }
            cursor = end + 1;
        }
        proof {
            assert(points@ + Seq::<Vector2D>::empty() =~= points@);
        }
        Some(SpaceshipModel { points })
    }
}

} // verus!
