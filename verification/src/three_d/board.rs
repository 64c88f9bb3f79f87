//! The board format: the text in which a tape is loaded and saved.
//!
//! A board has one row of cells on each line. The cells of a row are
//! separated by blanks. A cell is `.` for an empty place, one of the operator
//! signs `< > ^ v + - * / % = # @ S`, one of the inputs `A` and `B`, or a
//! number from -99 to 99 in decimal.

use crate::bigint::decimal_text;
use crate::bigint::BigInt;
use crate::text::bytes_of;
use crate::text::slice_bytes;
use crate::three_d::cell::Cell;
use crate::three_d::cell::Tile;
use vstd::prelude::*;
use vstd::string::StringExecFns;
use vstd::string::StringSliceAdditionalSpecFns;

verus! {

/// What a [`ThreeDBoard`] stands for: rows of places, empty or with a tile.
pub type Grid = Seq<Seq<Option<Tile>>>;

/// A board: rows of places, each empty or with a cell.
#[derive(Debug, Default)]
pub struct ThreeDBoard {
    pub board: Vec<Vec<Option<Cell>>>,
}

/// What a place stands for.
pub open spec fn place_view(place: Option<Cell>) -> Option<Tile> {
    match place {
        Some(c) => Some(c@),
        None => None,
    }
}

/// What a row of places stands for.
pub open spec fn row_view(row: Seq<Option<Cell>>) -> Seq<Option<Tile>> {
    Seq::new(row.len(), |i: int| place_view(row[i]))
}

/// What rows of places stand for.
pub open spec fn grid_view(rows: Seq<Vec<Option<Cell>>>) -> Grid {
    Seq::new(rows.len(), |i: int| row_view(rows[i]@))
}

impl View for ThreeDBoard {
    type V = Grid;

    open spec fn view(&self) -> Grid {
        grid_view(self.board@)
    }
}

/// A blank between the cells of a row: space, tab, line feed, form feed or
/// carriage return.
pub open spec fn is_blank(b: u8) -> bool {
    b == 32 || b == 9 || b == 10 || b == 12 || b == 13
}

/// The decimal number of digits, read from the left; 100 stands for every
/// number above 99.
pub open spec fn small_decimal(digits: Seq<u8>) -> Option<nat>
    decreases digits.len(),
{
    if digits.len() == 0 {
        Some(0)
    } else if !(48 <= digits.last() <= 57) {
        None
    } else {
        match small_decimal(digits.drop_last()) {
            None => None,
            Some(v) => {
                let next = v * 10 + (digits.last() - 48) as nat;
                if next > 99 {
                    Some(100)
                } else {
                    Some(next)
                }
            },
        }
    }
}

/// The number that a word stands for: an optional sign and at least one
/// digit, from -99 to 99.
pub open spec fn data_value(word: Seq<u8>) -> Option<int> {
    let signed = word.len() > 0 && (word[0] == 45 || word[0] == 43);
    let digits = if signed {
        word.subrange(1, word.len() as int)
    } else {
        word
    };
    if digits.len() == 0 {
        None
    } else {
        match small_decimal(digits) {
            Some(v) => if v > 99 {
                None
            } else if signed && word[0] == 45 {
                Some(-(v as int))
            } else {
                Some(v as int)
            },
            None => None,
        }
    }
}

/// The tile of an operator sign or an input letter.
pub open spec fn sign_tile(b: u8) -> Option<Tile> {
    if b == 60 {
        Some(Tile::MoveLeft)
    } else if b == 62 {
        Some(Tile::MoveRight)
    } else if b == 94 {
        Some(Tile::MoveUp)
    } else if b == 118 {
        Some(Tile::MoveDown)
    } else if b == 43 {
        Some(Tile::Add)
    } else if b == 45 {
        Some(Tile::Subtract)
    } else if b == 42 {
        Some(Tile::Multiply)
    } else if b == 47 {
        Some(Tile::Divide)
    } else if b == 37 {
        Some(Tile::Modulo)
    } else if b == 61 {
        Some(Tile::Equal)
    } else if b == 35 {
        Some(Tile::NotEqual)
    } else if b == 64 {
        Some(Tile::TimeWarp)
    } else if b == 83 {
        Some(Tile::Submit)
    } else if b == 65 {
        Some(Tile::InputA)
    } else if b == 66 {
        Some(Tile::InputB)
    } else {
        None
    }
}

/// The place that a word stands for; `None` for a word that is no cell.
pub open spec fn word_place(word: Seq<u8>) -> Option<Option<Tile>> {
    if word.len() == 1 && word[0] == 46 {
        Some(None)
    } else if word.len() == 1 && sign_tile(word[0]).is_some() {
        Some(sign_tile(word[0]))
    } else {
        match data_value(word) {
            Some(v) => Some(Some(Tile::Data(v))),
            None => None,
        }
    }
}

/// The first position at or after `pos`, and before `end`, that holds no
/// blank; `end` where there is none.
pub open spec fn skip_blanks(bytes: Seq<u8>, pos: int, end: int) -> int
    decreases end - pos,
{
    if 0 <= pos < end <= bytes.len() && is_blank(bytes[pos]) {
        skip_blanks(bytes, pos + 1, end)
    } else {
        pos
    }
}

/// The first position at or after `pos`, and before `end`, that holds a
/// blank; `end` where there is none.
pub open spec fn word_end(bytes: Seq<u8>, pos: int, end: int) -> int
    decreases end - pos,
{
    if 0 <= pos < end <= bytes.len() && !is_blank(bytes[pos]) {
        word_end(bytes, pos + 1, end)
    } else {
        pos
    }
}

/// The first position at or after `pos` that holds a line feed; the length
/// where there is none.
pub open spec fn line_end(bytes: Seq<u8>, pos: int) -> int
    decreases bytes.len() - pos,
{
    if 0 <= pos < bytes.len() && bytes[pos] != 10 {
        line_end(bytes, pos + 1)
    } else {
        pos
    }
}

/// The places of the words from `pos` up to `end`; `None` where a word is
/// no cell.
pub open spec fn row_places(bytes: Seq<u8>, pos: int, end: int) -> Option<Seq<Option<Tile>>>
    decreases end - pos,
{
    let start = skip_blanks(bytes, pos, end);
    if !(0 <= pos <= start < end <= bytes.len()) {
        Some(Seq::empty())
    } else {
        let stop = word_end(bytes, start, end);
        if !(start < stop <= end) {
            None
        } else {
            match word_place(bytes.subrange(start, stop)) {
                None => None,
                Some(place) => match row_places(bytes, stop, end) {
                    None => None,
                    Some(rest) => Some(seq![place] + rest),
                },
            }
        }
    }
}

/// The rows of the lines from `pos` on; `None` where a word is no cell. A
/// line feed at the end of the text begins no further row.
pub open spec fn board_rows(bytes: Seq<u8>, pos: int) -> Option<Grid>
    decreases bytes.len() - pos,
{
    if !(0 <= pos < bytes.len()) {
        Some(Seq::empty())
    } else {
        let end = line_end(bytes, pos);
        if !(pos <= end <= bytes.len()) {
            None
        } else {
            match row_places(bytes, pos, end) {
                None => None,
                Some(row) => if end >= bytes.len() {
                    Some(seq![row])
                } else {
                    match board_rows(bytes, end + 1) {
                        None => None,
                        Some(rest) => Some(seq![row] + rest),
                    }
                },
            }
        }
    }
}

pub proof fn lemma_skip_blanks(bytes: Seq<u8>, pos: int, end: int)
    requires
        0 <= pos <= end <= bytes.len(),
    ensures
        pos <= skip_blanks(bytes, pos, end) <= end,
        skip_blanks(bytes, pos, end) < end ==> !is_blank(bytes[skip_blanks(bytes, pos, end)]),
    decreases end - pos,
{
    if pos < end && is_blank(bytes[pos]) {
        lemma_skip_blanks(bytes, pos + 1, end);
    }
}

pub proof fn lemma_word_end(bytes: Seq<u8>, pos: int, end: int)
    requires
        0 <= pos <= end <= bytes.len(),
    ensures
        pos <= word_end(bytes, pos, end) <= end,
        pos < end && !is_blank(bytes[pos]) ==> pos < word_end(bytes, pos, end),
    decreases end - pos,
{
    if pos < end && !is_blank(bytes[pos]) {
        lemma_word_end(bytes, pos + 1, end);
    }
}

pub proof fn lemma_line_end(bytes: Seq<u8>, pos: int)
    requires
        0 <= pos <= bytes.len(),
    ensures
        pos <= line_end(bytes, pos) <= bytes.len(),
    decreases bytes.len() - pos,
{
    if pos < bytes.len() && bytes[pos] != 10 {
        lemma_line_end(bytes, pos + 1);
    }
}

/// The cell of an operator sign or an input letter.
fn sign_cell(b: u8) -> (r: Option<Cell>)
    ensures
        place_view(r) == sign_tile(b),
{
    if b == 60 {
        Some(Cell::MoveLeft)
    } else if b == 62 {
        Some(Cell::MoveRight)
    } else if b == 94 {
        Some(Cell::MoveUp)
    } else if b == 118 {
        Some(Cell::MoveDown)
    } else if b == 43 {
        Some(Cell::Add)
    } else if b == 45 {
        Some(Cell::Subtract)
    } else if b == 42 {
        Some(Cell::Multiply)
    } else if b == 47 {
        Some(Cell::Divide)
    } else if b == 37 {
        Some(Cell::Modulo)
    } else if b == 61 {
        Some(Cell::Equal)
    } else if b == 35 {
        Some(Cell::NotEqual)
    } else if b == 64 {
        Some(Cell::TimeWarp)
    } else if b == 83 {
        Some(Cell::Submit)
    } else if b == 65 {
        Some(Cell::InputA)
    } else if b == 66 {
        Some(Cell::InputB)
    } else {
        None
    }
}

/// The number that a word stands for.
fn parse_data(word: &Vec<u8>) -> (r: Option<i64>)
    ensures
        match data_value(word@) {
            Some(v) => r == Some(v as i64) && -99 <= v <= 99,
            None => r.is_none(),
        },
{
    let n = word.len();
    let signed = n > 0 && (word[0] == 45 || word[0] == 43);
    let first: usize = if signed {
        1
    } else {
        0
    };
    if first == n {
        return None;
    }
    let ghost digits = word@.subrange(first as int, n as int);
    let mut value: i64 = 0;
    let mut i: usize = first;
    proof {
        assert(digits.subrange(0, 0) =~= Seq::<u8>::empty());
    }
    while i < n
        invariant
            first <= i <= n,
            first < n,
            n == word@.len(),
            signed == (n > 0 && (word@[0] == 45 || word@[0] == 43)),
            first == if signed { 1usize } else { 0usize },
            digits == word@.subrange(first as int, n as int),
            0 <= value <= 100,
            small_decimal(digits.subrange(0, i - first)) == Some(value as nat),
        decreases n - i,
    {
        let b = word[i];
        proof {
            let prefix = digits.subrange(0, i - first + 1);
            assert(prefix.drop_last() =~= digits.subrange(0, i - first));
            assert(prefix.last() == b);
        }
        if b < 48 || b > 57 {
            proof {
                lemma_small_decimal_fails(digits, i - first + 1, digits.len() as int);
                assert(digits.subrange(0, digits.len() as int) =~= digits);
                if !signed {
                    assert(digits =~= word@);
                }
            }
            return None;
        }
        let next: i64 = value * 10 + (b - 48) as i64;
        value = if next > 99 {
            100
        } else {
            next
        };
        i += 1;
    }
    proof {
        assert(digits.subrange(0, n - first) =~= digits);
        if !signed {
            assert(digits =~= word@);
        }
    }
    if value > 99 {
        None
    } else if signed && word[0] == 45 {
        Some(-value)
    } else {
        Some(value)
    }
}

/// Digits of which a prefix is no number are no number.
proof fn lemma_small_decimal_fails(digits: Seq<u8>, i: int, n: int)
    requires
        0 <= i <= n <= digits.len(),
        small_decimal(digits.subrange(0, i)).is_none(),
    ensures
        small_decimal(digits.subrange(0, n)).is_none(),
    decreases n - i,
{
    if i < n {
        lemma_small_decimal_fails(digits, i, n - 1);
        assert(digits.subrange(0, n).drop_last() =~= digits.subrange(0, n - 1));
    }
}

/// The place that a word stands for.
fn parse_word(word: &Vec<u8>) -> (r: Option<Option<Cell>>)
    ensures
        match word_place(word@) {
            Some(place) => r.is_some() && place_view(r.unwrap()) == place,
            None => r.is_none(),
        },
{
    if word.len() == 1 && word[0] == 46 {
        return Some(None);
    }
    if word.len() == 1 {
        match sign_cell(word[0]) {
            Some(cell) => {
                return Some(Some(cell));
            },
            None => {},
        }
    }
    match parse_data(word) {
        Some(v) => Some(Some(Cell::Data(BigInt::from_i64(v)))),
        None => None,
    }
}

/// Whether the byte is a blank.
fn blank(b: u8) -> (r: bool)
    ensures
        r == is_blank(b),
{
    b == 32 || b == 9 || b == 10 || b == 12 || b == 13
}

/// The places read so far, followed by the places still to read.
pub open spec fn joined<T>(read: Seq<T>, rest: Option<Seq<T>>) -> Option<Seq<T>> {
    match rest {
        Some(more) => Some(read + more),
        None => None,
    }
}

/// The places of the words from `pos` up to `end`.
fn parse_row(bytes: &Vec<u8>, pos: usize, end: usize) -> (r: Option<Vec<Option<Cell>>>)
    requires
        pos <= end <= bytes@.len(),
    ensures
        match row_places(bytes@, pos as int, end as int) {
            Some(row) => r.is_some() && row_view(r.unwrap()@) == row,
            None => r.is_none(),
        },
{
    let mut row: Vec<Option<Cell>> = Vec::new();
    let mut cursor: usize = pos;
    proof {
        assert(row_view(row@) =~= Seq::<Option<Tile>>::empty());
        let whole = row_places(bytes@, pos as int, end as int);
        if whole.is_some() {
            assert(Seq::<Option<Tile>>::empty() + whole.unwrap() =~= whole.unwrap());
        }
    }
    loop
        invariant
            pos <= cursor <= end <= bytes@.len(),
            row_places(bytes@, pos as int, end as int) == joined(
                row_view(row@),
                row_places(bytes@, cursor as int, end as int),
            ),
        decreases end - cursor,
    {
        let mut start: usize = cursor;
        while start < end && blank(bytes[start])
            invariant
                cursor <= start <= end <= bytes@.len(),
                skip_blanks(bytes@, start as int, end as int) == skip_blanks(
                    bytes@,
                    cursor as int,
                    end as int,
                ),
            decreases end - start,
        {
            start += 1;
        }
        if start >= end {
            proof {
                assert(row_view(row@) + Seq::<Option<Tile>>::empty() =~= row_view(row@));
            }
            return Some(row);
        }
        let mut stop: usize = start;
        while stop < end && !blank(bytes[stop])
            invariant
                start <= stop <= end <= bytes@.len(),
                word_end(bytes@, stop as int, end as int) == word_end(
                    bytes@,
                    start as int,
                    end as int,
                ),
            decreases end - stop,
        {
            stop += 1;
        }
        proof {
            lemma_word_end(bytes@, start as int, end as int);
        }
        let word = slice_bytes(bytes, start, stop);
        let place = match parse_word(&word) {
            Some(place) => place,
            None => {
                return None;
            },
        };
        let ghost before = row_view(row@);
        let ghost tile = place_view(place);
        row.push(place);
        proof {
            assert(row_view(row@) =~= before.push(tile));
            let rest = row_places(bytes@, stop as int, end as int);
            if rest.is_some() {
                assert(before + (seq![tile] + rest.unwrap()) =~= before.push(tile)
                    + rest.unwrap());
            }
        }
        cursor = stop;
    }
}

impl ThreeDBoard {
    /// The board that a text stands for; `None` where a word of the text is
    /// no cell.
    pub fn load(s: &str) -> (r: Option<ThreeDBoard>)
        ensures
            match board_rows(s.spec_bytes(), 0) {
                Some(grid) => r.is_some() && r.unwrap()@ == grid,
                None => r.is_none(),
            },
    {
        let bytes = bytes_of(s);
        let n = bytes.len();
        let mut board: Vec<Vec<Option<Cell>>> = Vec::new();
        let mut cursor: usize = 0;
        proof {
            assert(grid_view(board@) =~= Seq::<Seq<Option<Tile>>>::empty());
            let whole = board_rows(bytes@, 0);
            if whole.is_some() {
                assert(Seq::<Seq<Option<Tile>>>::empty() + whole.unwrap() =~= whole.unwrap());
            }
        }
        while cursor < n
            invariant
                cursor <= n,
                n == bytes@.len(),
                bytes@ == s.spec_bytes(),
                board_rows(bytes@, 0) == joined(grid_view(board@), board_rows(bytes@, cursor as int)),
            decreases n - cursor,
        {
            let mut end: usize = cursor;
            while end < n && bytes[end] != 10
                invariant
                    cursor <= end <= n,
                    n == bytes@.len(),
                    line_end(bytes@, end as int) == line_end(bytes@, cursor as int),
                decreases n - end,
            {
                end += 1;
            }
            proof {
                lemma_line_end(bytes@, cursor as int);
            }
            let row = match parse_row(&bytes, cursor, end) {
                Some(row) => row,
                None => {
                    return None;
                },
            };
            let ghost before = grid_view(board@);
            let ghost cells = row_view(row@);
            board.push(row);
            proof {
                assert(grid_view(board@) =~= before.push(cells));
                if end >= n {
                    assert(before + seq![cells] =~= before.push(cells));
                    assert(before.push(cells) + Seq::<Seq<Option<Tile>>>::empty()
                        =~= before.push(cells));
                } else {
                    let rest = board_rows(bytes@, end + 1);
                    if rest.is_some() {
                        assert(before + (seq![cells] + rest.unwrap()) =~= before.push(cells)
                            + rest.unwrap());
                    }
                }
            }
            if end >= n {
                return Some(ThreeDBoard { board });
            }
            cursor = end + 1;
        }
        proof {
            assert(grid_view(board@) + Seq::<Seq<Option<Tile>>>::empty() =~= grid_view(board@));
        }
        Some(ThreeDBoard { board })
    }
}


/// The sign of an operator or an input, `.` for an empty place, and the
/// decimal digits of a number.
pub open spec fn place_text(place: Option<Tile>) -> Seq<char> {
    match place {
        None => seq!['.'],
        Some(Tile::MoveLeft) => seq!['<'],
        Some(Tile::MoveRight) => seq!['>'],
        Some(Tile::MoveUp) => seq!['^'],
        Some(Tile::MoveDown) => seq!['v'],
        Some(Tile::Add) => seq!['+'],
        Some(Tile::Subtract) => seq!['-'],
        Some(Tile::Multiply) => seq!['*'],
        Some(Tile::Divide) => seq!['/'],
        Some(Tile::Modulo) => seq!['%'],
        Some(Tile::Equal) => seq!['='],
        Some(Tile::NotEqual) => seq!['#'],
        Some(Tile::TimeWarp) => seq!['@'],
        Some(Tile::Submit) => seq!['S'],
        Some(Tile::InputA) => seq!['A'],
        Some(Tile::InputB) => seq!['B'],
        Some(Tile::Data(v)) => decimal_text(v),
    }
}

/// The text of the first `n` places of a row: each place followed by a
/// space.
pub open spec fn row_text(row: Seq<Option<Tile>>, n: int) -> Seq<char>
    decreases n,
{
    if n <= 0 {
        Seq::empty()
    } else {
        row_text(row, n - 1) + place_text(row[n - 1]) + seq![' ']
    }
}

/// The text of the first `n` rows of a grid: each row followed by a line
/// feed.
pub open spec fn grid_text(grid: Grid, n: int) -> Seq<char>
    decreases n,
{
    if n <= 0 {
        Seq::empty()
    } else {
        grid_text(grid, n - 1) + row_text(grid[n - 1], grid[n - 1].len() as int) + seq!['\n']
    }
}

/// Appends the text of a place.
fn append_place(out: &mut String, place: &Option<Cell>)
    ensures
        final(out)@ == old(out)@ + place_text(place_view(*place)),
{
    proof {
        reveal_strlit(".");
        reveal_strlit("<");
        reveal_strlit(">");
        reveal_strlit("^");
        reveal_strlit("v");
        reveal_strlit("+");
        reveal_strlit("-");
        reveal_strlit("*");
        reveal_strlit("/");
        reveal_strlit("%");
        reveal_strlit("=");
        reveal_strlit("#");
        reveal_strlit("@");
        reveal_strlit("S");
        reveal_strlit("A");
        reveal_strlit("B");
    }
    match place {
        None => {
            out.append(".");
            assert(".".view() =~= seq!['.']);
        },
        Some(Cell::MoveLeft) => {
            out.append("<");
            assert("<".view() =~= seq!['<']);
        },
        Some(Cell::MoveRight) => {
            out.append(">");
            assert(">".view() =~= seq!['>']);
        },
        Some(Cell::MoveUp) => {
            out.append("^");
            assert("^".view() =~= seq!['^']);
        },
        Some(Cell::MoveDown) => {
            out.append("v");
            assert("v".view() =~= seq!['v']);
        },
        Some(Cell::Add) => {
            out.append("+");
            assert("+".view() =~= seq!['+']);
        },
        Some(Cell::Subtract) => {
            out.append("-");
            assert("-".view() =~= seq!['-']);
        },
        Some(Cell::Multiply) => {
            out.append("*");
            assert("*".view() =~= seq!['*']);
        },
        Some(Cell::Divide) => {
            out.append("/");
            assert("/".view() =~= seq!['/']);
        },
        Some(Cell::Modulo) => {
            out.append("%");
            assert("%".view() =~= seq!['%']);
        },
        Some(Cell::Equal) => {
            out.append("=");
            assert("=".view() =~= seq!['=']);
        },
        Some(Cell::NotEqual) => {
            out.append("#");
            assert("#".view() =~= seq!['#']);
        },
        Some(Cell::TimeWarp) => {
            out.append("@");
            assert("@".view() =~= seq!['@']);
        },
        Some(Cell::Submit) => {
            out.append("S");
            assert("S".view() =~= seq!['S']);
        },
        Some(Cell::InputA) => {
            out.append("A");
            assert("A".view() =~= seq!['A']);
        },
        Some(Cell::InputB) => {
            out.append("B");
            assert("B".view() =~= seq!['B']);
        },
        Some(Cell::Data(v)) => {
            let digits = v.to_decimal();
            out.append(digits.as_str());
        },
    }
}

impl ThreeDBoard {
    /// The text of the board: each place followed by a space, each row by a
    /// line feed.
    pub fn save(&self) -> (r: String)
        ensures
            r@ == grid_text(self@, self@.len() as int),
    {
        let mut out = String::new();
        let mut y: usize = 0;
        proof {
            reveal_strlit(" ");
            reveal_strlit("\n");
            assert(" ".view() =~= seq![' ']);
            assert("\n".view() =~= seq!['\n']);
        }
        while y < self.board.len()
            invariant
                y <= self.board@.len(),
                out@ == grid_text(self@, y as int),
                " ".view() == seq![' '],
                "\n".view() == seq!['\n'],
            decreases self.board@.len() - y,
        {
            let row = &self.board[y];
            let ghost start = out@;
            let mut x: usize = 0;
            assert(self@[y as int] == row_view(row@));
            while x < row.len()
                invariant
                    x <= row@.len(),
                    out@ == start + row_text(row_view(row@), x as int),
                    " ".view() == seq![' '],
                decreases row@.len() - x,
            {
                let ghost before = out@;
                append_place(&mut out, &row[x]);
                out.append(" ");
                proof {
                    assert(row_view(row@)[x as int] == place_view(row@[x as int]));
                    assert(out@ =~= start + row_text(row_view(row@), x + 1));
                }
                x += 1;
            }
            out.append("\n");
            proof {
                assert(out@ =~= grid_text(self@, y + 1));
            }
            y += 1;
        }
        out
    }
}

} // verus!
