//! Positions on a grid of cells, moves between neighbours, and paths: a start
//! and the moves made from it.

use crate::text::ascii_string;
use crate::text::ascii_text;
use crate::text::is_ascii_bytes;
use vstd::prelude::*;

verus! {

/// A cell of the grid, by column and row. Row 0 is the top row.
#[derive(Clone, Copy, Debug, PartialEq, Eq, Hash, PartialOrd, Ord, Structural)]
pub struct Point {
    pub x: usize,
    pub y: usize,
}

/// One step to a neighbour cell.
#[derive(Clone, Copy, Debug, PartialEq, Eq, Hash, Structural)]
pub enum Move {
    Up,
    Down,
    Left,
    Right,
}

/// The column and row one step away, as unbounded integers.
pub open spec fn step(p: (int, int), m: Move) -> (int, int) {
    match m {
        Move::Up => (p.0, p.1 - 1),
        Move::Down => (p.0, p.1 + 1),
        Move::Left => (p.0 - 1, p.1),
        Move::Right => (p.0 + 1, p.1),
    }
}

/// The column and row reached from `start` by the first `n` moves.
pub open spec fn walk(start: (int, int), moves: Seq<Move>, n: int) -> (int, int)
    decreases n,
{
    if n <= 0 {
        start
    } else {
        step(walk(start, moves, n - 1), moves[n - 1])
    }
}

/// A column and row that a `Point` can hold.
pub open spec fn on_grid(p: (int, int)) -> bool {
    0 <= p.0 <= usize::MAX && 0 <= p.1 <= usize::MAX
}

/// The letter of a move: `U`, `D`, `L` or `R`.
pub open spec fn letter(m: Move) -> u8 {
    match m {
        Move::Up => 85,
        Move::Down => 68,
        Move::Left => 76,
        Move::Right => 82,
    }
}

impl Point {
    pub fn new(x: usize, y: usize) -> (r: Self)
        ensures
            r.x == x,
            r.y == y,
    {
        Point { x, y }
    }

    /// The column and row as unbounded integers.
    pub open spec fn coordinates(self) -> (int, int) {
        (self.x as int, self.y as int)
    }

    /// The neighbour cell one step away. The step must not leave the grid.
    pub fn apply(self, m: Move) -> (r: Self)
        requires
            on_grid(step(self.coordinates(), m)),
        ensures
            r.coordinates() == step(self.coordinates(), m),
    {
        match m {
            Move::Up => Self { x: self.x, y: self.y - 1 },
            Move::Down => Self { x: self.x, y: self.y + 1 },
            Move::Left => Self { x: self.x - 1, y: self.y },
            Move::Right => Self { x: self.x + 1, y: self.y },
        }
    }
}

/// A start and the moves made from it.
#[derive(Debug, Hash)]
pub struct Path {
    moves: Vec<Move>,
    start_pos: Point,
}

impl Clone for Path {
    fn clone(&self) -> (r: Self)
        ensures
            r.moves() == self.moves(),
            r.start() == self.start(),
    {
        let mut moves: Vec<Move> = Vec::new();
        let mut i: usize = 0;
        while i < self.moves.len()
            invariant
                i <= self.moves@.len(),
                moves@ == self.moves@.subrange(0, i as int),
            decreases self.moves@.len() - i,
        {
            moves.push(self.moves[i]);
            assert(moves@ =~= self.moves@.subrange(0, i + 1));
            i += 1;
        }
        assert(moves@ =~= self.moves@);
        Path { moves, start_pos: self.start_pos }
    }
}

impl Path {
    /// The moves of the path, in order.
    pub closed spec fn moves(&self) -> Seq<Move> {
        self.moves@
    }

    /// The start of the path.
    pub closed spec fn start(&self) -> Point {
        self.start_pos
    }

    /// The path that stays at its start.
    pub fn new(start_pos: Point) -> (r: Self)
        ensures
            r.moves() == Seq::<Move>::empty(),
            r.start() == start_pos,
    {
        Self { moves: Vec::new(), start_pos }
    }

    /// Appends the moves of another path. The other path's start is dropped.
    pub fn extend(&mut self, other: Self)
        ensures
            final(self).moves() == old(self).moves() + other.moves(),
            final(self).start() == old(self).start(),
    {
        let mut i: usize = 0;
        while i < other.moves.len()
            invariant
                i <= other.moves@.len(),
                self.moves@ == old(self).moves@ + other.moves@.subrange(0, i as int),
                self.start_pos == old(self).start_pos,
            decreases other.moves@.len() - i,
        {
            self.moves.push(other.moves[i]);
            assert(self.moves@ =~= old(self).moves@ + other.moves@.subrange(0, i + 1));
            i += 1;
        }
        assert(other.moves@.subrange(0, other.moves@.len() as int) =~= other.moves@);
    }

    /// The number of moves.
    pub fn len(&self) -> (r: usize)
        ensures
            r == self.moves().len(),
    {
        self.moves.len()
    }

    /// Whether the path has no move.
    pub fn is_empty(&self) -> (r: bool)
        ensures
            r == (self.moves().len() == 0),
    {
        self.moves.len() == 0
    }

    /// Appends one move.
    pub fn push(&mut self, m: Move)
        ensures
            final(self).moves() == old(self).moves().push(m),
            final(self).start() == old(self).start(),
    {
        self.moves.push(m);
    }

    /// The moves, in order.
    pub fn iter_moves(&self) -> (r: Vec<Move>)
        ensures
            r@ == self.moves(),
    {
        let copy = self.clone();
        copy.moves
    }

    /// The cells that the path visits, each with the number of moves made to
    /// reach it: the start with 0 first. The path must not leave the grid.
    pub fn iter_positions(&self) -> (r: Vec<(Point, usize)>)
        requires
            forall|i: int|
                0 <= i <= self.moves().len() ==> on_grid(
                    #[trigger] walk(self.start().coordinates(), self.moves(), i),
                ),
        ensures
            r@.len() == self.moves().len() + 1,
            forall|i: int|
                0 <= i <= self.moves().len() ==> (#[trigger] r@[i]).1 == i && r@[i].0.coordinates()
                    == walk(self.start().coordinates(), self.moves(), i),
    {
        let mut r: Vec<(Point, usize)> = Vec::new();
        let mut p = self.start_pos;
        let mut i: usize = 0;
        r.push((p, 0));
        while i < self.moves.len()
            invariant
                i <= self.moves().len(),
                p.coordinates() == walk(self.start().coordinates(), self.moves(), i as int),
                r@.len() == i + 1,
                forall|j: int|
                    0 <= j <= i ==> (#[trigger] r@[j]).1 == j && r@[j].0.coordinates() == walk(
                        self.start().coordinates(),
                        self.moves(),
                        j,
                    ),
                forall|j: int|
                    0 <= j <= self.moves().len() ==> on_grid(
                        #[trigger] walk(self.start().coordinates(), self.moves(), j),
                    ),
            decreases self.moves().len() - i,
        {
            assert(on_grid(walk(self.start().coordinates(), self.moves(), i + 1)));
            p = p.apply(self.moves[i]);
            i += 1;
            r.push((p, i));
        }
        r
    }
}

/// The letters of the moves of a path: `U`, `D`, `L` and `R`.
pub fn to_lambdaman_path(path: &Path) -> (r: String)
    ensures
        r@ == ascii_text(path.moves().map_values(|m: Move| letter(m))),
{
    let mut bytes: Vec<u8> = Vec::new();
    let mut i: usize = 0;
    let ghost letters = path.moves@.map_values(|m: Move| letter(m));
    while i < path.moves.len()
        invariant
            i <= path.moves@.len(),
            letters == path.moves@.map_values(|m: Move| letter(m)),
            bytes@ == letters.subrange(0, i as int),
            is_ascii_bytes(bytes@),
        decreases path.moves@.len() - i,
    {
        let b: u8 = match path.moves[i] {
            Move::Up => 85,
            Move::Down => 68,
            Move::Left => 76,
            Move::Right => 82,
        };
        bytes.push(b);
        assert(bytes@ =~= letters.subrange(0, i + 1));
        i += 1;
    }
    assert(bytes@ =~= letters);
    ascii_string(bytes)
}

} // verus!
