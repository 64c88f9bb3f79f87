//! The cells of the tape.

use crate::bigint::BigInt;
use vstd::prelude::*;

verus! {

/// What a [`Cell`] stands for.
pub enum Tile {
    Data(int),
    MoveLeft,
    MoveRight,
    MoveUp,
    MoveDown,
    Add,
    Subtract,
    Multiply,
    Divide,
    Modulo,
    Equal,
    NotEqual,
    TimeWarp,
    Submit,
    InputA,
    InputB,
}

/// A cell of the tape: a number, or an operator that acts on its neighbours.
#[derive(Debug, PartialEq, Eq)]
pub enum Cell {
    Data(BigInt),
    MoveLeft,
    MoveRight,
    MoveUp,
    MoveDown,
    Add,
    Subtract,
    Multiply,
    Divide,
    Modulo,
    Equal,
    NotEqual,
    TimeWarp,
    Submit,
    InputA,
    InputB,
}

impl View for Cell {
    type V = Tile;

    open spec fn view(&self) -> Tile {
        match self {
            Cell::Data(v) => Tile::Data(v@),
            Cell::MoveLeft => Tile::MoveLeft,
            Cell::MoveRight => Tile::MoveRight,
            Cell::MoveUp => Tile::MoveUp,
            Cell::MoveDown => Tile::MoveDown,
            Cell::Add => Tile::Add,
            Cell::Subtract => Tile::Subtract,
            Cell::Multiply => Tile::Multiply,
            Cell::Divide => Tile::Divide,
            Cell::Modulo => Tile::Modulo,
            Cell::Equal => Tile::Equal,
            Cell::NotEqual => Tile::NotEqual,
            Cell::TimeWarp => Tile::TimeWarp,
            Cell::Submit => Tile::Submit,
            Cell::InputA => Tile::InputA,
            Cell::InputB => Tile::InputB,
        }
    }
}

impl Clone for Cell {
    fn clone(&self) -> (r: Self)
        ensures
            r@ == self@,
    {
        match self {
            Cell::Data(v) => Cell::Data(v.clone()),
            Cell::MoveLeft => Cell::MoveLeft,
            Cell::MoveRight => Cell::MoveRight,
            Cell::MoveUp => Cell::MoveUp,
            Cell::MoveDown => Cell::MoveDown,
            Cell::Add => Cell::Add,
            Cell::Subtract => Cell::Subtract,
            Cell::Multiply => Cell::Multiply,
            Cell::Divide => Cell::Divide,
            Cell::Modulo => Cell::Modulo,
            Cell::Equal => Cell::Equal,
            Cell::NotEqual => Cell::NotEqual,
            Cell::TimeWarp => Cell::TimeWarp,
            Cell::Submit => Cell::Submit,
            Cell::InputA => Cell::InputA,
            Cell::InputB => Cell::InputB,
        }
    }
}

impl Cell {
    /// A number between 0 and 15 that tells the kinds of cells apart.
    fn kind(&self) -> (r: u8)
        ensures
            r == tile_kind(self@),
    {
        match self {
            Cell::Data(_) => 0,
            Cell::MoveLeft => 1,
            Cell::MoveRight => 2,
            Cell::MoveUp => 3,
            Cell::MoveDown => 4,
            Cell::Add => 5,
            Cell::Subtract => 6,
            Cell::Multiply => 7,
            Cell::Divide => 8,
            Cell::Modulo => 9,
            Cell::Equal => 10,
            Cell::NotEqual => 11,
            Cell::TimeWarp => 12,
            Cell::Submit => 13,
            Cell::InputA => 14,
            Cell::InputB => 15,
        }
    }

    /// Whether two cells are the same: the same operator, or the same number.
    pub fn same(&self, other: &Cell) -> (r: bool)
        ensures
            r == (self@ == other@),
    {
        match (self, other) {
            (Cell::Data(x), Cell::Data(y)) => x.equals(y),
            _ => {
                let a = self.kind();
                let b = other.kind();
                a == b && a != 0
            },
        }
    }
}

/// A number between 0 and 15 that tells the kinds of tiles apart.
pub closed spec fn tile_kind(t: Tile) -> u8 {
    match t {
        Tile::Data(_) => 0,
        Tile::MoveLeft => 1,
        Tile::MoveRight => 2,
        Tile::MoveUp => 3,
        Tile::MoveDown => 4,
        Tile::Add => 5,
        Tile::Subtract => 6,
        Tile::Multiply => 7,
        Tile::Divide => 8,
        Tile::Modulo => 9,
        Tile::Equal => 10,
        Tile::NotEqual => 11,
        Tile::TimeWarp => 12,
        Tile::Submit => 13,
        Tile::InputA => 14,
        Tile::InputB => 15,
    }
}

} // verus!
