//! Positions on an integer grid, and the four moves between neighbours.

use vstd::prelude::*;

verus! {

/// One step on the grid. `Up` is towards smaller `y`.
#[derive(Clone, Copy, Debug, PartialEq, Eq, Structural)]
pub enum Move {
    Up,
    Down,
    Left,
    Right,
}

impl Move {
    /// The move that a letter stands for: `U`, `L`, `D` or `R`.
    pub fn try_from(value: char) -> (r: Result<Move, ()>)
        ensures
            r == move_of_letter(value),
    {
        if value == 'U' {
            Ok(Move::Up)
        } else if value == 'L' {
            Ok(Move::Left)
        } else if value == 'D' {
            Ok(Move::Down)
        } else if value == 'R' {
            Ok(Move::Right)
        } else {
            Err(())
        }
    }
}

/// The move that a letter stands for.
pub open spec fn move_of_letter(c: char) -> Result<Move, ()> {
    if c == 'U' {
        Ok(Move::Up)
    } else if c == 'L' {
        Ok(Move::Left)
    } else if c == 'D' {
        Ok(Move::Down)
    } else if c == 'R' {
        Ok(Move::Right)
    } else {
        Err(())
    }
}

/// A position, or a difference of positions.
#[derive(Clone, Copy, Debug, Default, PartialEq, Eq, Hash, Structural)]
pub struct Vector2D {
    pub x: i32,
    pub y: i32,
}

impl Vector2D {
    pub fn new(x: i32, y: i32) -> (r: Self)
        ensures
            r.x == x,
            r.y == y,
    {
        Vector2D { x, y }
    }

    /// The position one step away, as a pair of unbounded coordinates.
    pub open spec fn step(self, mov: Move) -> (int, int) {
        match mov {
            Move::Up => (self.x as int, self.y - 1),
            Move::Down => (self.x as int, self.y + 1),
            Move::Left => (self.x - 1, self.y as int),
            Move::Right => (self.x + 1, self.y as int),
        }
    }

    /// The pair of unbounded coordinates.
    pub open spec fn coordinates(self) -> (int, int) {
        (self.x as int, self.y as int)
    }

    /// The distance from the origin along the grid lines.
    pub fn manhattan(&self) -> (r: i32)
        requires
            vstd::math::abs(self.x as int) + vstd::math::abs(self.y as int) <= i32::MAX,
        ensures
            r == vstd::math::abs(self.x as int) + vstd::math::abs(self.y as int),
    {
        let ax: i32 = if self.x < 0 { -self.x } else { self.x };
        let ay: i32 = if self.y < 0 { -self.y } else { self.y };
        ax + ay
    }

    /// The position one step away.
    pub fn apply(&self, mov: Move) -> (r: Self)
        requires
            mov == Move::Up ==> self.y > i32::MIN,
            mov == Move::Down ==> self.y < i32::MAX,
            mov == Move::Left ==> self.x > i32::MIN,
            mov == Move::Right ==> self.x < i32::MAX,
        ensures
            r.coordinates() == self.step(mov),
    {
        match mov {
            Move::Up => self.up(),
            Move::Down => self.down(),
            Move::Left => self.left(),
            Move::Right => self.right(),
        }
    }

    pub fn left(&self) -> (r: Self)
        requires
            self.x > i32::MIN,
        ensures
            r.x == self.x - 1,
            r.y == self.y,
    {
        Vector2D::new(self.x - 1, self.y)
    }

    pub fn right(&self) -> (r: Self)
        requires
            self.x < i32::MAX,
        ensures
            r.x == self.x + 1,
            r.y == self.y,
    {
        Vector2D::new(self.x + 1, self.y)
    }

    pub fn up(&self) -> (r: Self)
        requires
            self.y > i32::MIN,
        ensures
            r.x == self.x,
            r.y == self.y - 1,
    {
        Vector2D::new(self.x, self.y - 1)
    }

    pub fn down(&self) -> (r: Self)
        requires
            self.y < i32::MAX,
        ensures
            r.x == self.x,
            r.y == self.y + 1,
    {
        Vector2D::new(self.x, self.y + 1)
    }

    /// The sum, coordinate by coordinate.
    pub fn add(self, other: Vector2D) -> (r: Vector2D)
        requires
            i32::MIN <= self.x + other.x <= i32::MAX,
            i32::MIN <= self.y + other.y <= i32::MAX,
        ensures
            r.x == self.x + other.x,
            r.y == self.y + other.y,
    {
        Vector2D { x: self.x + other.x, y: self.y + other.y }
    }

    /// The difference, coordinate by coordinate.
    pub fn sub(self, rhs: Vector2D) -> (r: Vector2D)
        requires
            i32::MIN <= self.x - rhs.x <= i32::MAX,
            i32::MIN <= self.y - rhs.y <= i32::MAX,
        ensures
            r.x == self.x - rhs.x,
            r.y == self.y - rhs.y,
    {
        Vector2D { x: self.x - rhs.x, y: self.y - rhs.y }
    }
}

} // verus!
