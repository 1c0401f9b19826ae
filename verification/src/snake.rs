//! Snake: the board, the snake, the food, and the rules.

use vstd::prelude::*;

verus! {

/// A cell on the board, `(0, 0)` at the top-left.
#[derive(Clone, Copy, Debug, PartialEq, Eq, Hash, Structural)]
pub struct Coord {
    /// Column, increasing rightwards.
    pub x: i32,
    /// Row, increasing downwards.
    pub y: i32,
}

impl Coord {
    /// Creates a coordinate.
    pub fn new(x: i32, y: i32) -> (c: Coord)
        ensures
            c.x == x,
            c.y == y,
    {
        Coord { x, y }
    }
}

/// One of the four directions the snake can travel.
#[derive(Clone, Copy, Debug, PartialEq, Eq, Structural)]
pub enum Direction {
    /// Decreasing `y`.
    Up,
    /// Increasing `y`.
    Down,
    /// Decreasing `x`.
    Left,
    /// Increasing `x`.
    Right,
}

/// The unit step a direction moves the head by.
pub open spec fn spec_delta(d: Direction) -> Coord {
    match d {
        Direction::Up => Coord { x: 0, y: -1i32 },
        Direction::Down => Coord { x: 0, y: 1 },
        Direction::Left => Coord { x: -1i32, y: 0 },
        Direction::Right => Coord { x: 1, y: 0 },
    }
}

/// The direction facing the other way.
pub open spec fn spec_opposite(d: Direction) -> Direction {
    match d {
        Direction::Up => Direction::Down,
        Direction::Down => Direction::Up,
        Direction::Left => Direction::Right,
        Direction::Right => Direction::Left,
    }
}

impl Direction {
    /// The unit step this direction moves the head by.
    pub fn delta(self) -> (c: Coord)
        ensures
            c == spec_delta(self),
    {
        match self {
            Direction::Up => Coord::new(0, -1),
            Direction::Down => Coord::new(0, 1),
            Direction::Left => Coord::new(-1, 0),
            Direction::Right => Coord::new(1, 0),
        }
    }

    /// The direction facing the other way.
    pub fn opposite(self) -> (d: Direction)
        ensures
            d == spec_opposite(self),
    {
        match self {
            Direction::Up => Direction::Down,
            Direction::Down => Direction::Up,
            Direction::Left => Direction::Right,
            Direction::Right => Direction::Left,
        }
    }
}

/// Why a game ended.
#[derive(Clone, Copy, Debug, PartialEq, Eq, Structural)]
pub enum DeathCause {
    /// The head left the board.
    HitWall,
    /// The head entered a cell the body occupies.
    HitSelf,
}

/// Where a game stands.
#[derive(Clone, Copy, Debug, PartialEq, Eq, Structural)]
pub enum GameStatus {
    /// The snake is still moving.
    Running,
    /// The snake died.
    Dead(DeathCause),
    /// The snake fills the board; there is nowhere left to grow.
    Won,
}

/// What a single step did.
#[derive(Clone, Copy, Debug, PartialEq, Eq, Structural)]
pub enum StepOutcome {
    /// The snake advanced one cell.
    Moved,
    /// The snake ate, grew, and new food was placed.
    Ate {
        /// Where the eaten food had been.
        at: Coord,
        /// Score after eating.
        score: u32,
    },
    /// The snake died this step.
    Died(DeathCause),
    /// The board is full; the game is won.
    Won,
    /// The game had already ended, so nothing happened.
    Ended,
}

/// Reversing a direction twice gives it back, and never gives the same direction.
pub proof fn lemma_opposite_involution(d: Direction)
    ensures
        spec_opposite(spec_opposite(d)) == d,
        spec_opposite(d) != d,
{
}

} // verus!
