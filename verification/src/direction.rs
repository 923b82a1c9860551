use vstd::prelude::*;

use crate::position::Position;

verus! {

/// The six jump directions: the four axis-aligned ones plus the two
/// directions along one diagonal axis, for the triangular board variants.
#[derive(Clone, Copy, Debug, PartialEq, Eq, Structural)]
pub enum Direction {
    Up,
    Down,
    Left,
    Right,
    To,
    Fro,
}

/// Row component of a direction's unit delta.
pub open spec fn delta_row(d: Direction) -> int {
    match d {
        Direction::Up => -1,
        Direction::Down => 1,
        Direction::Left => 0,
        Direction::Right => 0,
        Direction::To => -1,
        Direction::Fro => 1,
    }
}

/// Column component of a direction's unit delta.
pub open spec fn delta_col(d: Direction) -> int {
    match d {
        Direction::Up => 0,
        Direction::Down => 0,
        Direction::Left => -1,
        Direction::Right => 1,
        Direction::To => 1,
        Direction::Fro => -1,
    }
}

/// The direction whose delta undoes this one's.
pub open spec fn opposite(d: Direction) -> Direction {
    match d {
        Direction::Up => Direction::Down,
        Direction::Down => Direction::Up,
        Direction::Left => Direction::Right,
        Direction::Right => Direction::Left,
        Direction::To => Direction::Fro,
        Direction::Fro => Direction::To,
    }
}

/// The fixed order in which the solver tries directions.
pub open spec fn direction_at(i: int) -> Direction {
    if i == 0 {
        Direction::Up
    } else if i == 1 {
        Direction::Down
    } else if i == 2 {
        Direction::Left
    } else if i == 3 {
        Direction::Right
    } else if i == 4 {
        Direction::To
    } else {
        Direction::Fro
    }
}

/// Index of a direction in the fixed scan order.
pub open spec fn direction_index(d: Direction) -> int {
    match d {
        Direction::Up => 0,
        Direction::Down => 1,
        Direction::Left => 2,
        Direction::Right => 3,
        Direction::To => 4,
        Direction::Fro => 5,
    }
}

/// Every direction sits at its own index in the scan order.
pub proof fn lemma_direction_index(d: Direction)
    ensures
        0 <= direction_index(d) < 6,
        direction_at(direction_index(d)) == d,
{
}

/// Law: following a direction's delta and then its opposite's delta returns
/// any position to where it started, for each of the three opposite pairs.
pub proof fn lemma_opposite_cancels(row: int, col: int, d: Direction)
    ensures
        row + delta_row(d) + delta_row(opposite(d)) == row,
        col + delta_col(d) + delta_col(opposite(d)) == col,
{
}

impl Direction {
    /// The unit delta of this direction.
    pub fn to_delta(self) -> (r: Position)
        ensures
            r.0 == delta_row(self),
            r.1 == delta_col(self),
    {
        match self {
            Direction::Up => Position(-1, 0),
            Direction::Down => Position(1, 0),
            Direction::Left => Position(0, -1),
            Direction::Right => Position(0, 1),
            Direction::To => Position(-1, 1),
            Direction::Fro => Position(1, -1),
        }
    }
}

/// The direction at a given index of the fixed scan order.
pub fn direction_from_index(i: usize) -> (d: Direction)
    requires
        i < 6,
    ensures
        d == direction_at(i as int),
{
    if i == 0 {
        Direction::Up
    } else if i == 1 {
        Direction::Down
    } else if i == 2 {
        Direction::Left
    } else if i == 3 {
        Direction::Right
    } else if i == 4 {
        Direction::To
    } else {
        Direction::Fro
    }
}

} // verus!
