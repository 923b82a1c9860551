use vstd::prelude::*;

verus! {

/// A two-dimensional (row, column) coordinate in a signed space, so that a
/// jump projected from a cell near the grid's edge can land outside it and be
/// rejected by an explicit bounds check rather than by wrapping around.
#[derive(Clone, Copy, Debug, PartialEq, Eq, Hash, Structural)]
pub struct Position(pub isize, pub isize);

impl Position {
    /// Componentwise sum.
    pub fn add(self, rhs: Position) -> (r: Position)
        requires
            isize::MIN <= self.0 + rhs.0 <= isize::MAX,
            isize::MIN <= self.1 + rhs.1 <= isize::MAX,
        ensures
            r.0 == self.0 + rhs.0,
            r.1 == self.1 + rhs.1,
    {
        Position(self.0 + rhs.0, self.1 + rhs.1)
    }

    /// Componentwise difference.
    pub fn sub(self, rhs: Position) -> (r: Position)
        requires
            isize::MIN <= self.0 - rhs.0 <= isize::MAX,
            isize::MIN <= self.1 - rhs.1 <= isize::MAX,
        ensures
            r.0 == self.0 - rhs.0,
            r.1 == self.1 - rhs.1,
    {
        Position(self.0 - rhs.0, self.1 - rhs.1)
    }

    /// Scalar multiple, used to project a jump's landing cell two steps out.
    pub fn scale(self, k: isize) -> (r: Position)
        requires
            isize::MIN <= self.0 * k <= isize::MAX,
            isize::MIN <= self.1 * k <= isize::MAX,
        ensures
            r.0 == self.0 * k,
            r.1 == self.1 * k,
    {
        Position(self.0 * k, self.1 * k)
    }

    /// The single chokepoint that turns a possibly out-of-range coordinate
    /// into an in-range one: the position itself when both components lie in
    /// the half-open box `[min, max)`, and nothing otherwise.
    pub fn check_bounds(self, min: &Position, max: &Position) -> (r: Option<Position>)
        ensures
            r == (if min.0 <= self.0 && self.0 < max.0 && min.1 <= self.1 && self.1 < max.1 {
                Some(self)
            } else {
                None::<Position>
            }),
    {
        if min.0 <= self.0 && self.0 < max.0 && min.1 <= self.1 && self.1 < max.1 {
            Some(self)
        } else {
            None
        }
    }
}

} // verus!
