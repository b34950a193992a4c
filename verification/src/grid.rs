//! A position on the rotation-puzzle grid.

use vstd::prelude::*;

verus! {

/// A grid position, addressed by column `x` and row `y`.
#[derive(Clone, Copy, PartialEq, Eq, Structural)]
pub struct GridPos {
    pub x: usize,
    pub y: usize,
}

impl GridPos {
    /// A position from its two coordinates.
    pub fn new(x: usize, y: usize) -> (r: GridPos)
        ensures
            r.x == x,
            r.y == y,
    {
        GridPos { x, y }
    }

    /// The position as a coordinate pair.
    pub fn to_pair(&self) -> (r: (usize, usize))
        ensures
            r == (self.x, self.y),
    {
        (self.x, self.y)
    }
}

} // verus!
