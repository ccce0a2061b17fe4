use vstd::prelude::*;

verus! {

/// A grid position or offset, addressed as `(x, y)`.
#[derive(Clone, Copy, PartialEq, Eq, Structural, Debug, Hash)]
pub struct Point {
    pub x: i32,
    pub y: i32,
}

impl Point {
    pub fn new(x: i32, y: i32) -> (r: Point)
        ensures
            r.x == x,
            r.y == y,
    {
        Point { x, y }
    }

    pub fn zero() -> (r: Point)
        ensures
            r.x == 0,
            r.y == 0,
    {
        Point { x: 0, y: 0 }
    }

    /// Squared Euclidean distance to `other`.
    pub open spec fn dist2(self, other: Point) -> int {
        (self.x - other.x) * (self.x - other.x) + (self.y - other.y) * (self.y - other.y)
    }

    /// Whether `other` is one cardinal step away from `self`.
    pub open spec fn is_cardinal_neighbor(self, other: Point) -> bool {
        ||| (other.x == self.x + 1 && other.y == self.y)
        ||| (other.x == self.x - 1 && other.y == self.y)
        ||| (other.x == self.x && other.y == self.y + 1)
        ||| (other.x == self.x && other.y == self.y - 1)
    }
}

} // verus!
