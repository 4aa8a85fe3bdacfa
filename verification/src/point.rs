//! Grid cell coordinates.

use vstd::prelude::*;
use crate::direction::Direction;

verus! {

/// A cell coordinate on the occupancy grid.  Identity, equality and hash
/// are by value; a point is immutable once created.
#[derive(Clone, Copy, Debug, PartialEq, Eq, Hash, Structural)]
pub struct Point2d {
    pub x: usize,
    pub y: usize,
}

/// The absolute difference of two machine integers.
pub fn absdiff(x: usize, y: usize) -> (r: usize)
    ensures
        r == if x >= y { x - y } else { y - x },
{
    if x < y {
        y - x
    } else {
        x - y
    }
}

/// The absolute difference of two coordinates, in spec arithmetic.
pub open spec fn abs_diff(a: int, b: int) -> int {
    if a >= b {
        a - b
    } else {
        b - a
    }
}

/// The sign of `b - a`, as one component of a unit direction.
pub open spec fn axis_sign(a: int, b: int) -> int {
    if a < b {
        1
    } else if a > b {
        -1
    } else {
        0
    }
}

impl Point2d {
    /// The neighboring point one step away in `dir`.
    pub fn add_direction(self, dir: Direction) -> (r: Point2d)
        requires
            dir.is_unit(),
            0 <= self.x + dir.x <= usize::MAX,
            0 <= self.y + dir.y <= usize::MAX,
        ensures
            r.x == self.x + dir.x,
            r.y == self.y + dir.y,
    {
        let x = if dir.x == 1 {
            self.x + 1
        } else if dir.x == -1 {
            self.x - 1
        } else {
            self.x
        };
        let y = if dir.y == 1 {
            self.y + 1
        } else if dir.y == -1 {
            self.y - 1
        } else {
            self.y
        };
        Point2d { x, y }
    }

    /// The unit direction that leads from `self` toward `target`, one axis
    /// sign at a time.  For equal points this is the zero vector, which is
    /// not a unit direction.
    pub fn get_direction(self, target: &Point2d) -> (r: Direction)
        ensures
            r.x == axis_sign(self.x as int, target.x as int),
            r.y == axis_sign(self.y as int, target.y as int),
            self != *target ==> r.is_unit(),
    {
        let x: i32 = if self.x < target.x {
            1
        } else if self.x > target.x {
            -1
        } else {
            0
        };
        let y: i32 = if self.y < target.y {
            1
        } else if self.y > target.y {
            -1
        } else {
            0
        };
        Direction { x, y }
    }
}

} // verus!
