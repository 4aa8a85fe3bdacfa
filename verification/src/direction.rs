//! The eight unit movement directions and their constant-time turn tables.

use vstd::prelude::*;

verus! {

/// One of the 8 unit vectors `{N, S, E, W, NE, NW, SE, SW}`, stored as a
/// pair of components in `{-1, 0, 1}`.  The turn operations below are
/// constant-time lookups; no runtime trigonometry is used anywhere.
#[derive(Clone, Copy, Debug, PartialEq, Eq, Structural)]
pub struct Direction {
    pub x: i32,
    pub y: i32,
}

impl Direction {
    /// A well-formed direction: both components in `{-1, 0, 1}`, not the
    /// zero vector.
    pub open spec fn is_unit(self) -> bool {
        (self.x == -1 || self.x == 0 || self.x == 1)
            && (self.y == -1 || self.y == 0 || self.y == 1)
            && !(self.x == 0 && self.y == 0)
    }

    /// A diagonal direction moves on both axes at once.
    pub open spec fn is_diagonal_spec(self) -> bool {
        self.x != 0 && self.y != 0
    }

    pub open spec fn to_value_spec(self) -> u8 {
        if self.x == 1 && self.y == 0 {
            2
        } else if self.x == 0 && self.y == 1 {
            4
        } else if self.x == -1 && self.y == 0 {
            6
        } else if self.x == 0 && self.y == -1 {
            8
        } else if self.x == 1 && self.y == 1 {
            3
        } else if self.x == -1 && self.y == 1 {
            5
        } else if self.x == -1 && self.y == -1 {
            7
        } else {
            9
        }
    }

    /// The direction codes accepted by `from_value` and
    /// `from_value_reverse`.
    pub open spec fn value_ok(value: u8) -> bool {
        2 <= value <= 9
    }

    pub open spec fn from_value_spec(value: u8) -> Direction {
        if value == 2 {
            Direction { x: 1i32, y: 0i32 }
        } else if value == 4 {
            Direction { x: 0i32, y: 1i32 }
        } else if value == 6 {
            Direction { x: -1i32, y: 0i32 }
        } else if value == 8 {
            Direction { x: 0i32, y: -1i32 }
        } else if value == 3 {
            Direction { x: 1i32, y: 1i32 }
        } else if value == 5 {
            Direction { x: -1i32, y: 1i32 }
        } else if value == 7 {
            Direction { x: -1i32, y: -1i32 }
        } else {
            Direction { x: 1i32, y: -1i32 }
        }
    }

    /// The opposite direction.
    pub open spec fn opposite_spec(self) -> Direction {
        Direction { x: (0 - self.x) as i32, y: (0 - self.y) as i32 }
    }

    /// 90 degree left turn: `(x, y)` maps to `(-y, x)`.
    pub open spec fn left_spec(self) -> Direction {
        Direction { x: (0 - self.y) as i32, y: self.x }
    }

    /// 90 degree right turn: `(x, y)` maps to `(y, -x)`.
    pub open spec fn right_spec(self) -> Direction {
        Direction { x: self.y, y: (0 - self.x) as i32 }
    }

    /// 45 degree left turn (for a straight direction this is the diagonal
    /// between `self` and `self.left()`).
    pub open spec fn half_left_spec(self) -> Direction {
        if self.is_diagonal_spec() {
            if self.x == self.y {
                Direction { x: 0, y: self.y }
            } else {
                Direction { x: self.x, y: 0 }
            }
        } else {
            Direction {
                x: (self.x - self.y) as i32,
                y: (self.x + self.y) as i32,
            }
        }
    }

    /// 45 degree right turn.
    pub open spec fn half_right_spec(self) -> Direction {
        if self.is_diagonal_spec() {
            if self.x == self.y {
                Direction { x: self.x, y: 0 }
            } else {
                Direction { x: 0, y: self.y }
            }
        } else {
            Direction {
                x: (self.x + self.y) as i32,
                y: (self.y - self.x) as i32,
            }
        }
    }

    /// 135 degree left turn, defined for diagonal directions.
    pub open spec fn left135_spec(self) -> Direction {
        if self.x == self.y {
            Direction { x: (0 - self.x) as i32, y: 0 }
        } else {
            Direction { x: 0, y: (0 - self.y) as i32 }
        }
    }

    /// 135 degree right turn, defined for diagonal directions.
    pub open spec fn right135_spec(self) -> Direction {
        if self.x == self.y {
            Direction { x: 0, y: (0 - self.y) as i32 }
        } else {
            Direction { x: (0 - self.x) as i32, y: 0 }
        }
    }

    /// Numeric encoding of a direction (numpad layout).
    pub fn to_value(self) -> (r: u8)
        requires
            self.is_unit(),
        ensures
            r == self.to_value_spec(),
    {
        match (self.x, self.y) {
            (1, 0) => 2,
            (0, 1) => 4,
            (-1, 0) => 6,
            (0, -1) => 8,
            (1, 1) => 3,
            (-1, 1) => 5,
            (-1, -1) => 7,
            _ => 9,
        }
    }

    /// Decode a direction from its numeric encoding.
    pub fn from_value(value: u8) -> (r: Direction)
        requires
            Direction::value_ok(value),
        ensures
            r == Direction::from_value_spec(value),
            r.is_unit(),
    {
        match value {
            2 => Direction { x: 1, y: 0 },
            4 => Direction { x: 0, y: 1 },
            6 => Direction { x: -1, y: 0 },
            8 => Direction { x: 0, y: -1 },
            3 => Direction { x: 1, y: 1 },
            5 => Direction { x: -1, y: 1 },
            7 => Direction { x: -1, y: -1 },
            _ => Direction { x: 1, y: -1 },
        }
    }

    /// Decode a direction code and flip it, yielding the opposite of
    /// `from_value(value)`.
    pub fn from_value_reverse(value: u8) -> (r: Direction)
        requires
            Direction::value_ok(value),
        ensures
            r == Direction::from_value_spec(value).opposite_spec(),
            r.is_unit(),
    {
        match value {
            6 => Direction { x: 1, y: 0 },
            8 => Direction { x: 0, y: 1 },
            2 => Direction { x: -1, y: 0 },
            4 => Direction { x: 0, y: -1 },
            7 => Direction { x: 1, y: 1 },
            9 => Direction { x: -1, y: 1 },
            3 => Direction { x: -1, y: -1 },
            _ => Direction { x: 1, y: -1 },
        }
    }

    pub fn is_diagonal(self) -> (r: bool)
        requires
            self.is_unit(),
        ensures
            r == self.is_diagonal_spec(),
    {
        match self {
            Direction { x: 0, y: 1 }
            | Direction { x: 1, y: 0 }
            | Direction { x: -1, y: 0 }
            | Direction { x: 0, y: -1 } => false,
            _ => true,
        }
    }

    /// 90 degree left turn.
    pub fn left(self) -> (r: Direction)
        requires
            self.is_unit(),
        ensures
            r == self.left_spec(),
            r.is_unit(),
            r.is_diagonal_spec() == self.is_diagonal_spec(),
    {
        match (self.x, self.y) {
            (1, 0) => Direction { x: 0, y: 1 },
            (0, 1) => Direction { x: -1, y: 0 },
            (-1, 0) => Direction { x: 0, y: -1 },
            (0, -1) => Direction { x: 1, y: 0 },
            (1, 1) => Direction { x: -1, y: 1 },
            (-1, 1) => Direction { x: -1, y: -1 },
            (-1, -1) => Direction { x: 1, y: -1 },
            _ => Direction { x: 1, y: 1 },
        }
    }

    /// 90 degree right turn.
    pub fn right(self) -> (r: Direction)
        requires
            self.is_unit(),
        ensures
            r == self.right_spec(),
            r.is_unit(),
            r.is_diagonal_spec() == self.is_diagonal_spec(),
    {
        match (self.x, self.y) {
            (1, 0) => Direction { x: 0, y: -1 },
            (0, 1) => Direction { x: 1, y: 0 },
            (-1, 0) => Direction { x: 0, y: 1 },
            (0, -1) => Direction { x: -1, y: 0 },
            (1, 1) => Direction { x: 1, y: -1 },
            (-1, 1) => Direction { x: 1, y: 1 },
            (-1, -1) => Direction { x: -1, y: 1 },
            _ => Direction { x: -1, y: -1 },
        }
    }

    /// 45 degree left turn.
    pub fn half_left(self) -> (r: Direction)
        requires
            self.is_unit(),
        ensures
            r == self.half_left_spec(),
            r.is_unit(),
            r.is_diagonal_spec() == !self.is_diagonal_spec(),
    {
        match (self.x, self.y) {
            (1, 0) => Direction { x: 1, y: 1 },
            (0, 1) => Direction { x: -1, y: 1 },
            (-1, 0) => Direction { x: -1, y: -1 },
            (0, -1) => Direction { x: 1, y: -1 },
            (1, 1) => Direction { x: 0, y: 1 },
            (-1, 1) => Direction { x: -1, y: 0 },
            (-1, -1) => Direction { x: 0, y: -1 },
            _ => Direction { x: 1, y: 0 },
        }
    }

    /// 45 degree right turn.
    pub fn half_right(self) -> (r: Direction)
        requires
            self.is_unit(),
        ensures
            r == self.half_right_spec(),
            r.is_unit(),
            r.is_diagonal_spec() == !self.is_diagonal_spec(),
    {
        match (self.x, self.y) {
            (1, 0) => Direction { x: 1, y: -1 },
            (0, 1) => Direction { x: 1, y: 1 },
            (-1, 0) => Direction { x: -1, y: 1 },
            (0, -1) => Direction { x: -1, y: -1 },
            (1, 1) => Direction { x: 1, y: 0 },
            (-1, 1) => Direction { x: 0, y: 1 },
            (-1, -1) => Direction { x: -1, y: 0 },
            _ => Direction { x: 0, y: -1 },
        }
    }

    /// 135 degree left turn (only meaningful from a diagonal direction).
    pub fn left135(self) -> (r: Direction)
        requires
            self.is_unit(),
            self.is_diagonal_spec(),
        ensures
            r == self.left135_spec(),
            r.is_unit(),
            !r.is_diagonal_spec(),
    {
        match (self.x, self.y) {
            (1, 1) => Direction { x: -1, y: 0 },
            (-1, 1) => Direction { x: 0, y: -1 },
            (-1, -1) => Direction { x: 1, y: 0 },
            _ => Direction { x: 0, y: 1 },
        }
    }

    /// 135 degree right turn (only meaningful from a diagonal direction).
    pub fn right135(self) -> (r: Direction)
        requires
            self.is_unit(),
            self.is_diagonal_spec(),
        ensures
            r == self.right135_spec(),
            r.is_unit(),
            !r.is_diagonal_spec(),
    {
        match (self.x, self.y) {
            (1, 1) => Direction { x: 0, y: -1 },
            (-1, 1) => Direction { x: 1, y: 0 },
            (-1, -1) => Direction { x: 0, y: 1 },
            _ => Direction { x: -1, y: 0 },
        }
    }
}

} // verus!
