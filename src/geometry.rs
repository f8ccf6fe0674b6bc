//! Points, segments, and which grid cells a segment covers.
use vstd::prelude::*;

verus! {

/// A point with integer coordinates.
#[derive(Clone, Copy, Debug, PartialEq, Eq, Structural)]
pub struct Point {
    pub x: i32,
    pub y: i32,
}

/// A segment between two endpoints, both included.
#[derive(Clone, Copy, Debug, PartialEq, Eq, Structural)]
pub struct Line {
    pub p1: Point,
    pub p2: Point,
}

pub open spec fn min_int(a: int, b: int) -> int {
    if a <= b { a } else { b }
}

pub open spec fn max_int(a: int, b: int) -> int {
    if a <= b { b } else { a }
}

impl Line {
    /// Both endpoints share their `y`: the segment lies in one row.
    pub open spec fn spec_is_horizontal(self) -> bool {
        self.p1.y == self.p2.y
    }

    /// Both endpoints share their `x` or their `y`: no diagonal.
    pub open spec fn spec_is_orthogonal(self) -> bool {
        self.p1.x == self.p2.x || self.p1.y == self.p2.y
    }

    /// The cell `(x, y)` lies on this axis-aligned segment, endpoints included.
    /// A horizontal segment covers its row between its two `x`; any other
    /// segment is taken as vertical and covers its column between its two `y`.
    pub open spec fn covers(self, x: int, y: int) -> bool {
        if self.spec_is_horizontal() {
            y == self.p1.y && min_int(self.p1.x as int, self.p2.x as int) <= x && x <= max_int(
                self.p1.x as int,
                self.p2.x as int,
            )
        } else {
            x == self.p1.x && min_int(self.p1.y as int, self.p2.y as int) <= y && y <= max_int(
                self.p1.y as int,
                self.p2.y as int,
            )
        }
    }

    /// Every coordinate of the segment lies in `[0, side)`.
    pub open spec fn fits(self, side: int) -> bool {
        0 <= self.p1.x < side && 0 <= self.p1.y < side && 0 <= self.p2.x < side && 0 <= self.p2.y
            < side
    }

    /// The largest of the four coordinates.
    pub open spec fn max_coordinate(self) -> int {
        max_int(
            max_int(self.p1.x as int, self.p1.y as int),
            max_int(self.p2.x as int, self.p2.y as int),
        )
    }

    /// Whether both endpoints share their `x` or their `y`.
    pub fn is_orthogonal(&self) -> (r: bool)
        ensures
            r == self.spec_is_orthogonal(),
    {
        self.p1.x == self.p2.x || self.p1.y == self.p2.y
    }

    /// Whether both endpoints share their `y`.
    pub fn is_horizontal(&self) -> (r: bool)
        ensures
            r == self.spec_is_horizontal(),
    {
        self.p1.y == self.p2.y
    }
}

} // verus!
