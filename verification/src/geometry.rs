//! Integer screen-space points and sizes.

use vstd::prelude::*;

verus! {

/// A pixel position: `x` grows to the right, `y` grows downwards.
#[derive(Clone, Copy, Debug, PartialEq, Eq, Structural)]
pub struct Point {
    pub x: i32,
    pub y: i32,
}

/// The extent of a screen or buffer in pixels.
#[derive(Clone, Copy, Debug, PartialEq, Eq, Structural)]
pub struct Size {
    pub width: i32,
    pub height: i32,
}

impl Point {
    /// The position as a pair of mathematical integers.
    pub open spec fn pos(self) -> (int, int) {
        (self.x as int, self.y as int)
    }

    pub fn new(x: i32, y: i32) -> (p: Point)
        ensures
            p == (Point { x, y }),
    {
        Point { x, y }
    }
}

impl Size {
    pub fn new(width: i32, height: i32) -> (s: Size)
        ensures
            s == (Size { width, height }),
    {
        Size { width, height }
    }
}

} // verus!
