use vstd::prelude::*;

verus! {

/// A two-dimensional pixel displacement.
#[derive(Copy, Clone, PartialEq, Eq, Structural)]
pub struct Offset {
    pub x: i32,
    pub y: i32,
}

impl Offset {
    pub fn new(x: i32, y: i32) -> (r: Offset)
        ensures
            r.x == x,
            r.y == y,
    {
        Offset { x, y }
    }
}

/// A pixel position on the display.
#[derive(Copy, Clone, PartialEq, Eq, Structural)]
pub struct Point {
    pub x: i32,
    pub y: i32,
}

impl Point {
    pub fn new(x: i32, y: i32) -> (r: Point)
        ensures
            r.x == x,
            r.y == y,
    {
        Point { x, y }
    }

    pub fn zero() -> (r: Point)
        ensures
            r.x == 0,
            r.y == 0,
    {
        Point { x: 0, y: 0 }
    }
}

/// An axis-aligned pixel rectangle, described by its top-left corner
/// `(x0, y0)` and its bottom-right corner `(x1, y1)`.
#[derive(Copy, Clone, PartialEq, Eq, Structural)]
pub struct Rect {
    pub x0: i32,
    pub y0: i32,
    pub x1: i32,
    pub y1: i32,
}

impl Rect {
    pub fn from_top_left_and_size(p0: Point, size: Offset) -> (r: Rect)
        requires
            p0.x + size.x <= i32::MAX,
            p0.y + size.y <= i32::MAX,
            i32::MIN <= p0.x + size.x,
            i32::MIN <= p0.y + size.y,
        ensures
            r.x0 == p0.x,
            r.y0 == p0.y,
            r.x1 == p0.x + size.x,
            r.y1 == p0.y + size.y,
    {
        Rect { x0: p0.x, y0: p0.y, x1: p0.x + size.x, y1: p0.y + size.y }
    }
}

} // verus!
