use vstd::prelude::*;

use crate::geometry::{Offset, Point, Rect};

verus! {

/// Display width in pixels.
pub const WIDTH: i32 = 240;

/// Display height in pixels.
pub const HEIGHT: i32 = 240;

/// Vertical gap between consecutive text lines, in pixels.
pub const LINE_SPACE: i32 = 4;

/// Bits per pixel of the font bitmaps.
pub const FONT_BPP: i32 = 4;

/// Largest loader icon edge, in pixels.
pub const LOADER_ICON_MAX_SIZE: i32 = 64;

/// The full display size.
pub fn size() -> (r: Offset)
    ensures
        r.x == WIDTH,
        r.y == HEIGHT,
{
    Offset::new(WIDTH, HEIGHT)
}

/// The rectangle covering the whole display.
pub fn screen() -> (r: Rect)
    ensures
        r.x0 == 0,
        r.y0 == 0,
        r.x1 == WIDTH,
        r.y1 == HEIGHT,
{
    Rect::from_top_left_and_size(Point::zero(), size())
}

} // verus!
