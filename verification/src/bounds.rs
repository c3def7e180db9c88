//! A rectangle in pixel space.

use vstd::prelude::*;

verus! {

/// A pixel rectangle by its four edges. Pixel `y` grows downwards, so a
/// rectangle with room in it has `left < right` and `top < bottom`.
#[derive(Clone, Copy, Debug, PartialEq, Eq)]
pub struct Bounds {
    pub left: i32,
    pub top: i32,
    pub right: i32,
    pub bottom: i32,
}

impl Bounds {
    /// Whether the rectangle has room in it along both axes.
    pub open spec fn wf(&self) -> bool {
        self.left < self.right && self.top < self.bottom
    }

    /// The rectangle with the given edges.
    pub fn new(left: i32, top: i32, right: i32, bottom: i32) -> (b: Bounds)
        ensures
            b == (Bounds { left, top, right, bottom }),
    {
        Bounds { left, top, right, bottom }
    }

    /// Whether the rectangle has room in it along both axes.
    pub fn is_valid(&self) -> (b: bool)
        ensures
            b == self.wf(),
    {
        self.left < self.right && self.top < self.bottom
    }

    /// The horizontal extent, `right - left`; negative when the edges are swapped.
    pub fn width(&self) -> (w: i64)
        ensures
            w == self.right - self.left,
    {
        self.right as i64 - self.left as i64
    }

    /// The vertical extent, `bottom - top`; negative when the edges are swapped.
    pub fn height(&self) -> (h: i64)
        ensures
            h == self.bottom - self.top,
    {
        self.bottom as i64 - self.top as i64
    }

    /// The left edge.
    pub fn left_x(&self) -> (x: i32)
        ensures
            x == self.left,
    {
        self.left
    }

    /// The right edge.
    pub fn right_x(&self) -> (x: i32)
        ensures
            x == self.right,
    {
        self.right
    }

    /// The top edge.
    pub fn top_y(&self) -> (y: i32)
        ensures
            y == self.top,
    {
        self.top
    }

    /// The bottom edge.
    pub fn bottom_y(&self) -> (y: i32)
        ensures
            y == self.bottom,
    {
        self.bottom
    }
}

} // verus!
