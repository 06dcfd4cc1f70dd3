//! Sizes and areas in pixels.

use vstd::prelude::*;

verus! {

/// A width and a height.
#[derive(Copy, Clone, Eq, PartialEq, Ord, PartialOrd, Hash, Debug)]
pub struct Size {
    pub width: u32,
    pub height: u32,
}

/// An area that is aligned with the axes.
#[derive(Copy, Clone, Eq, PartialEq, Ord, PartialOrd, Hash, Debug)]
pub struct Rectangle {
    /// The column of the top left corner.
    pub left: i32,
    /// The row of the top left corner.
    pub top: i32,
    pub size: Size,
}

/// Whether the rectangle of embedded-graphics with the given corner and size contains a point.
///
/// Calls `embedded_graphics::primitives::Rectangle::contains`. The contract claims that it answers
/// whether the point is neither left of nor above the corner and less than the size away from it.
/// The outside function adds the size to the corner, once the point is known not to be left of or
/// above the corner and the rectangle not to be empty; where that sum does not fit it panics.
#[verifier::external_body]
fn rectangle_contains(left: i32, top: i32, width: u32, height: u32, x: i32, y: i32) -> (res: bool)
    requires
        x >= left && y >= top && width > 0 && height > 0 ==> left + width <= i32::MAX && top
            + height <= i32::MAX && width <= i32::MAX && height <= i32::MAX,
    ensures
        res == (left <= x < left + width && top <= y < top + height),
{
    embedded_graphics::primitives::Rectangle::new(
        embedded_graphics::geometry::Point::new(left, top),
        embedded_graphics::geometry::Size::new(width, height),
    ).contains(embedded_graphics::geometry::Point::new(x, y))
}

impl Rectangle {
    /// The pixel in column `x` and row `y` lies in the area.
    pub open spec fn covers(&self, x: int, y: int) -> bool {
        &&& self.left <= x < self.left + self.size.width
        &&& self.top <= y < self.top + self.size.height
    }

    /// Whether the area covers a pixel can be told: the pixel is left of it or above it, or the
    /// area is empty, or its size and its bottom right corner can be written as numbers of 32
    /// bits.
    pub open spec fn decides(&self, x: int, y: int) -> bool {
        x >= self.left && y >= self.top && self.size.width > 0 && self.size.height > 0 ==> {
            &&& self.size.width <= i32::MAX
            &&& self.size.height <= i32::MAX
            &&& self.left + self.size.width <= i32::MAX
            &&& self.top + self.size.height <= i32::MAX
        }
    }

    /// Whether it can be told that the area covers the pixel.
    pub fn can_decide(&self, x: u16, y: u16) -> (res: bool)
        ensures
            res == self.decides(x as int, y as int),
    {
        if (x as i32) < self.left || (y as i32) < self.top || self.size.width == 0
            || self.size.height == 0 {
            return true;
        }
        self.size.width <= i32::MAX as u32 && self.size.height <= i32::MAX as u32
            && self.left as i64 + self.size.width as i64 <= i32::MAX as i64 && self.top as i64
            + self.size.height as i64 <= i32::MAX as i64
    }

    /// Whether the area covers the pixel.
    pub fn contains(&self, x: u16, y: u16) -> (res: bool)
        requires
            self.decides(x as int, y as int),
        ensures
            res == self.covers(x as int, y as int),
    {
        rectangle_contains(
            self.left,
            self.top,
            self.size.width,
            self.size.height,
            x as i32,
            y as i32,
        )
    }
}

} // verus!
