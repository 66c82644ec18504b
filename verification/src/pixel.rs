//! Rectangles and points on the integer grid, in the form that a graphics
//! library takes them.

use vstd::prelude::*;

verus! {

/// A rectangle on the integer grid: a signed origin and an unsigned extent.
#[derive(Clone, Copy, Debug, PartialEq, Eq, Structural)]
pub struct PixelRect {
    pub x: i32,
    pub y: i32,
    pub width: u32,
    pub height: u32,
}

/// A point on the integer grid.
#[derive(Clone, Copy, Debug, PartialEq, Eq, Structural)]
pub struct PixelPoint {
    pub x: i32,
    pub y: i32,
}

} // verus!
