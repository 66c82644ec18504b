//! Points, sizes, vectors and axis-aligned rectangles over doubles.

use vstd::prelude::*;
use crate::pixel::{PixelPoint, PixelRect};
use crate::scalar::Scalar;

verus! {

/// A coordinate point with x and y values.
#[derive(Clone, Copy, Debug, PartialEq)]
pub struct Point {
    pub x: Scalar,
    pub y: Scalar,
}

/// A size with a width and a height.
#[derive(Clone, Copy, Debug, PartialEq)]
pub struct Size {
    pub width: Scalar,
    pub height: Scalar,
}

/// A displacement with delta x and delta y values.
#[derive(Clone, Copy, Debug, PartialEq)]
pub struct Vector {
    pub dx: Scalar,
    pub dy: Scalar,
}

/// An axis-aligned rectangle: an origin and an extent. Nothing is asked of the
/// extent until the rectangle is handed to the integer grid.
#[derive(Clone, Copy, Debug, PartialEq)]
pub struct Rectangle {
    pub x: Scalar,
    pub y: Scalar,
    pub width: Scalar,
    pub height: Scalar,
}

/// The origin, on one axis, of a span of `extent` that starts at `origin`,
/// after it was moved into the parent's span: to the parent's start where it
/// starts before it, else to where it ends with the parent where it reaches
/// the parent's end, else where it was.
pub open spec fn settled(
    origin: Scalar,
    extent: Scalar,
    parent_origin: Scalar,
    parent_extent: Scalar,
) -> Scalar {
    if origin.below(parent_origin) {
        parent_origin
    } else if parent_origin.sum(parent_extent).at_most(origin.sum(extent)) {
        parent_origin.sum(parent_extent).difference(extent)
    } else {
        origin
    }
}

/// Moves a span into the parent's span, on one axis.
fn settle(origin: Scalar, extent: Scalar, parent_origin: Scalar, parent_extent: Scalar) -> (r:
    Scalar)
    ensures
        r == settled(origin, extent, parent_origin, parent_extent),
{
    if origin.lt(parent_origin) {
        parent_origin
    } else if origin.plus(extent).ge(parent_origin.plus(parent_extent)) {
        parent_origin.plus(parent_extent).minus(extent)
    } else {
        origin
    }
}

impl Point {
    /// Equal as `==` on points has it: coordinate by coordinate, as doubles.
    pub open spec fn same(self, other: Point) -> bool {
        self.x.same(other.x) && self.y.same(other.y)
    }

    /// The point on the integer grid: each coordinate narrowed toward zero.
    pub open spec fn to_sdl_spec(self) -> Option<PixelPoint> {
        Some(PixelPoint { x: self.x.truncated_i32(), y: self.y.truncated_i32() })
    }

    /// The point on the integer grid: each coordinate narrowed toward zero.
    pub fn to_sdl(self) -> (r: Option<PixelPoint>)
        ensures
            r == self.to_sdl_spec(),
    {
        Some(PixelPoint { x: self.x.to_i32(), y: self.y.to_i32() })
    }
}

impl Rectangle {
    /// Whether neither extent is negative, nor not a number.
    pub open spec fn has_extent(self) -> bool {
        Scalar::zero().at_most(self.width) && Scalar::zero().at_most(self.height)
    }

    /// The rectangle on the integer grid: each field narrowed toward zero.
    pub open spec fn to_sdl_spec(self) -> Option<PixelRect> {
        Some(
            PixelRect {
                x: self.x.truncated_i32(),
                y: self.y.truncated_i32(),
                width: self.width.truncated_u32(),
                height: self.height.truncated_u32(),
            },
        )
    }

    /// The rectangle of the given extent whose origin is (0, 0).
    pub open spec fn with_size_spec(size: Size) -> Rectangle {
        Rectangle { x: Scalar::zero(), y: Scalar::zero(), width: size.width, height: size.height }
    }

    /// The extent of the rectangle.
    pub open spec fn size_spec(self) -> Size {
        Size { width: self.width, height: self.height }
    }

    /// The middle of the rectangle: the origin plus half the extent.
    pub open spec fn center_spec(self) -> Point {
        Point { x: self.x.sum(self.width.half()), y: self.y.sum(self.height.half()) }
    }

    /// The rectangle of the same extent whose origin is `center` minus half
    /// the extent.
    pub open spec fn centered_at_spec(self, center: Point) -> Rectangle {
        Rectangle {
            x: center.x.difference(self.width.half()),
            y: center.y.difference(self.height.half()),
            width: self.width,
            height: self.height,
        }
    }

    /// Whether `rect` lies within the closed bounds of `self`: its two edges
    /// on either axis are at or after the start of `self`, and at or before
    /// its end.
    pub open spec fn contains_spec(self, rect: Rectangle) -> bool {
        let right: Scalar = self.x.sum(self.width);
        let bottom: Scalar = self.y.sum(self.height);
        let xmax: Scalar = rect.x.sum(rect.width);
        let ymax: Scalar = rect.y.sum(rect.height);
        &&& self.x.at_most(rect.x) && rect.x.at_most(right)
        &&& self.x.at_most(xmax) && xmax.at_most(right)
        &&& self.y.at_most(rect.y) && rect.y.at_most(bottom)
        &&& self.y.at_most(ymax) && ymax.at_most(bottom)
    }

    /// Whether the two rectangles share more than an edge: on either axis
    /// each starts strictly before the other ends.
    pub open spec fn overlaps_spec(self, other: Rectangle) -> bool {
        &&& self.x.below(other.x.sum(other.width))
        &&& other.x.below(self.x.sum(self.width))
        &&& self.y.below(other.y.sum(other.height))
        &&& other.y.below(self.y.sum(self.height))
    }

    /// The rectangle moved into `parent`, axis by axis, unless it is wider
    /// or higher than `parent`.
    pub open spec fn moved_inside_spec(self, parent: Rectangle) -> Option<Rectangle> {
        if parent.width.below(self.width) || parent.height.below(self.height) {
            None
        } else {
            Some(
                Rectangle {
                    x: settled(self.x, self.width, parent.x, parent.width),
                    y: settled(self.y, self.height, parent.y, parent.height),
                    width: self.width,
                    height: self.height,
                },
            )
        }
    }

    /// Whether neither extent is negative, nor not a number.
    pub fn is_valid(self) -> (r: bool)
        ensures
            r == self.has_extent(),
    {
        let zero = Scalar::from_bits(0);
        zero.le(self.width) && zero.le(self.height)
    }

    /// The rectangle on the integer grid: each field narrowed toward zero. A
    /// rectangle with a negative extent has no place there.
    pub fn to_sdl(self) -> (r: Option<PixelRect>)
        requires
            self.has_extent(),
        ensures
            r == self.to_sdl_spec(),
    {
        Some(
            PixelRect {
                x: self.x.to_i32(),
                y: self.y.to_i32(),
                width: self.width.to_u32(),
                height: self.height.to_u32(),
            },
        )
    }

    /// The rectangle that starts at `origin` and has the extent `size`.
    pub fn new(origin: Point, size: Size) -> (r: Rectangle)
        ensures
            r == (Rectangle { x: origin.x, y: origin.y, width: size.width, height: size.height }),
    {
        Rectangle { x: origin.x, y: origin.y, width: size.width, height: size.height }
    }

    /// The rectangle of the given extent whose origin is (0, 0).
    pub fn with_size(size: Size) -> (r: Rectangle)
        ensures
            r == Rectangle::with_size_spec(size),
    {
        Rectangle {
            x: Scalar::from_bits(0),
            y: Scalar::from_bits(0),
            width: size.width,
            height: size.height,
        }
    }

    /// The rectangle of the same extent that has its middle at `center`.
    pub fn centered_at(self, center: Point) -> (r: Rectangle)
        ensures
            r == self.centered_at_spec(center),
    {
        Rectangle {
            x: center.x.minus(self.width.halve()),
            y: center.y.minus(self.height.halve()),
            width: self.width,
            height: self.height,
        }
    }

    /// The middle of the rectangle.
    pub fn center(self) -> (r: Point)
        ensures
            r == self.center_spec(),
    {
        Point { x: self.x.plus(self.width.halve()), y: self.y.plus(self.height.halve()) }
    }

    /// The extent of the rectangle.
    pub fn size(self) -> (r: Size)
        ensures
            r == self.size_spec(),
    {
        Size { width: self.width, height: self.height }
    }

    /// Whether `self` contains `rect` completely. A rectangle that touches
    /// the bounds from inside is contained.
    pub fn contains(&self, rect: Rectangle) -> (r: bool)
        ensures
            r == self.contains_spec(rect),
    {
        let xmin = rect.x;
        let xmax = xmin.plus(rect.width);
        let ymin = rect.y;
        let ymax = ymin.plus(rect.height);
        let right = self.x.plus(self.width);
        let bottom = self.y.plus(self.height);
        (xmin.ge(self.x) && xmin.le(right)) && (xmax.ge(self.x) && xmax.le(right)) && (ymin.ge(
            self.y,
        ) && ymin.le(bottom)) && (ymax.ge(self.y) && ymax.le(bottom))
    }

    /// Whether `self` overlaps `other`. Rectangles that only touch do not
    /// overlap.
    pub fn overlaps(&self, other: Rectangle) -> (r: bool)
        ensures
            r == self.overlaps_spec(other),
    {
        self.x.lt(other.x.plus(other.width)) && self.x.plus(self.width).gt(other.x) && self.y.lt(
            other.y.plus(other.height),
        ) && self.y.plus(self.height).gt(other.y)
    }

    /// The rectangle, moved as little as it takes to lie in `parent`; `None`
    /// where it is wider or higher than `parent` and so cannot.
    pub fn moved_inside(self, parent: Rectangle) -> (r: Option<Rectangle>)
        ensures
            r == self.moved_inside_spec(parent),
    {
        if self.width.gt(parent.width) || self.height.gt(parent.height) {
            return None;
        }
        Some(
            Rectangle {
                x: settle(self.x, self.width, parent.x, parent.width),
                y: settle(self.y, self.height, parent.y, parent.height),
                width: self.width,
                height: self.height,
            },
        )
    }
}

} // verus!
