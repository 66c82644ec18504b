//! The rectangle in its short form: fields `w` and `h`, and points as plain
//! pairs. Every operation is the one of [`crate::geometry::Rectangle`].

use vstd::prelude::*;
use crate::geometry;
use crate::geometry::{Point, Size};
use crate::pixel::PixelRect;
use crate::scalar::Scalar;

verus! {

/// An axis-aligned rectangle: an origin and an extent.
#[derive(Clone, Copy, Debug, PartialEq)]
pub struct Rectangle {
    pub x: Scalar,
    pub y: Scalar,
    pub w: Scalar,
    pub h: Scalar,
}

impl Rectangle {
    /// The same rectangle in the long form.
    pub open spec fn geometry(self) -> geometry::Rectangle {
        geometry::Rectangle { x: self.x, y: self.y, width: self.w, height: self.h }
    }

    /// The same rectangle in the short form.
    pub open spec fn of_geometry(r: geometry::Rectangle) -> Rectangle {
        Rectangle { x: r.x, y: r.y, w: r.width, h: r.height }
    }

    /// The same rectangle in the long form.
    pub fn to_geometry(self) -> (r: geometry::Rectangle)
        ensures
            r == self.geometry(),
    {
        geometry::Rectangle { x: self.x, y: self.y, width: self.w, height: self.h }
    }

    /// The same rectangle in the short form.
    pub fn from_geometry(r: geometry::Rectangle) -> (s: Rectangle)
        ensures
            s == Rectangle::of_geometry(r),
    {
        Rectangle { x: r.x, y: r.y, w: r.width, h: r.height }
    }

    /// The rectangle on the integer grid: each field narrowed toward zero. A
    /// rectangle with a negative extent has no place there.
    pub fn to_sdl(self) -> (r: Option<PixelRect>)
        requires
            self.geometry().has_extent(),
        ensures
            r == self.geometry().to_sdl_spec(),
    {
        self.to_geometry().to_sdl()
    }

    /// The rectangle of the given extent whose origin is (0, 0).
    pub fn with_size(w: Scalar, h: Scalar) -> (r: Rectangle)
        ensures
            r.geometry() == geometry::Rectangle::with_size_spec(Size { width: w, height: h }),
    {
        Rectangle::from_geometry(geometry::Rectangle::with_size(Size { width: w, height: h }))
    }

    /// The rectangle of the same extent that has its middle at `center`,
    /// given as (x, y).
    pub fn centered_at(self, center: (Scalar, Scalar)) -> (r: Rectangle)
        ensures
            r.geometry() == self.geometry().centered_at_spec(Point { x: center.0, y: center.1 }),
    {
        Rectangle::from_geometry(
            self.to_geometry().centered_at(Point { x: center.0, y: center.1 }),
        )
    }

    /// The middle of the rectangle, as (x, y).
    pub fn center(self) -> (r: (Scalar, Scalar))
        ensures
            (Point { x: r.0, y: r.1 }) == self.geometry().center_spec(),
    {
        let middle = self.to_geometry().center();
        (middle.x, middle.y)
    }

    /// Whether `self` contains `rect` completely.
    pub fn contains(&self, rect: Rectangle) -> (r: bool)
        ensures
            r == self.geometry().contains_spec(rect.geometry()),
    {
        self.to_geometry().contains(rect.to_geometry())
    }

    /// Whether `self` overlaps `other`.
    pub fn overlaps(&self, other: Rectangle) -> (r: bool)
        ensures
            r == self.geometry().overlaps_spec(other.geometry()),
    {
        self.to_geometry().overlaps(other.to_geometry())
    }

    /// The rectangle, moved as little as it takes to lie in `parent`; `None`
    /// where it is wider or higher than `parent` and so cannot.
    pub fn moved_inside(self, parent: Rectangle) -> (r: Option<Rectangle>)
        ensures
            r == match self.geometry().moved_inside_spec(parent.geometry()) {
                Some(moved) => Some(Rectangle::of_geometry(moved)),
                None => None,
            },
    {
        match self.to_geometry().moved_inside(parent.to_geometry()) {
            Some(moved) => Some(Rectangle::from_geometry(moved)),
            None => None,
        }
    }
}

} // verus!
