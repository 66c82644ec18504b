//! What holds of the operations on rectangles, whatever the rectangle.

use vstd::prelude::*;
use vstd::arithmetic::power2::{pow2, lemma_pow2_pos};
use crate::arith::{lemma_exact_sum, lemma_half_of_number, lemma_sum_not_below, lemma_zero_sum};
use crate::geometry::{Point, Rectangle, Size};
use crate::pixel::PixelRect;
use crate::scalar::Scalar;
use crate::truncate::lemma_whole_number_survives;
use crate::value::lemma_units_bounds;

verus! {

/// The larger of two values.
pub open spec fn later(a: int, b: int) -> int {
    if a >= b {
        a
    } else {
        b
    }
}

/// The smaller of two values.
pub open spec fn earlier(a: int, b: int) -> int {
    if a <= b {
        a
    } else {
        b
    }
}

/// Whether the bounds of two rectangles enclose a common area: on either axis
/// the later of the two starts lies strictly before the earlier of the two
/// ends.
pub open spec fn shared_area(a: Rectangle, b: Rectangle) -> bool {
    &&& later(a.x.units(), b.x.units()) < earlier(
        a.x.sum(a.width).units(),
        b.x.sum(b.width).units(),
    )
    &&& later(a.y.units(), b.y.units()) < earlier(
        a.y.sum(a.height).units(),
        b.y.sum(b.height).units(),
    )
}

/// The middle of a rectangle that lies at the origin is half its extent,
/// where the extent is not negative.
pub proof fn law_center_of_sized(size: Size)
    requires
        Scalar::zero().at_most(size.width),
        Scalar::zero().at_most(size.height),
    ensures
        Rectangle::with_size_spec(size).center_spec().same(
            Point { x: size.width.half(), y: size.height.half() },
        ),
{
    lemma_half_of_number(size.width);
    lemma_half_of_number(size.height);
    lemma_zero_sum(size.width.half());
    lemma_zero_sum(size.height.half());
}

/// A rectangle that was centered at a point has its middle there, where the
/// new origin is exact: the point, half the extent and the origin are finite,
/// and the origin is the point minus half the extent with nothing rounded
/// away. Any distance between the middle and the point comes from that
/// rounding.
pub proof fn law_center_of_centered(r: Rectangle, p: Point)
    requires
        p.x.finite() && r.width.finite() && r.centered_at_spec(p).x.finite(),
        p.y.finite() && r.height.finite() && r.centered_at_spec(p).y.finite(),
        r.centered_at_spec(p).x.units() == p.x.units() - r.width.half().units(),
        r.centered_at_spec(p).y.units() == p.y.units() - r.height.half().units(),
    ensures
        r.centered_at_spec(p).center_spec().same(p),
{
    lemma_half_of_number(r.width);
    lemma_half_of_number(r.height);
    lemma_exact_sum(r.centered_at_spec(p).x, r.width.half(), p.x);
    lemma_exact_sum(r.centered_at_spec(p).y, r.height.half(), p.y);
}

/// Centering a rectangle at a point leaves its extent as it was.
pub proof fn law_centered_at_keeps_size(r: Rectangle, p: Point)
    ensures
        r.centered_at_spec(p).size_spec() == r.size_spec(),
{
}

/// A rectangle contains itself, where its extent is not negative and its
/// bounds are numbers: the origin is a number, and no side starts at negative
/// infinity with an infinite extent.
pub proof fn law_contains_reflexive(r: Rectangle)
    requires
        r.has_extent(),
        !r.x.nan(),
        !r.y.nan(),
        !(r.x.negative() && !r.x.finite() && !r.width.finite()),
        !(r.y.negative() && !r.y.finite() && !r.height.finite()),
    ensures
        r.contains_spec(r),
{
    lemma_sum_not_below(r.x, r.width);
    lemma_sum_not_below(r.y, r.height);
}

/// A rectangle that lies flush in a corner of another, or fills it, is
/// contained: touching the bounds from inside is inside. Stated for a
/// rectangle with the origin of its parent and an extent that is not larger,
/// where all sums are numbers.
pub proof fn law_contains_flush(parent: Rectangle, child: Rectangle)
    requires
        child.x == parent.x,
        child.y == parent.y,
        child.has_extent(),
        !parent.x.nan(),
        !parent.y.nan(),
        !(child.x.negative() && !child.x.finite() && !child.width.finite()),
        !(child.y.negative() && !child.y.finite() && !child.height.finite()),
        child.x.sum(child.width).at_most(parent.x.sum(parent.width)),
        child.y.sum(child.height).at_most(parent.y.sum(parent.height)),
    ensures
        parent.contains_spec(child),
{
    lemma_sum_not_below(child.x, child.width);
    lemma_sum_not_below(child.y, child.height);
}

/// Rectangles of which one starts where the other ends do not overlap.
pub proof fn law_touching_do_not_overlap(a: Rectangle, b: Rectangle)
    requires
        b.x == a.x.sum(a.width) || b.y == a.y.sum(a.height),
    ensures
        !a.overlaps_spec(b),
        !b.overlaps_spec(a),
{
}

/// Two rectangles that share more than an edge overlap: on either axis the
/// later of the two starts lies strictly before the earlier of the two ends.
/// Of rectangles that each start before they end, no others overlap. Stated
/// where every bound is a number.
pub proof fn law_overlap_is_shared_area(a: Rectangle, b: Rectangle)
    requires
        !a.x.nan() && !a.y.nan() && !b.x.nan() && !b.y.nan(),
        !a.x.sum(a.width).nan() && !a.y.sum(a.height).nan(),
        !b.x.sum(b.width).nan() && !b.y.sum(b.height).nan(),
    ensures
        shared_area(a, b) ==> a.overlaps_spec(b),
        a.overlaps_spec(b) && shared_area(a, a) && shared_area(b, b) ==> shared_area(a, b),
        a.overlaps_spec(b) == b.overlaps_spec(a),
{
}

/// A rectangle that is wider or higher than its parent cannot be moved into
/// it; any other can, and keeps its extent.
pub proof fn law_moved_inside_fits(r: Rectangle, parent: Rectangle)
    ensures
        r.moved_inside_spec(parent) is None <==> (parent.width.below(r.width)
            || parent.height.below(r.height)),
        r.moved_inside_spec(parent) matches Some(moved) ==> moved.size_spec() == r.size_spec(),
{
}

/// A rectangle whose origin and extent are whole numbers that the integer
/// grid holds comes out with exactly those numbers.
pub proof fn law_whole_rectangle_survives(r: Rectangle, x: int, y: int, width: int, height: int)
    requires
        !r.x.nan() && r.x.units() == x * pow2(1074),
        !r.y.nan() && r.y.units() == y * pow2(1074),
        !r.width.nan() && r.width.units() == width * pow2(1074),
        !r.height.nan() && r.height.units() == height * pow2(1074),
        i32::MIN <= x <= i32::MAX,
        i32::MIN <= y <= i32::MAX,
        0 <= width <= u32::MAX,
        0 <= height <= u32::MAX,
    ensures
        r.has_extent(),
        r.to_sdl_spec() == Some(
            (PixelRect { x: x as i32, y: y as i32, width: width as u32, height: height as u32 }),
        ),
{
    lemma_whole_number_survives(r.x, x);
    lemma_whole_number_survives(r.y, y);
    lemma_whole_number_survives(r.width, width);
    lemma_whole_number_survives(r.height, height);
    lemma_units_bounds(0);
    lemma_pow2_pos(1074);
    assert(width * pow2(1074) >= 0) by (nonlinear_arith)
        requires
            width >= 0,
            pow2(1074) > 0,
    ;
    assert(height * pow2(1074) >= 0) by (nonlinear_arith)
        requires
            height >= 0,
            pow2(1074) > 0,
    ;
}

} // verus!
