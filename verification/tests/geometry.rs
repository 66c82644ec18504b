use adam::geometry::{Point, Rectangle, Size};
use adam::pixel::{PixelPoint, PixelRect};
use adam::scalar::Scalar;
use float_cmp::ApproxEqUlps;

fn scalar(v: f64) -> Scalar {
    Scalar::from_bits(v.to_bits())
}

fn float(s: Scalar) -> f64 {
    f64::from_bits(s.to_bits())
}

fn point(x: f64, y: f64) -> Point {
    Point { x: scalar(x), y: scalar(y) }
}

fn size(width: f64, height: f64) -> Size {
    Size { width: scalar(width), height: scalar(height) }
}

fn rectangle(x: f64, y: f64, width: f64, height: f64) -> Rectangle {
    Rectangle { x: scalar(x), y: scalar(y), width: scalar(width), height: scalar(height) }
}

#[test]
fn geometry_test_creation() {
    let rect = Rectangle {
        x: scalar(0.0),
        y: scalar(0.0),
        width: scalar(10.0),
        height: scalar(10.0),
    };

    assert!(float(rect.x) == 0.0);
    assert!(float(rect.y) == 0.0);
    assert!(float(rect.width).approx_eq_ulps(&10.0f64, 2));
    assert!(float(rect.height).approx_eq_ulps(&10.0f64, 2));
}

#[test]
fn geometry_test_to_sdl() {
    let rect = Rectangle {
        x: scalar(0.0),
        y: scalar(0.0),
        width: scalar(10.0),
        height: scalar(10.0),
    }
    .to_sdl();

    let rect_sdl = PixelRect { x: 0, y: 0, width: 10, height: 10 };

    assert!(rect.unwrap() == rect_sdl);
}

#[test]
fn geometry_test_with_size() {
    let rect = Rectangle::with_size(Size { width: scalar(100.0), height: scalar(50.0) });

    assert!(float(rect.x) == 0.0);
    assert!(float(rect.y) == 0.0);
    assert!(float(rect.width).approx_eq_ulps(&100.0f64, 2));
    assert!(float(rect.height).approx_eq_ulps(&50.0f64, 2));
}

#[test]
fn geometry_test_centered_at() {
    let rect = Rectangle::with_size(Size { width: scalar(100.0), height: scalar(100.0) })
        .centered_at(Point { x: scalar(200.0), y: scalar(200.0) });

    assert!(float(rect.x).approx_eq_ulps(&150.0f64, 2));
    assert!(float(rect.y).approx_eq_ulps(&150.0f64, 2));
    assert!(float(rect.width).approx_eq_ulps(&100.0f64, 2));
    assert!(float(rect.height).approx_eq_ulps(&100.0f64, 2));
}

#[test]
fn geometry_test_center() {
    let rect_moved = Rectangle::with_size(Size { width: scalar(100.0), height: scalar(100.0) })
        .centered_at(Point { x: scalar(200.0), y: scalar(200.0) });
    let rect_still = Rectangle::with_size(Size { width: scalar(100.0), height: scalar(100.0) });

    let correct_moved = Point { x: scalar(200.0), y: scalar(200.0) };

    let correct_still = Point { x: scalar(50.0), y: scalar(50.0) };

    assert!(rect_moved.center() == correct_moved);
    assert!(rect_still.center() == correct_still);
}

#[test]
fn geometry_test_contains() {
    let parent = Rectangle::with_size(Size { width: scalar(100.0), height: scalar(100.0) });

    let inside_rect = Rectangle::with_size(Size { width: scalar(50.0), height: scalar(50.0) })
        .centered_at(Point { x: scalar(50.0), y: scalar(50.0) });

    let outside_rect = Rectangle::with_size(Size { width: scalar(50.0), height: scalar(50.0) })
        .centered_at(Point { x: scalar(100.0), y: scalar(100.0) });

    assert!(parent.contains(inside_rect));
    assert!(!parent.contains(outside_rect));
}

#[test]
fn geometry_test_overlaps() {
    let parent = Rectangle::with_size(Size { width: scalar(100.0), height: scalar(100.0) });

    let inside_rect = Rectangle::with_size(Size { width: scalar(50.0), height: scalar(50.0) })
        .centered_at(Point { x: scalar(50.0), y: scalar(50.0) });

    let outside_rect = Rectangle::with_size(Size { width: scalar(50.0), height: scalar(50.0) })
        .centered_at(Point { x: scalar(300.0), y: scalar(300.0) });

    assert!(inside_rect.overlaps(parent));
    assert!(!outside_rect.overlaps(parent));
}

#[test]
fn geometry_test_moved_inside() {
    let parent = Rectangle::with_size(Size { width: scalar(100.0), height: scalar(100.0) });
    let negative_offset_rect = Rectangle {
        x: scalar(-50.0),
        y: scalar(-50.0),
        width: scalar(50.0),
        height: scalar(50.0),
    };
    let positive_offset_rect = Rectangle {
        x: scalar(100.0),
        y: scalar(100.0),
        width: scalar(50.0),
        height: scalar(50.0),
    };

    let negative_moved_rect = negative_offset_rect.moved_inside(parent).unwrap();
    let positive_moved_rect = positive_offset_rect.moved_inside(parent).unwrap();

    assert!(float(negative_moved_rect.x) == 0.0);
    assert!(float(negative_moved_rect.y) == 0.0);
    assert!(float(positive_moved_rect.x).approx_eq_ulps(&50.0f64, 2));
    assert!(float(positive_moved_rect.y).approx_eq_ulps(&50.0f64, 2));
}

#[test]
fn new_takes_origin_and_size() {
    let rect = Rectangle::new(point(3.0, -4.5), size(20.0, 10.25));
    assert!(rect == rectangle(3.0, -4.5, 20.0, 10.25));
    assert!(rect.size() == size(20.0, 10.25));
}

#[test]
fn center_of_a_sized_rectangle_is_half_its_extent() {
    for (w, h) in [(0.0, 0.0), (1.0, 3.0), (100.0, 50.0), (0.3, 1.0e-320), (f64::MAX, 7.0)] {
        let center = Rectangle::with_size(size(w, h)).center();
        assert!(center == point(w / 2.0, h / 2.0), "{w} {h}");
    }
}

#[test]
fn centered_rectangle_has_its_center_there_and_keeps_its_size() {
    let rect = rectangle(12.0, -7.0, 31.0, 0.7);
    let moved = rect.centered_at(point(-3.25, 1000.5));
    let center = moved.center();
    assert!(float(center.x).approx_eq_ulps(&-3.25f64, 2));
    assert!(float(center.y).approx_eq_ulps(&1000.5f64, 2));
    assert!(moved.size() == rect.size());
    assert!(float(moved.x) == -3.25 - 31.0 / 2.0);
    assert!(float(moved.y) == 1000.5 - 0.7 / 2.0);
}

#[test]
fn rectangle_contains_itself() {
    for rect in [
        rectangle(0.0, 0.0, 0.0, 0.0),
        rectangle(-5.5, 2.25, 10.0, 0.1),
        rectangle(1.0e300, -1.0e300, 1.0e300, 1.0),
        rectangle(0.1, 0.2, 0.3, f64::INFINITY),
    ] {
        assert!(rect.contains(rect));
    }
}

#[test]
fn rectangle_with_a_bound_that_is_no_number_contains_nothing() {
    let nan = rectangle(f64::NAN, 0.0, 1.0, 1.0);
    assert!(!nan.contains(nan));
    let unbounded = rectangle(f64::NEG_INFINITY, 0.0, f64::INFINITY, 1.0);
    assert!(!unbounded.contains(unbounded));
}

#[test]
fn flush_rectangle_is_contained() {
    let parent = rectangle(10.0, 20.0, 100.0, 100.0);
    assert!(parent.contains(rectangle(10.0, 20.0, 100.0, 100.0)));
    assert!(parent.contains(rectangle(10.0, 20.0, 50.0, 50.0)));
    assert!(parent.contains(rectangle(60.0, 70.0, 50.0, 50.0)));
    assert!(!parent.contains(rectangle(60.0, 70.0, 50.0, 50.5)));
    assert!(!parent.contains(rectangle(9.5, 20.0, 50.0, 50.0)));
}

#[test]
fn touching_rectangles_do_not_overlap() {
    let a = rectangle(0.0, 0.0, 100.0, 100.0);
    let b = rectangle(100.0, 0.0, 50.0, 50.0);
    assert!(!a.overlaps(b));
    assert!(!b.overlaps(a));
    let below = rectangle(0.0, 100.0, 50.0, 50.0);
    assert!(!a.overlaps(below));
    let crossing = rectangle(99.5, 99.5, 50.0, 50.0);
    assert!(a.overlaps(crossing));
    assert!(crossing.overlaps(a));
}

#[test]
fn moved_inside_goes_to_the_near_and_to_the_far_edge() {
    let parent = rectangle(0.0, 0.0, 100.0, 100.0);
    let near = rectangle(-50.0, -50.0, 50.0, 50.0).moved_inside(parent).unwrap();
    assert!(near == rectangle(0.0, 0.0, 50.0, 50.0));
    let far = rectangle(100.0, 100.0, 50.0, 50.0).moved_inside(parent).unwrap();
    assert!(far == rectangle(50.0, 50.0, 50.0, 50.0));
    let kept = rectangle(10.0, 20.0, 50.0, 50.0).moved_inside(parent).unwrap();
    assert!(kept == rectangle(10.0, 20.0, 50.0, 50.0));
    let mixed = rectangle(-1.0, 75.0, 50.0, 50.0).moved_inside(parent).unwrap();
    assert!(mixed == rectangle(0.0, 50.0, 50.0, 50.0));
    let at_end = rectangle(50.0, 50.0, 50.0, 50.0).moved_inside(parent).unwrap();
    assert!(at_end == rectangle(50.0, 50.0, 50.0, 50.0));
}

#[test]
fn moved_inside_has_no_result_for_a_larger_rectangle() {
    let parent = rectangle(0.0, 0.0, 100.0, 100.0);
    assert!(rectangle(0.0, 0.0, 100.5, 10.0).moved_inside(parent).is_none());
    assert!(rectangle(0.0, 0.0, 10.0, 100.5).moved_inside(parent).is_none());
    assert!(rectangle(0.0, 0.0, 100.0, 100.0).moved_inside(parent).is_some());
}

#[test]
fn to_sdl_keeps_whole_numbers_and_drops_fractions() {
    let whole = rectangle(-7.0, 12.0, 640.0, 0.0).to_sdl().unwrap();
    assert_eq!(whole, PixelRect { x: -7, y: 12, width: 640, height: 0 });
    let fractional = rectangle(3.9, -3.9, 10.99, 0.5).to_sdl().unwrap();
    assert_eq!(fractional, PixelRect { x: 3, y: -3, width: 10, height: 0 });
    let huge = rectangle(1.0e10, -1.0e10, 1.0e10, f64::INFINITY).to_sdl().unwrap();
    assert_eq!(huge, PixelRect { x: i32::MAX, y: i32::MIN, width: u32::MAX, height: u32::MAX });
}

#[test]
fn negative_extent_is_not_valid() {
    assert!(rectangle(0.0, 0.0, 10.0, 10.0).is_valid());
    assert!(rectangle(0.0, 0.0, 0.0, -0.0).is_valid());
    assert!(!rectangle(0.0, 0.0, -1.0, 10.0).is_valid());
    assert!(!rectangle(0.0, 0.0, 10.0, -1.0e-300).is_valid());
    assert!(!rectangle(0.0, 0.0, f64::NAN, 10.0).is_valid());
}

#[test]
fn point_to_sdl_drops_fractions() {
    assert_eq!(point(3.9, -3.9).to_sdl(), Some(PixelPoint { x: 3, y: -3 }));
    assert_eq!(point(f64::NAN, 1.0e300).to_sdl(), Some(PixelPoint { x: 0, y: i32::MAX }));
}

#[test]
fn operations_agree_with_the_formulas_on_doubles() {
    let values = [-50.0, -0.5, 0.0, 0.1, 0.3, 25.0, 49.9, 50.0, 100.0, 100.1];
    let extents = [0.0, 0.1, 50.0, 100.0];
    for &x in &values {
        for &w in &extents {
            for &px in &values {
                for &pw in &extents {
                    let a = rectangle(x, x, w, w);
                    let p = rectangle(px, px, pw, pw);
                    let contains = x >= px && x <= px + pw && x + w >= px && x + w <= px + pw;
                    assert_eq!(p.contains(a), contains, "{x} {w} in {px} {pw}");
                    let overlaps = x < px + pw && x + w > px;
                    assert_eq!(a.overlaps(p), overlaps, "{x} {w} over {px} {pw}");
                    let moved = if w > pw {
                        None
                    } else if x < px {
                        Some(px)
                    } else if x + w >= px + pw {
                        Some(px + pw - w)
                    } else {
                        Some(x)
                    };
                    let ours = a.moved_inside(p).map(|r| (float(r.x), float(r.y)));
                    assert_eq!(ours, moved.map(|v| (v, v)), "{x} {w} into {px} {pw}");
                }
            }
        }
    }
}

#[test]
fn negative_extent_is_taken_as_it_is_until_the_grid() {
    let inverted = rectangle(10.0, 10.0, -4.0, -6.0);
    assert!(inverted.center() == point(8.0, 7.0));
    assert!(inverted.size() == size(-4.0, -6.0));
    let moved = inverted.centered_at(point(0.0, 0.0));
    assert!(moved == rectangle(2.0, 3.0, -4.0, -6.0));
    let parent = rectangle(0.0, 0.0, 100.0, 100.0);
    assert!(parent.contains(inverted));
    assert!(!inverted.contains(parent));
    assert!(inverted.moved_inside(parent).unwrap() == inverted);
}

#[test]
fn center_of_a_centered_rectangle_is_off_by_what_was_rounded_away() {
    let wide = rectangle(0.0, 0.0, 2.0e20, 8.0);
    let moved = wide.centered_at(point(1.0, 1.0));
    assert!(float(moved.x) == 1.0 - 1.0e20);
    let center = moved.center();
    assert!(float(center.x) == 0.0);
    assert!(float(center.y) == 1.0);
}
