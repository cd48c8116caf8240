//! Geometry: points, sizes and rectangles.

use pixui::gfx::{Point, Rect, Size};

fn rect(x: i32, y: i32, w: i32, h: i32) -> Rect {
    Rect::new(Point::new(x, y), Size::new(w, h))
}

#[test]
fn inset_zero_is_identity() {
    let samples = [
        rect(0, 0, 0, 0),
        rect(5, 7, 30, 10),
        rect(-4, -9, 3, 3),
        rect(100, 200, 1, 1),
    ];
    for r in samples {
        assert_eq!(r.inset(0, 0, 0, 0), r);
    }
}

#[test]
fn inset_shrinks_each_edge() {
    let r = rect(10, 20, 30, 40).inset(1, 2, 3, 4);
    assert_eq!(r, rect(12, 21, 24, 36));
}

#[test]
fn inset_may_go_negative() {
    let r = rect(0, 0, 2, 2).inset(3, 3, 3, 3);
    assert_eq!(r.width(), -4);
    assert_eq!(r.height(), -4);
}

#[test]
fn limit_is_componentwise_min() {
    let a = Size::new(10, 40);
    let b = Size::new(25, 15);
    let l = a.limit(b);
    assert!(l.width() <= a.width() && l.width() <= b.width());
    assert!(l.height() <= a.height() && l.height() <= b.height());
    assert_eq!(l, Size::new(10, 15));
}

#[test]
fn max_is_componentwise_max() {
    assert_eq!(Size::new(10, 40).max(Size::new(25, 15)), Size::new(25, 40));
}

#[test]
fn zero_size_rect_edges_clamp_to_origin() {
    let r = rect(5, 6, 0, 0);
    assert_eq!(r.right(), 5);
    assert_eq!(r.bottom(), 6);
    let n = rect(5, 6, -3, -3);
    assert_eq!(n.right(), 5);
    assert_eq!(n.bottom(), 6);
}

#[test]
fn contains_is_inclusive_on_all_edges() {
    let r = rect(2, 3, 4, 5);
    assert!(r.contains(Point::new(2, 3)));
    assert!(r.contains(Point::new(5, 7)));
    assert!(!r.contains(Point::new(1, 3)));
    assert!(!r.contains(Point::new(6, 7)));
    assert!(!r.contains(Point::new(5, 8)));
}

#[test]
fn point_arithmetic() {
    assert_eq!(Point::new(3, 4).add(Point::new(10, -2)), Point::new(13, 2));
    assert_eq!(Point::new(3, 4).sub(Point::new(1, 6)), Point::new(2, -2));
    assert_eq!(Size::new(3, 4).add(Size::new(1, 1)), Size::new(4, 5));
    assert_eq!(Size::new(3, 4).sub(Size::new(1, 1)), Size::new(2, 3));
}

#[test]
fn scale_and_divide() {
    assert_eq!(Point::new(3, -4).mul(2), Point::new(6, -8));
    // division truncates toward zero, as the machine does
    assert_eq!(Point::new(7, -7).div(2), Point::new(3, -3));
    assert_eq!(Point::new(7, -7).div(-2), Point::new(-3, 3));
    assert_eq!(Size::new(9, -9).mul(3), Size::new(27, -27));
    assert_eq!(Size::new(9, -9).div(4), Size::new(2, -2));
}
