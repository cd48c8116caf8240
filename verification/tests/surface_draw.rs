//! Drawing primitives: fill, outline, line, blit.

use pixui::gfx::{
    BlendMode, Color, Point, ReadSurface, Rect, SliceSurface, Size, VecSurface, WriteSurface,
};

fn surf(w: i32, h: i32) -> VecSurface {
    SliceSurface::from_size(Size::new(w, h))
}

fn rect(x: i32, y: i32, w: i32, h: i32) -> Rect {
    Rect::new(Point::new(x, y), Size::new(w, h))
}

fn is(s: &VecSurface, x: i32, y: i32, c: Color) -> bool {
    s.read(Point::new(x, y)) == Some(c)
}

#[test]
fn fill_covers_exactly_the_rect() {
    let mut s = surf(6, 6);
    let red = Color::opaque(255, 0, 0);
    s.fill(rect(1, 2, 3, 2), red, BlendMode::Overwrite);
    for y in 0..6 {
        for x in 0..6 {
            let inside = (1..=3).contains(&x) && (2..=3).contains(&y);
            assert_eq!(is(&s, x, y, red), inside, "pixel ({x},{y})");
        }
    }
}

#[test]
fn fill_clips_against_the_window() {
    let mut s = surf(3, 3);
    let red = Color::opaque(255, 0, 0);
    s.fill(rect(-2, -2, 10, 10), red, BlendMode::Overwrite);
    for y in 0..3 {
        for x in 0..3 {
            assert!(is(&s, x, y, red));
        }
    }
}

#[test]
fn rect_paints_only_the_outline() {
    let mut s = surf(6, 6);
    let c = Color::opaque(0, 255, 0);
    s.rect(rect(1, 1, 4, 4), c, BlendMode::Overwrite);
    for y in 0..6 {
        for x in 0..6 {
            let on = (1..=4).contains(&x)
                && (1..=4).contains(&y)
                && (x == 1 || x == 4 || y == 1 || y == 4);
            assert_eq!(is(&s, x, y, c), on, "pixel ({x},{y})");
        }
    }
}

#[test]
fn line_is_inclusive_of_both_endpoints() {
    let mut s = surf(8, 8);
    let c = Color::white();
    s.line(Point::new(1, 1), Point::new(5, 1), c, BlendMode::Overwrite);
    for x in 1..=5 {
        assert!(is(&s, x, 1, c));
    }
    assert!(!is(&s, 0, 1, c));
    assert!(!is(&s, 6, 1, c));
}

#[test]
fn line_draws_the_bresenham_diagonal() {
    let mut s = surf(8, 8);
    let c = Color::white();
    s.line(Point::new(0, 0), Point::new(3, 1), c, BlendMode::Overwrite);
    let expected = [(0, 0), (1, 0), (2, 1), (3, 1)];
    for y in 0..8 {
        for x in 0..8 {
            assert_eq!(is(&s, x, y, c), expected.contains(&(x, y)), "pixel ({x},{y})");
        }
    }
}

#[test]
fn line_handles_reversed_and_vertical_spans() {
    let mut s = surf(8, 8);
    let c = Color::white();
    s.line(Point::new(4, 6), Point::new(4, 2), c, BlendMode::Overwrite);
    for y in 2..=6 {
        assert!(is(&s, 4, y, c));
    }
}

#[test]
fn blit_copies_present_pixels_and_skips_none() {
    let mut src = surf(2, 2);
    let c = Color::opaque(9, 8, 7);
    src.write(Point::new(0, 0), c, BlendMode::Overwrite);
    src.write(Point::new(1, 1), c, BlendMode::Overwrite);

    let mut dst = surf(6, 6);
    // `from` reaches outside the source; absent pixels are skipped
    dst.blit(rect(0, 0, 4, 4), Point::new(2, 3), &src, BlendMode::Overwrite);
    assert!(is(&dst, 2, 3, c));
    assert!(is(&dst, 3, 4, c));
    assert!(is(&dst, 3, 3, Color::black()));
    assert!(is(&dst, 4, 5, Color::black()));
}
