//! Blend compositing and the surface read/write window.

use pixui::gfx::{
    BlendMode, Color, Point, ReadSurface, Rect, SliceSurface, Size, Surface, U8SliceSurface,
    VecSurface, WriteSurface,
};

fn surf(w: i32, h: i32) -> VecSurface {
    SliceSurface::from_size(Size::new(w, h))
}

#[test]
fn overwrite_write_reads_back_exactly() {
    let mut s = surf(4, 4);
    let c = Color::new(10, 20, 30, 0);
    s.write(Point::new(1, 2), c, BlendMode::Overwrite);
    assert_eq!(s.read(Point::new(1, 2)), Some(c));
}

#[test]
fn blend_zero_alpha_keeps_destination() {
    let mut s = surf(4, 4);
    let base = Color::new(9, 9, 9, 255);
    s.write(Point::new(0, 0), base, BlendMode::Overwrite);
    s.write(Point::new(0, 0), Color::new(1, 2, 3, 0), BlendMode::Blend);
    assert_eq!(s.read(Point::new(0, 0)), Some(base));
}

#[test]
fn blend_nonzero_alpha_fully_replaces() {
    let mut s = surf(4, 4);
    s.write(Point::new(0, 0), Color::new(9, 9, 9, 255), BlendMode::Overwrite);
    let src = Color::new(1, 2, 3, 7);
    s.write(Point::new(0, 0), src, BlendMode::Blend);
    // alpha is replaced too: this is a stencil, not interpolation
    assert_eq!(s.read(Point::new(0, 0)), Some(src));
}

#[test]
fn out_of_window_write_never_mutates() {
    let mut s = surf(3, 3);
    let white = Color::white();
    for p in [
        Point::new(-1, 0),
        Point::new(0, -1),
        Point::new(3, 0),
        Point::new(0, 3),
        Point::new(100, 100),
        Point::new(i32::MIN, i32::MIN),
    ] {
        s.write(p, white, BlendMode::Overwrite);
    }
    for y in 0..3 {
        for x in 0..3 {
            assert_eq!(s.read(Point::new(x, y)), Some(Color::black()));
        }
    }
}

#[test]
fn out_of_window_read_is_none() {
    let s = surf(3, 3);
    assert_eq!(s.read(Point::new(3, 0)), None);
    assert_eq!(s.read(Point::new(0, 3)), None);
    assert_eq!(s.read(Point::new(-1, -1)), None);
}

#[test]
fn u8_surface_interleaves_rgba() {
    let mut s = U8SliceSurface::new(vec![0u8; 4 * 4 * 2], 4, Rect::sized(Size::new(4, 2)));
    assert_eq!(s.bounds(), Rect::sized(Size::new(4, 2)));
    s.write(Point::new(2, 1), Color::new(1, 2, 3, 4), BlendMode::Overwrite);
    let off = (2 + 1 * 4) * 4;
    let data = s.bytes();
    assert_eq!(&data[off..off + 4], &[1, 2, 3, 4]);
    assert_eq!(s.read(Point::new(2, 1)), Some(Color::new(1, 2, 3, 4)));
}

#[test]
fn u8_surface_blends_alpha_channel_like_color_channels() {
    let mut s = U8SliceSurface::new(vec![0u8; 4 * 2 * 2], 2, Rect::sized(Size::new(2, 2)));
    s.write(Point::new(0, 0), Color::new(5, 6, 7, 200), BlendMode::Overwrite);
    // zero source alpha keeps every channel, alpha included
    s.write(Point::new(0, 0), Color::new(1, 1, 1, 0), BlendMode::Blend);
    assert_eq!(s.read(Point::new(0, 0)), Some(Color::new(5, 6, 7, 200)));
    // nonzero source alpha replaces every channel, alpha included
    s.write(Point::new(0, 0), Color::new(1, 1, 1, 9), BlendMode::Blend);
    assert_eq!(s.read(Point::new(0, 0)), Some(Color::new(1, 1, 1, 9)));
}
