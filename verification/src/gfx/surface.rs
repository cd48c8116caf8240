//! Pixel surfaces: rectangular pixel buffers addressed relative to an
//! internal origin/bounds window, with blend compositing and drawing
//! primitives built on single-pixel reads and writes.
//!
//! Reading or writing outside the bounds window is a no-op: reads return
//! `None` and writes are silently dropped. Two backing stores exist: a
//! packed color-per-pixel buffer ([`SliceSurface`]) and an interleaved
//! 4-byte-per-pixel RGBA buffer ([`U8SliceSurface`]).

use vstd::prelude::*;
use vstd::arithmetic::mul::lemma_mul_inequality;
use vstd::arithmetic::mul::lemma_mul_nonnegative;
use crate::gfx::color::spec_blend;
use crate::gfx::color::spec_blend_channel;
use crate::gfx::color::BlendMode;
use crate::gfx::color::Color;
use crate::gfx::geom::Point;
use crate::gfx::geom::Rect;
use crate::gfx::geom::Scalar;
use crate::gfx::geom::Size;

verus! {

/// Whether `(x, y)` is a pixel coordinate inside the addressable window of a
/// surface whose bounds are `b`: coordinates are window-relative, so only the
/// window's size matters here.
pub open spec fn in_window(b: Rect, x: int, y: int) -> bool {
    0 <= x < b.size.width && 0 <= y < b.size.height
}

/// Whether `(x, y)` lies in rectangle `r`, inclusive on all four edges (with
/// the bottom/right edges clamped to the origin for empty sizes, as
/// [`Rect::spec_right`] and [`Rect::spec_bottom`] are).
pub open spec fn rect_has(r: Rect, x: int, y: int) -> bool {
    r.origin.x <= x <= r.spec_right() && r.origin.y <= y <= r.spec_bottom()
}

/// Whether `(x, y)` lies on the outline of `r`: its top or bottom row, or
/// its left or right column.
pub open spec fn rect_outline_has(r: Rect, x: int, y: int) -> bool {
    rect_has(r, x, y) && (y == r.spec_top() || y == r.spec_bottom() || x == r.spec_left()
        || x == r.spec_right())
}

/// A rectangular pixel store with an addressable window.
pub trait Surface: Sized {
    /// Internal consistency of the backing store: the whole addressable
    /// window maps to valid indices.
    spec fn inv(&self) -> bool;

    /// The addressable window.
    spec fn spec_bounds(&self) -> Rect;

    fn bounds(&self) -> (r: Rect)
        requires
            self.inv(),
        ensures
            r == self.spec_bounds(),
    ;
}

/// A surface whose pixels can be read back.
pub trait ReadSurface: Surface {
    /// The color stored at window-relative coordinates `(x, y)`; meaningful
    /// only inside the window.
    spec fn at(&self, x: int, y: int) -> Color;

    /// Read one pixel, or `None` outside the window.
    fn read(&self, point: Point) -> (r: Option<Color>)
        requires
            self.inv(),
        ensures
            in_window(self.spec_bounds(), point.x as int, point.y as int) ==> r == Some(
                self.at(point.x as int, point.y as int),
            ),
            !in_window(self.spec_bounds(), point.x as int, point.y as int) ==> r
                == None::<Color>,
    ;
}

/// A surface whose pixels can be written through a blend mode.
pub trait WriteSurface: Surface {
    /// The color stored at window-relative coordinates `(x, y)`; meaningful
    /// only inside the window.
    spec fn wat(&self, x: int, y: int) -> Color;

    /// Composite `color` into the pixel at `point` via `blend`, or do
    /// nothing at all outside the window.
    fn write(&mut self, point: Point, color: Color, blend: BlendMode)
        requires
            old(self).inv(),
        ensures
            final(self).inv(),
            final(self).spec_bounds() == old(self).spec_bounds(),
            forall|x: int, y: int|
                in_window(old(self).spec_bounds(), x, y) ==> #[trigger] final(self).wat(x, y)
                    == if x == point.x as int && y == point.y as int {
                    spec_blend(blend, color, old(self).wat(x, y))
                } else {
                    old(self).wat(x, y)
                },
            !in_window(old(self).spec_bounds(), point.x as int, point.y as int) ==> *final(self)
                == *old(self),
    ;

    /// Paint the single-pixel-wide integer Bresenham line from `from` to
    /// `to`, inclusive of both endpoints.
    fn line(&mut self, from: Point, to: Point, color: Color, blend: BlendMode)
        requires
            old(self).inv(),
            -0x4000_0000 <= to.x - from.x <= 0x4000_0000,
            -0x4000_0000 <= to.y - from.y <= 0x4000_0000,
        ensures
            final(self).inv(),
            final(self).spec_bounds() == old(self).spec_bounds(),
            forall|x: int, y: int|
                in_window(old(self).spec_bounds(), x, y) ==> #[trigger] final(self).wat(x, y)
                    == if spec_line_points(from, to).contains((x, y)) {
                    spec_blend(blend, color, old(self).wat(x, y))
                } else {
                    old(self).wat(x, y)
                },
    {
        let dx_raw = to.x - from.x;
        let dy_raw = to.y - from.y;
        let dx = if dx_raw < 0 {
            -dx_raw
        } else {
            dx_raw
        };
        let dy = if dy_raw < 0 {
            -dy_raw
        } else {
            dy_raw
        };
        let sx: i32 = if from.x < to.x {
            1
        } else {
            -1
        };
        let sy: i32 = if from.y < to.y {
            1
        } else {
            -1
        };
        let mut err: i32 = (if dx > dy {
            dx
        } else {
            -dy
        }) / 2;
        let mut point = from;
        let ghost line = spec_line_points(from, to);
        let ghost mut kx: int = 0;
        let ghost mut ky: int = 0;
        let ghost mut written: Seq<(int, int)> = seq![(from.x as int, from.y as int)];
        self.write(point, color, blend);
        proof {
            let fp = (from.x as int, from.y as int);
            assert(written[0] == fp);
            assert(written.contains(fp));
            assert(forall|q: (int, int)| #[trigger] written.contains(q) ==> q == fp);
        }
        while !(point.x == to.x && point.y == to.y)
            invariant
                self.inv(),
                self.spec_bounds() == old(self).spec_bounds(),
                0 <= dx <= 0x4000_0000,
                0 <= dy <= 0x4000_0000,
                sx == 1 || sx == -1,
                sy == 1 || sy == -1,
                to.x == from.x + sx * dx,
                to.y == from.y + sy * dy,
                0 <= kx <= dx,
                0 <= ky <= dy,
                point.x == from.x + sx * kx,
                point.y == from.y + sy * ky,
                err == bres_err0(dx as int, dy as int) - kx * dy + ky * dx,
                dx > dy ==> 0 <= err <= dx,
                dx <= dy ==> -dy <= err <= 0,
                1 <= written.len(),
                written.len() - 1 <= kx + ky,
                written.last() == (point.x as int, point.y as int),
                line == written.drop_last() + bres_points(
                    (point.x as int, point.y as int),
                    (to.x as int, to.y as int),
                    dx as int,
                    dy as int,
                    sx as int,
                    sy as int,
                    err as int,
                    ((dx + dy) - (written.len() - 1)) as nat,
                ),
                forall|gx: int, gy: int|
                    in_window(old(self).spec_bounds(), gx, gy) ==> #[trigger] self.wat(gx, gy)
                        == if written.contains((gx, gy)) {
                        spec_blend(blend, color, old(self).wat(gx, gy))
                    } else {
                        old(self).wat(gx, gy)
                    },
            decreases (dx - kx) + (dy - ky),
        {
            let ghost p0 = (point.x as int, point.y as int);
            let ghost e0 = err as int;
            let ghost kx0 = kx;
            let ghost ky0 = ky;
            proof {
                // `point != to`, so the step counters have not both finished.
                assert(!(kx == dx && ky == dy));
                // Whichever axis is about to step has room left.
                if err > -dx && kx == dx {
                    if dx > dy {
                        assert(ky * dx > dx * dy - dx) by (nonlinear_arith)
                            requires
                                err == dx / 2 - kx * dy + ky * dx,
                                kx == dx,
                                err >= 0,
                                dx > dy >= 0,
                        ;
                        assert(ky >= dy) by (nonlinear_arith)
                            requires
                                ky * dx > dx * dy - dx,
                                dx > 0,
                        ;
                    } else {
                        assert(err <= -dx) by (nonlinear_arith)
                            requires
                                err == -(dy / 2) - kx * dy + ky * dx,
                                kx == dx,
                                ky < dy,
                                0 <= dx <= dy,
                        ;
                    }
                }
                if err < dy && ky == dy {
                    assert(kx < dx);
                    if dx > dy {
                        assert(err >= dy) by (nonlinear_arith)
                            requires
                                err == dx / 2 - kx * dy + ky * dx,
                                ky == dy,
                                kx < dx,
                                dx > dy >= 0,
                        ;
                    } else {
                        if dy > 0 {
                            assert(kx * dy > dy * dx - dy) by (nonlinear_arith)
                                requires
                                    err == -(dy / 2) - kx * dy + ky * dx,
                                    ky == dy,
                                    err <= 0,
                                    0 <= dx <= dy,
                                    dy > 0,
                            ;
                            assert(kx >= dx) by (nonlinear_arith)
                                requires
                                    kx * dy > dy * dx - dy,
                                    dy > 0,
                            ;
                        } else {
                            assert(dx == 0 && kx == 0);
                        }
                    }
                }
            }
            let err2 = err;
            if err2 > -dx {
                proof {
                    assert(kx < dx);
                    if sx == 1 {
                        assert(point.x < to.x) by (nonlinear_arith)
                            requires
                                point.x == from.x + sx * kx,
                                to.x == from.x + sx * dx,
                                sx == 1,
                                kx < dx,
                        ;
                    } else {
                        assert(point.x > to.x) by (nonlinear_arith)
                            requires
                                point.x == from.x + sx * kx,
                                to.x == from.x + sx * dx,
                                sx == -1,
                                kx < dx,
                        ;
                    }
                }
                err = err - dy;
                point.x = point.x + sx;
                proof {
                    kx = kx + 1;
                    assert(point.x == from.x + sx * kx && kx * dy == kx0 * dy + dy)
                        by (nonlinear_arith)
                        requires
                            point.x == from.x + sx * kx0 + sx,
                            kx == kx0 + 1,
                            sx == 1 || sx == -1,
                    ;
                }
            }
            if err2 < dy {
                proof {
                    assert(ky < dy);
                    if sy == 1 {
                        assert(point.y < to.y) by (nonlinear_arith)
                            requires
                                point.y == from.y + sy * ky,
                                to.y == from.y + sy * dy,
                                sy == 1,
                                ky < dy,
                        ;
                    } else {
                        assert(point.y > to.y) by (nonlinear_arith)
                            requires
                                point.y == from.y + sy * ky,
                                to.y == from.y + sy * dy,
                                sy == -1,
                                ky < dy,
                        ;
                    }
                }
                err = err + dx;
                point.y = point.y + sy;
                proof {
                    ky = ky + 1;
                    assert(point.y == from.y + sy * ky && ky * dx == ky0 * dx + dx)
                        by (nonlinear_arith)
                        requires
                            point.y == from.y + sy * ky0 + sy,
                            ky == ky0 + 1,
                            sy == 1 || sy == -1,
                    ;
                }
            }
            proof {
                let pn = (point.x as int, point.y as int);
                let fuel0 = ((dx + dy) - (written.len() - 1)) as nat;
                // The exec step agrees with the spec step, so the tail of the
                // spec line unfolds by exactly one position.
                assert(fuel0 > 0);
                assert(bres_step(p0, dx as int, dy as int, sx as int, sy as int, e0) == (
                    pn,
                    err as int,
                ));
                assert(bres_points(
                    p0,
                    (to.x as int, to.y as int),
                    dx as int,
                    dy as int,
                    sx as int,
                    sy as int,
                    e0,
                    fuel0,
                ) == seq![p0] + bres_points(
                    pn,
                    (to.x as int, to.y as int),
                    dx as int,
                    dy as int,
                    sx as int,
                    sy as int,
                    err as int,
                    (fuel0 - 1) as nat,
                ));
                let prev = written;
                written = written.push(pn);
                assert(written.drop_last() == prev);
                assert(prev.drop_last() + (seq![p0] + bres_points(
                    pn,
                    (to.x as int, to.y as int),
                    dx as int,
                    dy as int,
                    sx as int,
                    sy as int,
                    err as int,
                    (fuel0 - 1) as nat,
                )) == prev + bres_points(
                    pn,
                    (to.x as int, to.y as int),
                    dx as int,
                    dy as int,
                    sx as int,
                    sy as int,
                    err as int,
                    (fuel0 - 1) as nat,
                )) by {
                    assert(prev.drop_last().push(p0) =~= prev);
                    assert(prev.drop_last() + seq![p0] =~= prev.drop_last().push(p0));
                    assert(prev.drop_last() + (seq![p0] + bres_points(
                        pn,
                        (to.x as int, to.y as int),
                        dx as int,
                        dy as int,
                        sx as int,
                        sy as int,
                        err as int,
                        (fuel0 - 1) as nat,
                    )) =~= (prev.drop_last() + seq![p0]) + bres_points(
                        pn,
                        (to.x as int, to.y as int),
                        dx as int,
                        dy as int,
                        sx as int,
                        sy as int,
                        err as int,
                        (fuel0 - 1) as nat,
                    ));
                }
            }
            let ghost before = *self;
            self.write(point, color, blend);
            proof {
                let pn = (point.x as int, point.y as int);
                let prev = written.drop_last();
                assert forall|gx: int, gy: int|
                    in_window(old(self).spec_bounds(), gx, gy) implies #[trigger] self.wat(gx, gy)
                    == if written.contains((gx, gy)) {
                    spec_blend(blend, color, old(self).wat(gx, gy))
                } else {
                    old(self).wat(gx, gy)
                } by {
                    lemma_push_contains(prev, pn, (gx, gy));
                    if (gx, gy) == pn {
                        crate::gfx::color::lemma_blend_idempotent(
                            blend,
                            color,
                            old(self).wat(gx, gy),
                        );
                    }
                }
            }
        }
        proof {
            let tp = (to.x as int, to.y as int);
            assert(written.last() == tp);
            assert(written.drop_last() + seq![tp] =~= written);
            assert(line == written);
        }
    }

    /// Composite `color` into every pixel of `rect` (row-major; each pixel
    /// exactly once). A zero-size rectangle still covers its origin pixel,
    /// because the derived bottom/right edges clamp to the origin.
    fn fill(&mut self, rect: Rect, color: Color, blend: BlendMode)
        requires
            old(self).inv(),
            i32::MIN <= rect.spec_right() <= i32::MAX,
            i32::MIN <= rect.spec_bottom() <= i32::MAX,
        ensures
            final(self).inv(),
            final(self).spec_bounds() == old(self).spec_bounds(),
            forall|x: int, y: int|
                in_window(old(self).spec_bounds(), x, y) ==> #[trigger] final(self).wat(x, y)
                    == if rect_has(rect, x, y) {
                    spec_blend(blend, color, old(self).wat(x, y))
                } else {
                    old(self).wat(x, y)
                },
    {
        let top = rect.top();
        let bottom = rect.bottom();
        let left = rect.left();
        let right = rect.right();
        let mut y: i64 = top as i64;
        while y <= bottom as i64
            invariant
                self.inv(),
                self.spec_bounds() == old(self).spec_bounds(),
                top == rect.spec_top(),
                bottom == rect.spec_bottom(),
                left == rect.spec_left(),
                right == rect.spec_right(),
                top as i64 <= y <= bottom as i64 + 1,
                forall|gx: int, gy: int|
                    in_window(old(self).spec_bounds(), gx, gy) ==> #[trigger] self.wat(gx, gy)
                        == if rect_has(rect, gx, gy) && gy < y {
                        spec_blend(blend, color, old(self).wat(gx, gy))
                    } else {
                        old(self).wat(gx, gy)
                    },
            decreases bottom as i64 + 1 - y,
        {
            let mut x: i64 = left as i64;
            while x <= right as i64
                invariant
                    self.inv(),
                    self.spec_bounds() == old(self).spec_bounds(),
                    top == rect.spec_top(),
                    bottom == rect.spec_bottom(),
                    left == rect.spec_left(),
                    right == rect.spec_right(),
                    top as i64 <= y <= bottom as i64,
                    left as i64 <= x <= right as i64 + 1,
                    forall|gx: int, gy: int|
                        in_window(old(self).spec_bounds(), gx, gy) ==> #[trigger] self.wat(gx, gy)
                            == if rect_has(rect, gx, gy) && (gy < y || (gy == y && gx < x)) {
                            spec_blend(blend, color, old(self).wat(gx, gy))
                        } else {
                            old(self).wat(gx, gy)
                        },
                decreases right as i64 + 1 - x,
            {
                self.write(Point::new(x as i32, y as i32), color, blend);
                x = x + 1;
            }
            y = y + 1;
        }
    }

    /// Paint the unfilled outline of `rect`: its top and bottom rows fully,
    /// and the two side columns of every interior row.
    fn rect(&mut self, rect: Rect, color: Color, blend: BlendMode)
        requires
            old(self).inv(),
            i32::MIN <= rect.spec_right() <= i32::MAX,
            i32::MIN <= rect.spec_bottom() <= i32::MAX,
        ensures
            final(self).inv(),
            final(self).spec_bounds() == old(self).spec_bounds(),
            forall|x: int, y: int|
                in_window(old(self).spec_bounds(), x, y) ==> #[trigger] final(self).wat(x, y)
                    == if rect_outline_has(rect, x, y) {
                    spec_blend(blend, color, old(self).wat(x, y))
                } else {
                    old(self).wat(x, y)
                },
    {
        let top = rect.top();
        let bottom = rect.bottom();
        let left = rect.left();
        let right = rect.right();
        let mut y: i64 = top as i64;
        while y <= bottom as i64
            invariant
                self.inv(),
                self.spec_bounds() == old(self).spec_bounds(),
                top == rect.spec_top(),
                bottom == rect.spec_bottom(),
                left == rect.spec_left(),
                right == rect.spec_right(),
                top as i64 <= y <= bottom as i64 + 1,
                forall|gx: int, gy: int|
                    in_window(old(self).spec_bounds(), gx, gy) ==> #[trigger] self.wat(gx, gy)
                        == if rect_outline_has(rect, gx, gy) && gy < y {
                        spec_blend(blend, color, old(self).wat(gx, gy))
                    } else {
                        old(self).wat(gx, gy)
                    },
            decreases bottom as i64 + 1 - y,
        {
            if y == top as i64 || y == bottom as i64 {
                let mut x: i64 = left as i64;
                while x <= right as i64
                    invariant
                        self.inv(),
                        self.spec_bounds() == old(self).spec_bounds(),
                        top == rect.spec_top(),
                        bottom == rect.spec_bottom(),
                        left == rect.spec_left(),
                        right == rect.spec_right(),
                        top as i64 <= y <= bottom as i64,
                        y == top as i64 || y == bottom as i64,
                        left as i64 <= x <= right as i64 + 1,
                        forall|gx: int, gy: int|
                            in_window(old(self).spec_bounds(), gx, gy) ==> #[trigger] self.wat(
                                gx,
                                gy,
                            ) == if rect_outline_has(rect, gx, gy) && (gy < y || (gy == y && gx
                                < x)) {
                                spec_blend(blend, color, old(self).wat(gx, gy))
                            } else {
                                old(self).wat(gx, gy)
                            },
                    decreases right as i64 + 1 - x,
                {
                    self.write(Point::new(x as i32, y as i32), color, blend);
                    x = x + 1;
                }
            } else {
                self.write(Point::new(left, y as i32), color, blend);
                self.write(Point::new(right, y as i32), color, blend);
                proof {
                    assert(forall|gx: int, gy: int|
                        rect_outline_has(rect, gx, gy) && gy == y ==> gx == left as int || gx
                            == right as int);
                }
            }
            y = y + 1;
        }
    }

    /// For every pixel of `src` within `from`, composite it into `self` at
    /// `to + relativeOffset`. Pixels absent from `src` (outside its window)
    /// are skipped, not zero-painted.
    fn blit<R: ReadSurface>(&mut self, from: Rect, to: Point, src: &R, blend: BlendMode)
        requires
            old(self).inv(),
            src.inv(),
            i32::MIN <= from.spec_right() <= i32::MAX,
            i32::MIN <= from.spec_bottom() <= i32::MAX,
            i32::MIN <= to.x + from.origin.x,
            to.x + from.spec_right() <= i32::MAX,
            i32::MIN <= to.y + from.origin.y,
            to.y + from.spec_bottom() <= i32::MAX,
        ensures
            final(self).inv(),
            final(self).spec_bounds() == old(self).spec_bounds(),
            forall|x: int, y: int|
                in_window(old(self).spec_bounds(), x, y) ==> #[trigger] final(self).wat(x, y)
                    == if rect_has(from, x - to.x, y - to.y) && in_window(
                    src.spec_bounds(),
                    x - to.x,
                    y - to.y,
                ) {
                    spec_blend(blend, src.at(x - to.x, y - to.y), old(self).wat(x, y))
                } else {
                    old(self).wat(x, y)
                },
    {
        let top = from.top();
        let bottom = from.bottom();
        let left = from.left();
        let right = from.right();
        let mut y: i64 = top as i64;
        while y <= bottom as i64
            invariant
                self.inv(),
                src.inv(),
                self.spec_bounds() == old(self).spec_bounds(),
                top == from.spec_top(),
                bottom == from.spec_bottom(),
                left == from.spec_left(),
                right == from.spec_right(),
                i32::MIN <= to.x + from.origin.x,
                to.x + from.spec_right() <= i32::MAX,
                i32::MIN <= to.y + from.origin.y,
                to.y + from.spec_bottom() <= i32::MAX,
                top as i64 <= y <= bottom as i64 + 1,
                forall|gx: int, gy: int|
                    in_window(old(self).spec_bounds(), gx, gy) ==> #[trigger] self.wat(gx, gy)
                        == if rect_has(from, gx - to.x, gy - to.y) && in_window(
                        src.spec_bounds(),
                        gx - to.x,
                        gy - to.y,
                    ) && gy - to.y < y {
                        spec_blend(blend, src.at(gx - to.x, gy - to.y), old(self).wat(gx, gy))
                    } else {
                        old(self).wat(gx, gy)
                    },
            decreases bottom as i64 + 1 - y,
        {
            let mut x: i64 = left as i64;
            while x <= right as i64
                invariant
                    self.inv(),
                    src.inv(),
                    self.spec_bounds() == old(self).spec_bounds(),
                    top == from.spec_top(),
                    bottom == from.spec_bottom(),
                    left == from.spec_left(),
                    right == from.spec_right(),
                    i32::MIN <= to.x + from.origin.x,
                    to.x + from.spec_right() <= i32::MAX,
                    i32::MIN <= to.y + from.origin.y,
                    to.y + from.spec_bottom() <= i32::MAX,
                    top as i64 <= y <= bottom as i64,
                    left as i64 <= x <= right as i64 + 1,
                    forall|gx: int, gy: int|
                        in_window(old(self).spec_bounds(), gx, gy) ==> #[trigger] self.wat(gx, gy)
                            == if rect_has(from, gx - to.x, gy - to.y) && in_window(
                            src.spec_bounds(),
                            gx - to.x,
                            gy - to.y,
                        ) && (gy - to.y < y || (gy - to.y == y && gx - to.x < x)) {
                            spec_blend(blend, src.at(gx - to.x, gy - to.y), old(self).wat(gx, gy))
                        } else {
                            old(self).wat(gx, gy)
                        },
                decreases right as i64 + 1 - x,
            {
                let point = Point::new(x as i32, y as i32);
                if let Some(color) = src.read(point) {
                    self.write(Point::new(to.x + point.x, to.y + point.y), color, blend);
                }
                x = x + 1;
            }
            y = y + 1;
        }
    }
}

/// Whether an optional clip rectangle lets a write at `(x, y)` through.
pub open spec fn clip_allows(clip: Option<Rect>, x: int, y: int) -> bool {
    match clip {
        None => true,
        Some(c) => rect_has(c, x, y),
    }
}

/// Whether a clip rectangle's derived edges stay within the scalar range,
/// so containment tests on it are computable.
pub open spec fn clip_fits(clip: Option<Rect>) -> bool {
    match clip {
        None => true,
        Some(c) => i32::MIN <= c.spec_right() <= i32::MAX && i32::MIN <= c.spec_bottom()
            <= i32::MAX,
    }
}

/// Write one pixel through an optional clip rectangle: outside the clip the
/// write is silently dropped.
pub fn write_clipped<S: WriteSurface>(
    surface: &mut S,
    clip: Option<Rect>,
    point: Point,
    color: Color,
    blend: BlendMode,
)
    requires
        old(surface).inv(),
        clip_fits(clip),
    ensures
        final(surface).inv(),
        final(surface).spec_bounds() == old(surface).spec_bounds(),
        forall|x: int, y: int|
            in_window(old(surface).spec_bounds(), x, y) ==> #[trigger] final(surface).wat(x, y)
                == if x == point.x as int && y == point.y as int && clip_allows(clip, x, y) {
                spec_blend(blend, color, old(surface).wat(x, y))
            } else {
                old(surface).wat(x, y)
            },
        !clip_allows(clip, point.x as int, point.y as int) ==> *final(surface) == *old(surface),
{
    if let Some(c) = clip {
        if !c.contains(point) {
            return ;
        }
    }
    surface.write(point, color, blend);
}

/// Composite `color` into every pixel of `rect` that an optional clip
/// rectangle lets through.
pub fn fill_clipped<S: WriteSurface>(
    surface: &mut S,
    clip: Option<Rect>,
    rect: Rect,
    color: Color,
    blend: BlendMode,
)
    requires
        old(surface).inv(),
        clip_fits(clip),
        i32::MIN <= rect.spec_right() <= i32::MAX,
        i32::MIN <= rect.spec_bottom() <= i32::MAX,
    ensures
        final(surface).inv(),
        final(surface).spec_bounds() == old(surface).spec_bounds(),
        forall|x: int, y: int|
            in_window(old(surface).spec_bounds(), x, y) ==> #[trigger] final(surface).wat(x, y)
                == if rect_has(rect, x, y) && clip_allows(clip, x, y) {
                spec_blend(blend, color, old(surface).wat(x, y))
            } else {
                old(surface).wat(x, y)
            },
{
    let top = rect.top();
    let bottom = rect.bottom();
    let left = rect.left();
    let right = rect.right();
    let mut y: i64 = top as i64;
    while y <= bottom as i64
        invariant
            surface.inv(),
            surface.spec_bounds() == old(surface).spec_bounds(),
            clip_fits(clip),
            top == rect.spec_top(),
            bottom == rect.spec_bottom(),
            left == rect.spec_left(),
            right == rect.spec_right(),
            top as i64 <= y <= bottom as i64 + 1,
            forall|gx: int, gy: int|
                in_window(old(surface).spec_bounds(), gx, gy) ==> #[trigger] surface.wat(gx, gy)
                    == if rect_has(rect, gx, gy) && clip_allows(clip, gx, gy) && gy < y {
                    spec_blend(blend, color, old(surface).wat(gx, gy))
                } else {
                    old(surface).wat(gx, gy)
                },
        decreases bottom as i64 + 1 - y,
    {
        let mut x: i64 = left as i64;
        while x <= right as i64
            invariant
                surface.inv(),
                surface.spec_bounds() == old(surface).spec_bounds(),
                clip_fits(clip),
                top == rect.spec_top(),
                bottom == rect.spec_bottom(),
                left == rect.spec_left(),
                right == rect.spec_right(),
                top as i64 <= y <= bottom as i64,
                left as i64 <= x <= right as i64 + 1,
                forall|gx: int, gy: int|
                    in_window(old(surface).spec_bounds(), gx, gy) ==> #[trigger] surface.wat(
                        gx,
                        gy,
                    ) == if rect_has(rect, gx, gy) && clip_allows(clip, gx, gy) && (gy < y || (gy
                        == y && gx < x)) {
                        spec_blend(blend, color, old(surface).wat(gx, gy))
                    } else {
                        old(surface).wat(gx, gy)
                    },
            decreases right as i64 + 1 - x,
        {
            write_clipped(surface, clip, Point::new(x as i32, y as i32), color, blend);
            x = x + 1;
        }
        y = y + 1;
    }
}

/// The rectangle admitting exactly the pixels (at non-negative
/// coordinates below the scalar maximum, which covers every window
/// coordinate) that both the optional clip and `b` admit.
pub fn intersect_clip(clip: Option<Rect>, b: Rect) -> (r: Rect)
    requires
        clip_fits(clip),
        i32::MIN <= b.spec_right() <= i32::MAX,
        i32::MIN <= b.spec_bottom() <= i32::MAX,
    ensures
        i32::MIN <= r.spec_right() <= i32::MAX,
        i32::MIN <= r.spec_bottom() <= i32::MAX,
        forall|x: int, y: int|
            0 <= x < i32::MAX && 0 <= y < i32::MAX ==> (#[trigger] rect_has(r, x, y) <==> (
            clip_allows(clip, x, y) && rect_has(b, x, y))),
{
    let bx: i64 = b.origin.x as i64;
    let by: i64 = b.origin.y as i64;
    let br: i64 = b.right() as i64;
    let bb: i64 = b.bottom() as i64;
    let (cx, cy, cr, cb): (i64, i64, i64, i64) = match clip {
        None => (i64::MIN, i64::MIN, i64::MAX, i64::MAX),
        Some(c) => (c.origin.x as i64, c.origin.y as i64, c.right() as i64, c.bottom() as i64),
    };
    let ox = if bx >= cx {
        bx
    } else {
        cx
    };
    let oy = if by >= cy {
        by
    } else {
        cy
    };
    let er = if br <= cr {
        br
    } else {
        cr
    };
    let eb = if bb <= cb {
        bb
    } else {
        cb
    };
    // clamp to the coordinates a surface window can hold, so the size
    // arithmetic below stays in range
    let ox2 = if ox >= 0 {
        ox
    } else {
        0
    };
    let oy2 = if oy >= 0 {
        oy
    } else {
        0
    };
    let er2 = if er <= (i32::MAX - 1) as i64 {
        er
    } else {
        (i32::MAX - 1) as i64
    };
    let eb2 = if eb <= (i32::MAX - 1) as i64 {
        eb
    } else {
        (i32::MAX - 1) as i64
    };
    if er2 < ox2 || eb2 < oy2 {
        Rect {
            origin: Point { x: i32::MIN, y: i32::MIN },
            size: Size { width: 0, height: 0 },
        }
    } else {
        Rect {
            origin: Point { x: ox2 as i32, y: oy2 as i32 },
            size: Size {
                width: (er2 - ox2 + 1) as i32,
                height: (eb2 - oy2 + 1) as i32,
            },
        }
    }
}

proof fn lemma_push_contains<A>(s: Seq<A>, x: A, q: A)
    ensures
        s.push(x).contains(q) <==> (s.contains(q) || q == x),
{
    if s.push(x).contains(q) {
        let i = choose|i: int| 0 <= i < s.push(x).len() && s.push(x)[i] == q;
        if i < s.len() {
            assert(s[i] == q);
        }
    }
    if s.contains(q) {
        let i = choose|i: int| 0 <= i < s.len() && s[i] == q;
        assert(s.push(x)[i] == q);
    }
    if q == x {
        assert(s.push(x)[s.len() as int] == q);
    }
}

/// The signed-error seed of the Bresenham walk from a delta pair:
/// `max(dx, -dy) / 2` with the division truncating toward zero.
pub open spec fn bres_err0(dx: int, dy: int) -> int {
    if dx > dy {
        dx / 2
    } else {
        -(dy / 2)
    }
}

/// One step of the Bresenham walk: from position `p` with error term `err`,
/// the next position and error term.
pub open spec fn bres_step(p: (int, int), dx: int, dy: int, sx: int, sy: int, err: int) -> (
    (int, int),
    int,
) {
    let xs = if err > -dx {
        ((p.0 + sx, p.1), err - dy)
    } else {
        (p, err)
    };
    if err < dy {
        ((xs.0.0, xs.0.1 + sy), xs.1 + dx)
    } else {
        xs
    }
}

/// The positions the Bresenham walk visits from `p` until it reaches `to`
/// or runs out of `fuel`, both ends inclusive.
pub open spec fn bres_points(
    p: (int, int),
    to: (int, int),
    dx: int,
    dy: int,
    sx: int,
    sy: int,
    err: int,
    fuel: nat,
) -> Seq<(int, int)>
    decreases fuel,
{
    if p == to || fuel == 0 {
        seq![p]
    } else {
        let next = bres_step(p, dx, dy, sx, sy, err);
        seq![p] + bres_points(next.0, to, dx, dy, sx, sy, next.1, (fuel - 1) as nat)
    }
}

/// The set of pixels on the single-pixel-wide Bresenham line from `from` to
/// `to`, both endpoints included.
pub open spec fn spec_line_points(from: Point, to: Point) -> Seq<(int, int)> {
    let dx = vstd::math::abs(to.x - from.x) as int;
    let dy = vstd::math::abs(to.y - from.y) as int;
    let sx: int = if from.x < to.x {
        1
    } else {
        -1
    };
    let sy: int = if from.y < to.y {
        1
    } else {
        -1
    };
    bres_points(
        (from.x as int, from.y as int),
        (to.x as int, to.y as int),
        dx,
        dy,
        sx,
        sy,
        bres_err0(dx, dy),
        (dx + dy) as nat,
    )
}

/// A packed color-per-pixel surface backed by an owned buffer: `stride`
/// colors per row, with the addressable window given by `bounds` (its origin
/// is the window's offset inside the buffer).
pub struct SliceSurface {
    slice_data: Vec<Color>,
    stride: Scalar,
    bounds: Rect,
}

/// The packed-color surface used for glyph stencils and full-scene
/// framebuffers.
pub type VecSurface = SliceSurface;

/// Validity of a packed-color layout: every window pixel maps to an index
/// inside a buffer of `len` colors.
pub open spec fn slice_layout_ok(len: int, stride: int, bounds: Rect) -> bool {
    &&& 0 <= stride
    &&& len <= i32::MAX
    &&& 0 <= bounds.origin.x
    &&& 0 <= bounds.origin.y
    &&& bounds.size.width > 0 ==> bounds.origin.x + bounds.size.width <= stride
    &&& bounds.size.width > 0 && bounds.size.height > 0 ==> (bounds.origin.y + bounds.size.height
        - 1) * stride + bounds.origin.x + bounds.size.width <= len
}

impl SliceSurface {
    /// Wrap an owned color buffer. `stride` is the row length in pixels and
    /// `bounds` the addressable window, whose origin offsets into the buffer.
    pub fn new(slice: Vec<Color>, stride: Scalar, bounds: Rect) -> (r: SliceSurface)
        requires
            slice_layout_ok(slice.len() as int, stride as int, bounds),
        ensures
            r.inv(),
            r.spec_bounds() == bounds,
            forall|x: int, y: int|
                in_window(bounds, x, y) ==> #[trigger] r.at(x, y) == slice@[(bounds.origin.x + x)
                    + (bounds.origin.y + y) * stride],
    {
        SliceSurface { slice_data: slice, stride, bounds }
    }

    /// A zero-origin surface of the given size, every pixel opaque black.
    pub fn from_size(size: Size) -> (r: VecSurface)
        requires
            0 <= size.width,
            0 <= size.height,
            size.width * size.height <= i32::MAX,
        ensures
            r.inv(),
            r.spec_bounds() == (Rect { origin: Point { x: 0, y: 0 }, size }),
            forall|x: int, y: int|
                in_window(r.spec_bounds(), x, y) ==> #[trigger] r.at(x, y) == Color::spec_black(),
    {
        proof {
            if size.width > 0 && size.height > 0 {
                assert((size.height - 1) * size.width + size.width == size.width * size.height)
                    by (nonlinear_arith);
            }
        }
        let n = (size.width * size.height) as usize;
        let mut data: Vec<Color> = Vec::new();
        while data.len() < n
            invariant
                data.len() <= n,
                forall|i: int| 0 <= i < data.len() ==> data@[i] == Color::spec_black(),
            decreases n - data.len(),
        {
            data.push(Color::black());
        }
        let r = SliceSurface {
            slice_data: data,
            stride: size.width,
            bounds: Rect { origin: Point { x: 0, y: 0 }, size },
        };
        proof {
            assert forall|x: int, y: int| in_window(r.spec_bounds(), x, y) implies #[trigger] r.at(
                x,
                y,
            ) == Color::spec_black() by {
                lemma_slice_index_in_range(
                    r.slice_data.len() as int,
                    r.stride as int,
                    r.bounds,
                    x,
                    y,
                );
            }
        }
        r
    }
}

impl Surface for SliceSurface {
    closed spec fn inv(&self) -> bool {
        slice_layout_ok(self.slice_data.len() as int, self.stride as int, self.bounds)
    }

    closed spec fn spec_bounds(&self) -> Rect {
        self.bounds
    }

    fn bounds(&self) -> (r: Rect) {
        self.bounds
    }
}

/// The buffer index holding window pixel `(x, y)` of a surface with the
/// given window and stride.
pub open spec fn slice_index(bounds: Rect, stride: int, x: int, y: int) -> int {
    (bounds.origin.x + x) + (bounds.origin.y + y) * stride
}

proof fn lemma_slice_index_in_range(len: int, stride: int, bounds: Rect, x: int, y: int)
    requires
        slice_layout_ok(len, stride, bounds),
        in_window(bounds, x, y),
    ensures
        0 <= slice_index(bounds, stride, x, y) < len,
        (bounds.origin.y + y) * stride <= (bounds.origin.y + bounds.size.height - 1) * stride,
        0 <= (bounds.origin.y + y) * stride,
        bounds.origin.y + y < len,
        stride >= 1,
{
    lemma_mul_nonnegative(bounds.origin.y + y, stride);
    lemma_mul_inequality(bounds.origin.y + y, bounds.origin.y + bounds.size.height - 1, stride);
    assert(bounds.origin.y + y <= (bounds.origin.y + y) * stride) by (nonlinear_arith)
        requires
            stride >= 1,
            bounds.origin.y + y >= 0,
    ;
}

proof fn lemma_slice_index_injective(bounds: Rect, stride: int, x1: int, y1: int, x2: int, y2: int)
    requires
        0 <= bounds.origin.x,
        bounds.size.width > 0 ==> bounds.origin.x + bounds.size.width <= stride,
        in_window(bounds, x1, y1),
        in_window(bounds, x2, y2),
        slice_index(bounds, stride, x1, y1) == slice_index(bounds, stride, x2, y2),
    ensures
        x1 == x2 && y1 == y2,
{
    if y1 != y2 {
        assert(false) by (nonlinear_arith)
            requires
                0 <= bounds.origin.x,
                bounds.origin.x + x1 + (bounds.origin.y + y1) * stride == bounds.origin.x + x2 + (
                bounds.origin.y + y2) * stride,
                0 <= x1 < bounds.size.width,
                0 <= x2 < bounds.size.width,
                bounds.origin.x + bounds.size.width <= stride,
                y1 != y2,
        ;
    }
}

/// An interleaved 4-byte-per-pixel RGBA surface: each window pixel occupies
/// bytes `(x + y*stride)*4 ..= (x + y*stride)*4 + 3` of the buffer in the
/// fixed channel order red, green, blue, alpha. `stride` counts pixels, not
/// bytes, so the type can address an externally produced texture layout.
pub struct U8SliceSurface {
    u8_data: Vec<u8>,
    stride: Scalar,
    bounds: Rect,
}

/// Validity of an interleaved RGBA layout: every window pixel's four bytes
/// lie inside a buffer of `len` bytes.
pub open spec fn u8_layout_ok(len: int, stride: int, bounds: Rect) -> bool {
    &&& 0 <= stride
    &&& len <= i32::MAX
    &&& 0 <= bounds.origin.x
    &&& 0 <= bounds.origin.y
    &&& bounds.size.width > 0 ==> bounds.origin.x + bounds.size.width <= stride
    &&& bounds.size.width > 0 && bounds.size.height > 0 ==> ((bounds.origin.y
        + bounds.size.height - 1) * stride + bounds.origin.x + bounds.size.width) * 4 <= len
}

/// The color spelled by the four bytes of window pixel `(x, y)`.
pub open spec fn u8_color_at(data: Seq<u8>, bounds: Rect, stride: int, x: int, y: int) -> Color {
    let o = slice_index(bounds, stride, x, y) * 4;
    Color { red: data[o], green: data[o + 1], blue: data[o + 2], alpha: data[o + 3] }
}

proof fn lemma_u8_index_in_range(len: int, stride: int, bounds: Rect, x: int, y: int)
    requires
        u8_layout_ok(len, stride, bounds),
        in_window(bounds, x, y),
    ensures
        0 <= slice_index(bounds, stride, x, y),
        slice_index(bounds, stride, x, y) * 4 + 3 < len,
        (bounds.origin.y + y) * stride <= (bounds.origin.y + bounds.size.height - 1) * stride,
        0 <= (bounds.origin.y + y) * stride,
        4 * (bounds.origin.y + y) < len,
        stride >= 1,
{
    lemma_mul_nonnegative(bounds.origin.y + y, stride);
    lemma_mul_inequality(bounds.origin.y + y, bounds.origin.y + bounds.size.height - 1, stride);
    assert(bounds.origin.y + y <= (bounds.origin.y + y) * stride) by (nonlinear_arith)
        requires
            stride >= 1,
            bounds.origin.y + y >= 0,
    ;
}

impl U8SliceSurface {
    /// Wrap an owned RGBA byte buffer. `stride` is the row length in pixels;
    /// `bounds` is the addressable window, whose origin offsets into the
    /// buffer.
    pub fn new(slice: Vec<u8>, stride: Scalar, bounds: Rect) -> (r: U8SliceSurface)
        requires
            u8_layout_ok(slice.len() as int, stride as int, bounds),
        ensures
            r.inv(),
            r.spec_bounds() == bounds,
            r.spec_bytes() == slice@,
            forall|x: int, y: int|
                in_window(bounds, x, y) ==> #[trigger] r.at(x, y) == u8_color_at(
                    slice@,
                    bounds,
                    stride as int,
                    x,
                    y,
                ),
    {
        U8SliceSurface { u8_data: slice, stride, bounds }
    }

    /// The backing byte buffer, for handing the rendered frame back to
    /// whoever owns the texture.
    pub fn bytes(&self) -> (r: &Vec<u8>)
        ensures
            r@ == self.spec_bytes(),
    {
        &self.u8_data
    }

    /// The view of the backing byte buffer.
    pub closed spec fn spec_bytes(&self) -> Seq<u8> {
        self.u8_data@
    }
}

impl Surface for U8SliceSurface {
    closed spec fn inv(&self) -> bool {
        u8_layout_ok(self.u8_data.len() as int, self.stride as int, self.bounds)
    }

    closed spec fn spec_bounds(&self) -> Rect {
        self.bounds
    }

    fn bounds(&self) -> (r: Rect) {
        self.bounds
    }
}

impl ReadSurface for U8SliceSurface {
    closed spec fn at(&self, x: int, y: int) -> Color {
        u8_color_at(self.u8_data@, self.bounds, self.stride as int, x, y)
    }

    fn read(&self, point: Point) -> (r: Option<Color>) {
        let size = self.bounds.size;
        if point.x < 0 || point.x >= size.width {
            return None;
        }
        if point.y < 0 || point.y >= size.height {
            return None;
        }
        proof {
            lemma_u8_index_in_range(
                self.u8_data.len() as int,
                self.stride as int,
                self.bounds,
                point.x as int,
                point.y as int,
            );
        }
        let x = self.bounds.origin.x + point.x;
        let y = self.bounds.origin.y + point.y;
        let offset = (x + y * self.stride) * 4;
        Some(
            Color::new(
                self.u8_data[offset as usize],
                self.u8_data[offset as usize + 1],
                self.u8_data[offset as usize + 2],
                self.u8_data[offset as usize + 3],
            ),
        )
    }
}

impl WriteSurface for U8SliceSurface {
    closed spec fn wat(&self, x: int, y: int) -> Color {
        u8_color_at(self.u8_data@, self.bounds, self.stride as int, x, y)
    }

    fn write(&mut self, point: Point, color: Color, blend: BlendMode) {
        let size = self.bounds.size;
        if point.x < 0 || point.x >= size.width {
            return ;
        }
        if point.y < 0 || point.y >= size.height {
            return ;
        }
        proof {
            lemma_u8_index_in_range(
                self.u8_data.len() as int,
                self.stride as int,
                self.bounds,
                point.x as int,
                point.y as int,
            );
        }
        let x = self.bounds.origin.x + point.x;
        let y = self.bounds.origin.y + point.y;
        let offset = ((x + y * self.stride) * 4) as usize;

        let dst_red = self.u8_data[offset];
        self.u8_data.set(offset, blend.blend_channel(color.red, color.alpha, dst_red));
        let dst_green = self.u8_data[offset + 1];
        self.u8_data.set(offset + 1, blend.blend_channel(color.green, color.alpha, dst_green));
        let dst_blue = self.u8_data[offset + 2];
        self.u8_data.set(offset + 2, blend.blend_channel(color.blue, color.alpha, dst_blue));
        let dst_alpha = self.u8_data[offset + 3];
        self.u8_data.set(offset + 3, blend.blend_channel(color.alpha, color.alpha, dst_alpha));

        proof {
            assert forall|gx: int, gy: int|
                in_window(old(self).spec_bounds(), gx, gy) implies #[trigger] self.wat(gx, gy)
                == if gx == point.x as int && gy == point.y as int {
                spec_blend(blend, color, old(self).wat(gx, gy))
            } else {
                old(self).wat(gx, gy)
            } by {
                lemma_u8_index_in_range(
                    old(self).u8_data.len() as int,
                    self.stride as int,
                    self.bounds,
                    gx,
                    gy,
                );
                if gx == point.x as int && gy == point.y as int {
                    crate::gfx::color::lemma_blend_channelwise(
                        blend,
                        color,
                        old(self).wat(gx, gy),
                    );
                } else {
                    if slice_index(self.bounds, self.stride as int, gx, gy) == slice_index(
                        self.bounds,
                        self.stride as int,
                        point.x as int,
                        point.y as int,
                    ) {
                        lemma_slice_index_injective(
                            self.bounds,
                            self.stride as int,
                            gx,
                            gy,
                            point.x as int,
                            point.y as int,
                        );
                    }
                }
            }
        }
    }
}

/// A packed surface reads back exactly what was written: its two views
/// are one.
pub broadcast proof fn lemma_slice_at_wat(s: SliceSurface, x: int, y: int)
    ensures
        #[trigger] s.at(x, y) == s.wat(x, y),
{
}

impl ReadSurface for SliceSurface {
    closed spec fn at(&self, x: int, y: int) -> Color {
        self.slice_data@[slice_index(self.bounds, self.stride as int, x, y)]
    }

    fn read(&self, point: Point) -> (r: Option<Color>) {
        let size = self.bounds.size;
        if point.x < 0 || point.x >= size.width {
            return None;
        }
        if point.y < 0 || point.y >= size.height {
            return None;
        }
        proof {
            lemma_slice_index_in_range(
                self.slice_data.len() as int,
                self.stride as int,
                self.bounds,
                point.x as int,
                point.y as int,
            );
        }
        let x = self.bounds.origin.x + point.x;
        let y = self.bounds.origin.y + point.y;
        let offset = x + y * self.stride;
        Some(self.slice_data[offset as usize])
    }
}

impl WriteSurface for SliceSurface {
    closed spec fn wat(&self, x: int, y: int) -> Color {
        self.slice_data@[slice_index(self.bounds, self.stride as int, x, y)]
    }

    fn write(&mut self, point: Point, color: Color, blend: BlendMode) {
        let size = self.bounds.size;
        if point.x < 0 || point.x >= size.width {
            return ;
        }
        if point.y < 0 || point.y >= size.height {
            return ;
        }
        proof {
            lemma_slice_index_in_range(
                self.slice_data.len() as int,
                self.stride as int,
                self.bounds,
                point.x as int,
                point.y as int,
            );
        }
        let x = self.bounds.origin.x + point.x;
        let y = self.bounds.origin.y + point.y;
        let offset = x + y * self.stride;
        let dst = self.slice_data[offset as usize];
        self.slice_data.set(offset as usize, blend.blend(color, dst));
        proof {
            assert forall|gx: int, gy: int|
                in_window(old(self).spec_bounds(), gx, gy) && !(gx == point.x as int && gy
                    == point.y as int) implies self.wat(gx, gy) == old(self).wat(gx, gy) by {
                lemma_slice_index_in_range(
                    self.slice_data.len() as int,
                    self.stride as int,
                    self.bounds,
                    gx,
                    gy,
                );
                if slice_index(self.bounds, self.stride as int, gx, gy) == slice_index(
                    self.bounds,
                    self.stride as int,
                    point.x as int,
                    point.y as int,
                ) {
                    lemma_slice_index_injective(
                        self.bounds,
                        self.stride as int,
                        gx,
                        gy,
                        point.x as int,
                        point.y as int,
                    );
                }
            }
        }
    }
}

} // verus!
