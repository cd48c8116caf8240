//! Integer 2D geometry: points, sizes and axis-aligned rectangles.
//!
//! All coordinates are `Scalar` (`i32`) pixels. The arithmetic here is pure
//! value arithmetic; every operation states its exact result, with
//! preconditions only where `i32` range limits force them.

use vstd::prelude::*;

verus! {

/// The coordinate type of the whole toolkit: screen-space pixels.
pub type Scalar = i32;

/// A screen-space pixel coordinate.
#[derive(Copy, Clone, Debug, PartialEq, Eq, Structural)]
pub struct Point {
    pub x: Scalar,
    pub y: Scalar,
}

impl Point {
    /// The origin, `(0, 0)`.
    pub open spec fn spec_zero() -> Point {
        Point { x: 0, y: 0 }
    }

    #[verifier::when_used_as_spec(spec_zero)]
    pub fn zero() -> (r: Point)
        ensures
            r == Point::spec_zero(),
    {
        Point { x: 0, y: 0 }
    }

    pub fn new(x: Scalar, y: Scalar) -> (r: Point)
        ensures
            r == (Point { x, y }),
    {
        Point { x, y }
    }

    /// Componentwise translation.
    pub fn add(self, rhs: Point) -> (r: Point)
        requires
            i32::MIN <= self.x + rhs.x <= i32::MAX,
            i32::MIN <= self.y + rhs.y <= i32::MAX,
        ensures
            r.x == self.x + rhs.x,
            r.y == self.y + rhs.y,
    {
        Point { x: self.x + rhs.x, y: self.y + rhs.y }
    }

    /// Componentwise difference.
    pub fn sub(self, rhs: Point) -> (r: Point)
        requires
            i32::MIN <= self.x - rhs.x <= i32::MAX,
            i32::MIN <= self.y - rhs.y <= i32::MAX,
        ensures
            r.x == self.x - rhs.x,
            r.y == self.y - rhs.y,
    {
        Point { x: self.x - rhs.x, y: self.y - rhs.y }
    }

    /// Scale both coordinates by an integer factor.
    pub fn mul(self, k: Scalar) -> (r: Point)
        requires
            i32::MIN <= self.x * k <= i32::MAX,
            i32::MIN <= self.y * k <= i32::MAX,
        ensures
            r.x == self.x * k,
            r.y == self.y * k,
    {
        Point { x: self.x * k, y: self.y * k }
    }

    /// Divide both coordinates by an integer factor, truncating toward
    /// zero.
    pub fn div(self, k: Scalar) -> (r: Point)
        requires
            k != 0,
            !(self.x == i32::MIN && k == -1),
            !(self.y == i32::MIN && k == -1),
        ensures
            r.x == spec_div_trunc(self.x as int, k as int),
            r.y == spec_div_trunc(self.y as int, k as int),
    {
        let ak: i64 = if k < 0 {
            -(k as i64)
        } else {
            k as i64
        };
        let ax: i64 = if self.x < 0 {
            -(self.x as i64)
        } else {
            self.x as i64
        };
        let ay: i64 = if self.y < 0 {
            -(self.y as i64)
        } else {
            self.y as i64
        };
        let qx = ax / ak;
        let qy = ay / ak;
        proof {
            lemma_abs_div_bounds(ax as int, ak as int, qx as int);
            lemma_abs_div_bounds(ay as int, ak as int, qy as int);
        }
        let rx: i32 = if (self.x < 0) != (k < 0) {
            (-qx) as i32
        } else {
            proof {
                if qx >= 0x8000_0000 {
                    assert(self.x == i32::MIN && k == -1);
                }
            }
            qx as i32
        };
        let ry: i32 = if (self.y < 0) != (k < 0) {
            (-qy) as i32
        } else {
            proof {
                if qy >= 0x8000_0000 {
                    assert(self.y == i32::MIN && k == -1);
                }
            }
            qy as i32
        };
        Point { x: rx, y: ry }
    }
}


/// The quotient of non-negative `a` by positive `d` reaches `a` only when
/// `d` is one, and never exceeds it.
proof fn lemma_abs_div_bounds(a: int, d: int, q: int)
    requires
        0 <= a <= 0x8000_0000,
        1 <= d,
        q == a / d,
    ensures
        0 <= q <= a,
        q >= 0x8000_0000 ==> d == 1 && a == 0x8000_0000,
{
    vstd::arithmetic::div_mod::lemma_div_pos_is_pos(a, d);
    vstd::arithmetic::div_mod::lemma_div_nonincreasing(a, d);
    if q >= 0x8000_0000 {
        assert(a == 0x8000_0000);
        if d >= 2 {
            vstd::arithmetic::div_mod::lemma_div_is_ordered_by_denominator(a, 2, d);
            assert(a / 2 == 0x4000_0000);
            assert(false);
        }
    }
}

/// Integer division as the machine performs it: truncating toward zero.
pub open spec fn spec_div_trunc(a: int, b: int) -> int {
    let q = vstd::math::abs(a) as int / vstd::math::abs(b) as int;
    if (a < 0) != (b < 0) {
        -q
    } else {
        q
    }
}

/// A width/height pair. Non-negative in practice, but the type does not
/// enforce it; consumers treat negative extents as empty.
#[derive(Copy, Clone, Debug, PartialEq, Eq, Structural)]
pub struct Size {
    pub width: Scalar,
    pub height: Scalar,
}

impl Size {
    /// The empty size, `(0, 0)`.
    pub open spec fn spec_zero() -> Size {
        Size { width: 0, height: 0 }
    }

    #[verifier::when_used_as_spec(spec_zero)]
    pub fn zero() -> (r: Size)
        ensures
            r == Size::spec_zero(),
    {
        Size { width: 0, height: 0 }
    }

    pub fn new(width: Scalar, height: Scalar) -> (r: Size)
        ensures
            r == (Size { width, height }),
    {
        Size { width, height }
    }

    pub fn width(&self) -> (r: Scalar)
        ensures
            r == self.width,
    {
        self.width
    }

    pub fn height(&self) -> (r: Scalar)
        ensures
            r == self.height,
    {
        self.height
    }

    pub fn is_zero(&self) -> (r: bool)
        ensures
            r == (self.width == 0 && self.height == 0),
    {
        self.width == 0 && self.height == 0
    }

    /// The componentwise minimum of two sizes.
    pub open spec fn spec_limit(self, size: Size) -> Size {
        Size {
            width: if self.width <= size.width { self.width } else { size.width },
            height: if self.height <= size.height { self.height } else { size.height },
        }
    }

    /// Clamp componentwise to the smaller of each dimension.
    pub fn limit(&self, size: Size) -> (r: Size)
        ensures
            r == self.spec_limit(size),
    {
        Size {
            width: if self.width <= size.width { self.width } else { size.width },
            height: if self.height <= size.height { self.height } else { size.height },
        }
    }

    /// The componentwise maximum of two sizes.
    pub open spec fn spec_max(self, size: Size) -> Size {
        Size {
            width: if self.width >= size.width { self.width } else { size.width },
            height: if self.height >= size.height { self.height } else { size.height },
        }
    }

    /// Take the larger of each dimension.
    pub fn max(&self, size: Size) -> (r: Size)
        ensures
            r == self.spec_max(size),
    {
        Size {
            width: if self.width >= size.width { self.width } else { size.width },
            height: if self.height >= size.height { self.height } else { size.height },
        }
    }

    /// Componentwise sum.
    pub fn add(self, rhs: Size) -> (r: Size)
        requires
            i32::MIN <= self.width + rhs.width <= i32::MAX,
            i32::MIN <= self.height + rhs.height <= i32::MAX,
        ensures
            r.width == self.width + rhs.width,
            r.height == self.height + rhs.height,
    {
        Size { width: self.width + rhs.width, height: self.height + rhs.height }
    }

    /// Componentwise difference.
    pub fn sub(self, rhs: Size) -> (r: Size)
        requires
            i32::MIN <= self.width - rhs.width <= i32::MAX,
            i32::MIN <= self.height - rhs.height <= i32::MAX,
        ensures
            r.width == self.width - rhs.width,
            r.height == self.height - rhs.height,
    {
        Size { width: self.width - rhs.width, height: self.height - rhs.height }
    }

    /// Scale both dimensions by an integer factor.
    pub fn mul(self, k: Scalar) -> (r: Size)
        requires
            i32::MIN <= self.width * k <= i32::MAX,
            i32::MIN <= self.height * k <= i32::MAX,
        ensures
            r.width == self.width * k,
            r.height == self.height * k,
    {
        Size { width: self.width * k, height: self.height * k }
    }

    /// Divide both dimensions by an integer factor, truncating toward
    /// zero.
    pub fn div(self, k: Scalar) -> (r: Size)
        requires
            k != 0,
            !(self.width == i32::MIN && k == -1),
            !(self.height == i32::MIN && k == -1),
        ensures
            r.width == spec_div_trunc(self.width as int, k as int),
            r.height == spec_div_trunc(self.height as int, k as int),
    {
        let ak: i64 = if k < 0 {
            -(k as i64)
        } else {
            k as i64
        };
        let aw: i64 = if self.width < 0 {
            -(self.width as i64)
        } else {
            self.width as i64
        };
        let ah: i64 = if self.height < 0 {
            -(self.height as i64)
        } else {
            self.height as i64
        };
        let qw = aw / ak;
        let qh = ah / ak;
        proof {
            lemma_abs_div_bounds(aw as int, ak as int, qw as int);
            lemma_abs_div_bounds(ah as int, ak as int, qh as int);
        }
        let rw: i32 = if (self.width < 0) != (k < 0) {
            (-qw) as i32
        } else {
            proof {
                if qw >= 0x8000_0000 {
                    assert(self.width == i32::MIN && k == -1);
                }
            }
            qw as i32
        };
        let rh: i32 = if (self.height < 0) != (k < 0) {
            (-qh) as i32
        } else {
            proof {
                if qh >= 0x8000_0000 {
                    assert(self.height == i32::MIN && k == -1);
                }
            }
            qh as i32
        };
        Size { width: rw, height: rh }
    }
}

/// An axis-aligned rectangle given by its top-left corner and its size.
#[derive(Copy, Clone, Debug, PartialEq, Eq, Structural)]
pub struct Rect {
    pub origin: Point,
    pub size: Size,
}

impl Rect {
    pub fn new(origin: Point, size: Size) -> (r: Rect)
        ensures
            r == (Rect { origin, size }),
    {
        Rect { origin, size }
    }

    /// A rectangle of the given size with its origin at `(0, 0)`.
    pub fn sized(size: Size) -> (r: Rect)
        ensures
            r.origin == Point::spec_zero(),
            r.size == size,
    {
        Rect { origin: Point { x: 0, y: 0 }, size }
    }

    pub fn is_zero(&self) -> (r: bool)
        ensures
            r == (self.size.width == 0 && self.size.height == 0),
    {
        self.size.is_zero()
    }

    pub fn width(&self) -> (r: Scalar)
        ensures
            r == self.size.width,
    {
        self.size.width
    }

    pub fn height(&self) -> (r: Scalar)
        ensures
            r == self.size.height,
    {
        self.size.height
    }

    pub open spec fn spec_top(self) -> int {
        self.origin.y as int
    }

    pub fn top(&self) -> (r: Scalar)
        ensures
            r == self.spec_top(),
    {
        self.origin.y
    }

    pub open spec fn spec_left(self) -> int {
        self.origin.x as int
    }

    pub fn left(&self) -> (r: Scalar)
        ensures
            r == self.spec_left(),
    {
        self.origin.x
    }

    /// The y coordinate of the lowest row: `origin.y + max(height - 1, 0)`,
    /// so a zero- or negative-height rectangle's bottom equals its top.
    pub open spec fn spec_bottom(self) -> int {
        self.origin.y + if self.size.height - 1 < 0 {
            0int
        } else {
            self.size.height - 1
        }
    }

    pub fn bottom(&self) -> (r: Scalar)
        requires
            i32::MIN <= self.spec_bottom() <= i32::MAX,
        ensures
            r == self.spec_bottom(),
    {
        self.origin.y + (if self.size.height < 1 {
            0
        } else {
            self.size.height - 1
        })
    }

    /// The x coordinate of the rightmost column: `origin.x + max(width - 1, 0)`.
    pub open spec fn spec_right(self) -> int {
        self.origin.x + if self.size.width - 1 < 0 {
            0int
        } else {
            self.size.width - 1
        }
    }

    pub fn right(&self) -> (r: Scalar)
        requires
            i32::MIN <= self.spec_right() <= i32::MAX,
        ensures
            r == self.spec_right(),
    {
        self.origin.x + (if self.size.width < 1 {
            0
        } else {
            self.size.width - 1
        })
    }

    /// The rectangle shrunk by the given amount on each edge. May produce a
    /// negative size when the insets exceed the rectangle.
    pub open spec fn spec_inset(self, top: int, left: int, bottom: int, right: int) -> Rect {
        Rect {
            origin: Point {
                x: (self.origin.x + left) as i32,
                y: (self.origin.y + top) as i32,
            },
            size: Size {
                width: (self.size.width - (left + right)) as i32,
                height: (self.size.height - (top + bottom)) as i32,
            },
        }
    }

    pub fn inset(&self, top: Scalar, left: Scalar, bottom: Scalar, right: Scalar) -> (r: Rect)
        requires
            i32::MIN <= self.origin.x + left <= i32::MAX,
            i32::MIN <= self.origin.y + top <= i32::MAX,
            i32::MIN <= left + right <= i32::MAX,
            i32::MIN <= top + bottom <= i32::MAX,
            i32::MIN <= self.size.width - (left + right) <= i32::MAX,
            i32::MIN <= self.size.height - (top + bottom) <= i32::MAX,
        ensures
            r == self.spec_inset(top as int, left as int, bottom as int, right as int),
    {
        Rect {
            origin: Point { x: self.origin.x + left, y: self.origin.y + top },
            size: Size {
                width: self.size.width - (left + right),
                height: self.size.height - (top + bottom),
            },
        }
    }

    /// Whether `point` lies within the rectangle, inclusive on all four edges.
    pub open spec fn spec_contains(self, point: Point) -> bool {
        &&& self.origin.x <= point.x
        &&& point.x <= self.spec_right()
        &&& self.origin.y <= point.y
        &&& point.y <= self.spec_bottom()
    }

    pub fn contains(&self, point: Point) -> (r: bool)
        requires
            i32::MIN <= self.spec_right() <= i32::MAX,
            i32::MIN <= self.spec_bottom() <= i32::MAX,
        ensures
            r == self.spec_contains(point),
    {
        if point.x < self.origin.x || point.x > self.right() {
            return false;
        }
        if point.y < self.origin.y || point.y > self.bottom() {
            return false;
        }
        true
    }
}

/// Insetting by zero on every edge is the identity.
pub proof fn lemma_inset_zero_identity(r: Rect)
    ensures
        r.spec_inset(0, 0, 0, 0) == r,
{
}

/// Clamping to a limit never exceeds either operand, in either dimension.
pub proof fn lemma_limit_bounded(a: Size, b: Size)
    ensures
        a.spec_limit(b).width <= a.width,
        a.spec_limit(b).width <= b.width,
        a.spec_limit(b).height <= a.height,
        a.spec_limit(b).height <= b.height,
{
}

} // verus!
