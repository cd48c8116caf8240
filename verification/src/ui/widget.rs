//! Widget descriptors and the measure/render/hit-test protocol.
//!
//! A widget tree is built afresh every frame from the variants below and
//! carries only borrowed leaf data (font references, text). Measurement is
//! a pure top-down query: a node reports the size it would occupy under an
//! offered limit. Rendering paints a node into resolved bounds and returns
//! at most one hit: the innermost widget carrying an id whose final bounds
//! contain the cursor, with later siblings taking precedence.

use vstd::prelude::*;
use crate::gfx::bdf::BdfFont;
use crate::gfx::color::spec_blend;
use crate::gfx::color::BlendMode;
use crate::gfx::color::Color;
use crate::gfx::font::font_ok;
use crate::gfx::font::layout_fits;
use crate::gfx::font::measure_text;
use crate::gfx::font::render_text;
use crate::gfx::font::spec_layout_size;
use crate::gfx::font::text_ink_at;
use crate::gfx::font::MAX_TEXT_LEN;
use crate::gfx::geom::Point;
use crate::gfx::geom::Rect;
use crate::gfx::geom::Scalar;
use crate::gfx::geom::Size;
use crate::gfx::surface::clip_allows;
use crate::gfx::surface::clip_fits;
use crate::gfx::surface::in_window;
use crate::gfx::surface::rect_has;
use crate::gfx::surface::fill_clipped;
use crate::gfx::surface::intersect_clip;
use crate::gfx::surface::WriteSurface;

verus! {

/// The fixed width of the scrollbar gutter an [`Overflow`] reserves.
pub const SLIDER_WIDTH: Scalar = 16;

/// A stroked outline of the given weight and color around an optional
/// child, which is inset by the weight on all four sides.
pub struct Border<'a, I> {
    pub id: Option<I>,
    pub child: Option<Box<Widget<'a, I>>>,
    pub weight: Scalar,
    pub color: Color,
}

/// Asymmetric padding around an optional child. Paints nothing.
pub struct Margin<'a, I> {
    pub id: Option<I>,
    pub child: Option<Box<Widget<'a, I>>>,
    pub top: Scalar,
    pub left: Scalar,
    pub bottom: Scalar,
    pub right: Scalar,
}

/// A horizontal row of children, proportionally stretched or compressed
/// to exactly fill the box's width.
pub struct HBox<'a, I> {
    pub id: Option<I>,
    pub children: Vec<Widget<'a, I>>,
}

/// A vertical column of children, proportionally stretched or compressed
/// to exactly fill the box's height.
pub struct VBox<'a, I> {
    pub id: Option<I>,
    pub children: Vec<Widget<'a, I>>,
}

/// Children rendered at identical bounds, later ones painting over
/// earlier ones.
pub struct Stack<'a, I> {
    pub id: Option<I>,
    pub children: Vec<Widget<'a, I>>,
}

/// Pins its measured height to exactly the offered limit's height, with
/// the child's natural width.
pub struct VSpan<'a, I> {
    pub id: Option<I>,
    pub child: Option<Box<Widget<'a, I>>>,
}

/// A scrollable viewport: the child is offered unlimited height, shifted
/// up by the scroll offset, clipped to the viewport, and a scrollbar
/// track with a proportionally placed thumb is painted in a reserved
/// gutter on the right.
pub struct Overflow<'a, I> {
    pub id: Option<I>,
    pub child: Option<Box<Widget<'a, I>>>,
    pub offset: Point,
}

/// A run of text in a bitmap font, word-wrapped against its bounds.
pub struct Label<'a, I> {
    pub id: Option<I>,
    pub font: Option<&'a BdfFont>,
    pub color: Color,
    pub text: &'a str,
}

/// A transparent decorator that lets [`Widget::measure_observed`] report
/// the limits offered at this point of the tree together with the child's
/// measured size, without altering layout or rendering.
pub struct Interceptor<'a, I> {
    pub child: Box<Widget<'a, I>>,
}

/// One node of a widget tree: anything that can be measured against a
/// size limit and rendered into bounds, optionally reporting one hit.
pub enum Widget<'a, I> {
    Border(Border<'a, I>),
    Margin(Margin<'a, I>),
    HBox(HBox<'a, I>),
    VBox(VBox<'a, I>),
    Stack(Stack<'a, I>),
    VSpan(VSpan<'a, I>),
    Overflow(Overflow<'a, I>),
    Label(Label<'a, I>),
    Interceptor(Interceptor<'a, I>),
}

/// The single leaf (by application id) whose final render bounds contain
/// the cursor this frame.
pub struct Hit<I> {
    pub id: I,
    pub bounds: Rect,
}

/// The hit a node with the given optional id produces on its own: one
/// exactly when it carries an id and its bounds contain the cursor.
pub open spec fn spec_hit_test<I>(id: Option<I>, bounds: Rect, cursor: Point) -> Option<Hit<I>> {
    match id {
        Some(i) => if bounds.spec_contains(cursor) {
            Some(Hit { id: i, bounds })
        } else {
            None
        },
        None => None,
    }
}

impl<I: Copy> Hit<I> {
    /// The hit an id-carrying node produces: `Some` exactly when an id is
    /// present and `bounds` contains `cursor`.
    pub fn from_test(id: Option<I>, bounds: Rect, cursor: Point) -> (r: Option<Hit<I>>)
        requires
            i32::MIN <= bounds.spec_right() <= i32::MAX,
            i32::MIN <= bounds.spec_bottom() <= i32::MAX,
        ensures
            r == spec_hit_test(id, bounds, cursor),
    {
        if let Some(id) = id {
            if bounds.contains(cursor) {
                return Some(Hit { id, bounds });
            }
        }
        None
    }

    pub fn id(&self) -> (r: &I)
        ensures
            *r == self.id,
    {
        &self.id
    }

    pub fn bounds(&self) -> (r: Rect)
        ensures
            r == self.bounds,
    {
        self.bounds
    }
}

/// The per-call output of [`UI::render`]: the final occupied size of the
/// root and the single winning hit, if any.
pub struct Feedback<I> {
    pub size: Size,
    pub hit: Option<Hit<I>>,
}

impl<I> Feedback<I> {
    pub fn size(&self) -> (r: Size)
        ensures
            r == self.size,
    {
        self.size
    }

    pub fn hit(&self) -> (r: Option<&Hit<I>>)
        ensures
            match r {
                Some(h) => self.hit == Some(*h),
                None => self.hit is None,
            },
    {
        self.hit.as_ref()
    }
}

/// Componentwise minimum, the mathematical mirror of [`Size::limit`].
pub open spec fn limit2(s: (int, int), lim: (int, int)) -> (int, int) {
    (
        if s.0 <= lim.0 {
            s.0
        } else {
            lim.0
        },
        if s.1 <= lim.1 {
            s.1
        } else {
            lim.1
        },
    )
}

/// Whether both components lie in the scalar range.
pub open spec fn in_i32_2(s: (int, int)) -> bool {
    i32::MIN <= s.0 <= i32::MAX && i32::MIN <= s.1 <= i32::MAX
}

/// The number of nodes in a widget tree, the termination measure of the
/// executable passes.
pub open spec fn wsize<'a, I>(w: Widget<'a, I>) -> nat
    decreases w, 0int,
{
    match w {
        Widget::Border(b) => 1 + (match b.child {
            Some(c) => wsize(*c),
            None => 0nat,
        }),
        Widget::Margin(m) => 1 + (match m.child {
            Some(c) => wsize(*c),
            None => 0nat,
        }),
        Widget::HBox(hb) => 1 + wsize_children(hb.children@, hb.children@.len() as int),
        Widget::VBox(vb) => 1 + wsize_children(vb.children@, vb.children@.len() as int),
        Widget::Stack(st) => 1 + wsize_children(st.children@, st.children@.len() as int),
        Widget::VSpan(v) => 1 + (match v.child {
            Some(c) => wsize(*c),
            None => 0nat,
        }),
        Widget::Overflow(o) => 1 + (match o.child {
            Some(c) => wsize(*c),
            None => 0nat,
        }),
        Widget::Label(_) => 1,
        Widget::Interceptor(it) => 1 + wsize(*it.child),
    }
}

/// The number of nodes in the first `k` trees of a children list.
pub open spec fn wsize_children<'a, I>(children: Seq<Widget<'a, I>>, k: int) -> nat
    decreases children, k,
{
    if k <= 0 || k > children.len() {
        0
    } else {
        wsize_children(children, k - 1) + wsize(children[k - 1])
    }
}

proof fn lemma_wsize_child<'a, I>(children: Seq<Widget<'a, I>>, k: int, n: int)
    requires
        0 <= k < n <= children.len(),
    ensures
        wsize(children[k]) <= wsize_children(children, n),
    decreases n,
{
    if k < n - 1 {
        lemma_wsize_child(children, k, n - 1);
    }
}

/// The size a node reports under the offered limit `lim`, exactly as
/// [`Widget::measure`] computes it.
pub open spec fn spec_measure<'a, I>(w: Widget<'a, I>, lim: (int, int)) -> (int, int)
    decreases w, 0int,
{
    match w {
        Widget::Border(b) => {
            let s = 2 * b.weight;
            match b.child {
                Some(c) => {
                    let cs = spec_measure(*c, (lim.0 - s, lim.1 - s));
                    limit2((cs.0 + s, cs.1 + s), lim)
                },
                None => limit2((s, s), lim),
            }
        },
        Widget::Margin(m) => {
            let sw = m.left + m.right;
            let sh = m.top + m.bottom;
            match m.child {
                Some(c) => {
                    let cs = spec_measure(*c, (lim.0 - sw, lim.1 - sh));
                    limit2((cs.0 + sw, cs.1 + sh), lim)
                },
                None => limit2((sw, sh), lim),
            }
        },
        Widget::HBox(hb) => limit2(
            (
                row_width_sum(hb.children@, lim, hb.children@.len() as int),
                row_height_max(hb.children@, lim, hb.children@.len() as int),
            ),
            lim,
        ),
        Widget::VBox(vb) => limit2(
            (
                col_width_max(vb.children@, lim, vb.children@.len() as int),
                col_height_sum(vb.children@, lim, vb.children@.len() as int),
            ),
            lim,
        ),
        Widget::Stack(st) => limit2(stack_max(st.children@, lim, st.children@.len() as int), lim),
        Widget::VSpan(v) => {
            match v.child {
                Some(c) => (spec_measure(*c, lim).0, lim.1),
                None => (0, lim.1),
            }
        },
        Widget::Overflow(o) => {
            match o.child {
                Some(c) => {
                    let cs = spec_measure(*c, (lim.0, i32::MAX as int));
                    (cs.0 + SLIDER_WIDTH, cs.1)
                },
                None => (SLIDER_WIDTH as int, 0),
            }
        },
        Widget::Label(l) => {
            match l.font {
                Some(f) => spec_layout_size(
                    f,
                    Rect {
                        origin: Point { x: 0, y: 0 },
                        size: Size { width: lim.0 as i32, height: lim.1 as i32 },
                    },
                    l.text,
                ),
                None => (0, 0),
            }
        },
        Widget::Interceptor(it) => spec_measure(*it.child, lim),
    }
}

/// The total natural width of the first `k` children of a row.
pub open spec fn row_width_sum<'a, I>(children: Seq<Widget<'a, I>>, lim: (int, int), k: int) -> int
    decreases children, k,
{
    if k <= 0 || k > children.len() {
        0
    } else {
        row_width_sum(children, lim, k - 1) + spec_measure(children[k - 1], lim).0
    }
}

/// The tallest natural height among the first `k` children of a row.
pub open spec fn row_height_max<'a, I>(children: Seq<Widget<'a, I>>, lim: (int, int), k: int) -> int
    decreases children, k,
{
    if k <= 0 || k > children.len() {
        0
    } else {
        let pre = row_height_max(children, lim, k - 1);
        let h = spec_measure(children[k - 1], lim).1;
        if pre >= h {
            pre
        } else {
            h
        }
    }
}

/// The widest natural width among the first `k` children of a column.
pub open spec fn col_width_max<'a, I>(children: Seq<Widget<'a, I>>, lim: (int, int), k: int) -> int
    decreases children, k,
{
    if k <= 0 || k > children.len() {
        0
    } else {
        let pre = col_width_max(children, lim, k - 1);
        let w = spec_measure(children[k - 1], lim).0;
        if pre >= w {
            pre
        } else {
            w
        }
    }
}

/// The total natural height of the first `k` children of a column.
pub open spec fn col_height_sum<'a, I>(children: Seq<Widget<'a, I>>, lim: (int, int), k: int) -> int
    decreases children, k,
{
    if k <= 0 || k > children.len() {
        0
    } else {
        col_height_sum(children, lim, k - 1) + spec_measure(children[k - 1], lim).1
    }
}

/// The componentwise maximum of the natural sizes of the first `k`
/// children of a stack.
pub open spec fn stack_max<'a, I>(children: Seq<Widget<'a, I>>, lim: (int, int), k: int) -> (
    int,
    int,
)
    decreases children, k,
{
    if k <= 0 || k > children.len() {
        (0, 0)
    } else {
        let pre = stack_max(children, lim, k - 1);
        let cs = spec_measure(children[k - 1], lim);
        (
            if pre.0 >= cs.0 {
                pre.0
            } else {
                cs.0
            },
            if pre.1 >= cs.1 {
                pre.1
            } else {
                cs.1
            },
        )
    }
}

/// Whether every arithmetic step of measuring `w` under `lim` stays in
/// the scalar range: the machine-limit precondition of
/// [`Widget::measure`], and nothing more.
pub open spec fn measure_ok<'a, I>(w: Widget<'a, I>, lim: (int, int)) -> bool
    decreases w, 0int,
{
    match w {
        Widget::Border(b) => {
            let s = 2 * b.weight;
            &&& i32::MIN <= s <= i32::MAX
            &&& match b.child {
                Some(c) => {
                    let cs = spec_measure(*c, (lim.0 - s, lim.1 - s));
                    &&& in_i32_2((lim.0 - s, lim.1 - s))
                    &&& measure_ok(*c, (lim.0 - s, lim.1 - s))
                    &&& in_i32_2((cs.0 + s, cs.1 + s))
                },
                None => true,
            }
        },
        Widget::Margin(m) => {
            let sw = m.left + m.right;
            let sh = m.top + m.bottom;
            &&& i32::MIN <= sw <= i32::MAX
            &&& i32::MIN <= sh <= i32::MAX
            &&& match m.child {
                Some(c) => {
                    let cs = spec_measure(*c, (lim.0 - sw, lim.1 - sh));
                    &&& in_i32_2((lim.0 - sw, lim.1 - sh))
                    &&& measure_ok(*c, (lim.0 - sw, lim.1 - sh))
                    &&& in_i32_2((cs.0 + sw, cs.1 + sh))
                },
                None => true,
            }
        },
        Widget::HBox(hb) => row_ok(hb.children@, lim, hb.children@.len() as int),
        Widget::VBox(vb) => col_ok(vb.children@, lim, vb.children@.len() as int),
        Widget::Stack(st) => stack_ok(st.children@, lim, st.children@.len() as int),
        Widget::VSpan(v) => {
            match v.child {
                Some(c) => measure_ok(*c, lim),
                None => true,
            }
        },
        Widget::Overflow(o) => {
            match o.child {
                Some(c) => {
                    let cs = spec_measure(*c, (lim.0, i32::MAX as int));
                    &&& measure_ok(*c, (lim.0, i32::MAX as int))
                    &&& cs.0 + SLIDER_WIDTH <= i32::MAX
                },
                None => true,
            }
        },
        Widget::Label(l) => {
            match l.font {
                Some(f) => {
                    &&& font_ok(f)
                    &&& l.text@.len() <= MAX_TEXT_LEN
                    &&& layout_fits(
                        f,
                        Rect {
                            origin: Point { x: 0, y: 0 },
                            size: Size { width: lim.0 as i32, height: lim.1 as i32 },
                        },
                        l.text,
                    )
                },
                None => true,
            }
        },
        Widget::Interceptor(it) => measure_ok(*it.child, lim),
    }
}

/// Every arithmetic step of measuring the first `k` children of a row
/// stays in the scalar range, including each running width sum.
pub open spec fn row_ok<'a, I>(children: Seq<Widget<'a, I>>, lim: (int, int), k: int) -> bool
    decreases children, k,
{
    if k <= 0 || k > children.len() {
        true
    } else {
        &&& row_ok(children, lim, k - 1)
        &&& measure_ok(children[k - 1], lim)
        &&& i32::MIN <= row_width_sum(children, lim, k) <= i32::MAX
    }
}

/// Every arithmetic step of measuring the first `k` children of a column
/// stays in the scalar range, including each running height sum.
pub open spec fn col_ok<'a, I>(children: Seq<Widget<'a, I>>, lim: (int, int), k: int) -> bool
    decreases children, k,
{
    if k <= 0 || k > children.len() {
        true
    } else {
        &&& col_ok(children, lim, k - 1)
        &&& measure_ok(children[k - 1], lim)
        &&& i32::MIN <= col_height_sum(children, lim, k) <= i32::MAX
    }
}

/// Every arithmetic step of measuring the first `k` children of a stack
/// stays in the scalar range.
pub open spec fn stack_ok<'a, I>(children: Seq<Widget<'a, I>>, lim: (int, int), k: int) -> bool
    decreases children, k,
{
    if k <= 0 || k > children.len() {
        true
    } else {
        stack_ok(children, lim, k - 1) && measure_ok(children[k - 1], lim)
    }
}

/// The observation [`Widget::measure_observed`] reports: at an
/// [`Interceptor`], the limits offered to it and its child's measured
/// size. An observation from deeper in the tree wins over the
/// interceptor's own; among siblings the later child wins.
pub open spec fn spec_observed<'a, I>(w: Widget<'a, I>, lim: (int, int)) -> Option<
    ((int, int), (int, int)),
>
    decreases w, 0int,
{
    match w {
        Widget::Border(b) => {
            let s = 2 * b.weight;
            match b.child {
                Some(c) => spec_observed(*c, (lim.0 - s, lim.1 - s)),
                None => None,
            }
        },
        Widget::Margin(m) => {
            match m.child {
                Some(c) => spec_observed(*c, (lim.0 - (m.left + m.right), lim.1 - (m.top + m.bottom))),
                None => None,
            }
        },
        Widget::HBox(hb) => observed_children(hb.children@, lim, hb.children@.len() as int),
        Widget::VBox(vb) => observed_children(vb.children@, lim, vb.children@.len() as int),
        Widget::Stack(st) => observed_children(st.children@, lim, st.children@.len() as int),
        Widget::VSpan(v) => {
            match v.child {
                Some(c) => spec_observed(*c, lim),
                None => None,
            }
        },
        Widget::Overflow(o) => {
            match o.child {
                Some(c) => spec_observed(*c, (lim.0, i32::MAX as int)),
                None => None,
            }
        },
        Widget::Label(_) => None,
        Widget::Interceptor(it) => {
            match spec_observed(*it.child, lim) {
                Some(o) => Some(o),
                None => Some((lim, spec_measure(*it.child, lim))),
            }
        },
    }
}

/// The last observation among the first `k` children, if any.
pub open spec fn observed_children<'a, I>(
    children: Seq<Widget<'a, I>>,
    lim: (int, int),
    k: int,
) -> Option<((int, int), (int, int))>
    decreases children, k,
{
    if k <= 0 || k > children.len() {
        None
    } else {
        match spec_observed(children[k - 1], lim) {
            Some(o) => Some(o),
            None => observed_children(children, lim, k - 1),
        }
    }
}

/// Whether an executable observation spells the spec-level one.
pub open spec fn obs_matches(e: Option<(Size, Size)>, s: Option<((int, int), (int, int))>) -> bool {
    match e {
        Some(p) => s == Some(
            (
                (p.0.width as int, p.0.height as int),
                (p.1.width as int, p.1.height as int),
            ),
        ),
        None => s is None,
    }
}

impl<'a, I: Copy> Widget<'a, I> {
    /// Measure this node under the offered limits, and also report the
    /// side-channel observation of the innermost [`Interceptor`], if the
    /// tree holds one. Measurement is pure: identical limits give
    /// identical results.
    pub fn measure_observed(&self, limits: Size) -> (r: (Size, Option<(Size, Size)>))
        requires
            measure_ok(*self, (limits.width as int, limits.height as int)),
        ensures
            (r.0.width as int, r.0.height as int) == spec_measure(
                *self,
                (limits.width as int, limits.height as int),
            ),
            obs_matches(r.1, spec_observed(*self, (limits.width as int, limits.height as int))),
        decreases wsize(*self),
    {
        match self {
            Widget::Border(b) => {
                let s = Size::new(b.weight * 2, b.weight * 2);
                match &b.child {
                    Some(c) => {
                        let inner = c.measure_observed(limits.sub(s));
                        (inner.0.add(s).limit(limits), inner.1)
                    },
                    None => (s.limit(limits), None),
                }
            },
            Widget::Margin(m) => {
                let s = Size::new(m.left + m.right, m.top + m.bottom);
                match &m.child {
                    Some(c) => {
                        let inner = c.measure_observed(limits.sub(s));
                        (inner.0.add(s).limit(limits), inner.1)
                    },
                    None => (s.limit(limits), None),
                }
            },
            Widget::HBox(hb) => {
                let ghost lim = (limits.width as int, limits.height as int);
                let mut w: i32 = 0;
                let mut h: i32 = 0;
                let mut obs: Option<(Size, Size)> = None;
                let mut k: usize = 0;
                while k < hb.children.len()
                    invariant
                        *self == Widget::HBox(*hb),
                        k <= hb.children@.len(),
                        lim == (limits.width as int, limits.height as int),
                        row_ok(hb.children@, lim, hb.children@.len() as int),
                        w as int == row_width_sum(hb.children@, lim, k as int),
                        h as int == row_height_max(hb.children@, lim, k as int),
                        obs_matches(obs, observed_children(hb.children@, lim, k as int)),
                    decreases hb.children@.len() - k,
                {
                    proof {
                        lemma_row_ok_prefix(hb.children@, lim, k as int + 1, hb.children@.len() as int);
                    }
                    proof {
                        lemma_wsize_child(hb.children@, k as int, hb.children@.len() as int);
                    }
                    let inner = hb.children[k].measure_observed(limits);
                    w = w + inner.0.width();
                    let ch = inner.0.height();
                    if ch > h {
                        h = ch;
                    }
                    if inner.1.is_some() {
                        obs = inner.1;
                    }
                    k = k + 1;
                }
                (Size::new(w, h).limit(limits), obs)
            },
            Widget::VBox(vb) => {
                let ghost lim = (limits.width as int, limits.height as int);
                let mut w: i32 = 0;
                let mut h: i32 = 0;
                let mut obs: Option<(Size, Size)> = None;
                let mut k: usize = 0;
                while k < vb.children.len()
                    invariant
                        *self == Widget::VBox(*vb),
                        k <= vb.children@.len(),
                        lim == (limits.width as int, limits.height as int),
                        col_ok(vb.children@, lim, vb.children@.len() as int),
                        w as int == col_width_max(vb.children@, lim, k as int),
                        h as int == col_height_sum(vb.children@, lim, k as int),
                        obs_matches(obs, observed_children(vb.children@, lim, k as int)),
                    decreases vb.children@.len() - k,
                {
                    proof {
                        lemma_col_ok_prefix(vb.children@, lim, k as int + 1, vb.children@.len() as int);
                    }
                    proof {
                        lemma_wsize_child(vb.children@, k as int, vb.children@.len() as int);
                    }
                    let inner = vb.children[k].measure_observed(limits);
                    let cw = inner.0.width();
                    if cw > w {
                        w = cw;
                    }
                    h = h + inner.0.height();
                    if inner.1.is_some() {
                        obs = inner.1;
                    }
                    k = k + 1;
                }
                (Size::new(w, h).limit(limits), obs)
            },
            Widget::Stack(st) => {
                let ghost lim = (limits.width as int, limits.height as int);
                let mut w: i32 = 0;
                let mut h: i32 = 0;
                let mut obs: Option<(Size, Size)> = None;
                let mut k: usize = 0;
                while k < st.children.len()
                    invariant
                        *self == Widget::Stack(*st),
                        k <= st.children@.len(),
                        lim == (limits.width as int, limits.height as int),
                        stack_ok(st.children@, lim, st.children@.len() as int),
                        (w as int, h as int) == stack_max(st.children@, lim, k as int),
                        obs_matches(obs, observed_children(st.children@, lim, k as int)),
                    decreases st.children@.len() - k,
                {
                    proof {
                        lemma_stack_ok_prefix(st.children@, lim, k as int + 1, st.children@.len() as int);
                    }
                    proof {
                        lemma_wsize_child(st.children@, k as int, st.children@.len() as int);
                    }
                    let inner = st.children[k].measure_observed(limits);
                    let cw = inner.0.width();
                    let ch = inner.0.height();
                    if cw > w {
                        w = cw;
                    }
                    if ch > h {
                        h = ch;
                    }
                    if inner.1.is_some() {
                        obs = inner.1;
                    }
                    k = k + 1;
                }
                (Size::new(w, h).limit(limits), obs)
            },
            Widget::VSpan(v) => {
                match &v.child {
                    Some(c) => {
                        let inner = c.measure_observed(limits);
                        (Size::new(inner.0.width(), limits.height()), inner.1)
                    },
                    None => (Size::new(0, limits.height()), None),
                }
            },
            Widget::Overflow(o) => {
                match &o.child {
                    Some(c) => {
                        let inner = c.measure_observed(Size::new(limits.width(), i32::MAX));
                        (Size::new(inner.0.width() + SLIDER_WIDTH, inner.0.height()), inner.1)
                    },
                    None => (Size::new(SLIDER_WIDTH, 0), None),
                }
            },
            Widget::Label(l) => {
                match l.font {
                    Some(f) => (measure_text(f, limits, l.text), None),
                    None => (Size::new(0, 0), None),
                }
            },
            Widget::Interceptor(it) => {
                let inner = it.child.measure_observed(limits);
                match inner.1 {
                    Some(o) => (inner.0, Some(o)),
                    None => (inner.0, Some((limits, inner.0))),
                }
            },
        }
    }

    /// The space this node would occupy if offered up to `limits`. Pure
    /// and idempotent: callers may measure repeatedly and get identical
    /// results for identical limits.
    pub fn measure(&self, limits: Size) -> (r: Size)
        requires
            measure_ok(*self, (limits.width as int, limits.height as int)),
        ensures
            (r.width as int, r.height as int) == spec_measure(
                *self,
                (limits.width as int, limits.height as int),
            ),
    {
        let r = self.measure_observed(limits);
        r.0
    }
}

/// A prefix of a row that measures safely measures safely on its own.
pub proof fn lemma_row_ok_prefix<'a, I>(children: Seq<Widget<'a, I>>, lim: (int, int), k: int, n: int)
    requires
        0 <= k <= n <= children.len(),
        row_ok(children, lim, n),
    ensures
        row_ok(children, lim, k),
    decreases n - k,
{
    if k < n {
        lemma_row_ok_prefix(children, lim, k + 1, n);
    }
}

/// A prefix of a column that measures safely measures safely on its own.
pub proof fn lemma_col_ok_prefix<'a, I>(children: Seq<Widget<'a, I>>, lim: (int, int), k: int, n: int)
    requires
        0 <= k <= n <= children.len(),
        col_ok(children, lim, n),
    ensures
        col_ok(children, lim, k),
    decreases n - k,
{
    if k < n {
        lemma_col_ok_prefix(children, lim, k + 1, n);
    }
}

/// A prefix of a stack that measures safely measures safely on its own.
pub proof fn lemma_stack_ok_prefix<'a, I>(
    children: Seq<Widget<'a, I>>,
    lim: (int, int),
    k: int,
    n: int,
)
    requires
        0 <= k <= n <= children.len(),
        stack_ok(children, lim, n),
    ensures
        stack_ok(children, lim, k),
    decreases n - k,
{
    if k < n {
        lemma_stack_ok_prefix(children, lim, k + 1, n);
    }
}


/// The main-axis extent a box child receives: its natural extent scaled
/// by `avail / total`, truncating, with degenerate factors collapsing to
/// zero.
pub open spec fn scaled(avail: int, extent: int, total: int) -> int {
    if avail > 0 && extent > 0 && total > 0 {
        (avail * extent) / total
    } else {
        0
    }
}

fn scaled_extent(avail: Scalar, extent: Scalar, total: Scalar) -> (r: i64)
    ensures
        r == scaled(avail as int, extent as int, total as int),
        r >= 0,
{
    if avail > 0 && extent > 0 && total > 0 {
        proof {
            assert(0 < (avail as int) * (extent as int) <= 0x7fff_ffff * 0x7fff_ffff)
                by (nonlinear_arith)
                requires
                    0 < avail <= 0x7fff_ffff,
                    0 < extent <= 0x7fff_ffff,
            ;
            vstd::arithmetic::div_mod::lemma_div_pos_is_pos(
                (avail as int) * (extent as int),
                total as int,
            );
        }
        (avail as i64) * (extent as i64) / (total as i64)
    } else {
        0
    }
}

/// The x offset, from a row's left edge, where its `k`-th child starts:
/// the scaled extents of the children before it.
pub open spec fn row_shift<'a, I>(
    children: Seq<Widget<'a, I>>,
    lim: (int, int),
    avail: int,
    total: int,
    k: int,
) -> int
    decreases children, k,
{
    if k <= 0 || k > children.len() {
        0
    } else {
        row_shift(children, lim, avail, total, k - 1) + scaled(
            avail,
            spec_measure(children[k - 1], lim).0,
            total,
        )
    }
}

/// The y offset, from a column's top edge, where its `k`-th child starts.
pub open spec fn col_shift<'a, I>(
    children: Seq<Widget<'a, I>>,
    lim: (int, int),
    avail: int,
    total: int,
    k: int,
) -> int
    decreases children, k,
{
    if k <= 0 || k > children.len() {
        0
    } else {
        col_shift(children, lim, avail, total, k - 1) + scaled(
            avail,
            spec_measure(children[k - 1], lim).1,
            total,
        )
    }
}

/// The rectangle the `k`-th child of a row occupies.
pub open spec fn row_child_rect<'a, I>(
    children: Seq<Widget<'a, I>>,
    bounds: Rect,
    total: int,
    k: int,
) -> Rect {
    let lim = (bounds.size.width as int, bounds.size.height as int);
    let avail = bounds.size.width as int;
    let cs = spec_measure(children[k], lim);
    Rect {
        origin: Point {
            x: (bounds.origin.x + row_shift(children, lim, avail, total, k)) as i32,
            y: bounds.origin.y,
        },
        size: Size { width: scaled(avail, cs.0, total) as i32, height: cs.1 as i32 },
    }
}

/// The rectangle the `k`-th child of a column occupies.
pub open spec fn col_child_rect<'a, I>(
    children: Seq<Widget<'a, I>>,
    bounds: Rect,
    total: int,
    k: int,
) -> Rect {
    let lim = (bounds.size.width as int, bounds.size.height as int);
    let avail = bounds.size.height as int;
    let cs = spec_measure(children[k], lim);
    Rect {
        origin: Point {
            x: bounds.origin.x,
            y: (bounds.origin.y + col_shift(children, lim, avail, total, k)) as i32,
        },
        size: Size { width: cs.0 as i32, height: scaled(avail, cs.1, total) as i32 },
    }
}

/// The winning hit among the first `k` children of a row: the last
/// non-empty child hit.
pub open spec fn row_hits<'a, I>(
    children: Seq<Widget<'a, I>>,
    bounds: Rect,
    cursor: Point,
    total: int,
    k: int,
) -> Option<Hit<I>>
    decreases children, k,
{
    if k <= 0 || k > children.len() {
        None
    } else {
        match spec_render_hit(children[k - 1], row_child_rect(children, bounds, total, k - 1), cursor) {
            Some(h) => Some(h),
            None => row_hits(children, bounds, cursor, total, k - 1),
        }
    }
}

/// The winning hit among the first `k` children of a column.
pub open spec fn col_hits<'a, I>(
    children: Seq<Widget<'a, I>>,
    bounds: Rect,
    cursor: Point,
    total: int,
    k: int,
) -> Option<Hit<I>>
    decreases children, k,
{
    if k <= 0 || k > children.len() {
        None
    } else {
        match spec_render_hit(children[k - 1], col_child_rect(children, bounds, total, k - 1), cursor) {
            Some(h) => Some(h),
            None => col_hits(children, bounds, cursor, total, k - 1),
        }
    }
}

/// The winning hit among the first `k` children of a stack, all rendered
/// at the same bounds: the last non-empty child hit.
pub open spec fn stack_hits<'a, I>(
    children: Seq<Widget<'a, I>>,
    bounds: Rect,
    cursor: Point,
    k: int,
) -> Option<Hit<I>>
    decreases children, k,
{
    if k <= 0 || k > children.len() {
        None
    } else {
        match spec_render_hit(children[k - 1], bounds, cursor) {
            Some(h) => Some(h),
            None => stack_hits(children, bounds, cursor, k - 1),
        }
    }
}

/// The cursor an [`Overflow`] hands its child: the real cursor, unless it
/// falls inside the reserved slider gutter, in which case an unreachable
/// sentinel disables child hits.
pub open spec fn overflow_cursor(bounds: Rect, cursor: Point) -> Point {
    if !bounds.spec_inset(0, 0, 0, SLIDER_WIDTH as int).spec_contains(cursor) {
        Point { x: i32::MAX, y: i32::MAX }
    } else {
        cursor
    }
}

/// The inner bounds an [`Overflow`] renders its child into: shifted up by
/// the scroll offset, sized to the content.
pub open spec fn overflow_inner_bounds<'a, I>(o: Overflow<'a, I>, bounds: Rect) -> Rect
    decreases o.child,
{
    match o.child {
        Some(c) => {
            let cs = spec_measure(*c, (bounds.size.width as int, i32::MAX as int));
            Rect {
                origin: Point {
                    x: (bounds.origin.x - o.offset.x) as i32,
                    y: (bounds.origin.y - o.offset.y) as i32,
                },
                size: Size { width: cs.0 as i32, height: cs.1 as i32 },
            }
        },
        None => bounds,
    }
}

/// The hit a node reports when rendered into `bounds` with the pointer at
/// `cursor`: a child's hit always takes precedence over the node's own
/// id test, so the innermost id under the cursor wins; among siblings the
/// later-rendered child wins.
pub open spec fn spec_render_hit<'a, I>(w: Widget<'a, I>, bounds: Rect, cursor: Point) -> Option<
    Hit<I>,
>
    decreases w, 0int,
{
    match w {
        Widget::Border(b) => {
            let wt = b.weight as int;
            let inner = match b.child {
                Some(c) => spec_render_hit(*c, bounds.spec_inset(wt, wt, wt, wt), cursor),
                None => None,
            };
            match inner {
                Some(h) => Some(h),
                None => spec_hit_test(b.id, bounds, cursor),
            }
        },
        Widget::Margin(m) => {
            let inner = match m.child {
                Some(c) => spec_render_hit(
                    *c,
                    bounds.spec_inset(m.top as int, m.left as int, m.bottom as int, m.right as int),
                    cursor,
                ),
                None => None,
            };
            match inner {
                Some(h) => Some(h),
                None => spec_hit_test(m.id, bounds, cursor),
            }
        },
        Widget::HBox(hb) => {
            let lim = (bounds.size.width as int, bounds.size.height as int);
            let total = row_width_sum(hb.children@, lim, hb.children@.len() as int);
            match row_hits(hb.children@, bounds, cursor, total, hb.children@.len() as int) {
                Some(h) => Some(h),
                None => spec_hit_test(hb.id, bounds, cursor),
            }
        },
        Widget::VBox(vb) => {
            let lim = (bounds.size.width as int, bounds.size.height as int);
            let total = col_height_sum(vb.children@, lim, vb.children@.len() as int);
            match col_hits(vb.children@, bounds, cursor, total, vb.children@.len() as int) {
                Some(h) => Some(h),
                None => spec_hit_test(vb.id, bounds, cursor),
            }
        },
        Widget::Stack(st) => {
            match stack_hits(st.children@, bounds, cursor, st.children@.len() as int) {
                Some(h) => Some(h),
                None => spec_hit_test(st.id, bounds, cursor),
            }
        },
        Widget::VSpan(v) => {
            let inner = match v.child {
                Some(c) => spec_render_hit(*c, bounds, cursor),
                None => None,
            };
            match inner {
                Some(h) => Some(h),
                None => spec_hit_test(v.id, bounds, cursor),
            }
        },
        Widget::Overflow(o) => {
            let inner = match o.child {
                Some(c) => spec_render_hit(
                    *c,
                    overflow_inner_bounds(o, bounds),
                    overflow_cursor(bounds, cursor),
                ),
                None => None,
            };
            match inner {
                Some(h) => Some(h),
                None => spec_hit_test(o.id, bounds, cursor),
            }
        },
        Widget::Label(l) => spec_hit_test(l.id, bounds, cursor),
        Widget::Interceptor(it) => spec_render_hit(*it.child, bounds, cursor),
    }
}

/// Whether every arithmetic step of rendering `w` into `bounds` stays in
/// the scalar range: the machine-limit precondition of
/// [`Widget::render`], and nothing more.
pub open spec fn render_ok<'a, I>(w: Widget<'a, I>, bounds: Rect, cursor: Point) -> bool
    decreases w, 0int,
{
    &&& i32::MIN <= bounds.spec_right() <= i32::MAX
    &&& i32::MIN <= bounds.spec_bottom() <= i32::MAX
    &&& match w {
        Widget::Border(b) => {
            let wt = b.weight as int;
            let wm = if wt - 1 < 0 {
                0int
            } else {
                wt - 1
            };
            &&& i32::MIN <= bounds.origin.y + wm <= i32::MAX
            &&& i32::MIN <= bounds.origin.x + wm <= i32::MAX
            &&& i32::MIN <= bounds.spec_right() - wt + 1 <= i32::MAX
            &&& i32::MIN <= bounds.spec_right() - wt + 1 + wm <= i32::MAX
            &&& i32::MIN <= bounds.spec_bottom() - wt + 1 <= i32::MAX
            &&& i32::MIN <= bounds.spec_bottom() - wt + 1 + wm <= i32::MAX
            &&& match b.child {
                Some(c) => {
                    &&& i32::MIN <= bounds.origin.x + wt <= i32::MAX
                    &&& i32::MIN <= bounds.origin.y + wt <= i32::MAX
                    &&& i32::MIN <= wt + wt <= i32::MAX
                    &&& i32::MIN <= bounds.size.width - (wt + wt) <= i32::MAX
                    &&& i32::MIN <= bounds.size.height - (wt + wt) <= i32::MAX
                    &&& render_ok(*c, bounds.spec_inset(wt, wt, wt, wt), cursor)
                },
                None => true,
            }
        },
        Widget::Margin(m) => {
            let sw = m.left + m.right;
            let sh = m.top + m.bottom;
            &&& match m.child {
                Some(c) => {
                    &&& i32::MIN <= bounds.origin.x + m.left <= i32::MAX
                    &&& i32::MIN <= bounds.origin.y + m.top <= i32::MAX
                    &&& i32::MIN <= sw <= i32::MAX
                    &&& i32::MIN <= sh <= i32::MAX
                    &&& i32::MIN <= bounds.size.width - sw <= i32::MAX
                    &&& i32::MIN <= bounds.size.height - sh <= i32::MAX
                    &&& render_ok(
                        *c,
                        bounds.spec_inset(m.top as int, m.left as int, m.bottom as int, m.right as int),
                        cursor,
                    )
                },
                None => true,
            }
        },
        Widget::HBox(hb) => {
            let lim = (bounds.size.width as int, bounds.size.height as int);
            let total = row_width_sum(hb.children@, lim, hb.children@.len() as int);
            &&& row_ok(hb.children@, lim, hb.children@.len() as int)
            &&& row_render_ok(hb.children@, bounds, cursor, total, hb.children@.len() as int)
        },
        Widget::VBox(vb) => {
            let lim = (bounds.size.width as int, bounds.size.height as int);
            let total = col_height_sum(vb.children@, lim, vb.children@.len() as int);
            &&& col_ok(vb.children@, lim, vb.children@.len() as int)
            &&& col_render_ok(vb.children@, bounds, cursor, total, vb.children@.len() as int)
        },
        Widget::Stack(st) => stack_render_ok(
            st.children@,
            bounds,
            cursor,
            st.children@.len() as int,
        ),
        Widget::VSpan(v) => {
            match v.child {
                Some(c) => render_ok(*c, bounds, cursor),
                None => true,
            }
        },
        Widget::Overflow(o) => {
            &&& i32::MIN <= bounds.size.width - SLIDER_WIDTH <= i32::MAX
            &&& i32::MIN <= bounds.spec_right() - SLIDER_WIDTH <= i32::MAX
            &&& i32::MIN <= bounds.spec_right() - SLIDER_WIDTH + 1 <= i32::MAX
            &&& i32::MIN <= bounds.spec_bottom() - SLIDER_WIDTH <= i32::MAX
            &&& i32::MIN <= bounds.origin.y + SLIDER_WIDTH - 1 <= i32::MAX
            &&& match o.child {
                Some(c) => {
                    &&& measure_ok(*c, (bounds.size.width as int, i32::MAX as int))
                    &&& i32::MIN <= bounds.origin.x - o.offset.x <= i32::MAX
                    &&& i32::MIN <= bounds.origin.y - o.offset.y <= i32::MAX
                    &&& render_ok(
                        *c,
                        overflow_inner_bounds(o, bounds),
                        overflow_cursor(bounds, cursor),
                    )
                },
                None => true,
            }
        },
        Widget::Label(l) => {
            match l.font {
                Some(f) => {
                    &&& font_ok(f)
                    &&& l.text@.len() <= MAX_TEXT_LEN
                    &&& layout_fits(f, bounds, l.text)
                },
                None => true,
            }
        },
        Widget::Interceptor(it) => render_ok(*it.child, bounds, cursor),
    }
}

/// Every arithmetic step of placing and rendering the first `k` children
/// of a row stays in the scalar range.
pub open spec fn row_render_ok<'a, I>(
    children: Seq<Widget<'a, I>>,
    bounds: Rect,
    cursor: Point,
    total: int,
    k: int,
) -> bool
    decreases children, k,
{
    if k <= 0 || k > children.len() {
        true
    } else {
        let lim = (bounds.size.width as int, bounds.size.height as int);
        let avail = bounds.size.width as int;
        let cs = spec_measure(children[k - 1], lim);
        let sc = scaled(avail, cs.0, total);
        let x = bounds.origin.x + row_shift(children, lim, avail, total, k - 1);
        &&& row_render_ok(children, bounds, cursor, total, k - 1)
        &&& i32::MIN <= x <= i32::MAX
        &&& i32::MIN <= x + sc <= i32::MAX
        &&& sc <= i32::MAX
        &&& render_ok(children[k - 1], row_child_rect(children, bounds, total, k - 1), cursor)
    }
}

/// Every arithmetic step of placing and rendering the first `k` children
/// of a column stays in the scalar range.
pub open spec fn col_render_ok<'a, I>(
    children: Seq<Widget<'a, I>>,
    bounds: Rect,
    cursor: Point,
    total: int,
    k: int,
) -> bool
    decreases children, k,
{
    if k <= 0 || k > children.len() {
        true
    } else {
        let lim = (bounds.size.width as int, bounds.size.height as int);
        let avail = bounds.size.height as int;
        let cs = spec_measure(children[k - 1], lim);
        let sc = scaled(avail, cs.1, total);
        let y = bounds.origin.y + col_shift(children, lim, avail, total, k - 1);
        &&& col_render_ok(children, bounds, cursor, total, k - 1)
        &&& i32::MIN <= y <= i32::MAX
        &&& i32::MIN <= y + sc <= i32::MAX
        &&& sc <= i32::MAX
        &&& render_ok(children[k - 1], col_child_rect(children, bounds, total, k - 1), cursor)
    }
}

/// Every child of a stack prefix renders safely at the shared bounds.
pub open spec fn stack_render_ok<'a, I>(
    children: Seq<Widget<'a, I>>,
    bounds: Rect,
    cursor: Point,
    k: int,
) -> bool
    decreases children, k,
{
    if k <= 0 || k > children.len() {
        true
    } else {
        stack_render_ok(children, bounds, cursor, k - 1) && render_ok(
            children[k - 1],
            bounds,
            cursor,
        )
    }
}

/// A prefix of a row that renders safely renders safely on its own.
pub proof fn lemma_row_render_ok_prefix<'a, I>(
    children: Seq<Widget<'a, I>>,
    bounds: Rect,
    cursor: Point,
    total: int,
    k: int,
    n: int,
)
    requires
        0 <= k <= n <= children.len(),
        row_render_ok(children, bounds, cursor, total, n),
    ensures
        row_render_ok(children, bounds, cursor, total, k),
    decreases n - k,
{
    if k < n {
        lemma_row_render_ok_prefix(children, bounds, cursor, total, k + 1, n);
    }
}

/// A prefix of a column that renders safely renders safely on its own.
pub proof fn lemma_col_render_ok_prefix<'a, I>(
    children: Seq<Widget<'a, I>>,
    bounds: Rect,
    cursor: Point,
    total: int,
    k: int,
    n: int,
)
    requires
        0 <= k <= n <= children.len(),
        col_render_ok(children, bounds, cursor, total, n),
    ensures
        col_render_ok(children, bounds, cursor, total, k),
    decreases n - k,
{
    if k < n {
        lemma_col_render_ok_prefix(children, bounds, cursor, total, k + 1, n);
    }
}

/// A prefix of a stack that renders safely renders safely on its own.
pub proof fn lemma_stack_render_ok_prefix<'a, I>(
    children: Seq<Widget<'a, I>>,
    bounds: Rect,
    cursor: Point,
    k: int,
    n: int,
)
    requires
        0 <= k <= n <= children.len(),
        stack_render_ok(children, bounds, cursor, n),
    ensures
        stack_render_ok(children, bounds, cursor, k),
    decreases n - k,
{
    if k < n {
        lemma_stack_render_ok_prefix(children, bounds, cursor, k + 1, n);
    }
}


/// The scrollbar track an [`Overflow`] paints over its reserved gutter:
/// the rightmost [`SLIDER_WIDTH`] columns of its bounds, full height.
pub open spec fn overflow_track_rect(bounds: Rect) -> Rect {
    Rect {
        origin: Point { x: (bounds.spec_right() - SLIDER_WIDTH + 1) as i32, y: bounds.origin.y },
        size: Size { width: SLIDER_WIDTH, height: bounds.size.height },
    }
}

/// The content height an [`Overflow`] scales its thumb against: the
/// child's measured height under unlimited vertical room, or the bounds'
/// own height with no child.
pub open spec fn overflow_content_height<'a, I>(o: Overflow<'a, I>, bounds: Rect) -> int {
    match o.child {
        Some(c) => spec_measure(*c, (bounds.size.width as int, i32::MAX as int)).1,
        None => bounds.size.height as int,
    }
}

/// The top row of the scrollbar thumb: the scroll offset scaled by
/// `trackHeight / contentHeight` (degenerate factors collapsing to zero),
/// clamped into the track.
pub open spec fn spec_thumb_top(bounds: Rect, offset_y: int, content_h: int) -> int {
    let raw = if bounds.size.height > 0 && offset_y > 0 && content_h > 0 {
        (bounds.size.height * offset_y) / content_h
    } else {
        0int
    };
    let ty = bounds.origin.y + raw;
    let tmax = bounds.spec_bottom() - SLIDER_WIDTH;
    let ty2 = if ty > tmax {
        tmax
    } else {
        ty
    };
    if ty2 < bounds.origin.y {
        bounds.origin.y as int
    } else {
        ty2
    }
}

/// The square thumb an [`Overflow`] paints inside its track.
pub open spec fn overflow_thumb_rect(bounds: Rect, offset_y: int, content_h: int) -> Rect {
    Rect {
        origin: Point {
            x: (bounds.spec_right() - SLIDER_WIDTH + 1) as i32,
            y: spec_thumb_top(bounds, offset_y, content_h) as i32,
        },
        size: Size { width: SLIDER_WIDTH, height: SLIDER_WIDTH },
    }
}

/// The union of the four edge bands a [`Border`] of weight `wt` paints:
/// top and bottom rows of that thickness and left and right columns of
/// that width, all anchored to `bounds`.
pub open spec fn border_band(bounds: Rect, wt: int, x: int, y: int) -> bool {
    ||| rect_has(
        Rect { origin: bounds.origin, size: Size { width: bounds.size.width, height: wt as i32 } },
        x,
        y,
    )
    ||| rect_has(
        Rect { origin: bounds.origin, size: Size { width: wt as i32, height: bounds.size.height } },
        x,
        y,
    )
    ||| rect_has(
        Rect {
            origin: Point { x: (bounds.spec_right() - wt + 1) as i32, y: bounds.origin.y },
            size: Size { width: wt as i32, height: bounds.size.height },
        },
        x,
        y,
    )
    ||| rect_has(
        Rect {
            origin: Point { x: bounds.origin.x, y: (bounds.spec_bottom() - wt + 1) as i32 },
            size: Size { width: bounds.size.width, height: wt as i32 },
        },
        x,
        y,
    )
}

impl<'a, I: Copy> Widget<'a, I> {
    /// Paint this node into exactly `bounds` (already resolved from a
    /// prior measure) and report at most one hit. Every write is confined
    /// to `clip` when one is present, and the returned hit is exactly the
    /// leaf-biased, last-sibling-wins hit of the tree. The painted output
    /// is pinned down per variant: a childless border composites exactly
    /// its four edge bands, a label composites exactly its glyph ink, an
    /// overflow's reserved gutter holds exactly the track and the
    /// proportionally placed thumb, and an overflow wide and tall enough
    /// for its gutter confines all painting — the clipped child's
    /// included — to its own bounds.
    pub fn render<S: WriteSurface>(
        &self,
        bounds: Rect,
        cursor: Point,
        surface: &mut S,
        clip: Option<Rect>,
    ) -> (r: Option<Hit<I>>)
        requires
            old(surface).inv(),
            render_ok(*self, bounds, cursor),
            clip_fits(clip),
        ensures
            final(surface).inv(),
            final(surface).spec_bounds() == old(surface).spec_bounds(),
            r == spec_render_hit(*self, bounds, cursor),
            forall|x: int, y: int|
                in_window(old(surface).spec_bounds(), x, y) && !clip_allows(clip, x, y)
                    ==> final(surface).wat(x, y) == old(surface).wat(x, y),
            *self is Label ==> forall|x: int, y: int|
                in_window(old(surface).spec_bounds(), x, y) ==> #[trigger] final(surface).wat(
                    x,
                    y,
                ) == if (*self)->Label_0.font is Some && rect_has(bounds, x, y) && clip_allows(
                    clip,
                    x,
                    y,
                ) && text_ink_at(
                    (*self)->Label_0.font->Some_0,
                    bounds,
                    (*self)->Label_0.text,
                    x,
                    y,
                ) {
                    spec_blend(BlendMode::Blend, (*self)->Label_0.color, old(surface).wat(x, y))
                } else {
                    old(surface).wat(x, y)
                },
            *self is Margin && (*self)->Margin_0.child is None ==> *final(surface) == *old(
                surface,
            ),
            *self is Border && (*self)->Border_0.child is None ==> forall|x: int, y: int|
                in_window(old(surface).spec_bounds(), x, y) ==> #[trigger] final(surface).wat(
                    x,
                    y,
                ) == if border_band(bounds, (*self)->Border_0.weight as int, x, y) && clip_allows(
                    clip,
                    x,
                    y,
                ) {
                    spec_blend(BlendMode::Blend, (*self)->Border_0.color, old(surface).wat(x, y))
                } else {
                    old(surface).wat(x, y)
                },
            *self is VSpan && (*self)->VSpan_0.child is None ==> *final(surface) == *old(surface),
            *self is Overflow ==> forall|x: int, y: int|
                in_window(old(surface).spec_bounds(), x, y) && rect_has(
                    overflow_track_rect(bounds),
                    x,
                    y,
                ) && clip_allows(clip, x, y) ==> #[trigger] final(surface).wat(x, y)
                    == if rect_has(
                    overflow_thumb_rect(
                        bounds,
                        (*self)->Overflow_0.offset.y as int,
                        overflow_content_height((*self)->Overflow_0, bounds),
                    ),
                    x,
                    y,
                ) {
                    (Color { red: 127, green: 127, blue: 127, alpha: 255 })
                } else {
                    (Color { red: 32, green: 32, blue: 32, alpha: 255 })
                },
            *self is Overflow && bounds.size.width >= SLIDER_WIDTH && bounds.size.height
                >= SLIDER_WIDTH ==> forall|x: int, y: int|
                in_window(old(surface).spec_bounds(), x, y) && !(rect_has(bounds, x, y)
                    && clip_allows(clip, x, y)) ==> #[trigger] final(surface).wat(x, y) == old(
                    surface,
                ).wat(x, y),
        decreases wsize(*self),
    {
        match self {
            Widget::Border(b) => {
                fill_clipped(
                    surface,
                    clip,
                    Rect::new(bounds.origin, Size::new(bounds.size.width, b.weight)),
                    b.color,
                    BlendMode::Blend,
                );
                fill_clipped(
                    surface,
                    clip,
                    Rect::new(bounds.origin, Size::new(b.weight, bounds.size.height)),
                    b.color,
                    BlendMode::Blend,
                );
                fill_clipped(
                    surface,
                    clip,
                    Rect::new(
                        Point::new(
                            ((bounds.right() as i64) - (b.weight as i64) + 1) as i32,
                            bounds.origin.y,
                        ),
                        Size::new(b.weight, bounds.size.height),
                    ),
                    b.color,
                    BlendMode::Blend,
                );
                fill_clipped(
                    surface,
                    clip,
                    Rect::new(
                        Point::new(
                            bounds.origin.x,
                            ((bounds.bottom() as i64) - (b.weight as i64) + 1) as i32,
                        ),
                        Size::new(bounds.size.width, b.weight),
                    ),
                    b.color,
                    BlendMode::Blend,
                );
                proof {
                    assert forall|x: int, y: int|
                        in_window(old(surface).spec_bounds(), x, y) implies #[trigger] surface.wat(
                        x,
                        y,
                    ) == if border_band(bounds, b.weight as int, x, y) && clip_allows(
                        clip,
                        x,
                        y,
                    ) {
                        spec_blend(BlendMode::Blend, b.color, old(surface).wat(x, y))
                    } else {
                        old(surface).wat(x, y)
                    } by {
                        crate::gfx::color::lemma_blend_idempotent(
                            BlendMode::Blend,
                            b.color,
                            old(surface).wat(x, y),
                        );
                    }
                }
                let inner = match &b.child {
                    Some(c) => c.render(
                        bounds.inset(b.weight, b.weight, b.weight, b.weight),
                        cursor,
                        surface,
                        clip,
                    ),
                    None => None,
                };
                match inner {
                    Some(h) => Some(h),
                    None => Hit::from_test(b.id, bounds, cursor),
                }
            },
            Widget::Margin(m) => {
                let inner = match &m.child {
                    Some(c) => c.render(
                        bounds.inset(m.top, m.left, m.bottom, m.right),
                        cursor,
                        surface,
                        clip,
                    ),
                    None => None,
                };
                match inner {
                    Some(h) => Some(h),
                    None => Hit::from_test(m.id, bounds, cursor),
                }
            },
            Widget::HBox(hb) => {
                let ghost lim = (bounds.size.width as int, bounds.size.height as int);
                let n = hb.children.len();
                let mut total: i32 = 0;
                let mut k: usize = 0;
                while k < n
                    invariant
                        *self == Widget::HBox(*hb),
                        n == hb.children@.len(),
                        k <= n,
                        lim == (bounds.size.width as int, bounds.size.height as int),
                        row_ok(hb.children@, lim, n as int),
                        total as int == row_width_sum(hb.children@, lim, k as int),
                    decreases n - k,
                {
                    proof {
                        lemma_row_ok_prefix(hb.children@, lim, k as int + 1, n as int);
                        lemma_wsize_child(hb.children@, k as int, n as int);
                    }
                    let cs = hb.children[k].measure(bounds.size);
                    total = total + cs.width();
                    k = k + 1;
                }
                let ghost totall = total as int;
                let mut hit: Option<Hit<I>> = None;
                let mut ox: i64 = bounds.origin.x as i64;
                let mut k2: usize = 0;
                while k2 < n
                    invariant
                        *self == Widget::HBox(*hb),
                        n == hb.children@.len(),
                        k2 <= n,
                        lim == (bounds.size.width as int, bounds.size.height as int),
                        totall == total as int,
                        totall == row_width_sum(hb.children@, lim, n as int),
                        row_ok(hb.children@, lim, n as int),
                        row_render_ok(hb.children@, bounds, cursor, totall, n as int),
                        clip_fits(clip),
                        ox == bounds.origin.x + row_shift(
                            hb.children@,
                            lim,
                            bounds.size.width as int,
                            totall,
                            k2 as int,
                        ),
                        hit == row_hits(hb.children@, bounds, cursor, totall, k2 as int),
                        surface.inv(),
                        surface.spec_bounds() == old(surface).spec_bounds(),
                        forall|x: int, y: int|
                            in_window(old(surface).spec_bounds(), x, y) && !clip_allows(clip, x, y)
                                ==> surface.wat(x, y) == old(surface).wat(x, y),
                    decreases n - k2,
                {
                    proof {
                        lemma_row_ok_prefix(hb.children@, lim, k2 as int + 1, n as int);
                        lemma_row_render_ok_prefix(
                            hb.children@,
                            bounds,
                            cursor,
                            totall,
                            k2 as int + 1,
                            n as int,
                        );
                        lemma_wsize_child(hb.children@, k2 as int, n as int);
                    }
                    let cs = hb.children[k2].measure(bounds.size);
                    let sc = scaled_extent(bounds.size.width, cs.width(), total);
                    let rect = Rect::new(
                        Point::new(ox as i32, bounds.origin.y),
                        Size::new(sc as i32, cs.height()),
                    );
                    let h = hb.children[k2].render(rect, cursor, surface, clip);
                    if h.is_some() {
                        hit = h;
                    }
                    ox = ox + sc;
                    k2 = k2 + 1;
                }
                match hit {
                    Some(h) => Some(h),
                    None => Hit::from_test(hb.id, bounds, cursor),
                }
            },
            Widget::VBox(vb) => {
                let ghost lim = (bounds.size.width as int, bounds.size.height as int);
                let n = vb.children.len();
                let mut total: i32 = 0;
                let mut k: usize = 0;
                while k < n
                    invariant
                        *self == Widget::VBox(*vb),
                        n == vb.children@.len(),
                        k <= n,
                        lim == (bounds.size.width as int, bounds.size.height as int),
                        col_ok(vb.children@, lim, n as int),
                        total as int == col_height_sum(vb.children@, lim, k as int),
                    decreases n - k,
                {
                    proof {
                        lemma_col_ok_prefix(vb.children@, lim, k as int + 1, n as int);
                        lemma_wsize_child(vb.children@, k as int, n as int);
                    }
                    let cs = vb.children[k].measure(bounds.size);
                    total = total + cs.height();
                    k = k + 1;
                }
                let ghost totall = total as int;
                let mut hit: Option<Hit<I>> = None;
                let mut oy: i64 = bounds.origin.y as i64;
                let mut k2: usize = 0;
                while k2 < n
                    invariant
                        *self == Widget::VBox(*vb),
                        n == vb.children@.len(),
                        k2 <= n,
                        lim == (bounds.size.width as int, bounds.size.height as int),
                        totall == total as int,
                        totall == col_height_sum(vb.children@, lim, n as int),
                        col_ok(vb.children@, lim, n as int),
                        col_render_ok(vb.children@, bounds, cursor, totall, n as int),
                        clip_fits(clip),
                        oy == bounds.origin.y + col_shift(
                            vb.children@,
                            lim,
                            bounds.size.height as int,
                            totall,
                            k2 as int,
                        ),
                        hit == col_hits(vb.children@, bounds, cursor, totall, k2 as int),
                        surface.inv(),
                        surface.spec_bounds() == old(surface).spec_bounds(),
                        forall|x: int, y: int|
                            in_window(old(surface).spec_bounds(), x, y) && !clip_allows(clip, x, y)
                                ==> surface.wat(x, y) == old(surface).wat(x, y),
                    decreases n - k2,
                {
                    proof {
                        lemma_col_ok_prefix(vb.children@, lim, k2 as int + 1, n as int);
                        lemma_col_render_ok_prefix(
                            vb.children@,
                            bounds,
                            cursor,
                            totall,
                            k2 as int + 1,
                            n as int,
                        );
                        lemma_wsize_child(vb.children@, k2 as int, n as int);
                    }
                    let cs = vb.children[k2].measure(bounds.size);
                    let sc = scaled_extent(bounds.size.height, cs.height(), total);
                    let rect = Rect::new(
                        Point::new(bounds.origin.x, oy as i32),
                        Size::new(cs.width(), sc as i32),
                    );
                    let h = vb.children[k2].render(rect, cursor, surface, clip);
                    if h.is_some() {
                        hit = h;
                    }
                    oy = oy + sc;
                    k2 = k2 + 1;
                }
                match hit {
                    Some(h) => Some(h),
                    None => Hit::from_test(vb.id, bounds, cursor),
                }
            },
            Widget::Stack(st) => {
                let n = st.children.len();
                let mut hit: Option<Hit<I>> = None;
                let mut k: usize = 0;
                while k < n
                    invariant
                        *self == Widget::Stack(*st),
                        n == st.children@.len(),
                        k <= n,
                        stack_render_ok(st.children@, bounds, cursor, n as int),
                        clip_fits(clip),
                        hit == stack_hits(st.children@, bounds, cursor, k as int),
                        surface.inv(),
                        surface.spec_bounds() == old(surface).spec_bounds(),
                        forall|x: int, y: int|
                            in_window(old(surface).spec_bounds(), x, y) && !clip_allows(clip, x, y)
                                ==> surface.wat(x, y) == old(surface).wat(x, y),
                    decreases n - k,
                {
                    proof {
                        lemma_stack_render_ok_prefix(
                            st.children@,
                            bounds,
                            cursor,
                            k as int + 1,
                            n as int,
                        );
                        lemma_wsize_child(st.children@, k as int, n as int);
                    }
                    let h = st.children[k].render(bounds, cursor, surface, clip);
                    if h.is_some() {
                        hit = h;
                    }
                    k = k + 1;
                }
                match hit {
                    Some(h) => Some(h),
                    None => Hit::from_test(st.id, bounds, cursor),
                }
            },
            Widget::VSpan(v) => {
                let inner = match &v.child {
                    Some(c) => c.render(bounds, cursor, surface, clip),
                    None => None,
                };
                match inner {
                    Some(h) => Some(h),
                    None => Hit::from_test(v.id, bounds, cursor),
                }
            },
            Widget::Overflow(o) => {
                let mut inner: Option<Hit<I>> = None;
                let mut size = bounds.size;
                match &o.child {
                    Some(c) => {
                        size = c.measure(Size::new(bounds.size.width, i32::MAX));
                        let ib = Rect::new(
                            Point::new(
                                bounds.origin.x - o.offset.x,
                                bounds.origin.y - o.offset.y,
                            ),
                            size,
                        );
                        let gutter = bounds.inset(0, 0, 0, SLIDER_WIDTH);
                        let cur2 = if !gutter.contains(cursor) {
                            Point::new(i32::MAX, i32::MAX)
                        } else {
                            cursor
                        };
                        let nclip = intersect_clip(clip, bounds);
                        let ghost before = *surface;
                        inner = c.render(ib, cur2, surface, Some(nclip));
                        proof {
                            assert forall|x: int, y: int|
                                in_window(old(surface).spec_bounds(), x, y) && !(rect_has(
                                    bounds,
                                    x,
                                    y,
                                ) && clip_allows(clip, x, y)) implies surface.wat(x, y)
                                == before.wat(x, y) by {
                                assert(0 <= x < i32::MAX && 0 <= y < i32::MAX);
                                assert(!rect_has(nclip, x, y));
                                assert(!clip_allows(Some(nclip), x, y));
                                assert(in_window(before.spec_bounds(), x, y));
                            }
                        }
                    },
                    None => {},
                }
                fill_clipped(
                    surface,
                    clip,
                    Rect::new(
                        Point::new(
                            ((bounds.right() as i64) - SLIDER_WIDTH as i64 + 1) as i32,
                            bounds.origin.y,
                        ),
                        Size::new(SLIDER_WIDTH, bounds.size.height),
                    ),
                    Color::opaque(32, 32, 32),
                    BlendMode::Overwrite,
                );
                let offpx: i64 = if size.height() > 0 && o.offset.y > 0 && bounds.size.height > 0 {
                    proof {
                        assert(0 <= (bounds.size.height as int) * (o.offset.y as int)
                            <= 0x7fff_ffff * 0x7fff_ffff) by (nonlinear_arith)
                            requires
                                0 < bounds.size.height <= 0x7fff_ffff,
                                0 < o.offset.y <= 0x7fff_ffff,
                        ;
                        vstd::arithmetic::div_mod::lemma_div_pos_is_pos(
                            (bounds.size.height as int) * (o.offset.y as int),
                            size.height as int,
                        );
                    }
                    (bounds.size.height as i64) * (o.offset.y as i64) / (size.height() as i64)
                } else {
                    0
                };
                let mut ty: i64 = bounds.origin.y as i64 + offpx;
                let tmax: i64 = bounds.bottom() as i64 - SLIDER_WIDTH as i64;
                if ty > tmax {
                    ty = tmax;
                }
                let tmin: i64 = bounds.origin.y as i64;
                if ty < tmin {
                    ty = tmin;
                }
                proof {
                    assert(ty as int == spec_thumb_top(
                        bounds,
                        o.offset.y as int,
                        size.height as int,
                    ));
                    assert(size.height as int == overflow_content_height(*o, bounds));
                }
                let ghost track_done = *surface;
                fill_clipped(
                    surface,
                    clip,
                    Rect::new(
                        Point::new(
                            ((bounds.right() as i64) - SLIDER_WIDTH as i64 + 1) as i32,
                            ty as i32,
                        ),
                        Size::new(SLIDER_WIDTH, SLIDER_WIDTH),
                    ),
                    Color::opaque(127, 127, 127),
                    BlendMode::Overwrite,
                );
                proof {
                    let th = overflow_thumb_rect(
                        bounds,
                        o.offset.y as int,
                        overflow_content_height(*o, bounds),
                    );
                    let tr = overflow_track_rect(bounds);
                    assert forall|x: int, y: int|
                        in_window(old(surface).spec_bounds(), x, y) && rect_has(tr, x, y)
                            && clip_allows(clip, x, y) implies #[trigger] surface.wat(x, y)
                        == if rect_has(th, x, y) {
                        (Color { red: 127, green: 127, blue: 127, alpha: 255 })
                    } else {
                        (Color { red: 32, green: 32, blue: 32, alpha: 255 })
                    } by {
                        assert(track_done.wat(x, y) == (Color {
                            red: 32,
                            green: 32,
                            blue: 32,
                            alpha: 255,
                        }));
                    }
                    if bounds.size.width >= SLIDER_WIDTH && bounds.size.height >= SLIDER_WIDTH {
                        assert forall|x: int, y: int|
                            in_window(old(surface).spec_bounds(), x, y) && !(rect_has(
                                bounds,
                                x,
                                y,
                            ) && clip_allows(clip, x, y)) implies #[trigger] surface.wat(x, y)
                            == old(surface).wat(x, y) by {
                            assert(!rect_has(overflow_track_rect(bounds), x, y) || !clip_allows(
                                clip,
                                x,
                                y,
                            ));
                            assert(!rect_has(th, x, y) || !clip_allows(clip, x, y));
                        }
                    }
                }
                match inner {
                    Some(h) => Some(h),
                    None => Hit::from_test(o.id, bounds, cursor),
                }
            },
            Widget::Label(l) => {
                match l.font {
                    Some(f) => {
                        render_text(f, bounds, l.text, surface, l.color, BlendMode::Blend, clip);
                    },
                    None => {},
                }
                Hit::from_test(l.id, bounds, cursor)
            },
            Widget::Interceptor(it) => it.child.render(bounds, cursor, surface, clip),
        }
    }
}

impl<'a, I> Interceptor<'a, I> {
    /// Wrap `child` so that the measure pass reports, through
    /// [`Widget::measure_observed`], the limits offered at this point of
    /// the tree together with the child's measured size. Layout and
    /// rendering pass straight through.
    pub fn measure(child: Widget<'a, I>) -> (r: Widget<'a, I>)
        ensures
            r is Interceptor,
            *r->Interceptor_0.child == child,
    {
        Widget::Interceptor(Interceptor { child: Box::new(child) })
    }
}

/// The composition engine: one measure pass, then one render pass.
pub struct UI {}

impl UI {
    pub fn new() -> (r: UI) {
        UI {  }
    }

    /// The sole entry point of the composition engine: measure the root
    /// against the target bounds, render it into the resolved rectangle,
    /// and report the final occupied size together with the one winning
    /// hit, if any.
    pub fn render<I: Copy, S: WriteSurface>(
        &mut self,
        bounds: Rect,
        surface: &mut S,
        cursor: Point,
        root: &Widget<'_, I>,
    ) -> (r: Feedback<I>)
        requires
            old(surface).inv(),
            measure_ok(*root, (bounds.size.width as int, bounds.size.height as int)),
            render_ok(
                *root,
                Rect {
                    origin: bounds.origin,
                    size: Size {
                        width: spec_measure(
                            *root,
                            (bounds.size.width as int, bounds.size.height as int),
                        ).0 as i32,
                        height: spec_measure(
                            *root,
                            (bounds.size.width as int, bounds.size.height as int),
                        ).1 as i32,
                    },
                },
                cursor,
            ),
        ensures
            final(surface).inv(),
            final(surface).spec_bounds() == old(surface).spec_bounds(),
            (r.size.width as int, r.size.height as int) == spec_measure(
                *root,
                (bounds.size.width as int, bounds.size.height as int),
            ),
            r.hit == spec_render_hit(*root, Rect { origin: bounds.origin, size: r.size }, cursor),
    {
        let size = root.measure(bounds.size);
        let hit = root.render(Rect::new(bounds.origin, size), cursor, surface, None);
        Feedback { size, hit }
    }
}


proof fn lemma_floor_add(x: int, y: int, t: int)
    requires
        t > 0,
    ensures
        x / t + y / t <= (x + y) / t <= x / t + y / t + 1,
{
    vstd::arithmetic::div_mod::lemma_fundamental_div_mod(x, t);
    vstd::arithmetic::div_mod::lemma_fundamental_div_mod(y, t);
    vstd::arithmetic::div_mod::lemma_fundamental_div_mod(x + y, t);
    let a = x / t;
    let b = y / t;
    let c = (x + y) / t;
    assert(a + b <= c <= a + b + 1) by (nonlinear_arith)
        requires
            x == t * a + x % t,
            y == t * b + y % t,
            x + y == t * c + (x + y) % t,
            0 <= x % t < t,
            0 <= y % t < t,
            0 <= (x + y) % t < t,
            t > 0,
    ;
}

/// Proportional fill of a row: when every child has a non-negative
/// natural width, the scaled extents the render pass hands out sum to the
/// box's actual width, short by less than one pixel per child.
pub proof fn lemma_row_proportional_fill<'a, I>(
    children: Seq<Widget<'a, I>>,
    lim: (int, int),
    avail: int,
    total: int,
    k: int,
)
    requires
        0 <= k <= children.len(),
        avail >= 0,
        total > 0,
        forall|m: int| 0 <= m < children.len() ==> spec_measure(#[trigger] children[m], lim).0 >= 0,
    ensures
        (avail * row_width_sum(children, lim, k)) / total - k <= row_shift(
            children,
            lim,
            avail,
            total,
            k,
        ) <= (avail * row_width_sum(children, lim, k)) / total,
        k == children.len() && total == row_width_sum(children, lim, k) ==> avail - k <= row_shift(
            children,
            lim,
            avail,
            total,
            k,
        ) <= avail,
    decreases k,
{
    if k <= 0 {
        assert(row_width_sum(children, lim, 0) == 0);
        assert((avail * 0) / total == 0) by (nonlinear_arith)
            requires
                total > 0,
        ;
    } else {
        lemma_row_proportional_fill(children, lim, avail, total, k - 1);
        let e = spec_measure(children[k - 1], lim).0;
        let s0 = row_width_sum(children, lim, k - 1);
        assert(e >= 0);
        vstd::arithmetic::mul::lemma_mul_is_distributive_add(avail, s0, e);
        lemma_floor_add(avail * s0, avail * e, total);
        if avail > 0 && e > 0 {
            assert(scaled(avail, e, total) == (avail * e) / total);
        } else {
            assert(avail * e == 0) by (nonlinear_arith)
                requires
                    avail == 0 || e == 0,
            ;
            assert((avail * e) / total == 0) by (nonlinear_arith)
                requires
                    avail * e == 0,
                    total > 0,
            ;
        }
        let a0 = (avail * s0) / total;
        let ee = (avail * e) / total;
        let aa = (avail * row_width_sum(children, lim, k)) / total;
        assert(row_width_sum(children, lim, k) == s0 + e);
        assert(avail * (s0 + e) == avail * s0 + avail * e);
        assert(a0 + ee <= aa <= a0 + ee + 1);
        assert(row_shift(children, lim, avail, total, k) == row_shift(children, lim, avail, total, k - 1)
            + scaled(avail, e, total));
        assert(scaled(avail, e, total) == ee);
        assert(a0 - (k - 1) <= row_shift(children, lim, avail, total, k - 1) <= a0);
        assert(aa - k <= row_shift(children, lim, avail, total, k) <= aa);
    }
    if k == children.len() && total == row_width_sum(children, lim, k) {
        assert((avail * total) / total == avail) by {
            vstd::arithmetic::div_mod::lemma_div_by_multiple(avail, total);
            vstd::arithmetic::mul::lemma_mul_is_commutative(avail, total);
        }
    }
}

/// Proportional fill of a column: the scaled extents sum to the box's
/// actual height, short by less than one pixel per child.
pub proof fn lemma_col_proportional_fill<'a, I>(
    children: Seq<Widget<'a, I>>,
    lim: (int, int),
    avail: int,
    total: int,
    k: int,
)
    requires
        0 <= k <= children.len(),
        avail >= 0,
        total > 0,
        forall|m: int| 0 <= m < children.len() ==> spec_measure(#[trigger] children[m], lim).1 >= 0,
    ensures
        (avail * col_height_sum(children, lim, k)) / total - k <= col_shift(
            children,
            lim,
            avail,
            total,
            k,
        ) <= (avail * col_height_sum(children, lim, k)) / total,
        k == children.len() && total == col_height_sum(children, lim, k) ==> avail - k <= col_shift(
            children,
            lim,
            avail,
            total,
            k,
        ) <= avail,
    decreases k,
{
    if k <= 0 {
        assert(col_height_sum(children, lim, 0) == 0);
        assert((avail * 0) / total == 0) by (nonlinear_arith)
            requires
                total > 0,
        ;
    } else {
        lemma_col_proportional_fill(children, lim, avail, total, k - 1);
        let e = spec_measure(children[k - 1], lim).1;
        let s0 = col_height_sum(children, lim, k - 1);
        assert(e >= 0);
        vstd::arithmetic::mul::lemma_mul_is_distributive_add(avail, s0, e);
        lemma_floor_add(avail * s0, avail * e, total);
        if avail > 0 && e > 0 {
            assert(scaled(avail, e, total) == (avail * e) / total);
        } else {
            assert(avail * e == 0) by (nonlinear_arith)
                requires
                    avail == 0 || e == 0,
            ;
            assert((avail * e) / total == 0) by (nonlinear_arith)
                requires
                    avail * e == 0,
                    total > 0,
            ;
        }
        let a0 = (avail * s0) / total;
        let ee = (avail * e) / total;
        let aa = (avail * col_height_sum(children, lim, k)) / total;
        assert(col_height_sum(children, lim, k) == s0 + e);
        assert(avail * (s0 + e) == avail * s0 + avail * e);
        assert(a0 + ee <= aa <= a0 + ee + 1);
        assert(col_shift(children, lim, avail, total, k) == col_shift(children, lim, avail, total, k - 1)
            + scaled(avail, e, total));
        assert(scaled(avail, e, total) == ee);
        assert(a0 - (k - 1) <= col_shift(children, lim, avail, total, k - 1) <= a0);
        assert(aa - k <= col_shift(children, lim, avail, total, k) <= aa);
    }
    if k == children.len() && total == col_height_sum(children, lim, k) {
        assert((avail * total) / total == avail) by {
            vstd::arithmetic::div_mod::lemma_div_by_multiple(avail, total);
            vstd::arithmetic::mul::lemma_mul_is_commutative(avail, total);
        }
    }
}

/// Hit precedence is leaf-biased: for every wrapper that delegates to a
/// child, a hit reported by the child always wins over the wrapper's own
/// id test, so the innermost id under the cursor is the one reported.
pub proof fn lemma_hit_child_precedence<'a, I>(w: Widget<'a, I>, bounds: Rect, cursor: Point)
    ensures
        w is Border && w->Border_0.child is Some && spec_render_hit(
            *w->Border_0.child->Some_0,
            bounds.spec_inset(
                w->Border_0.weight as int,
                w->Border_0.weight as int,
                w->Border_0.weight as int,
                w->Border_0.weight as int,
            ),
            cursor,
        ) is Some ==> spec_render_hit(w, bounds, cursor) == spec_render_hit(
            *w->Border_0.child->Some_0,
            bounds.spec_inset(
                w->Border_0.weight as int,
                w->Border_0.weight as int,
                w->Border_0.weight as int,
                w->Border_0.weight as int,
            ),
            cursor,
        ),
        w is Margin && w->Margin_0.child is Some && spec_render_hit(
            *w->Margin_0.child->Some_0,
            bounds.spec_inset(
                w->Margin_0.top as int,
                w->Margin_0.left as int,
                w->Margin_0.bottom as int,
                w->Margin_0.right as int,
            ),
            cursor,
        ) is Some ==> spec_render_hit(w, bounds, cursor) == spec_render_hit(
            *w->Margin_0.child->Some_0,
            bounds.spec_inset(
                w->Margin_0.top as int,
                w->Margin_0.left as int,
                w->Margin_0.bottom as int,
                w->Margin_0.right as int,
            ),
            cursor,
        ),
        w is VSpan && w->VSpan_0.child is Some && spec_render_hit(
            *w->VSpan_0.child->Some_0,
            bounds,
            cursor,
        ) is Some ==> spec_render_hit(w, bounds, cursor) == spec_render_hit(
            *w->VSpan_0.child->Some_0,
            bounds,
            cursor,
        ),
{
}

/// Among overlapping stack siblings the later-rendered one wins: if child
/// `j` reports a hit and every later sibling reports none, the stack
/// reports child `j`'s hit, never an earlier sibling's and never the
/// stack's own id.
pub proof fn lemma_stack_last_match_wins<'a, I>(
    children: Seq<Widget<'a, I>>,
    bounds: Rect,
    cursor: Point,
    j: int,
    n: int,
)
    requires
        0 <= j < n <= children.len(),
        spec_render_hit(children[j], bounds, cursor) is Some,
        forall|m: int| j < m < n ==> spec_render_hit(#[trigger] children[m], bounds, cursor) is None,
    ensures
        stack_hits(children, bounds, cursor, n) == spec_render_hit(children[j], bounds, cursor),
    decreases n,
{
    if j < n - 1 {
        lemma_stack_last_match_wins(children, bounds, cursor, j, n - 1);
    }
}

/// Measurement is pure: anything the measure pass reports is a function
/// of the tree and the offered limits alone, so measuring twice with
/// identical arguments returns identical sizes.
pub proof fn lemma_measure_deterministic<'a, I>(
    w: Widget<'a, I>,
    lim: (int, int),
    r1: (int, int),
    r2: (int, int),
)
    requires
        r1 == spec_measure(w, lim),
        r2 == spec_measure(w, lim),
    ensures
        r1 == r2,
{
}

} // verus!
