//! Bitmap fonts and greedy word-wrap text layout.
//!
//! A font is a line-height metric plus a glyph table over byte codes
//! `0..256`. One shared layout algorithm drives both measurement and
//! rendering: it scans the text into tokens — one single whitespace byte
//! (a newline among them), or a maximal run of non-whitespace — wraps
//! greedily against the right edge of the given bounds, and emits one
//! placement per known glyph. Non-ASCII text deliberately degrades to a
//! single empty-size line.

use vstd::prelude::*;
use vstd::string::is_ascii_spec_bytes;
use vstd::string::StringSliceAdditionalSpecFns;
use crate::gfx::color::spec_blend;
use crate::gfx::color::BlendMode;
use crate::gfx::color::Color;
use crate::gfx::geom::Point;
use crate::gfx::geom::Rect;
use crate::gfx::geom::Scalar;
use crate::gfx::geom::Size;
use crate::gfx::surface::clip_allows;
use crate::gfx::surface::clip_fits;
use crate::gfx::surface::in_window;
use crate::gfx::surface::rect_has;
use crate::gfx::surface::write_clipped;
use crate::gfx::surface::ReadSurface;
use crate::gfx::surface::Surface;
use crate::gfx::surface::VecSurface;
use crate::gfx::surface::WriteSurface;

verus! {

/// Every per-glyph metric a well-formed font carries stays within this
/// magnitude, which keeps all layout arithmetic far from overflow.
pub const MAX_GLYPH_EXTENT: Scalar = 1024;

/// The longest text the layout functions accept, in bytes.
pub const MAX_TEXT_LEN: usize = 0x100_0000;

/// One glyph of a bitmap font: its bounding box (origin at zero), pixel
/// offset, advance width, and a stencil surface whose white pixels mark ink.
pub struct Glyph {
    pub bbox: Rect,
    pub offset: Point,
    pub width: Scalar,
    pub surface: VecSurface,
}

/// Well-formedness of one glyph: small non-negative extents, a zero-origin
/// bounding box, and a stencil surface of exactly that box.
pub open spec fn glyph_ok(g: Glyph) -> bool {
    &&& 0 <= g.width <= MAX_GLYPH_EXTENT
    &&& 0 <= g.bbox.size.width <= MAX_GLYPH_EXTENT
    &&& 0 <= g.bbox.size.height <= MAX_GLYPH_EXTENT
    &&& g.bbox.origin == Point::spec_zero()
    &&& -MAX_GLYPH_EXTENT <= g.offset.x <= MAX_GLYPH_EXTENT
    &&& -MAX_GLYPH_EXTENT <= g.offset.y <= MAX_GLYPH_EXTENT
    &&& g.surface.inv()
}

/// A queryable glyph table: a line-height metric plus a glyph per byte code.
pub trait Font: Sized {
    /// The vertical distance between successive baselines.
    spec fn spec_line_height(&self) -> int;

    /// The glyph stored for byte code `c`, if any.
    spec fn spec_glyph(&self, c: u8) -> Option<Glyph>;

    fn line_height(&self) -> (r: Scalar)
        ensures
            r as int == self.spec_line_height(),
    ;

    /// Look up the glyph for a character. Codepoints outside `0..256` have
    /// no glyph.
    fn glyph(&self, c: char) -> (r: Option<&Glyph>)
        ensures
            (c as u32) < 256 ==> (match r {
                Some(g) => self.spec_glyph((c as u32) as u8) == Some(*g),
                None => self.spec_glyph((c as u32) as u8) is None,
            }),
            (c as u32) >= 256 ==> r is None,
    ;

    /// Look up the glyph for a byte code.
    fn glyph_byte(&self, c: u8) -> (r: Option<&Glyph>)
        ensures
            match r {
                Some(g) => self.spec_glyph(c) == Some(*g),
                None => self.spec_glyph(c) is None,
            },
    ;
}

/// Well-formedness of a whole font: a small non-negative line height, and
/// every stored glyph well-formed.
pub open spec fn font_ok<F: Font>(f: &F) -> bool {
    &&& 0 <= f.spec_line_height() <= MAX_GLYPH_EXTENT
    &&& forall|c: u8| (#[trigger] f.spec_glyph(c)) is Some ==> glyph_ok(f.spec_glyph(c)->Some_0)
}

/// The size `text` occupies when wrapped against `size`'s width.
pub fn measure_text<F: Font>(font: &F, size: Size, text: &str) -> (r: Size)
    requires
        font_ok(font),
        text@.len() <= MAX_TEXT_LEN,
        layout_fits(font, Rect { origin: Point { x: 0, y: 0 }, size }, text),
    ensures
        r.width as int == spec_layout_size(
            font,
            Rect { origin: Point { x: 0, y: 0 }, size },
            text,
        ).0,
        r.height as int == spec_layout_size(
            font,
            Rect { origin: Point { x: 0, y: 0 }, size },
            text,
        ).1,
{
    let r = layout(font, Rect::sized(size), text);
    r.0
}

/// Rasterize `text` into `surface`, wrapped against `bounds` and
/// clipped to it on both axes (independent of the surface's own window
/// clipping), with every write further confined to `clip` when present.
/// Exactly the pixels carrying glyph ink change, each through the blend
/// rule with the caller's `color` (color substitution, never the
/// stencil's own pixel value).
pub fn render_text<F: Font, S: WriteSurface>(
    font: &F,
    bounds: Rect,
    text: &str,
    surface: &mut S,
    color: Color,
    blend: BlendMode,
    clip: Option<Rect>,
)
    requires
        old(surface).inv(),
        font_ok(font),
        text@.len() <= MAX_TEXT_LEN,
        layout_fits(font, bounds, text),
        i32::MIN <= bounds.spec_right() <= i32::MAX,
        i32::MIN <= bounds.spec_bottom() <= i32::MAX,
        clip_fits(clip),
    ensures
        final(surface).inv(),
        final(surface).spec_bounds() == old(surface).spec_bounds(),
        forall|x: int, y: int|
            in_window(old(surface).spec_bounds(), x, y) ==> #[trigger] final(surface).wat(x, y)
                == if rect_has(bounds, x, y) && clip_allows(clip, x, y) && text_ink_at(
                font,
                bounds,
                text,
                x,
                y,
            ) {
                spec_blend(blend, color, old(surface).wat(x, y))
            } else {
                old(surface).wat(x, y)
            },
{
    let r = layout(font, bounds, text);
    let places = r.1;
    let ghost pl = spec_layout_places(font, bounds, text);
    proof {
        lemma_layout_places_wf(font, bounds, text);
    }
    let mut k: usize = 0;
    while k < places.len()
        invariant
            surface.inv(),
            surface.spec_bounds() == old(surface).spec_bounds(),
            font_ok(font),
            clip_fits(clip),
            i32::MIN <= bounds.spec_right() <= i32::MAX,
            i32::MIN <= bounds.spec_bottom() <= i32::MAX,
            k <= places.len(),
            pos_matches(places@, pl),
            forall|m: int|
                0 <= m < places@.len() ==> -POS_BOUND <= (#[trigger] places@[m]).x <= POS_BOUND
                    && -POS_BOUND <= places@[m].y <= POS_BOUND,
            forall|idx: int|
                0 <= idx < pl.len() ==> font.spec_glyph(#[trigger] pl[idx].0) is Some,
            forall|x: int, y: int|
                in_window(old(surface).spec_bounds(), x, y) ==> #[trigger] surface.wat(x, y)
                    == if rect_has(bounds, x, y) && clip_allows(clip, x, y) && places_cover(
                    font,
                    pl,
                    k as int,
                    x,
                    y,
                ) {
                    spec_blend(blend, color, old(surface).wat(x, y))
                } else {
                    old(surface).wat(x, y)
                },
        decreases places.len() - k,
    {
        let ghost k0 = k as int;
        let ghost mid = *surface;
        let code = places[k].code;
        let glyph = font.glyph_byte(code);
        match glyph {
            Some(g) => {
                proof {
                    assert(glyph_ok(*g));
                }
                stencil_scan(
                    &g.surface,
                    g.bbox.size,
                    places[k].x,
                    places[k].y,
                    bounds,
                    clip,
                    surface,
                    color,
                    blend,
                );
            },
            None => {},
        }
        proof {
            assert forall|x: int, y: int|
                in_window(old(surface).spec_bounds(), x, y) implies #[trigger] surface.wat(x, y)
                == if rect_has(bounds, x, y) && clip_allows(clip, x, y) && places_cover(
                font,
                pl,
                k0 + 1,
                x,
                y,
            ) {
                spec_blend(blend, color, old(surface).wat(x, y))
            } else {
                old(surface).wat(x, y)
            } by {
                let ck = place_covers(font, pl[k0], x, y);
                if places_cover(font, pl, k0, x, y) {
                    let j = choose|j: int|
                        0 <= j < k0 && j < pl.len() && place_covers(font, #[trigger] pl[j], x, y);
                    assert(place_covers(font, pl[j], x, y));
                    assert(places_cover(font, pl, k0 + 1, x, y));
                }
                if ck {
                    assert(places_cover(font, pl, k0 + 1, x, y));
                }
                if places_cover(font, pl, k0 + 1, x, y) && !places_cover(font, pl, k0, x, y) {
                    let j = choose|j: int|
                        0 <= j < k0 + 1 && j < pl.len() && place_covers(
                            font,
                            #[trigger] pl[j],
                            x,
                            y,
                        );
                    if j < k0 {
                        assert(places_cover(font, pl, k0, x, y));
                    }
                    assert(ck);
                }
                if rect_has(bounds, x, y) && clip_allows(clip, x, y) && ck && places_cover(
                    font,
                    pl,
                    k0,
                    x,
                    y,
                ) {
                    crate::gfx::color::lemma_blend_idempotent(
                        blend,
                        color,
                        old(surface).wat(x, y),
                    );
                }
            }
        }
        k = k + 1;
    }
}

/// ASCII whitespace, exactly as `u8::is_ascii_whitespace` defines it:
/// space, tab, line feed, form feed, carriage return.
pub open spec fn is_space(b: u8) -> bool {
    b == 32 || b == 9 || b == 10 || b == 12 || b == 13
}

fn is_space_byte(b: u8) -> (r: bool)
    ensures
        r == is_space(b),
{
    b == 32 || b == 9 || b == 10 || b == 12 || b == 13
}

/// The end of the maximal non-whitespace run starting at `j`.
pub open spec fn word_end(bytes: Seq<u8>, j: int) -> int
    decreases bytes.len() - j when 0 <= j <= bytes.len()
{
    if j >= bytes.len() {
        j
    } else if is_space(bytes[j]) {
        j
    } else {
        word_end(bytes, j + 1)
    }
}

/// The end of the token starting at `i`: one byte for whitespace, the
/// maximal non-whitespace run otherwise.
pub open spec fn token_end(bytes: Seq<u8>, i: int) -> int {
    if is_space(bytes[i]) {
        i + 1
    } else {
        word_end(bytes, i)
    }
}

pub proof fn lemma_word_end_bounds(bytes: Seq<u8>, j: int)
    requires
        0 <= j <= bytes.len(),
    ensures
        j <= word_end(bytes, j) <= bytes.len(),
        j < bytes.len() && !is_space(bytes[j]) ==> j + 1 <= word_end(bytes, j),
    decreases bytes.len() - j,
{
    if j < bytes.len() && !is_space(bytes[j]) {
        lemma_word_end_bounds(bytes, j + 1);
    }
}

pub proof fn lemma_token_end_bounds(bytes: Seq<u8>, i: int)
    requires
        0 <= i < bytes.len(),
    ensures
        i + 1 <= token_end(bytes, i) <= bytes.len(),
{
    lemma_word_end_bounds(bytes, i);
}

/// The advance width a byte contributes: its glyph's width, or zero for an
/// unknown glyph.
pub open spec fn advance_of<F: Font>(font: &F, b: u8) -> int {
    match font.spec_glyph(b) {
        Some(g) => g.width as int,
        None => 0,
    }
}

/// The total advance width of `bytes[i..j]`.
pub open spec fn word_width<F: Font>(font: &F, bytes: Seq<u8>, i: int, j: int) -> int
    decreases j - i,
{
    if i >= j {
        0
    } else {
        advance_of(font, bytes[i]) + word_width(font, bytes, i + 1, j)
    }
}

proof fn lemma_word_width_bounds<F: Font>(font: &F, bytes: Seq<u8>, i: int, j: int)
    requires
        font_ok(font),
    ensures
        0 <= word_width(font, bytes, i, j),
        word_width(font, bytes, i, j) <= if j - i >= 0 {
            (j - i) * (MAX_GLYPH_EXTENT as int)
        } else {
            0int
        },
    decreases j - i,
{
    if i < j {
        lemma_word_width_bounds(font, bytes, i + 1, j);
    }
}

/// The running state of the word-wrap layout: the pen position, the widest
/// rightward extent reached, and the glyph placements emitted so far (byte
/// code with the destination pixel of the glyph's top-left corner).
pub struct TextLayout {
    pub cursor_x: int,
    pub cursor_y: int,
    pub width: int,
    pub places: Seq<(u8, int, int)>,
}

/// Place the glyphs of the word `bytes[i..j]` at the cursor, advancing it
/// by each known glyph's width; unknown glyphs contribute nothing. Each
/// placement sits at `cursor + (offset.x, lineHeight - glyphHeight)`, so
/// the glyph's bottom lands on the baseline.
pub open spec fn place_word<F: Font>(
    font: &F,
    bounds: Rect,
    bytes: Seq<u8>,
    i: int,
    j: int,
    st: TextLayout,
) -> TextLayout
    decreases j - i,
{
    if i >= j {
        st
    } else {
        let st1 = match font.spec_glyph(bytes[i]) {
            Some(g) => TextLayout {
                cursor_x: st.cursor_x + g.width,
                cursor_y: st.cursor_y,
                width: if st.width >= st.cursor_x + g.width - bounds.origin.x {
                    st.width
                } else {
                    st.cursor_x + g.width - bounds.origin.x
                },
                places: st.places.push(
                    (
                        bytes[i],
                        st.cursor_x + g.offset.x,
                        st.cursor_y + (font.spec_line_height() - g.bbox.size.height),
                    ),
                ),
            },
            None => st,
        };
        place_word(font, bounds, bytes, i + 1, j, st1)
    }
}

/// One greedy word-wrap pass over `bytes[i..]`: newlines reset the cursor
/// to the line start and advance one line height; a word that no longer
/// fits wraps first unless it is itself whitespace, which is dropped.
pub open spec fn layout_rec<F: Font>(
    font: &F,
    bounds: Rect,
    bytes: Seq<u8>,
    i: int,
    st: TextLayout,
) -> TextLayout
    decreases bytes.len() - i,
{
    if i < 0 || i >= bytes.len() {
        st
    } else {
        // `token_end` always lands in `i+1 ..= len`; the clamp only makes
        // that visible to the termination check.
        let je = token_end(bytes, i);
        let j = if je < i + 1 {
            i + 1
        } else if je > bytes.len() {
            bytes.len() as int
        } else {
            je
        };
        if bytes[i] == 10 {
            layout_rec(
                font,
                bounds,
                bytes,
                j,
                TextLayout {
                    cursor_x: bounds.origin.x as int,
                    cursor_y: st.cursor_y + font.spec_line_height(),
                    width: st.width,
                    places: st.places,
                },
            )
        } else {
            let ww = word_width(font, bytes, i, j);
            if st.cursor_x != bounds.origin.x && st.cursor_x + ww > bounds.spec_right() {
                if is_space(bytes[i]) {
                    layout_rec(font, bounds, bytes, j, st)
                } else {
                    let wrapped = TextLayout {
                        cursor_x: bounds.origin.x as int,
                        cursor_y: st.cursor_y + font.spec_line_height(),
                        width: st.width,
                        places: st.places,
                    };
                    layout_rec(font, bounds, bytes, j, place_word(font, bounds, bytes, i, j, wrapped))
                }
            } else {
                layout_rec(font, bounds, bytes, j, place_word(font, bounds, bytes, i, j, st))
            }
        }
    }
}

/// The layout of ASCII `bytes` against `bounds`, starting from an empty
/// state at the bounds' origin.
pub open spec fn spec_layout<F: Font>(font: &F, bounds: Rect, bytes: Seq<u8>) -> TextLayout {
    layout_rec(
        font,
        bounds,
        bytes,
        0,
        TextLayout {
            cursor_x: bounds.origin.x as int,
            cursor_y: bounds.origin.y as int,
            width: 0,
            places: Seq::empty(),
        },
    )
}

/// The measured size of `text` against `bounds`, as a `(width, height)`
/// pair: non-ASCII text short-circuits to `(0, lineHeight)`; otherwise the
/// widest extent reached plus a one-pixel pad, and one line height below
/// the final cursor row.
pub open spec fn spec_layout_size<F: Font>(font: &F, bounds: Rect, text: &str) -> (int, int) {
    if !text.is_ascii() {
        (0, font.spec_line_height())
    } else {
        let st = spec_layout(font, bounds, text.spec_bytes());
        (st.width + 1, font.spec_line_height() + st.cursor_y)
    }
}

/// The glyph placements of `text` against `bounds`; empty for non-ASCII
/// text.
pub open spec fn spec_layout_places<F: Font>(font: &F, bounds: Rect, text: &str) -> Seq<
    (u8, int, int),
> {
    if !text.is_ascii() {
        Seq::empty()
    } else {
        spec_layout(font, bounds, text.spec_bytes()).places
    }
}

/// Whether the measured size of `text` against `bounds` fits the scalar
/// type, which is all [`layout`] demands beyond a bounded text length.
pub open spec fn layout_fits<F: Font>(font: &F, bounds: Rect, text: &str) -> bool {
    &&& spec_layout_size(font, bounds, text).0 <= i32::MAX
    &&& spec_layout_size(font, bounds, text).1 <= i32::MAX
    &&& i32::MIN <= spec_layout_size(font, bounds, text).1
}

/// One glyph placement produced by [`layout`]: a byte code and the
/// destination pixel of the glyph's top-left corner. Destinations are kept
/// wide so that even layouts running far outside the scalar range clip
/// cleanly instead of overflowing.
pub struct GlyphPos {
    pub code: u8,
    pub x: i64,
    pub y: i64,
}

/// Whether the placement list `v` spells exactly the spec placements `s`.
pub open spec fn pos_matches(v: Seq<GlyphPos>, s: Seq<(u8, int, int)>) -> bool {
    &&& v.len() == s.len()
    &&& forall|k: int|
        0 <= k < v.len() ==> (#[trigger] v[k]).code == s[k].0 && v[k].x == s[k].1 && v[k].y
            == s[k].2
}

/// The magnitude within which every placement coordinate [`layout`] emits
/// stays, however far outside the bounds a layout may run.
pub const POS_BOUND: i64 = 0x10_0000_0000;

/// Whether the stencil `src`, scanned over a `size`-sized zero-based box
/// placed with its top-left corner at `(dx, dy)`, marks ink at the
/// destination pixel `(x, y)`: the matching stencil position lies inside
/// the scan box and its pixel reads white.
pub open spec fn stencil_covers(
    src: VecSurface,
    size: Size,
    dx: int,
    dy: int,
    x: int,
    y: int,
) -> bool {
    let sx = x - dx;
    let sy = y - dy;
    &&& 0 <= sx < size.width
    &&& 0 <= sy < size.height
    &&& in_window(src.spec_bounds(), sx, sy)
    &&& src.at(sx, sy) == Color::spec_white()
}

/// Whether placement `p` (a byte code with a destination corner) marks
/// ink at `(x, y)` under `font`'s glyph table.
pub open spec fn place_covers<F: Font>(font: &F, p: (u8, int, int), x: int, y: int) -> bool {
    match font.spec_glyph(p.0) {
        Some(g) => stencil_covers(g.surface, g.bbox.size, p.1, p.2, x, y),
        None => false,
    }
}

/// Whether any of the first `n` placements marks ink at `(x, y)`.
pub open spec fn places_cover<F: Font>(
    font: &F,
    places: Seq<(u8, int, int)>,
    n: int,
    x: int,
    y: int,
) -> bool {
    exists|k: int| 0 <= k < n && k < places.len() && place_covers(font, #[trigger] places[k], x, y)
}

/// Whether the laid-out `text` marks glyph ink at `(x, y)`: some
/// placement of its layout against `bounds` covers the pixel with a white
/// stencil pixel.
pub open spec fn text_ink_at<F: Font>(font: &F, bounds: Rect, text: &str, x: int, y: int) -> bool {
    places_cover(
        font,
        spec_layout_places(font, bounds, text),
        spec_layout_places(font, bounds, text).len() as int,
        x,
        y,
    )
}

/// Run the greedy word-wrap over `text` against `bounds`: the measured
/// size, and one placement per known glyph for rendering. Non-ASCII text
/// yields `(0, lineHeight)` and no placements.
pub fn layout<F: Font>(font: &F, bounds: Rect, text: &str) -> (r: (Size, Vec<GlyphPos>))
    requires
        font_ok(font),
        text@.len() <= MAX_TEXT_LEN,
        layout_fits(font, bounds, text),
    ensures
        r.0.width as int == spec_layout_size(font, bounds, text).0,
        r.0.height as int == spec_layout_size(font, bounds, text).1,
        pos_matches(r.1@, spec_layout_places(font, bounds, text)),
        forall|k: int|
            0 <= k < r.1@.len() ==> -POS_BOUND <= (#[trigger] r.1@[k]).x <= POS_BOUND && -POS_BOUND
                <= r.1@[k].y <= POS_BOUND,
{
    let lh = font.line_height();
    if !text.is_ascii() {
        return (Size::new(0, lh), Vec::new());
    }
    proof {
        is_ascii_spec_bytes(text);
    }
    let bytes = vstd::string::StrSliceExecFns::as_bytes_vec(text);
    let ghost bs = text.spec_bytes();
    let n = bytes.len();
    let origin_x: i64 = bounds.origin.x as i64;
    let origin_y: i64 = bounds.origin.y as i64;
    let wm1: i64 = bounds.size.width as i64 - 1;
    let right: i64 = origin_x + (if wm1 < 0 {
        0
    } else {
        wm1
    });
    let mut cursor_x: i64 = origin_x;
    let mut cursor_y: i64 = origin_y;
    let mut width: i64 = 0;
    let mut places: Vec<GlyphPos> = Vec::new();
    let ghost mut pl: Seq<(u8, int, int)> = Seq::empty();
    let mut i: usize = 0;
    let ghost st0 = TextLayout {
        cursor_x: origin_x as int,
        cursor_y: origin_y as int,
        width: 0,
        places: Seq::empty(),
    };
    let ghost goal = layout_rec(font, bounds, bs, 0, st0);
    while i < n
        invariant
            bytes@ == bs,
            n == bs.len(),
            n <= MAX_TEXT_LEN,
            font_ok(font),
            lh as int == font.spec_line_height(),
            origin_x == bounds.origin.x as int,
            origin_y == bounds.origin.y as int,
            right == bounds.spec_right(),
            0 <= i <= n,
            origin_x <= cursor_x,
            cursor_x as int <= origin_x + 1024 * (i as int),
            origin_y <= cursor_y,
            cursor_y as int <= origin_y + 1024 * (i as int),
            0 <= width,
            width as int <= 1024 * (i as int),
            pos_matches(places@, pl),
            forall|k: int|
                0 <= k < pl.len() ==> -POS_BOUND <= #[trigger] pl[k].1 <= POS_BOUND && -POS_BOUND
                    <= pl[k].2 <= POS_BOUND,
            goal == layout_rec(
                font,
                bounds,
                bs,
                i as int,
                TextLayout {
                    cursor_x: cursor_x as int,
                    cursor_y: cursor_y as int,
                    width: width as int,
                    places: pl,
                },
            ),
        decreases n - i,
    {
        let ghost i0 = i as int;
        let ghost st_in = TextLayout {
            cursor_x: cursor_x as int,
            cursor_y: cursor_y as int,
            width: width as int,
            places: pl,
        };
        let b0 = bytes[i];
        let mut j: usize = i;
        if is_space_byte(b0) {
            j = i + 1;
        } else {
            while j < n && !is_space_byte(bytes[j])
                invariant
                    bytes@ == bs,
                    n == bs.len(),
                    i <= j <= n,
                    word_end(bs, i as int) == word_end(bs, j as int),
                decreases n - j,
            {
                j = j + 1;
            }
        }
        proof {
            lemma_word_end_bounds(bs, j as int);
            assert(j as int == token_end(bs, i0));
            lemma_token_end_bounds(bs, i0);
        }
        if b0 == 10 {
            cursor_x = origin_x;
            cursor_y = cursor_y + lh as i64;
        } else {
            let mut ww: i64 = 0;
            let mut k: usize = i;
            while k < j
                invariant
                    bytes@ == bs,
                    n == bs.len(),
                    n <= MAX_TEXT_LEN,
                    i <= k <= j <= n,
                    font_ok(font),
                    0 <= ww,
                    ww as int <= 1024 * ((k - i) as int),
                    word_width(font, bs, i as int, j as int) == ww + word_width(
                        font,
                        bs,
                        k as int,
                        j as int,
                    ),
                decreases j - k,
            {
                if let Some(g) = font.glyph_byte(bytes[k]) {
                    proof {
                        assert(glyph_ok(*g));
                    }
                    ww = ww + g.width as i64;
                }
                k = k + 1;
            }
            let wrap = cursor_x != origin_x && cursor_x + ww > right;
            if wrap && is_space_byte(b0) {
                // trailing whitespace at a wrap is dropped silently
            } else {
                if wrap {
                    cursor_x = origin_x;
                    cursor_y = cursor_y + lh as i64;
                }
                let ghost st_mid = TextLayout {
                    cursor_x: cursor_x as int,
                    cursor_y: cursor_y as int,
                    width: width as int,
                    places: pl,
                };
                let mut k: usize = i;
                while k < j
                    invariant
                        bytes@ == bs,
                        n == bs.len(),
                        n <= MAX_TEXT_LEN,
                        i <= k <= j <= n,
                        font_ok(font),
                        lh as int == font.spec_line_height(),
                        origin_x == bounds.origin.x as int,
                        origin_x <= cursor_x,
                        cursor_x as int <= origin_x + 1024 * (k as int),
                        cursor_y == st_mid.cursor_y,
                        origin_y <= cursor_y,
                        cursor_y as int <= origin_y + 1024 * ((i + 1) as int),
                        origin_y == bounds.origin.y as int,
                        0 <= width,
                        width as int <= 1024 * (k as int),
                        pos_matches(places@, pl),
                        forall|m: int|
                            0 <= m < pl.len() ==> -POS_BOUND <= #[trigger] pl[m].1 <= POS_BOUND
                                && -POS_BOUND <= pl[m].2 <= POS_BOUND,
                        place_word(font, bounds, bs, i as int, j as int, st_mid) == place_word(
                            font,
                            bounds,
                            bs,
                            k as int,
                            j as int,
                            TextLayout {
                                cursor_x: cursor_x as int,
                                cursor_y: cursor_y as int,
                                width: width as int,
                                places: pl,
                            },
                        ),
                    decreases j - k,
                {
                    let bk = bytes[k];
                    if let Some(g) = font.glyph_byte(bk) {
                        proof {
                            assert(glyph_ok(*g));
                        }
                        let px = cursor_x + g.offset.x as i64;
                        let py = cursor_y + (lh as i64 - g.bbox.size.height as i64);
                        places.push(GlyphPos { code: bk, x: px, y: py });
                        proof {
                            pl = pl.push((bs[k as int], px as int, py as int));
                        }
                        cursor_x = cursor_x + g.width as i64;
                        let w2 = cursor_x - origin_x;
                        if w2 > width {
                            width = w2;
                        }
                    }
                    k = k + 1;
                }
            }
        }
        i = j;
        proof {
            assert(goal == layout_rec(
                font,
                bounds,
                bs,
                i as int,
                TextLayout {
                    cursor_x: cursor_x as int,
                    cursor_y: cursor_y as int,
                    width: width as int,
                    places: pl,
                },
            ));
        }
    }
    proof {
        assert(goal == TextLayout {
            cursor_x: cursor_x as int,
            cursor_y: cursor_y as int,
            width: width as int,
            places: pl,
        });
    }
    let out_w = (width + 1) as i32;
    let out_h = (lh as i64 + cursor_y) as i32;
    (Size::new(out_w, out_h), places)
}

/// Paint one glyph stencil into `surface`: every white pixel of `src`
/// within a `size`-sized zero-origin scan box lands at
/// `dest + relativeOffset` in `color`, clipped against `bounds` on both
/// axes (independent of the surface's own window clipping) and further
/// confined to `clip`. Exactly the covered pixels change, each through
/// the blend rule.
fn stencil_scan<S: WriteSurface>(
    src: &VecSurface,
    size: Size,
    dest_x: i64,
    dest_y: i64,
    bounds: Rect,
    clip: Option<Rect>,
    surface: &mut S,
    color: Color,
    blend: BlendMode,
)
    requires
        old(surface).inv(),
        src.inv(),
        0 <= size.width <= MAX_GLYPH_EXTENT,
        0 <= size.height <= MAX_GLYPH_EXTENT,
        -POS_BOUND <= dest_x <= POS_BOUND,
        -POS_BOUND <= dest_y <= POS_BOUND,
        i32::MIN <= bounds.spec_right() <= i32::MAX,
        i32::MIN <= bounds.spec_bottom() <= i32::MAX,
        clip_fits(clip),
    ensures
        final(surface).inv(),
        final(surface).spec_bounds() == old(surface).spec_bounds(),
        forall|x: int, y: int|
            in_window(old(surface).spec_bounds(), x, y) ==> #[trigger] final(surface).wat(x, y)
                == if rect_has(bounds, x, y) && clip_allows(clip, x, y) && stencil_covers(
                *src,
                size,
                dest_x as int,
                dest_y as int,
                x,
                y,
            ) {
                spec_blend(blend, color, old(surface).wat(x, y))
            } else {
                old(surface).wat(x, y)
            },
{
    let top: i64 = bounds.origin.y as i64;
    let left: i64 = bounds.origin.x as i64;
    let hm1: i64 = bounds.size.height as i64 - 1;
    let bottom: i64 = top + (if hm1 < 0 {
        0
    } else {
        hm1
    });
    let wm1: i64 = bounds.size.width as i64 - 1;
    let right: i64 = left + (if wm1 < 0 {
        0
    } else {
        wm1
    });
    let mut sy: i32 = 0;
    while sy < size.height
        invariant
            surface.inv(),
            surface.spec_bounds() == old(surface).spec_bounds(),
            src.inv(),
            0 <= sy <= size.height <= MAX_GLYPH_EXTENT,
            0 <= size.width <= MAX_GLYPH_EXTENT,
            -POS_BOUND <= dest_x <= POS_BOUND,
            -POS_BOUND <= dest_y <= POS_BOUND,
            clip_fits(clip),
            top == bounds.origin.y as int,
            left == bounds.origin.x as int,
            bottom == bounds.spec_bottom(),
            right == bounds.spec_right(),
            i32::MIN <= bounds.spec_right() <= i32::MAX,
            i32::MIN <= bounds.spec_bottom() <= i32::MAX,
            forall|x: int, y: int|
                in_window(old(surface).spec_bounds(), x, y) ==> #[trigger] surface.wat(x, y)
                    == if rect_has(bounds, x, y) && clip_allows(clip, x, y) && stencil_covers(
                    *src,
                    size,
                    dest_x as int,
                    dest_y as int,
                    x,
                    y,
                ) && y - dest_y < sy {
                    spec_blend(blend, color, old(surface).wat(x, y))
                } else {
                    old(surface).wat(x, y)
                },
        decreases size.height - sy,
    {
        let cy = dest_y + sy as i64;
        if cy >= top && cy <= bottom {
            let mut sx: i32 = 0;
            while sx < size.width
                invariant
                    surface.inv(),
                    surface.spec_bounds() == old(surface).spec_bounds(),
                    src.inv(),
                    0 <= sy < size.height <= MAX_GLYPH_EXTENT,
                    0 <= sx <= size.width <= MAX_GLYPH_EXTENT,
                    -POS_BOUND <= dest_x <= POS_BOUND,
                    -POS_BOUND <= dest_y <= POS_BOUND,
                    clip_fits(clip),
                    cy == dest_y + sy,
                    top == bounds.origin.y as int,
                    left == bounds.origin.x as int,
                    bottom == bounds.spec_bottom(),
                    right == bounds.spec_right(),
                    i32::MIN <= bounds.spec_right() <= i32::MAX,
                    i32::MIN <= bounds.spec_bottom() <= i32::MAX,
                    top <= cy <= bottom,
                    forall|x: int, y: int|
                        in_window(old(surface).spec_bounds(), x, y) ==> #[trigger] surface.wat(
                            x,
                            y,
                        ) == if rect_has(bounds, x, y) && clip_allows(clip, x, y)
                            && stencil_covers(
                            *src,
                            size,
                            dest_x as int,
                            dest_y as int,
                            x,
                            y,
                        ) && (y - dest_y < sy || (y - dest_y == sy && x - dest_x < sx)) {
                            spec_blend(blend, color, old(surface).wat(x, y))
                        } else {
                            old(surface).wat(x, y)
                        },
                decreases size.width - sx,
            {
                let cx = dest_x + sx as i64;
                let ghost before = *surface;
                if cx >= left && cx <= right {
                    let stencil = src.read(Point::new(sx, sy));
                    let is_ink = match stencil {
                        Some(c) => c.red == 255 && c.green == 255 && c.blue == 255 && c.alpha
                            == 255,
                        None => false,
                    };
                    if is_ink {
                        write_clipped(
                            surface,
                            clip,
                            Point::new(cx as i32, cy as i32),
                            color,
                            blend,
                        );
                    } else {
                        proof {
                            assert(!stencil_covers(
                                *src,
                                size,
                                dest_x as int,
                                dest_y as int,
                                cx as int,
                                cy as int,
                            ));
                        }
                    }
                }
                proof {
                    assert forall|x: int, y: int|
                        in_window(old(surface).spec_bounds(), x, y) implies #[trigger] surface.wat(
                        x,
                        y,
                    ) == if rect_has(bounds, x, y) && clip_allows(clip, x, y) && stencil_covers(
                        *src,
                        size,
                        dest_x as int,
                        dest_y as int,
                        x,
                        y,
                    ) && (y - dest_y < sy || (y - dest_y == sy && x - dest_x < sx + 1)) {
                        spec_blend(blend, color, old(surface).wat(x, y))
                    } else {
                        old(surface).wat(x, y)
                    } by {
                        if x == dest_x + sx && y == dest_y + sy {
                            // the newly scanned position: written exactly when
                            // it is in bounds, in the clip, and reads white
                            if !(left <= x <= right) {
                                assert(!rect_has(bounds, x, y));
                            }
                        } else {
                            assert(surface.wat(x, y) == before.wat(x, y));
                        }
                    }
                }
                sx = sx + 1;
            }
        } else {
            proof {
                // the whole skipped row lies outside the bounds rows
                assert forall|x: int, y: int|
                    in_window(old(surface).spec_bounds(), x, y) && y - dest_y == sy implies !(
                rect_has(bounds, x, y)) by {
                    assert(y == cy);
                }
            }
        }
        sy = sy + 1;
    }
}


proof fn lemma_place_word_wf<F: Font>(
    font: &F,
    bounds: Rect,
    bytes: Seq<u8>,
    i: int,
    j: int,
    st: TextLayout,
)
    requires
        forall|idx: int| 0 <= idx < st.places.len() ==> font.spec_glyph(#[trigger] st.places[idx].0) is Some,
    ensures
        forall|idx: int|
            0 <= idx < place_word(font, bounds, bytes, i, j, st).places.len() ==> font.spec_glyph(
                #[trigger] place_word(font, bounds, bytes, i, j, st).places[idx].0,
            ) is Some,
    decreases j - i,
{
    if i < j {
        let st1 = match font.spec_glyph(bytes[i]) {
            Some(g) => TextLayout {
                cursor_x: st.cursor_x + g.width,
                cursor_y: st.cursor_y,
                width: if st.width >= st.cursor_x + g.width - bounds.origin.x {
                    st.width
                } else {
                    st.cursor_x + g.width - bounds.origin.x
                },
                places: st.places.push(
                    (
                        bytes[i],
                        st.cursor_x + g.offset.x,
                        st.cursor_y + (font.spec_line_height() - g.bbox.size.height),
                    ),
                ),
            },
            None => st,
        };
        lemma_place_word_wf(font, bounds, bytes, i + 1, j, st1);
    }
}

proof fn lemma_layout_rec_wf<F: Font>(font: &F, bounds: Rect, bytes: Seq<u8>, i: int, st: TextLayout)
    requires
        0 <= i <= bytes.len(),
        forall|idx: int| 0 <= idx < st.places.len() ==> font.spec_glyph(#[trigger] st.places[idx].0) is Some,
    ensures
        forall|idx: int|
            0 <= idx < layout_rec(font, bounds, bytes, i, st).places.len() ==> font.spec_glyph(
                #[trigger] layout_rec(font, bounds, bytes, i, st).places[idx].0,
            ) is Some,
    decreases bytes.len() - i,
{
    if i < bytes.len() {
        lemma_token_end_bounds(bytes, i);
        let j = token_end(bytes, i);
        if bytes[i] == 10 {
            lemma_layout_rec_wf(
                font,
                bounds,
                bytes,
                j,
                TextLayout {
                    cursor_x: bounds.origin.x as int,
                    cursor_y: st.cursor_y + font.spec_line_height(),
                    width: st.width,
                    places: st.places,
                },
            );
        } else {
            let ww = word_width(font, bytes, i, j);
            if st.cursor_x != bounds.origin.x && st.cursor_x + ww > bounds.spec_right() {
                if is_space(bytes[i]) {
                    lemma_layout_rec_wf(font, bounds, bytes, j, st);
                } else {
                    let wrapped = TextLayout {
                        cursor_x: bounds.origin.x as int,
                        cursor_y: st.cursor_y + font.spec_line_height(),
                        width: st.width,
                        places: st.places,
                    };
                    lemma_place_word_wf(font, bounds, bytes, i, j, wrapped);
                    lemma_layout_rec_wf(
                        font,
                        bounds,
                        bytes,
                        j,
                        place_word(font, bounds, bytes, i, j, wrapped),
                    );
                }
            } else {
                lemma_place_word_wf(font, bounds, bytes, i, j, st);
                lemma_layout_rec_wf(font, bounds, bytes, j, place_word(font, bounds, bytes, i, j, st));
            }
        }
    }
}

/// Every placement the layout emits carries a byte code the font has a
/// glyph for.
pub proof fn lemma_layout_places_wf<F: Font>(font: &F, bounds: Rect, text: &str)
    ensures
        forall|idx: int|
            0 <= idx < spec_layout_places(font, bounds, text).len() ==> font.spec_glyph(
                #[trigger] spec_layout_places(font, bounds, text)[idx].0,
            ) is Some,
{
    if text.is_ascii() {
        lemma_layout_rec_wf(
            font,
            bounds,
            text.spec_bytes(),
            0,
            TextLayout {
                cursor_x: bounds.origin.x as int,
                cursor_y: bounds.origin.y as int,
                width: 0,
                places: Seq::empty(),
            },
        );
    }
}


/// The x position a word of total advance width `ww` is placed at, given
/// the pen state `st`: the pen position, unless the word no longer fits
/// on a started line, in which case the line start.
pub open spec fn word_start_x(bounds: Rect, st: TextLayout, ww: int) -> int {
    if st.cursor_x != bounds.origin.x && st.cursor_x + ww > bounds.spec_right() {
        bounds.origin.x as int
    } else {
        st.cursor_x
    }
}

/// The greedy-wrap guarantee: no word's start position plus its width
/// exceeds the right edge of the bounds, unless the word alone exceeds
/// the full line width, in which case it is placed at the line start
/// regardless.
pub proof fn lemma_greedy_wrap_bound(bounds: Rect, st: TextLayout, ww: int)
    ensures
        word_start_x(bounds, st, ww) == bounds.origin.x || word_start_x(bounds, st, ww) + ww
            <= bounds.spec_right(),
{
}

/// Every word the layout places really is placed at [`word_start_x`]:
/// one layout step on a word token wraps the pen exactly when the word
/// no longer fits on a started line, then lays the word out from there.
pub proof fn lemma_greedy_wrap_step<F: Font>(
    font: &F,
    bounds: Rect,
    bytes: Seq<u8>,
    i: int,
    st: TextLayout,
)
    requires
        0 <= i < bytes.len(),
        !is_space(bytes[i]),
    ensures
        ({
            let j = token_end(bytes, i);
            let ww = word_width(font, bytes, i, j);
            let start = word_start_x(bounds, st, ww);
            layout_rec(font, bounds, bytes, i, st) == layout_rec(
                font,
                bounds,
                bytes,
                j,
                place_word(
                    font,
                    bounds,
                    bytes,
                    i,
                    j,
                    TextLayout {
                        cursor_x: start,
                        cursor_y: if start == st.cursor_x {
                            st.cursor_y
                        } else {
                            st.cursor_y + font.spec_line_height()
                        },
                        width: st.width,
                        places: st.places,
                    },
                ),
            )
        }),
{
    lemma_token_end_bounds(bytes, i);
    let j = token_end(bytes, i);
    let ww = word_width(font, bytes, i, j);
    if st.cursor_x != bounds.origin.x && st.cursor_x + ww > bounds.spec_right() {
        if word_start_x(bounds, st, ww) == st.cursor_x {
            assert(st.cursor_x == bounds.origin.x as int);
        }
    } else {
        assert(word_start_x(bounds, st, ww) == st.cursor_x);
    }
}

} // verus!
