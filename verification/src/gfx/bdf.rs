//! Parsing a BDF bitmap-font resource from line records.
//!
//! The input is a sequence of lines already split by the caller (reading a
//! file is the caller's business). The builder expects, in order: a
//! `STARTFONT 2.1` header; a global section holding `FONTBOUNDINGBOX` and
//! terminated by `STARTPROPERTIES`; a properties section holding an
//! optional `PIXEL_SIZE` and terminated by `CHARS`; then repeated glyph
//! records (`ENCODING`, optional `DWIDTH`, `BBX`, a `BITMAP` block of
//! hex-encoded rows, `ENDCHAR`), terminated by `ENDFONT`. Only codepoints
//! in `0..256` are retained. A missing expected line or token fails with
//! [`FontError::UnexpectedEof`]; a token that does not parse, a malformed
//! bitmap, or an out-of-range glyph metric fails with
//! [`FontError::InvalidData`].
//!
//! The metric range a loadable font must keep to is `MAX_GLYPH_EXTENT`
//! (1024): advances and box extents in `0..=1024`, offsets within
//! `-1024..=1024`, line height in `0..=1024`. The verified layout
//! arithmetic is proved free of overflow only for metrics in this range,
//! and a negative advance would move the pen backwards and void the
//! greedy-wrap guarantee, so such resources are rejected up front rather
//! than accepted and mislaid. The range is generous for bitmap fonts;
//! real resources sit far inside it.

use vstd::prelude::*;
use crate::gfx::color::BlendMode;
use crate::gfx::color::Color;
use crate::gfx::font::glyph_ok;
use crate::gfx::font::Font;
use crate::gfx::font::word_end;
use crate::gfx::font::is_space;
use crate::gfx::font::Glyph;
use crate::gfx::font::MAX_GLYPH_EXTENT;
use crate::gfx::geom::Point;
use crate::gfx::geom::Rect;
use crate::gfx::geom::Size;
use crate::gfx::geom::Scalar;
use crate::gfx::surface::in_window;
use crate::gfx::surface::SliceSurface;
use crate::gfx::surface::VecSurface;
use crate::gfx::surface::WriteSurface;
use crate::gfx::surface::ReadSurface;
use crate::gfx::surface::Surface;

verus! {

broadcast use crate::gfx::surface::lemma_slice_at_wat;

/// Why a font resource failed to load. Either way the load is fatal:
/// there is no partial or degraded font.
#[derive(Copy, Clone, Debug, PartialEq, Eq, Structural)]
pub enum FontError {
    /// A required line or token never arrived.
    UnexpectedEof,
    /// A token failed to parse as its expected numeric or keyword type, a
    /// glyph bitmap is malformed, or a metric (advance, box extent,
    /// offset, line height) lies outside the range the verified layout
    /// arithmetic supports.
    InvalidData,
}

/// The line records `lines` spell, as byte sequences.
pub open spec fn lines_view(lines: Seq<Vec<u8>>) -> Seq<Seq<u8>> {
    Seq::new(lines.len(), |i: int| lines[i]@)
}

/// Split one line on ASCII whitespace into its maximal non-whitespace
/// runs.
pub open spec fn spec_tokens_from(line: Seq<u8>, i: int) -> Seq<Seq<u8>>
    decreases line.len() - i,
{
    if i < 0 || i >= line.len() {
        Seq::empty()
    } else if is_space(line[i]) {
        spec_tokens_from(line, i + 1)
    } else {
        // the clamp only makes the bound on `word_end` visible to the
        // termination check
        let je = word_end(line, i);
        let j = if je < i + 1 {
            i + 1
        } else if je > line.len() {
            line.len() as int
        } else {
            je
        };
        seq![line.subrange(i, j)] + spec_tokens_from(line, j)
    }
}

/// The whitespace-separated tokens of one line.
pub open spec fn spec_tokens(line: Seq<u8>) -> Seq<Seq<u8>> {
    spec_tokens_from(line, 0)
}

/// The decimal value of the digit run `tok[i..]` accumulated onto `acc`,
/// or `None` if it is empty or holds a non-digit.
pub open spec fn digits_val(tok: Seq<u8>, i: int, acc: int) -> Option<int>
    decreases tok.len() - i,
{
    if i < 0 || i > tok.len() {
        None
    } else if i == tok.len() {
        Some(acc)
    } else if 48 <= tok[i] <= 57 {
        digits_val(tok, i + 1, acc * 10 + (tok[i] - 48))
    } else {
        None
    }
}

/// The value `tok` spells as a decimal integer with an optional leading
/// sign, exactly when `i32` parsing accepts it: at least one digit, digits
/// only, and a value in the `i32` range.
pub open spec fn spec_parse_i32(tok: Seq<u8>) -> Option<int> {
    if tok.len() == 0 {
        None
    } else {
        let neg = tok[0] == 45;
        let start: int = if tok[0] == 45 || tok[0] == 43 {
            1
        } else {
            0
        };
        if tok.len() == start {
            None
        } else {
            match digits_val(tok, start, 0) {
                None => None,
                Some(v) => {
                    let sv = if neg {
                        -v
                    } else {
                        v
                    };
                    if i32::MIN <= sv <= i32::MAX {
                        Some(sv)
                    } else {
                        None
                    }
                },
            }
        }
    }
}

/// The `idx`-th token of a line parsed as an integer: missing tokens fail
/// with end-of-input, unparsable ones with invalid data.
pub open spec fn spec_parse_next(toks: Seq<Seq<u8>>, idx: int) -> Result<int, FontError> {
    if idx >= toks.len() {
        Err(FontError::UnexpectedEof)
    } else {
        match spec_parse_i32(toks[idx]) {
            Some(v) => Ok(v),
            None => Err(FontError::InvalidData),
        }
    }
}

/// The value of one hex digit, or `-1` for any other byte.
pub open spec fn hex_val(c: u8) -> int {
    if 48 <= c <= 57 {
        c - 48
    } else if 97 <= c <= 102 {
        c - 87
    } else if 65 <= c <= 70 {
        c - 55
    } else {
        -1
    }
}

/// Whether two bytes spell a valid hex pair.
pub open spec fn hex_pair_ok(a: u8, b: u8) -> bool {
    hex_val(a) >= 0 && hex_val(b) >= 0
}

/// The byte value a hex pair spells.
pub open spec fn hex_byte(a: u8, b: u8) -> u8 {
    (hex_val(a) * 16 + hex_val(b)) as u8
}

/// Whether every complete hex pair of a bitmap row is valid (a trailing
/// odd byte is ignored).
pub open spec fn row_hex_ok(row: Seq<u8>) -> bool {
    forall|b: int| 0 <= b && 2 * b + 1 < row.len() ==> hex_pair_ok(#[trigger] row[2 * b], row[2 * b + 1])
}

/// Whether the `count` bitmap rows starting at line `start` are all valid.
pub open spec fn rows_hex_ok(lines: Seq<Seq<u8>>, start: int, count: int) -> bool {
    forall|r: int| 0 <= r < count ==> row_hex_ok(#[trigger] lines[start + r])
}

/// Whether bitmap rows `rows` mark pixel `(x, y)` as ink: bit `x % 8`
/// (most significant first) of the hex byte at position `x / 8` of row
/// `y`. Positions beyond a row's hex data carry no ink.
pub open spec fn bdf_ink(rows: Seq<Seq<u8>>, x: int, y: int) -> bool {
    &&& 0 <= y < rows.len()
    &&& 0 <= x
    &&& 2 * (x / 8) + 1 < rows[y].len()
    &&& (hex_byte(rows[y][2 * (x / 8)], rows[y][2 * (x / 8) + 1]) & (128u8 >> ((x % 8) as u8)))
        != 0
}

/// One parsed glyph record: bounding-box extents, offset, advance width,
/// the raw hex rows of its bitmap, and the extents the stencil surface was
/// sized with when the bitmap arrived (these differ from `bw`/`bh` only
/// when a `BBX` line follows the `BITMAP` block).
pub struct BdfGlyphModel {
    pub bw: int,
    pub bh: int,
    pub ox: int,
    pub oy: int,
    pub width: int,
    pub sw: int,
    pub sh: int,
    pub rows: Seq<Seq<u8>>,
}

/// A parsed font resource: the line height and the glyph table over the
/// retained codepoints `0..256`.
pub struct BdfFontModel {
    pub line_height: int,
    pub glyphs: Map<int, BdfGlyphModel>,
}

/// The running state of one glyph record being parsed.
pub struct BdfGlyphSt {
    pub c: int,
    pub bw: int,
    pub bh: int,
    pub ox: int,
    pub oy: int,
    pub width: int,
    pub sw: int,
    pub sh: int,
    pub rows: Option<Seq<Seq<u8>>>,
}

/// The fresh state a glyph record starts from: the font's default
/// bounding box `(w, h, x, y)`, an advance width of the default box's
/// width, and no bitmap yet.
pub open spec fn fresh_glyph_st(default: (int, int, int, int)) -> BdfGlyphSt {
    BdfGlyphSt {
        c: 0,
        bw: default.0,
        bh: default.1,
        ox: default.2,
        oy: default.3,
        width: default.0,
        sw: 0,
        sh: 0,
        rows: None,
    }
}

/// Whether a glyph's metrics are acceptable for the table: a bitmap was
/// seen, and every metric lies inside the range the verified layout
/// arithmetic is proved overflow-free for — non-negative, since a
/// negative advance would move the pen backwards and void the greedy-wrap
/// guarantee.
pub open spec fn glyph_st_ok(st: BdfGlyphSt) -> bool {
    &&& st.rows is Some
    &&& 0 <= st.width <= MAX_GLYPH_EXTENT
    &&& 0 <= st.bw <= MAX_GLYPH_EXTENT
    &&& 0 <= st.bh <= MAX_GLYPH_EXTENT
    &&& -MAX_GLYPH_EXTENT <= st.ox <= MAX_GLYPH_EXTENT
    &&& -MAX_GLYPH_EXTENT <= st.oy <= MAX_GLYPH_EXTENT
}

/// The model a finished glyph state records.
pub open spec fn glyph_st_model(st: BdfGlyphSt) -> BdfGlyphModel {
    BdfGlyphModel {
        bw: st.bw,
        bh: st.bh,
        ox: st.ox,
        oy: st.oy,
        width: st.width,
        sw: st.sw,
        sh: st.sh,
        rows: st.rows->Some_0,
    }
}

/// The global section: scan for `FONTBOUNDINGBOX w h x y` until
/// `STARTPROPERTIES`, skipping empty and unknown lines. Returns the next
/// line index and the default bounding box.
pub open spec fn parse_global(lines: Seq<Seq<u8>>, li: int, bbox: (int, int, int, int)) -> Result<
    (int, (int, int, int, int)),
    FontError,
>
    decreases lines.len() - li,
{
    if li < 0 || li >= lines.len() {
        Err(FontError::UnexpectedEof)
    } else {
        let line = lines[li];
        let toks = spec_tokens(line);
        if line.len() == 0 {
            parse_global(lines, li + 1, bbox)
        } else if toks.len() == 0 {
            Err(FontError::UnexpectedEof)
        } else if toks[0] == kw_fontboundingbox() {
            match spec_parse_next(toks, 1) {
                Err(e) => Err(e),
                Ok(w) => match spec_parse_next(toks, 2) {
                    Err(e) => Err(e),
                    Ok(h) => match spec_parse_next(toks, 3) {
                        Err(e) => Err(e),
                        Ok(x) => match spec_parse_next(toks, 4) {
                            Err(e) => Err(e),
                            Ok(y) => parse_global(lines, li + 1, (w, h, x, y)),
                        },
                    },
                },
            }
        } else if toks[0] == kw_startproperties() {
            Ok((li + 1, bbox))
        } else {
            parse_global(lines, li + 1, bbox)
        }
    }
}

/// The properties section: scan for `PIXEL_SIZE n` until `CHARS`. Returns
/// the next line index and the line height.
pub open spec fn parse_props(lines: Seq<Seq<u8>>, li: int, lh: int) -> Result<
    (int, int),
    FontError,
>
    decreases lines.len() - li,
{
    if li < 0 || li >= lines.len() {
        Err(FontError::UnexpectedEof)
    } else {
        let line = lines[li];
        let toks = spec_tokens(line);
        if line.len() == 0 {
            parse_props(lines, li + 1, lh)
        } else if toks.len() == 0 {
            Err(FontError::UnexpectedEof)
        } else if toks[0] == kw_pixel_size() {
            match spec_parse_next(toks, 1) {
                Err(e) => Err(e),
                Ok(v) => parse_props(lines, li + 1, v),
            }
        } else if toks[0] == kw_chars() {
            Ok((li + 1, lh))
        } else {
            parse_props(lines, li + 1, lh)
        }
    }
}

/// The glyph section: repeated glyph records until `ENDFONT`. `BITMAP`
/// consumes the record's bounding-box height in raw hex rows (validated,
/// with out-of-range box extents rejected); `ENDCHAR` retains the glyph
/// when its codepoint lies in `0..256`, rejecting a record without a
/// bitmap or with out-of-range metrics.
pub open spec fn parse_glyphs(
    lines: Seq<Seq<u8>>,
    li: int,
    default: (int, int, int, int),
    st: BdfGlyphSt,
    glyphs: Map<int, BdfGlyphModel>,
) -> Result<Map<int, BdfGlyphModel>, FontError>
    decreases lines.len() - li,
{
    if li < 0 || li >= lines.len() {
        Err(FontError::UnexpectedEof)
    } else {
        let line = lines[li];
        let toks = spec_tokens(line);
        if line.len() == 0 {
            parse_glyphs(lines, li + 1, default, st, glyphs)
        } else if toks.len() == 0 {
            Err(FontError::UnexpectedEof)
        } else if toks[0] == kw_encoding() {
            match spec_parse_next(toks, 1) {
                Err(e) => Err(e),
                Ok(v) => parse_glyphs(
                    lines,
                    li + 1,
                    default,
                    BdfGlyphSt { c: v, ..st },
                    glyphs,
                ),
            }
        } else if toks[0] == kw_dwidth() {
            match spec_parse_next(toks, 1) {
                Err(e) => Err(e),
                Ok(v) => parse_glyphs(
                    lines,
                    li + 1,
                    default,
                    BdfGlyphSt { width: v, ..st },
                    glyphs,
                ),
            }
        } else if toks[0] == kw_bbx() {
            match spec_parse_next(toks, 1) {
                Err(e) => Err(e),
                Ok(w) => match spec_parse_next(toks, 2) {
                    Err(e) => Err(e),
                    Ok(h) => match spec_parse_next(toks, 3) {
                        Err(e) => Err(e),
                        Ok(x) => match spec_parse_next(toks, 4) {
                            Err(e) => Err(e),
                            Ok(y) => parse_glyphs(
                                lines,
                                li + 1,
                                default,
                                BdfGlyphSt { bw: w, bh: h, ox: x, oy: y, ..st },
                                glyphs,
                            ),
                        },
                    },
                },
            }
        } else if toks[0] == kw_bitmap() {
            if !(0 <= st.bw <= MAX_GLYPH_EXTENT && 0 <= st.bh <= MAX_GLYPH_EXTENT) {
                Err(FontError::InvalidData)
            } else if li + 1 + st.bh > lines.len() {
                Err(FontError::UnexpectedEof)
            } else if !rows_hex_ok(lines, li + 1, st.bh) {
                Err(FontError::InvalidData)
            } else {
                parse_glyphs(
                    lines,
                    li + 1 + st.bh,
                    default,
                    BdfGlyphSt {
                        sw: st.bw,
                        sh: st.bh,
                        rows: Some(lines.subrange(li + 1, li + 1 + st.bh)),
                        ..st
                    },
                    glyphs,
                )
            }
        } else if toks[0] == kw_endchar() {
            if 0 <= st.c < 256 {
                if st.rows is None {
                    Err(FontError::InvalidData)
                } else if !glyph_st_ok(st) {
                    Err(FontError::InvalidData)
                } else {
                    parse_glyphs(
                        lines,
                        li + 1,
                        default,
                        fresh_glyph_st(default),
                        glyphs.insert(st.c, glyph_st_model(st)),
                    )
                }
            } else {
                parse_glyphs(lines, li + 1, default, fresh_glyph_st(default), glyphs)
            }
        } else if toks[0] == kw_endfont() {
            Ok(glyphs)
        } else {
            parse_glyphs(lines, li + 1, default, st, glyphs)
        }
    }
}

/// The sections after the `STARTFONT 2.1` header: global, properties,
/// glyphs. A line height outside `0..=MAX_GLYPH_EXTENT` is rejected as
/// invalid data.
pub open spec fn after_header(lines: Seq<Seq<u8>>) -> Result<BdfFontModel, FontError> {
    match parse_global(lines, 1, (0, 0, 0, 0)) {
        Err(e) => Err(e),
        Ok((li1, bbox)) => match parse_props(lines, li1, bbox.1) {
            Err(e) => Err(e),
            Ok((li2, lh)) => match parse_glyphs(
                lines,
                li2,
                bbox,
                fresh_glyph_st(bbox),
                Map::empty(),
            ) {
                Err(e) => Err(e),
                Ok(glyphs) => if 0 <= lh <= MAX_GLYPH_EXTENT {
                    Ok(BdfFontModel { line_height: lh, glyphs })
                } else {
                    Err(FontError::InvalidData)
                },
            },
        },
    }
}

/// The whole resource: header, global section, properties section, glyph
/// section.
pub open spec fn spec_parse_bdf(lines: Seq<Seq<u8>>) -> Result<BdfFontModel, FontError> {
    if lines.len() == 0 {
        Err(FontError::UnexpectedEof)
    } else {
        let toks = spec_tokens(lines[0]);
        if toks.len() < 1 {
            Err(FontError::UnexpectedEof)
        } else if toks[0] != kw_startfont() {
            Err(FontError::InvalidData)
        } else if toks.len() < 2 {
            Err(FontError::UnexpectedEof)
        } else if toks[1] != kw_version21() {
            Err(FontError::InvalidData)
        } else {
            after_header(lines)
        }
    }
}

/// Whether an in-memory glyph spells exactly what a parsed record says:
/// same metrics, a zero-origin bounding box, and a stencil surface whose
/// white pixels are exactly the bitmap's ink.
pub open spec fn glyph_matches_model(g: Glyph, m: BdfGlyphModel) -> bool {
    &&& g.width as int == m.width
    &&& g.bbox == (Rect {
        origin: Point { x: 0, y: 0 },
        size: Size { width: m.bw as i32, height: m.bh as i32 },
    })
    &&& g.offset == (Point { x: m.ox as i32, y: m.oy as i32 })
    &&& g.surface.inv()
    &&& g.surface.spec_bounds() == (Rect {
        origin: Point { x: 0, y: 0 },
        size: Size { width: m.sw as i32, height: m.sh as i32 },
    })
    &&& forall|x: int, y: int|
        in_window(g.surface.spec_bounds(), x, y) ==> #[trigger] g.surface.at(x, y) == (
        if bdf_ink(m.rows, x, y) {
            Color::spec_white()
        } else {
            Color::spec_black()
        })
}

/// The keyword `STARTFONT` as a byte sequence.
pub open spec fn kw_startfont() -> Seq<u8> {
    seq![83u8, 84u8, 65u8, 82u8, 84u8, 70u8, 79u8, 78u8, 84u8]
}

/// The keyword `2.1` as a byte sequence.
pub open spec fn kw_version21() -> Seq<u8> {
    seq![50u8, 46u8, 49u8]
}

/// The keyword `FONTBOUNDINGBOX` as a byte sequence.
pub open spec fn kw_fontboundingbox() -> Seq<u8> {
    seq![70u8, 79u8, 78u8, 84u8, 66u8, 79u8, 85u8, 78u8, 68u8, 73u8, 78u8, 71u8, 66u8, 79u8, 88u8]
}

/// The keyword `STARTPROPERTIES` as a byte sequence.
pub open spec fn kw_startproperties() -> Seq<u8> {
    seq![83u8, 84u8, 65u8, 82u8, 84u8, 80u8, 82u8, 79u8, 80u8, 69u8, 82u8, 84u8, 73u8, 69u8, 83u8]
}

/// The keyword `PIXEL_SIZE` as a byte sequence.
pub open spec fn kw_pixel_size() -> Seq<u8> {
    seq![80u8, 73u8, 88u8, 69u8, 76u8, 95u8, 83u8, 73u8, 90u8, 69u8]
}

/// The keyword `CHARS` as a byte sequence.
pub open spec fn kw_chars() -> Seq<u8> {
    seq![67u8, 72u8, 65u8, 82u8, 83u8]
}

/// The keyword `ENCODING` as a byte sequence.
pub open spec fn kw_encoding() -> Seq<u8> {
    seq![69u8, 78u8, 67u8, 79u8, 68u8, 73u8, 78u8, 71u8]
}

/// The keyword `DWIDTH` as a byte sequence.
pub open spec fn kw_dwidth() -> Seq<u8> {
    seq![68u8, 87u8, 73u8, 68u8, 84u8, 72u8]
}

/// The keyword `BBX` as a byte sequence.
pub open spec fn kw_bbx() -> Seq<u8> {
    seq![66u8, 66u8, 88u8]
}

/// The keyword `BITMAP` as a byte sequence.
pub open spec fn kw_bitmap() -> Seq<u8> {
    seq![66u8, 73u8, 84u8, 77u8, 65u8, 80u8]
}

/// The keyword `ENDCHAR` as a byte sequence.
pub open spec fn kw_endchar() -> Seq<u8> {
    seq![69u8, 78u8, 68u8, 67u8, 72u8, 65u8, 82u8]
}

/// The keyword `ENDFONT` as a byte sequence.
pub open spec fn kw_endfont() -> Seq<u8> {
    seq![69u8, 78u8, 68u8, 70u8, 79u8, 78u8, 84u8]
}

fn is_space_byte(b: u8) -> (r: bool)
    ensures
        r == is_space(b),
{
    b == 32 || b == 9 || b == 10 || b == 12 || b == 13
}

/// Split one line on ASCII whitespace.
fn tokenize(line: &Vec<u8>) -> (r: Vec<Vec<u8>>)
    ensures
        lines_view(r@) == spec_tokens(line@),
{
    let n = line.len();
    let mut toks: Vec<Vec<u8>> = Vec::new();
    let mut i: usize = 0;
    proof {
        assert(lines_view(toks@) =~= Seq::<Seq<u8>>::empty());
    }
    while i < n
        invariant
            n == line@.len(),
            i <= n,
            spec_tokens(line@) == lines_view(toks@) + spec_tokens_from(line@, i as int),
        decreases n - i,
    {
        if is_space_byte(line[i]) {
            i = i + 1;
        } else {
            let mut j: usize = i;
            while j < n && !is_space_byte(line[j])
                invariant
                    n == line@.len(),
                    i <= j <= n,
                    word_end(line@, i as int) == word_end(line@, j as int),
                decreases n - j,
            {
                j = j + 1;
            }
            let mut tok: Vec<u8> = Vec::new();
            let mut k: usize = i;
            while k < j
                invariant
                    n == line@.len(),
                    i <= k <= j <= n,
                    tok@ == line@.subrange(i as int, k as int),
                decreases j - k,
            {
                tok.push(line[k]);
                proof {
                    assert(tok@ =~= line@.subrange(i as int, k as int + 1));
                }
                k = k + 1;
            }
            let ghost old_toks = toks@;
            toks.push(tok);
            proof {
                assert(lines_view(toks@) =~= lines_view(old_toks).push(line@.subrange(
                    i as int,
                    j as int,
                )));
                assert(lines_view(old_toks).push(line@.subrange(i as int, j as int))
                    =~= lines_view(old_toks) + seq![line@.subrange(i as int, j as int)]);
                assert((lines_view(old_toks) + seq![line@.subrange(i as int, j as int)])
                    + spec_tokens_from(line@, j as int) =~= lines_view(old_toks) + (seq![
                    line@.subrange(i as int, j as int),
                ] + spec_tokens_from(line@, j as int)));
            }
            i = j;
        }
    }
    toks
}

proof fn lemma_digits_val_min(tok: Seq<u8>, i: int, acc: int)
    requires
        0 <= i <= tok.len(),
        0 <= acc,
    ensures
        digits_val(tok, i, acc) is Some ==> digits_val(tok, i, acc)->Some_0 >= acc,
    decreases tok.len() - i,
{
    if i < tok.len() && 48 <= tok[i] <= 57 {
        assert(acc * 10 >= acc) by (nonlinear_arith)
            requires
                acc >= 0,
        ;
        lemma_digits_val_min(tok, i + 1, acc * 10 + (tok[i] - 48));
    }
}

/// Parse one token as a decimal integer with optional sign, exactly as
/// `i32` parsing would.
fn parse_i32_tok(tok: &Vec<u8>) -> (r: Option<i32>)
    ensures
        match r {
            Some(v) => spec_parse_i32(tok@) == Some(v as int),
            None => spec_parse_i32(tok@) is None,
        },
{
    let n = tok.len();
    if n == 0 {
        return None;
    }
    let neg = tok[0] == 45;
    let start: usize = if tok[0] == 45 || tok[0] == 43 {
        1
    } else {
        0
    };
    if n == start {
        return None;
    }
    let mut acc: i64 = 0;
    let mut i: usize = start;
    while i < n
        invariant
            n == tok@.len(),
            0 < n,
            n != start,
            start as int == (if tok@[0] == 45 || tok@[0] == 43 {
                1int
            } else {
                0int
            }),
            neg == (tok@[0] == 45),
            start <= i <= n,
            0 <= acc <= 0x8000_0000,
            digits_val(tok@, start as int, 0) == digits_val(tok@, i as int, acc as int),
        decreases n - i,
    {
        let c = tok[i];
        if c < 48 || c > 57 {
            return None;
        }
        acc = acc * 10 + (c - 48) as i64;
        i = i + 1;
        if acc > 0x8000_0000 {
            // whatever follows, the value is already past the i32 range
            proof {
                lemma_digits_val_min(tok@, i as int, acc as int);
            }
            return None;
        }
    }
    if neg {
        Some((-acc) as i32)
    } else {
        if acc > 0x7fff_ffff {
            return None;
        }
        Some(acc as i32)
    }
}

/// Parse the `idx`-th token of a line as an integer: missing tokens fail
/// with end-of-input, unparsable ones with invalid data.
fn parse_next(toks: &Vec<Vec<u8>>, idx: usize) -> (r: Result<i32, FontError>)
    ensures
        match r {
            Ok(v) => spec_parse_next(lines_view(toks@), idx as int) == Ok::<int, FontError>(
                v as int,
            ),
            Err(e) => spec_parse_next(lines_view(toks@), idx as int) == Err::<int, FontError>(e),
        },
{
    if idx >= toks.len() {
        return Err(FontError::UnexpectedEof);
    }
    match parse_i32_tok(&toks[idx]) {
        Some(v) => Ok(v),
        None => Err(FontError::InvalidData),
    }
}

fn hex_digit(c: u8) -> (r: Option<u8>)
    ensures
        match r {
            Some(v) => hex_val(c) == v as int,
            None => hex_val(c) < 0,
        },
{
    if c >= 48 && c <= 57 {
        Some(c - 48)
    } else if c >= 97 && c <= 102 {
        Some(c - 87)
    } else if c >= 65 && c <= 70 {
        Some(c - 55)
    } else {
        None
    }
}

fn is_kw_startfont(tok: &Vec<u8>) -> (r: bool)
    ensures
        r == (tok@ == kw_startfont()),
{
    let r = tok.len() == 9 && tok[0] == 83 && tok[1] == 84 && tok[2] == 65 && tok[3] == 82 && tok[4] == 84 && tok[5] == 70 && tok[6] == 79 && tok[7] == 78 && tok[8] == 84;
    proof {
        if r {
            assert(tok@ =~= kw_startfont());
        } else {
            if tok@ == kw_startfont() {
                assert(tok@.len() == 9);
                assert(forall|k: int| 0 <= k < 9 ==> tok@[k] == kw_startfont()[k]);
            }
        }
    }
    r
}

fn is_kw_version21(tok: &Vec<u8>) -> (r: bool)
    ensures
        r == (tok@ == kw_version21()),
{
    let r = tok.len() == 3 && tok[0] == 50 && tok[1] == 46 && tok[2] == 49;
    proof {
        if r {
            assert(tok@ =~= kw_version21());
        } else {
            if tok@ == kw_version21() {
                assert(tok@.len() == 3);
                assert(forall|k: int| 0 <= k < 3 ==> tok@[k] == kw_version21()[k]);
            }
        }
    }
    r
}

fn is_kw_fontboundingbox(tok: &Vec<u8>) -> (r: bool)
    ensures
        r == (tok@ == kw_fontboundingbox()),
{
    let r = tok.len() == 15 && tok[0] == 70 && tok[1] == 79 && tok[2] == 78 && tok[3] == 84 && tok[4] == 66 && tok[5] == 79 && tok[6] == 85 && tok[7] == 78 && tok[8] == 68 && tok[9] == 73 && tok[10] == 78 && tok[11] == 71 && tok[12] == 66 && tok[13] == 79 && tok[14] == 88;
    proof {
        if r {
            assert(tok@ =~= kw_fontboundingbox());
        } else {
            if tok@ == kw_fontboundingbox() {
                assert(tok@.len() == 15);
                assert(forall|k: int| 0 <= k < 15 ==> tok@[k] == kw_fontboundingbox()[k]);
            }
        }
    }
    r
}

fn is_kw_startproperties(tok: &Vec<u8>) -> (r: bool)
    ensures
        r == (tok@ == kw_startproperties()),
{
    let r = tok.len() == 15 && tok[0] == 83 && tok[1] == 84 && tok[2] == 65 && tok[3] == 82 && tok[4] == 84 && tok[5] == 80 && tok[6] == 82 && tok[7] == 79 && tok[8] == 80 && tok[9] == 69 && tok[10] == 82 && tok[11] == 84 && tok[12] == 73 && tok[13] == 69 && tok[14] == 83;
    proof {
        if r {
            assert(tok@ =~= kw_startproperties());
        } else {
            if tok@ == kw_startproperties() {
                assert(tok@.len() == 15);
                assert(forall|k: int| 0 <= k < 15 ==> tok@[k] == kw_startproperties()[k]);
            }
        }
    }
    r
}

fn is_kw_pixel_size(tok: &Vec<u8>) -> (r: bool)
    ensures
        r == (tok@ == kw_pixel_size()),
{
    let r = tok.len() == 10 && tok[0] == 80 && tok[1] == 73 && tok[2] == 88 && tok[3] == 69 && tok[4] == 76 && tok[5] == 95 && tok[6] == 83 && tok[7] == 73 && tok[8] == 90 && tok[9] == 69;
    proof {
        if r {
            assert(tok@ =~= kw_pixel_size());
        } else {
            if tok@ == kw_pixel_size() {
                assert(tok@.len() == 10);
                assert(forall|k: int| 0 <= k < 10 ==> tok@[k] == kw_pixel_size()[k]);
            }
        }
    }
    r
}

fn is_kw_chars(tok: &Vec<u8>) -> (r: bool)
    ensures
        r == (tok@ == kw_chars()),
{
    let r = tok.len() == 5 && tok[0] == 67 && tok[1] == 72 && tok[2] == 65 && tok[3] == 82 && tok[4] == 83;
    proof {
        if r {
            assert(tok@ =~= kw_chars());
        } else {
            if tok@ == kw_chars() {
                assert(tok@.len() == 5);
                assert(forall|k: int| 0 <= k < 5 ==> tok@[k] == kw_chars()[k]);
            }
        }
    }
    r
}

fn is_kw_encoding(tok: &Vec<u8>) -> (r: bool)
    ensures
        r == (tok@ == kw_encoding()),
{
    let r = tok.len() == 8 && tok[0] == 69 && tok[1] == 78 && tok[2] == 67 && tok[3] == 79 && tok[4] == 68 && tok[5] == 73 && tok[6] == 78 && tok[7] == 71;
    proof {
        if r {
            assert(tok@ =~= kw_encoding());
        } else {
            if tok@ == kw_encoding() {
                assert(tok@.len() == 8);
                assert(forall|k: int| 0 <= k < 8 ==> tok@[k] == kw_encoding()[k]);
            }
        }
    }
    r
}

fn is_kw_dwidth(tok: &Vec<u8>) -> (r: bool)
    ensures
        r == (tok@ == kw_dwidth()),
{
    let r = tok.len() == 6 && tok[0] == 68 && tok[1] == 87 && tok[2] == 73 && tok[3] == 68 && tok[4] == 84 && tok[5] == 72;
    proof {
        if r {
            assert(tok@ =~= kw_dwidth());
        } else {
            if tok@ == kw_dwidth() {
                assert(tok@.len() == 6);
                assert(forall|k: int| 0 <= k < 6 ==> tok@[k] == kw_dwidth()[k]);
            }
        }
    }
    r
}

fn is_kw_bbx(tok: &Vec<u8>) -> (r: bool)
    ensures
        r == (tok@ == kw_bbx()),
{
    let r = tok.len() == 3 && tok[0] == 66 && tok[1] == 66 && tok[2] == 88;
    proof {
        if r {
            assert(tok@ =~= kw_bbx());
        } else {
            if tok@ == kw_bbx() {
                assert(tok@.len() == 3);
                assert(forall|k: int| 0 <= k < 3 ==> tok@[k] == kw_bbx()[k]);
            }
        }
    }
    r
}

fn is_kw_bitmap(tok: &Vec<u8>) -> (r: bool)
    ensures
        r == (tok@ == kw_bitmap()),
{
    let r = tok.len() == 6 && tok[0] == 66 && tok[1] == 73 && tok[2] == 84 && tok[3] == 77 && tok[4] == 65 && tok[5] == 80;
    proof {
        if r {
            assert(tok@ =~= kw_bitmap());
        } else {
            if tok@ == kw_bitmap() {
                assert(tok@.len() == 6);
                assert(forall|k: int| 0 <= k < 6 ==> tok@[k] == kw_bitmap()[k]);
            }
        }
    }
    r
}

fn is_kw_endchar(tok: &Vec<u8>) -> (r: bool)
    ensures
        r == (tok@ == kw_endchar()),
{
    let r = tok.len() == 7 && tok[0] == 69 && tok[1] == 78 && tok[2] == 68 && tok[3] == 67 && tok[4] == 72 && tok[5] == 65 && tok[6] == 82;
    proof {
        if r {
            assert(tok@ =~= kw_endchar());
        } else {
            if tok@ == kw_endchar() {
                assert(tok@.len() == 7);
                assert(forall|k: int| 0 <= k < 7 ==> tok@[k] == kw_endchar()[k]);
            }
        }
    }
    r
}

fn is_kw_endfont(tok: &Vec<u8>) -> (r: bool)
    ensures
        r == (tok@ == kw_endfont()),
{
    let r = tok.len() == 7 && tok[0] == 69 && tok[1] == 78 && tok[2] == 68 && tok[3] == 70 && tok[4] == 79 && tok[5] == 78 && tok[6] == 84;
    proof {
        if r {
            assert(tok@ =~= kw_endfont());
        } else {
            if tok@ == kw_endfont() {
                assert(tok@.len() == 7);
                assert(forall|k: int| 0 <= k < 7 ==> tok@[k] == kw_endfont()[k]);
            }
        }
    }
    r
}


/// Whether the glyph table `tbl` (256 slots, one per byte code) spells
/// exactly the parsed glyph map `gm`, every stored glyph well-formed.
pub open spec fn table_matches(tbl: Seq<Option<Glyph>>, gm: Map<int, BdfGlyphModel>) -> bool {
    &&& tbl.len() == 256
    &&& forall|c: int|
        0 <= c < 256 ==> (match #[trigger] tbl[c] {
            Some(g) => gm.contains_key(c) && glyph_matches_model(g, gm[c]) && glyph_ok(g),
            None => !gm.contains_key(c),
        })
}

/// Whether an in-memory font spells exactly a parsed font model.
pub open spec fn font_matches_model(f: &BdfFont, m: BdfFontModel) -> bool {
    &&& f.spec_line_height() == m.line_height
    &&& forall|c: u8|
        match #[trigger] f.spec_glyph(c) {
            Some(g) => m.glyphs.contains_key(c as int) && glyph_matches_model(g, m.glyphs[c as int]),
            None => !m.glyphs.contains_key(c as int),
        }
}

/// A bitmap font parsed from a BDF resource: a line height and a glyph
/// table over byte codes `0..256`.
pub struct BdfFont {
    line_height: Scalar,
    glyphs: Vec<Option<Glyph>>,
}

impl Font for BdfFont {
    closed spec fn spec_line_height(&self) -> int {
        self.line_height as int
    }

    closed spec fn spec_glyph(&self, c: u8) -> Option<Glyph> {
        if (c as int) < self.glyphs@.len() {
            self.glyphs@[c as int]
        } else {
            None
        }
    }

    fn line_height(&self) -> (r: Scalar) {
        self.line_height
    }

    fn glyph(&self, c: char) -> (r: Option<&Glyph>) {
        let code = c as u32;
        if code < 256 {
            self.glyph_byte(code as u8)
        } else {
            None
        }
    }

    fn glyph_byte(&self, c: u8) -> (r: Option<&Glyph>) {
        if (c as usize) < self.glyphs.len() {
            self.glyphs[c as usize].as_ref()
        } else {
            None
        }
    }
}

/// Read the `bh` bitmap rows starting at line `li` into a fresh stencil
/// surface: each row is hex pairs, most significant bit leftmost, set bits
/// painted white on black. A malformed pair fails with invalid data.
fn read_bitmap(lines: &Vec<Vec<u8>>, li: usize, bw: i32, bh: i32) -> (r: Result<
    VecSurface,
    FontError,
>)
    requires
        0 <= bw <= MAX_GLYPH_EXTENT,
        0 <= bh <= MAX_GLYPH_EXTENT,
        li + bh as usize <= lines@.len(),
        lines@.len() <= 0x100_0000,
        forall|i: int| 0 <= i < lines@.len() ==> (#[trigger] lines@[i])@.len() <= 0x100_0000,
    ensures
        match r {
            Ok(s) => {
                &&& rows_hex_ok(lines_view(lines@), li as int, bh as int)
                &&& s.inv()
                &&& s.spec_bounds() == (Rect {
                    origin: Point { x: 0, y: 0 },
                    size: Size { width: bw, height: bh },
                })
                &&& forall|x: int, y: int|
                    in_window(s.spec_bounds(), x, y) ==> #[trigger] s.at(x, y) == (if bdf_ink(
                        lines_view(lines@).subrange(li as int, li as int + bh as int),
                        x,
                        y,
                    ) {
                        Color::spec_white()
                    } else {
                        Color::spec_black()
                    })
            },
            Err(e) => e == FontError::InvalidData && !rows_hex_ok(
                lines_view(lines@),
                li as int,
                bh as int,
            ),
        },
{
    let ghost lv = lines_view(lines@);
    let ghost rows_g = lv.subrange(li as int, li as int + bh as int);
    proof {
        assert((bw as int) * (bh as int) <= 0x100000) by (nonlinear_arith)
            requires
                0 <= bw <= 1024,
                0 <= bh <= 1024,
        ;
    }
    let mut s = SliceSurface::from_size(Size::new(bw, bh));
    let mut y: i32 = 0;
    while y < bh
        invariant
            lv == lines_view(lines@),
            rows_g == lv.subrange(li as int, li as int + bh as int),
            rows_g.len() == bh as int,
            0 <= y <= bh <= MAX_GLYPH_EXTENT,
            0 <= bw <= MAX_GLYPH_EXTENT,
            li + bh as usize <= lines@.len(),
            lines@.len() <= 0x100_0000,
            forall|i: int| 0 <= i < lines@.len() ==> (#[trigger] lines@[i])@.len() <= 0x100_0000,
            rows_hex_ok(lv, li as int, y as int),
            s.inv(),
            s.spec_bounds() == (Rect {
                origin: Point { x: 0, y: 0 },
                size: Size { width: bw, height: bh },
            }),
            forall|x: int, yy: int|
                in_window(s.spec_bounds(), x, yy) ==> #[trigger] s.at(x, yy) == (if bdf_ink(
                    rows_g,
                    x,
                    yy,
                ) && yy < y {
                    Color::spec_white()
                } else {
                    Color::spec_black()
                }),
        decreases bh - y,
    {
        let row = &lines[li + y as usize];
        proof {
            assert(row@ == rows_g[y as int]);
        }
        let rl = row.len();
        let mut b: usize = 0;
        while 2 * b + 2 <= rl
            invariant
                lv == lines_view(lines@),
                rows_g == lv.subrange(li as int, li as int + bh as int),
                rows_g.len() == bh as int,
                0 <= y < bh <= MAX_GLYPH_EXTENT,
                0 <= bw <= MAX_GLYPH_EXTENT,
                li + bh as usize <= lines@.len(),
                row@ == rows_g[y as int],
                rl == row@.len(),
                rl <= 0x100_0000,
                2 * b <= rl + 1,
                forall|bb: int|
                    0 <= bb < b ==> hex_pair_ok(#[trigger] row@[2 * bb], row@[2 * bb + 1]),
                s.inv(),
                s.spec_bounds() == (Rect {
                    origin: Point { x: 0, y: 0 },
                    size: Size { width: bw, height: bh },
                }),
                forall|x: int, yy: int|
                    in_window(s.spec_bounds(), x, yy) ==> #[trigger] s.at(x, yy) == (if bdf_ink(
                        rows_g,
                        x,
                        yy,
                    ) && (yy < y || (yy == y && x < 8 * b)) {
                        Color::spec_white()
                    } else {
                        Color::spec_black()
                    }),
            decreases rl - 2 * b,
        {
            let a = row[2 * b];
            let c2 = row[2 * b + 1];
            let hv = hex_digit(a);
            let lo = hex_digit(c2);
            if hv.is_none() || lo.is_none() {
                proof {
                    assert(!hex_pair_ok(rows_g[y as int][2 * (b as int)], rows_g[y as int][2 * (
                    b as int) + 1]));
                    assert(!row_hex_ok(rows_g[y as int]));
                    assert(lv[li as int + y as int] == rows_g[y as int]);
                    assert(!rows_hex_ok(lv, li as int, bh as int));
                }
                return Err(FontError::InvalidData);
            }
            let byte: u8 = hv.unwrap() * 16 + lo.unwrap();
            proof {
                assert(byte == hex_byte(rows_g[y as int][2 * (b as int)], rows_g[y as int][2 * (
                b as int) + 1]));
            }
            let mut bit: u8 = 0;
            while bit < 8
                invariant
                    0 <= bit <= 8,
                    0 <= y < bh <= MAX_GLYPH_EXTENT,
                    0 <= bw <= MAX_GLYPH_EXTENT,
                    2 * b + 2 <= rl,
                    rl == rows_g[y as int].len(),
                    rows_g == lv.subrange(li as int, li as int + bh as int),
                    rows_g.len() == bh as int,
                    b <= 0x80_0000,
                    byte == hex_byte(rows_g[y as int][2 * (b as int)], rows_g[y as int][2 * (
                    b as int) + 1]),
                    s.inv(),
                    s.spec_bounds() == (Rect {
                        origin: Point { x: 0, y: 0 },
                        size: Size { width: bw, height: bh },
                    }),
                    forall|x: int, yy: int|
                        in_window(s.spec_bounds(), x, yy) ==> #[trigger] s.at(x, yy) == (
                        if bdf_ink(rows_g, x, yy) && (yy < y || (yy == y && x < 8 * b + bit)) {
                            Color::spec_white()
                        } else {
                            Color::spec_black()
                        }),
                decreases 8 - bit,
            {
                let px: i32 = (b as i32) * 8 + bit as i32;
                let ghost sold = s;
                if byte & (128u8 >> bit) != 0 {
                    s.write(Point::new(px, y), Color::white(), BlendMode::Overwrite);
                }
                proof {
                    assert((px as int) / 8 == b as int && (px as int) % 8 == bit as int)
                        by (nonlinear_arith)
                        requires
                            px as int == 8 * (b as int) + bit as int,
                            0 <= bit < 8,
                            0 <= b,
                    ;
                    assert forall|x: int, yy: int|
                        in_window(s.spec_bounds(), x, yy) implies #[trigger] s.at(x, yy) == (
                    if bdf_ink(rows_g, x, yy) && (yy < y || (yy == y && x < 8 * b + bit + 1)) {
                        Color::spec_white()
                    } else {
                        Color::spec_black()
                    }) by {
                        if x == px as int && yy == y as int {
                            assert(x / 8 == b as int && x % 8 == bit as int);
                        } else {
                            assert(s.at(x, yy) == sold.at(x, yy));
                            if yy == y as int && x != px as int && 8 * b <= x < 8 * b + bit + 1 {
                                assert(x < 8 * b + bit);
                            }
                        }
                    }
                }
                bit = bit + 1;
            }
            b = b + 1;
            proof {
                assert forall|x: int, yy: int|
                    in_window(s.spec_bounds(), x, yy) implies #[trigger] s.at(x, yy) == (
                if bdf_ink(rows_g, x, yy) && (yy < y || (yy == y && x < 8 * (b as int))) {
                    Color::spec_white()
                } else {
                    Color::spec_black()
                }) by {
                    assert(8 * (b - 1) + 8 == 8 * (b as int));
                }
            }
        }
        proof {
            // every complete pair of this row was checked, so the row is
            // valid hex, and ink beyond the last complete pair is absent
            assert(row_hex_ok(rows_g[y as int])) by {
                assert forall|bb: int| 0 <= bb && 2 * bb + 1 < rows_g[y as int].len() implies
                    hex_pair_ok(
                        #[trigger] rows_g[y as int][2 * bb],
                        rows_g[y as int][2 * bb + 1],
                    ) by {
                    assert(bb < b as int);
                }
            }
            assert(lv[li as int + y as int] == rows_g[y as int]);
            assert(rows_hex_ok(lv, li as int, y as int + 1));
            assert forall|x: int, yy: int|
                in_window(s.spec_bounds(), x, yy) implies #[trigger] s.at(x, yy) == (if bdf_ink(
                rows_g,
                x,
                yy,
            ) && yy < y + 1 {
                Color::spec_white()
            } else {
                Color::spec_black()
            }) by {
                if yy == y as int && bdf_ink(rows_g, x, yy) {
                    assert(2 * (x / 8) + 1 < rl);
                    assert(x / 8 < b as int);
                    assert(x < 8 * (b as int)) by (nonlinear_arith)
                        requires
                            x / 8 < b as int,
                            0 <= x,
                    ;
                }
            }
        }
        y = y + 1;
    }
    Ok(s)
}


impl BdfFont {
    /// Parse a BDF font resource from its line records. Either error is
    /// fatal for the load: there is no partial font.
    #[verifier::rlimit(100)]
    pub fn new(lines: &Vec<Vec<u8>>) -> (r: Result<BdfFont, FontError>)
        requires
            lines@.len() <= 0x100_0000,
            forall|i: int| 0 <= i < lines@.len() ==> (#[trigger] lines@[i])@.len() <= 0x100_0000,
        ensures
            match r {
                Ok(f) => spec_parse_bdf(lines_view(lines@)) is Ok && font_matches_model(
                    &f,
                    spec_parse_bdf(lines_view(lines@))->Ok_0,
                ) && crate::gfx::font::font_ok(&f),
                Err(e) => spec_parse_bdf(lines_view(lines@)) == Err::<BdfFontModel, FontError>(
                    e,
                ),
            },
    {
        let ghost lv = lines_view(lines@);
        let n = lines.len();
        if n == 0 {
            return Err(FontError::UnexpectedEof);
        }
        let toks0 = tokenize(&lines[0]);
        proof {
            assert(lv[0] == lines@[0]@);
            assert(lines_view(toks0@) == spec_tokens(lv[0]));
        }
        if toks0.len() < 1 {
            return Err(FontError::UnexpectedEof);
        }
        proof {
            assert(spec_tokens(lv[0])[0] == toks0@[0]@);
        }
        if !is_kw_startfont(&toks0[0]) {
            return Err(FontError::InvalidData);
        }
        if toks0.len() < 2 {
            return Err(FontError::UnexpectedEof);
        }
        proof {
            assert(spec_tokens(lv[0])[1] == toks0@[1]@);
        }
        if !is_kw_version21(&toks0[1]) {
            return Err(FontError::InvalidData);
        }
        proof {
            assert(spec_parse_bdf(lv) == after_header(lv));
        }

        // global section: FONTBOUNDINGBOX, until STARTPROPERTIES
        let mut li: usize = 1;
        let mut dbw: i32 = 0;
        let mut dbh: i32 = 0;
        let mut dbx: i32 = 0;
        let mut dby: i32 = 0;
        let mut done = false;
        while !done
            invariant
                lv == lines_view(lines@),
                n == lines@.len(),
                n <= 0x100_0000,
                forall|i: int|
                    0 <= i < lines@.len() ==> (#[trigger] lines@[i])@.len() <= 0x100_0000,
                spec_parse_bdf(lv) == after_header(lv),
                1 <= li <= n,
                !done ==> parse_global(
                    lv,
                    li as int,
                    (dbw as int, dbh as int, dbx as int, dby as int),
                ) == parse_global(lv, 1, (0, 0, 0, 0)),
                done ==> parse_global(lv, 1, (0, 0, 0, 0)) == Ok::<
                    (int, (int, int, int, int)),
                    FontError,
                >((li as int, (dbw as int, dbh as int, dbx as int, dby as int))),
            decreases n - li,
        {
            if li >= n {
                return Err(FontError::UnexpectedEof);
            }
            let line = &lines[li];
            proof {
                assert(lv[li as int] == line@);
            }
            if line.len() == 0 {
                li = li + 1;
            } else {
                let toks = tokenize(line);
                proof {
                    assert(lines_view(toks@) == spec_tokens(lv[li as int]));
                }
                if toks.len() == 0 {
                    return Err(FontError::UnexpectedEof);
                }
                proof {
                    assert(spec_tokens(lv[li as int])[0] == toks@[0]@);
                }
                if is_kw_fontboundingbox(&toks[0]) {
                    let w = match parse_next(&toks, 1) {
                        Ok(v) => v,
                        Err(e) => {
                            return Err(e);
                        },
                    };
                    let h = match parse_next(&toks, 2) {
                        Ok(v) => v,
                        Err(e) => {
                            return Err(e);
                        },
                    };
                    let x = match parse_next(&toks, 3) {
                        Ok(v) => v,
                        Err(e) => {
                            return Err(e);
                        },
                    };
                    let yv = match parse_next(&toks, 4) {
                        Ok(v) => v,
                        Err(e) => {
                            return Err(e);
                        },
                    };
                    dbw = w;
                    dbh = h;
                    dbx = x;
                    dby = yv;
                    li = li + 1;
                } else if is_kw_startproperties(&toks[0]) {
                    li = li + 1;
                    done = true;
                } else {
                    li = li + 1;
                }
            }
        }
        let ghost li1 = li as int;
        let ghost default0 = (dbw as int, dbh as int, dbx as int, dby as int);

        // properties section: PIXEL_SIZE, until CHARS
        let mut lh: i32 = dbh;
        let mut done2 = false;
        while !done2
            invariant
                lv == lines_view(lines@),
                n == lines@.len(),
                n <= 0x100_0000,
                forall|i: int|
                    0 <= i < lines@.len() ==> (#[trigger] lines@[i])@.len() <= 0x100_0000,
                spec_parse_bdf(lv) == after_header(lv),
                parse_global(lv, 1, (0, 0, 0, 0)) == Ok::<(int, (int, int, int, int)), FontError>(
                    (li1, default0),
                ),
                1 <= li <= n,
                !done2 ==> parse_props(lv, li as int, lh as int) == parse_props(
                    lv,
                    li1,
                    default0.1,
                ),
                done2 ==> parse_props(lv, li1, default0.1) == Ok::<(int, int), FontError>(
                    (li as int, lh as int),
                ),
            decreases n - li,
        {
            if li >= n {
                return Err(FontError::UnexpectedEof);
            }
            let line = &lines[li];
            proof {
                assert(lv[li as int] == line@);
            }
            if line.len() == 0 {
                li = li + 1;
            } else {
                let toks = tokenize(line);
                proof {
                    assert(lines_view(toks@) == spec_tokens(lv[li as int]));
                }
                if toks.len() == 0 {
                    return Err(FontError::UnexpectedEof);
                }
                proof {
                    assert(spec_tokens(lv[li as int])[0] == toks@[0]@);
                }
                if is_kw_pixel_size(&toks[0]) {
                    let v = match parse_next(&toks, 1) {
                        Ok(v) => v,
                        Err(e) => {
                            return Err(e);
                        },
                    };
                    lh = v;
                    li = li + 1;
                } else if is_kw_chars(&toks[0]) {
                    li = li + 1;
                    done2 = true;
                } else {
                    li = li + 1;
                }
            }
        }
        let ghost li2 = li as int;
        let ghost lhv = lh as int;

        // glyph section: repeated records until ENDFONT
        let mut gvec: Vec<Option<Glyph>> = Vec::new();
        while gvec.len() < 256
            invariant
                gvec.len() <= 256,
                forall|c: int| 0 <= c < gvec.len() ==> (#[trigger] gvec@[c]) is None,
            decreases 256 - gvec.len(),
        {
            gvec.push(None);
        }
        let ghost mut gm: Map<int, BdfGlyphModel> = Map::empty();
        proof {
            assert(table_matches(gvec@, gm));
        }
        let mut gc: i32 = 0;
        let mut gbw = dbw;
        let mut gbh = dbh;
        let mut gox = dbx;
        let mut goy = dby;
        let mut gwidth = dbw;
        let mut stencil: Option<VecSurface> = None;
        let ghost mut gst = fresh_glyph_st(default0);
        let mut fdone = false;
        while !fdone
            invariant
                lv == lines_view(lines@),
                n == lines@.len(),
                n <= 0x100_0000,
                forall|i: int|
                    0 <= i < lines@.len() ==> (#[trigger] lines@[i])@.len() <= 0x100_0000,
                spec_parse_bdf(lv) == after_header(lv),
                parse_global(lv, 1, (0, 0, 0, 0)) == Ok::<(int, (int, int, int, int)), FontError>(
                    (li1, default0),
                ),
                parse_props(lv, li1, default0.1) == Ok::<(int, int), FontError>((li2, lhv)),
                lh as int == lhv,
                default0 == (dbw as int, dbh as int, dbx as int, dby as int),
                1 <= li <= n,
                gst.c == gc as int,
                gst.bw == gbw as int,
                gst.bh == gbh as int,
                gst.ox == gox as int,
                gst.oy == goy as int,
                gst.width == gwidth as int,
                (gst.rows is Some) <==> (stencil is Some),
                gst.rows is Some ==> {
                    &&& (stencil->Some_0).inv()
                    &&& (stencil->Some_0).spec_bounds() == (Rect {
                        origin: Point { x: 0, y: 0 },
                        size: Size { width: gst.sw as i32, height: gst.sh as i32 },
                    })
                    &&& 0 <= gst.sw <= MAX_GLYPH_EXTENT
                    &&& 0 <= gst.sh <= MAX_GLYPH_EXTENT
                    &&& forall|x: int, y: int|
                        in_window((stencil->Some_0).spec_bounds(), x, y)
                            ==> #[trigger] (stencil->Some_0).at(x, y) == (if bdf_ink(
                            gst.rows->Some_0,
                            x,
                            y,
                        ) {
                            Color::spec_white()
                        } else {
                            Color::spec_black()
                        })
                },
                table_matches(gvec@, gm),
                !fdone ==> parse_glyphs(lv, li as int, default0, gst, gm) == parse_glyphs(
                    lv,
                    li2,
                    default0,
                    fresh_glyph_st(default0),
                    Map::empty(),
                ),
                fdone ==> parse_glyphs(
                    lv,
                    li2,
                    default0,
                    fresh_glyph_st(default0),
                    Map::empty(),
                ) == Ok::<Map<int, BdfGlyphModel>, FontError>(gm),
            decreases n - li,
        {
            if li >= n {
                return Err(FontError::UnexpectedEof);
            }
            let line = &lines[li];
            proof {
                assert(lv[li as int] == line@);
            }
            if line.len() == 0 {
                li = li + 1;
            } else {
                let toks = tokenize(line);
                proof {
                    assert(lines_view(toks@) == spec_tokens(lv[li as int]));
                }
                if toks.len() == 0 {
                    return Err(FontError::UnexpectedEof);
                }
                proof {
                    assert(spec_tokens(lv[li as int])[0] == toks@[0]@);
                }
                if is_kw_encoding(&toks[0]) {
                    let v = match parse_next(&toks, 1) {
                        Ok(v) => v,
                        Err(e) => {
                            return Err(e);
                        },
                    };
                    gc = v;
                    proof {
                        gst = BdfGlyphSt { c: v as int, ..gst };
                    }
                    li = li + 1;
                } else if is_kw_dwidth(&toks[0]) {
                    let v = match parse_next(&toks, 1) {
                        Ok(v) => v,
                        Err(e) => {
                            return Err(e);
                        },
                    };
                    gwidth = v;
                    proof {
                        gst = BdfGlyphSt { width: v as int, ..gst };
                    }
                    li = li + 1;
                } else if is_kw_bbx(&toks[0]) {
                    let w = match parse_next(&toks, 1) {
                        Ok(v) => v,
                        Err(e) => {
                            return Err(e);
                        },
                    };
                    let h = match parse_next(&toks, 2) {
                        Ok(v) => v,
                        Err(e) => {
                            return Err(e);
                        },
                    };
                    let x = match parse_next(&toks, 3) {
                        Ok(v) => v,
                        Err(e) => {
                            return Err(e);
                        },
                    };
                    let yv = match parse_next(&toks, 4) {
                        Ok(v) => v,
                        Err(e) => {
                            return Err(e);
                        },
                    };
                    gbw = w;
                    gbh = h;
                    gox = x;
                    goy = yv;
                    proof {
                        gst = BdfGlyphSt {
                            bw: w as int,
                            bh: h as int,
                            ox: x as int,
                            oy: yv as int,
                            ..gst
                        };
                    }
                    li = li + 1;
                } else if is_kw_bitmap(&toks[0]) {
                    if !(gbw >= 0 && gbw <= MAX_GLYPH_EXTENT && gbh >= 0 && gbh
                        <= MAX_GLYPH_EXTENT) {
                        return Err(FontError::InvalidData);
                    }
                    if li + 1 + gbh as usize > n {
                        return Err(FontError::UnexpectedEof);
                    }
                    match read_bitmap(lines, li + 1, gbw, gbh) {
                        Ok(s) => {
                            stencil = Some(s);
                            proof {
                                gst = BdfGlyphSt {
                                    sw: gbw as int,
                                    sh: gbh as int,
                                    rows: Some(
                                        lv.subrange(li as int + 1, li as int + 1 + gbh as int),
                                    ),
                                    ..gst
                                };
                            }
                            li = li + 1 + gbh as usize;
                        },
                        Err(e) => {
                            return Err(e);
                        },
                    }
                } else if is_kw_endchar(&toks[0]) {
                    if gc >= 0 && gc < 256 {
                        let sopt = stencil;
                        stencil = None;
                        match sopt {
                            None => {
                                return Err(FontError::InvalidData);
                            },
                            Some(surf) => {
                                if !(gwidth >= 0 && gwidth <= MAX_GLYPH_EXTENT && gbw >= 0 && gbw
                                    <= MAX_GLYPH_EXTENT && gbh >= 0 && gbh <= MAX_GLYPH_EXTENT
                                    && gox >= -MAX_GLYPH_EXTENT && gox <= MAX_GLYPH_EXTENT && goy
                                    >= -MAX_GLYPH_EXTENT && goy <= MAX_GLYPH_EXTENT) {
                                    return Err(FontError::InvalidData);
                                }
                                let g = Glyph {
                                    bbox: Rect {
                                        origin: Point { x: 0, y: 0 },
                                        size: Size { width: gbw, height: gbh },
                                    },
                                    offset: Point { x: gox, y: goy },
                                    width: gwidth,
                                    surface: surf,
                                };
                                let ghost gm0 = gm;
                                let ghost gv0 = gvec@;
                                gvec.set(gc as usize, Some(g));
                                proof {
                                    gm = gm.insert(gc as int, glyph_st_model(gst));
                                    assert(glyph_matches_model(g, glyph_st_model(gst)));
                                    assert(glyph_ok(g));
                                    assert forall|c: int| 0 <= c < 256 implies (
                                    match #[trigger] gvec@[c] {
                                        Some(gg) => gm.contains_key(c) && glyph_matches_model(
                                            gg,
                                            gm[c],
                                        ) && glyph_ok(gg),
                                        None => !gm.contains_key(c),
                                    }) by {
                                        if c != gc as int {
                                            assert(gvec@[c] == gv0[c]);
                                            assert(gm[c] == gm0[c] || !gm.contains_key(c));
                                        }
                                    }
                                    gst = fresh_glyph_st(default0);
                                }
                                gc = 0;
                                gbw = dbw;
                                gbh = dbh;
                                gox = dbx;
                                goy = dby;
                                gwidth = dbw;
                                li = li + 1;
                            },
                        }
                    } else {
                        stencil = None;
                        proof {
                            gst = fresh_glyph_st(default0);
                        }
                        gc = 0;
                        gbw = dbw;
                        gbh = dbh;
                        gox = dbx;
                        goy = dby;
                        gwidth = dbw;
                        li = li + 1;
                    }
                } else if is_kw_endfont(&toks[0]) {
                    fdone = true;
                    li = li + 1;
                } else {
                    li = li + 1;
                }
            }
        }
        if !(lh >= 0 && lh <= MAX_GLYPH_EXTENT) {
            return Err(FontError::InvalidData);
        }
        let f = BdfFont { line_height: lh, glyphs: gvec };
        proof {
            let model = BdfFontModel { line_height: lhv, glyphs: gm };
            assert(after_header(lv) == Ok::<BdfFontModel, FontError>(model));
            assert(font_matches_model(&f, model));
            assert(crate::gfx::font::font_ok(&f));
        }
        Ok(f)
    }
}


impl BdfFont {
    /// The size `text` occupies when wrapped against `size`'s width.
    pub fn measure(&self, size: Size, text: &str) -> (r: Size)
        requires
            crate::gfx::font::font_ok(self),
            text@.len() <= crate::gfx::font::MAX_TEXT_LEN,
            crate::gfx::font::layout_fits(
                self,
                Rect { origin: Point { x: 0, y: 0 }, size },
                text,
            ),
        ensures
            r.width as int == crate::gfx::font::spec_layout_size(
                self,
                Rect { origin: Point { x: 0, y: 0 }, size },
                text,
            ).0,
            r.height as int == crate::gfx::font::spec_layout_size(
                self,
                Rect { origin: Point { x: 0, y: 0 }, size },
                text,
            ).1,
    {
        crate::gfx::font::measure_text(self, size, text)
    }
}

} // verus!
