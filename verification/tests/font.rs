//! BDF parsing and word-wrap text layout.

use pixui::gfx::font::{layout, measure_text, render_text, Font};
use pixui::gfx::{
    BdfFont, BlendMode, Color, FontError, Point, ReadSurface, Rect, SliceSurface, Size, VecSurface,
    WriteSurface,
};

fn to_lines(src: &str) -> Vec<Vec<u8>> {
    src.lines().map(|l| l.as_bytes().to_vec()).collect()
}

fn test_font_src(advance: u32) -> String {
    format!(
        "STARTFONT 2.1\n\
         FONTBOUNDINGBOX 4 4 0 0\n\
         STARTPROPERTIES 1\n\
         PIXEL_SIZE 10\n\
         CHARS 2\n\
         STARTCHAR a\n\
         ENCODING 97\n\
         DWIDTH {advance}\n\
         BBX 4 4 0 0\n\
         BITMAP\n\
         F0\n\
         90\n\
         90\n\
         F0\n\
         ENDCHAR\n\
         STARTCHAR space\n\
         ENCODING 32\n\
         DWIDTH {advance}\n\
         BBX 1 1 0 0\n\
         BITMAP\n\
         00\n\
         ENDCHAR\n\
         ENDFONT\n"
    )
}

fn test_font(advance: u32) -> BdfFont {
    BdfFont::new(&to_lines(&test_font_src(advance))).expect("font should parse")
}

#[test]
fn parses_a_minimal_font() {
    let f = test_font(10);
    assert_eq!(f.line_height(), 10);
    assert!(f.glyph('a').is_some());
    assert!(f.glyph(' ').is_some());
    assert!(f.glyph('z').is_none());
    assert!(f.glyph('\u{e9}').is_none());
    let g = f.glyph('a').unwrap();
    assert_eq!(g.width, 10);
    assert_eq!(g.bbox, Rect::sized(Size::new(4, 4)));
}

#[test]
fn glyph_stencil_holds_the_bitmap_ink() {
    let f = test_font(10);
    let g = f.glyph('a').unwrap();
    // rows F0 / 90 / 90 / F0, most significant bit leftmost
    let expect = [
        [true, true, true, true],
        [true, false, false, true],
        [true, false, false, true],
        [true, true, true, true],
    ];
    for y in 0..4 {
        for x in 0..4 {
            let ink = g.surface.read(Point::new(x, y)) == Some(Color::white());
            assert_eq!(ink, expect[y as usize][x as usize], "stencil ({x},{y})");
        }
    }
}

#[test]
fn empty_input_is_unexpected_eof() {
    assert_eq!(BdfFont::new(&Vec::new()).err(), Some(FontError::UnexpectedEof));
}

#[test]
fn bad_header_is_invalid_data() {
    assert_eq!(
        BdfFont::new(&to_lines("NOTAFONT 2.1\n")).err(),
        Some(FontError::InvalidData)
    );
}

#[test]
fn truncated_input_is_unexpected_eof() {
    assert_eq!(
        BdfFont::new(&to_lines("STARTFONT 2.1\nFONTBOUNDINGBOX 4 4 0 0\n")).err(),
        Some(FontError::UnexpectedEof)
    );
}

#[test]
fn unparsable_number_is_invalid_data() {
    let src = test_font_src(10).replace("BBX 4 4 0 0", "BBX four 4 0 0");
    assert_eq!(BdfFont::new(&to_lines(&src)).err(), Some(FontError::InvalidData));
}

#[test]
fn bad_bitmap_hex_is_invalid_data() {
    let src = test_font_src(10).replace("\n90\n90\n", "\n90\nZZ\n");
    assert_eq!(BdfFont::new(&to_lines(&src)).err(), Some(FontError::InvalidData));
}

#[test]
fn endchar_without_bitmap_is_invalid_data() {
    let src = "STARTFONT 2.1\nSTARTPROPERTIES 1\nPIXEL_SIZE 8\nCHARS 1\n\
               ENCODING 65\nENDCHAR\nENDFONT\n";
    assert_eq!(BdfFont::new(&to_lines(src)).err(), Some(FontError::InvalidData));
}

#[test]
fn measure_single_word() {
    let f = test_font(10);
    // one glyph advance of 10, plus the deliberate one-pixel pad
    assert_eq!(f.measure(Size::new(100, 100), "a"), Size::new(11, 10));
}

#[test]
fn measure_is_idempotent() {
    let f = test_font(10);
    let first = f.measure(Size::new(25, 100), "aa aa");
    let second = f.measure(Size::new(25, 100), "aa aa");
    assert_eq!(first, second);
}

#[test]
fn measure_wraps_greedily_and_drops_wrap_whitespace() {
    let f = test_font(10);
    // line width 25: "aa" fits (20), the following space would overflow and
    // is dropped, the second "aa" wraps to a fresh line
    assert_eq!(f.measure(Size::new(25, 100), "aa aa"), Size::new(21, 20));
}

#[test]
fn measure_newline_advances_a_line() {
    let f = test_font(10);
    assert_eq!(f.measure(Size::new(100, 100), "a\na"), Size::new(11, 20));
}

#[test]
fn long_word_stays_at_line_start() {
    let f = test_font(10);
    // "aaaa" is wider than the line; it is placed at the line start and
    // runs over rather than being split
    assert_eq!(f.measure(Size::new(15, 100), "aaaa"), Size::new(41, 10));
    // the wrapped case: a started line wraps first, then the word runs over
    assert_eq!(f.measure(Size::new(15, 100), "a aaaa"), Size::new(41, 20));
}

#[test]
fn non_ascii_degrades_to_one_empty_line() {
    let f = test_font(10);
    assert_eq!(f.measure(Size::new(100, 100), "caf\u{e9}"), Size::new(0, 10));
}

#[test]
fn layout_emits_no_placement_for_unknown_glyphs() {
    let f = test_font(10);
    let (size, places) = layout(&f, Rect::sized(Size::new(100, 100)), "azb");
    // only 'a' has a glyph; unknown glyphs are skipped and add no width
    assert_eq!(places.len(), 1);
    assert_eq!(size, Size::new(11, 10));
}

#[test]
fn render_paints_the_glyph_at_the_baseline() {
    let f = test_font(10);
    let mut s: VecSurface = SliceSurface::from_size(Size::new(20, 12));
    let red = Color::opaque(255, 0, 0);
    render_text(
        &f,
        Rect::sized(Size::new(20, 12)),
        "a",
        &mut s,
        red,
        BlendMode::Blend,
        None,
    );
    // line height 10, glyph height 4: ink occupies rows 6..=9
    assert_eq!(s.read(Point::new(0, 6)), Some(red));
    assert_eq!(s.read(Point::new(3, 6)), Some(red));
    assert_eq!(s.read(Point::new(1, 7)), Some(Color::black()));
    assert_eq!(s.read(Point::new(0, 9)), Some(red));
    assert_eq!(s.read(Point::new(0, 5)), Some(Color::black()));
}

#[test]
fn render_clips_against_the_given_bounds() {
    let f = test_font(10);
    let mut s: VecSurface = SliceSurface::from_size(Size::new(20, 12));
    let red = Color::opaque(255, 0, 0);
    // bounds too short for the glyph rows: nothing below row 7 is painted
    render_text(
        &f,
        Rect::new(Point::new(0, 0), Size::new(20, 8)),
        "a",
        &mut s,
        red,
        BlendMode::Blend,
        None,
    );
    assert_eq!(s.read(Point::new(0, 6)), Some(red));
    assert_eq!(s.read(Point::new(0, 8)), Some(Color::black()));
    assert_eq!(s.read(Point::new(0, 9)), Some(Color::black()));
}

#[test]
fn measure_text_free_function_matches_method() {
    let f = test_font(10);
    assert_eq!(
        measure_text(&f, Size::new(25, 100), "aa aa"),
        f.measure(Size::new(25, 100), "aa aa")
    );
}
