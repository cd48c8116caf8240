//! End-to-end composition: fonts, widgets, scrolling and feedback.

use pixui::gfx::{
    BdfFont, Color, Point, ReadSurface, Rect, SliceSurface, Size, U8SliceSurface, VecSurface,
};
use pixui::ui::{
    Border, Interceptor, Label, Margin, Overflow, OverflowHandler, VSpan, Widget, UI,
};

fn to_lines(src: &str) -> Vec<Vec<u8>> {
    src.lines().map(|l| l.as_bytes().to_vec()).collect()
}

fn test_font() -> BdfFont {
    let src = "STARTFONT 2.1\nFONTBOUNDINGBOX 4 4 0 0\nSTARTPROPERTIES 1\nPIXEL_SIZE 10\n\
               CHARS 1\nSTARTCHAR a\nENCODING 97\nDWIDTH 10\nBBX 4 4 0 0\nBITMAP\n\
               F0\n90\n90\nF0\nENDCHAR\nENDFONT\n";
    BdfFont::new(&to_lines(src)).expect("font should parse")
}

#[test]
fn bordered_label_paints_and_reports_its_id() {
    let font = test_font();
    let tree: Widget<&str> = Widget::Border(Border {
        id: Some("panel"),
        weight: 1,
        color: Color::opaque(0, 255, 0),
        child: Some(Box::new(Widget::Margin(Margin {
            id: None,
            top: 2,
            left: 2,
            bottom: 2,
            right: 2,
            child: Some(Box::new(Widget::Label(Label {
                id: Some("text"),
                font: Some(&font),
                color: Color::white(),
                text: "a",
            }))),
        }))),
    });
    let mut ui = UI::new();
    let mut s: VecSurface = SliceSurface::from_size(Size::new(40, 30));
    let fb = ui.render(
        Rect::sized(Size::new(40, 30)),
        &mut s,
        Point::new(5, 5),
        &tree,
    );
    // label natural (11, 10), margins 4, border 2
    assert_eq!(fb.size(), Size::new(17, 16));
    // the cursor sits inside the label: the inner id wins over the border's
    assert_eq!(fb.hit().map(|h| *h.id()), Some("text"));
    // the border's outline landed
    assert_eq!(s.read(Point::new(0, 0)), Some(Color::opaque(0, 255, 0)));
    // glyph ink landed inside the label area (label origin (3,3), row 6+3)
    assert_eq!(s.read(Point::new(3, 9)), Some(Color::white()));
}

#[test]
fn scroll_state_feeds_back_into_the_next_frame() {
    // a fixed 40 x 200 content inside a scrolled viewport
    let mut scroll = OverflowHandler::new();
    let mut s: VecSurface = SliceSurface::from_size(Size::new(60, 100));
    let bounds = Rect::sized(Size::new(60, 100));
    let mut ui = UI::new();

    for frame in 0..2 {
        let content: Widget<&str> = Widget::Margin(Margin {
            id: None,
            top: 100,
            left: 20,
            bottom: 100,
            right: 20,
            child: None,
        });
        let tree: Widget<&str> = Interceptor::measure(Widget::VSpan(VSpan {
            id: Some("scroller"),
            child: Some(Box::new(Widget::Overflow(Overflow {
                id: None,
                child: Some(Box::new(content)),
                offset: scroll.offset(),
            }))),
        }));
        let fb = ui.render(bounds, &mut s, Point::new(10, 10), &tree);
        let (_, observed) = tree.measure_observed(bounds.size);
        scroll.measure(observed);
        // drag downward over the content: the offset grows, clamped to the
        // captured layout height
        scroll.handle("scroller", true, Point::new(10, 10 - 30 * frame), fb.hit());
    }
    // the interceptor captured the child's measured size, so the offset
    // pans within the content height
    assert_eq!(scroll.offset(), Point::new(0, 30));
}

#[test]
fn renders_into_an_interleaved_byte_texture() {
    let tree: Widget<u32> = Widget::Border(Border {
        id: None,
        weight: 1,
        color: Color::opaque(9, 8, 7),
        child: None,
    });
    let mut s = U8SliceSurface::new(vec![0u8; 8 * 8 * 4], 8, Rect::sized(Size::new(8, 8)));
    tree.render(Rect::sized(Size::new(8, 8)), Point::new(-1, -1), &mut s, None);
    assert_eq!(s.read(Point::new(0, 0)), Some(Color::opaque(9, 8, 7)));
    assert_eq!(&s.bytes()[0..4], &[9, 8, 7, 255]);
    assert_eq!(s.read(Point::new(4, 4)), Some(Color::new(0, 0, 0, 0)));
}
