//! Widget measurement, rendering, hit-testing and composition.

use pixui::gfx::{
    BdfFont, Color, Point, ReadSurface, Rect, SliceSurface, Size, VecSurface,
};
use pixui::ui::widget::SLIDER_WIDTH;
use pixui::ui::{
    Border, HBox, Interceptor, Label, Margin, Overflow, Stack, VBox, VSpan, Widget, UI,
};

fn to_lines(src: &str) -> Vec<Vec<u8>> {
    src.lines().map(|l| l.as_bytes().to_vec()).collect()
}

/// A font with line height 10 and one glyph, 'a', of the given advance.
fn test_font(advance: u32) -> BdfFont {
    let src = format!(
        "STARTFONT 2.1\nFONTBOUNDINGBOX 4 4 0 0\nSTARTPROPERTIES 1\nPIXEL_SIZE 10\n\
         CHARS 1\nSTARTCHAR a\nENCODING 97\nDWIDTH {advance}\nBBX 4 4 0 0\nBITMAP\n\
         F0\n90\n90\nF0\nENDCHAR\nENDFONT\n"
    );
    BdfFont::new(&to_lines(&src)).expect("font should parse")
}

fn surf(w: i32, h: i32) -> VecSurface {
    SliceSurface::from_size(Size::new(w, h))
}

fn label<'a>(font: &'a BdfFont, text: &'a str, id: Option<u32>) -> Widget<'a, u32> {
    Widget::Label(Label { id, font: Some(font), color: Color::white(), text })
}

fn fixed_box<'a>(w: i32, h: i32, id: Option<u32>) -> Widget<'a, u32> {
    // a margin with no child measures to exactly its edge totals (clamped)
    Widget::Margin(Margin { id, child: None, top: 0, left: 0, bottom: h, right: w })
}

#[test]
fn border_margin_label_measured_size() {
    // Border(weight 1) wrapping Margin(2,2,2,2) wrapping a label of
    // natural size (30, 10), offered (100, 100): 30+2+4 by 10+2+4
    let font = test_font(29);
    let tree: Widget<u32> = Widget::Border(Border {
        id: None,
        weight: 1,
        color: Color::white(),
        child: Some(Box::new(Widget::Margin(Margin {
            id: None,
            top: 2,
            left: 2,
            bottom: 2,
            right: 2,
            child: Some(Box::new(label(&font, "a", None))),
        }))),
    });
    assert_eq!(tree.measure(Size::new(100, 100)), Size::new(36, 16));
}

#[test]
fn measure_is_clamped_to_the_limits() {
    let tree: Widget<u32> = fixed_box(50, 50, None);
    assert_eq!(tree.measure(Size::new(20, 30)), Size::new(20, 30));
}

#[test]
fn vspan_pins_height_to_the_limit() {
    let tree: Widget<u32> = Widget::VSpan(VSpan {
        id: None,
        child: Some(Box::new(fixed_box(5, 5, None))),
    });
    assert_eq!(tree.measure(Size::new(40, 70)), Size::new(5, 70));
}

#[test]
fn hbox_sums_widths_and_takes_max_height() {
    let tree: Widget<u32> = Widget::HBox(HBox {
        id: None,
        children: vec![fixed_box(10, 4, None), fixed_box(20, 9, None)],
    });
    assert_eq!(tree.measure(Size::new(100, 100)), Size::new(30, 9));
}

#[test]
fn vbox_sums_heights_and_takes_max_width() {
    let tree: Widget<u32> = Widget::VBox(VBox {
        id: None,
        children: vec![fixed_box(10, 4, None), fixed_box(20, 9, None)],
    });
    assert_eq!(tree.measure(Size::new(100, 100)), Size::new(20, 13));
}

#[test]
fn stack_takes_componentwise_max() {
    let tree: Widget<u32> = Widget::Stack(Stack {
        id: None,
        children: vec![fixed_box(10, 4, None), fixed_box(3, 9, None)],
    });
    assert_eq!(tree.measure(Size::new(100, 100)), Size::new(10, 9));
}

#[test]
fn hbox_children_proportionally_fill_the_width() {
    // three children of natural width 10 in a 45-wide box: 15 each,
    // tiling the box exactly; hit bounds reveal the child rectangles
    let tree: Widget<u32> = Widget::HBox(HBox {
        id: None,
        children: vec![
            fixed_box(10, 10, Some(1)),
            fixed_box(10, 10, Some(2)),
            fixed_box(10, 10, Some(3)),
        ],
    });
    let bounds = Rect::sized(Size::new(45, 10));
    let mut s = surf(45, 10);
    let mut starts = Vec::new();
    let mut total = 0;
    for (x, want) in [(0, 1u32), (16, 2), (44, 3)] {
        let hit = tree
            .render(bounds, Point::new(x, 5), &mut s, None)
            .expect("expected a hit");
        assert_eq!(*hit.id(), want);
        starts.push(hit.bounds().left());
        total += hit.bounds().width();
    }
    assert_eq!(starts, vec![0, 15, 30]);
    // sum of rendered main-axis extents equals the box's actual extent
    assert_eq!(total, 45);
}

#[test]
fn vbox_children_proportionally_fill_the_height() {
    let tree: Widget<u32> = Widget::VBox(VBox {
        id: None,
        children: vec![fixed_box(10, 10, Some(1)), fixed_box(10, 30, Some(2))],
    });
    let bounds = Rect::sized(Size::new(10, 20));
    let mut s = surf(10, 20);
    // natural heights clamp to 10 and 20 under the box's bounds, so the
    // children scale by 20/30: heights 6 and 13 (integer rounding)
    let h1 = tree.render(bounds, Point::new(5, 4), &mut s, None);
    assert_eq!(h1.map(|h| (h.id, h.bounds.height())), Some((1, 6)));
    let h2 = tree.render(bounds, Point::new(5, 7), &mut s, None);
    assert_eq!(h2.map(|h| (h.id, h.bounds.height())), Some((2, 13)));
}

#[test]
fn innermost_id_wins_over_the_outer() {
    let tree: Widget<u32> = Widget::Border(Border {
        id: Some(7),
        weight: 1,
        color: Color::white(),
        child: Some(Box::new(Widget::Margin(Margin {
            id: Some(8),
            top: 1,
            left: 1,
            bottom: 1,
            right: 1,
            child: Some(Box::new(fixed_box(10, 10, Some(9)))),
        }))),
    });
    let mut ui = UI::new();
    let mut s = surf(40, 40);
    // deep inside: the leaf id wins
    let fb = ui.render(Rect::sized(Size::new(40, 40)), &mut s, Point::new(5, 5), &tree);
    assert_eq!(fb.hit().map(|h| *h.id()), Some(9));
    // on the border itself, outside every child: the outer id
    let fb2 = ui.render(Rect::sized(Size::new(40, 40)), &mut s, Point::new(0, 0), &tree);
    assert_eq!(fb2.hit().map(|h| *h.id()), Some(7));
}

#[test]
fn later_stack_sibling_wins() {
    let tree: Widget<u32> = Widget::Stack(Stack {
        id: None,
        children: vec![fixed_box(10, 10, Some(1)), fixed_box(10, 10, Some(2))],
    });
    let mut ui = UI::new();
    let mut s = surf(20, 20);
    let fb = ui.render(Rect::sized(Size::new(20, 20)), &mut s, Point::new(3, 3), &tree);
    assert_eq!(fb.hit().map(|h| *h.id()), Some(2));
}

#[test]
fn border_paints_its_outline() {
    let red = Color::opaque(255, 0, 0);
    let tree: Widget<u32> = Widget::Border(Border {
        id: None,
        weight: 1,
        color: red,
        child: None,
    });
    let mut s = surf(8, 8);
    tree.render(Rect::sized(Size::new(8, 8)), Point::new(-1, -1), &mut s, None);
    assert_eq!(s.read(Point::new(0, 0)), Some(red));
    assert_eq!(s.read(Point::new(7, 7)), Some(red));
    assert_eq!(s.read(Point::new(3, 0)), Some(red));
    assert_eq!(s.read(Point::new(0, 3)), Some(red));
    assert_eq!(s.read(Point::new(3, 3)), Some(Color::black()));
}

#[test]
fn overflow_thumb_sits_proportionally_in_the_track() {
    // scroll offset 50, content height 200, track height 100:
    // thumb top offset = 50 * (100 / 200) = 25
    let content: Widget<u32> = Widget::Margin(Margin {
        id: None,
        top: 100,
        left: 0,
        bottom: 100,
        right: 0,
        child: None,
    });
    let tree: Widget<u32> = Widget::Overflow(Overflow {
        id: None,
        child: Some(Box::new(content)),
        offset: Point::new(0, 50),
    });
    let track = Color::opaque(32, 32, 32);
    let thumb = Color::opaque(127, 127, 127);
    let w = 40;
    let mut s = surf(w, 100);
    tree.render(Rect::sized(Size::new(w, 100)), Point::new(-1, -1), &mut s, None);
    let gx = w - SLIDER_WIDTH; // leftmost gutter column
    assert_eq!(s.read(Point::new(gx, 24)), Some(track));
    assert_eq!(s.read(Point::new(gx, 25)), Some(thumb));
    assert_eq!(s.read(Point::new(gx, 40)), Some(thumb));
    assert_eq!(s.read(Point::new(gx, 41)), Some(track));
}

#[test]
fn overflow_clips_child_painting_to_its_bounds() {
    let red = Color::opaque(255, 0, 0);
    // a border taller than the viewport, scrolled down by 5
    let content: Widget<u32> = Widget::Border(Border {
        id: None,
        weight: 30,
        color: red,
        child: None,
    });
    let tree: Widget<u32> = Widget::Overflow(Overflow {
        id: None,
        child: Some(Box::new(content)),
        offset: Point::new(0, 5),
    });
    let mut s = surf(60, 20);
    // viewport occupies only the top-left 40x10 of the surface
    tree.render(Rect::sized(Size::new(40, 10)), Point::new(-1, -1), &mut s, None);
    // inside the viewport the shifted child paints
    assert_eq!(s.read(Point::new(0, 0)), Some(red));
    // below the viewport nothing leaks out
    assert_eq!(s.read(Point::new(0, 10)), Some(Color::black()));
    assert_eq!(s.read(Point::new(0, 15)), Some(Color::black()));
}

#[test]
fn overflow_gutter_disables_child_hits() {
    let content: Widget<u32> = fixed_box(100, 200, Some(5));
    let tree: Widget<u32> = Widget::Overflow(Overflow {
        id: Some(6),
        child: Some(Box::new(content)),
        offset: Point::new(0, 0),
    });
    let mut s = surf(60, 50);
    let bounds = Rect::sized(Size::new(60, 50));
    // inside the content area the child id wins
    let fb = tree.render(bounds, Point::new(10, 10), &mut s, None);
    assert_eq!(fb.map(|h| h.id), Some(5));
    // inside the reserved gutter the child is unreachable
    let fb2 = tree.render(bounds, Point::new(55, 10), &mut s, None);
    assert_eq!(fb2.map(|h| h.id), Some(6));
}

#[test]
fn interceptor_reports_the_offered_limits_and_child_size() {
    let inner: Widget<u32> = fixed_box(10, 200, None);
    let tree: Widget<u32> = Widget::Margin(Margin {
        id: None,
        top: 3,
        left: 0,
        bottom: 0,
        right: 0,
        child: Some(Box::new(Widget::Interceptor(Interceptor {
            child: Box::new(inner),
        }))),
    });
    let (size, observed) = tree.measure_observed(Size::new(50, 40));
    // the margin passes (50, 37) down to the interceptor
    let (limits, child_size) = observed.expect("expected an observation");
    assert_eq!(limits, Size::new(50, 37));
    assert_eq!(child_size, Size::new(10, 37));
    assert_eq!(size, Size::new(10, 40));
}

#[test]
fn ui_render_returns_measured_size_and_hit() {
    let tree: Widget<u32> = fixed_box(10, 10, Some(1));
    let mut ui = UI::new();
    let mut s = surf(30, 30);
    let fb = ui.render(Rect::sized(Size::new(30, 30)), &mut s, Point::new(5, 5), &tree);
    assert_eq!(fb.size(), Size::new(10, 10));
    assert_eq!(fb.hit().map(|h| *h.id()), Some(1));
    let miss = ui.render(Rect::sized(Size::new(30, 30)), &mut s, Point::new(20, 20), &tree);
    assert!(miss.hit().is_none());
}
