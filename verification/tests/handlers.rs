//! Interaction-state accumulators: drag, tap, hover, scroll.

use pixui::gfx::{Point, Rect, Size};
use pixui::ui::widget::Hit;
use pixui::ui::{DragHandler, HitHandler, OverflowHandler, TapHandler};

fn hit_at(id: u32, x: i32, y: i32) -> Option<Hit<u32>> {
    Hit::from_test(
        Some(id),
        Rect::new(Point::new(x, y), Size::new(20, 20)),
        Point::new(x, y),
    )
}

#[test]
fn drag_translates_and_freezes_on_release() {
    let mut drag = DragHandler::new();
    let hit = hit_at(1, 10, 10);
    // press at (50, 50) over a hit whose bounds start at (10, 10)
    assert!(drag.handle(1u32, true, Point::new(50, 50), hit.as_ref()));
    assert_eq!(drag.translation(), Point::new(40, 40));
    assert!(drag.is_held());
    // release: the translation freezes and the drag ends
    assert!(!drag.handle(1u32, false, Point::new(60, 70), hit.as_ref()));
    assert_eq!(drag.translation(), Point::new(40, 40));
    assert!(!drag.is_held());
}

#[test]
fn drag_follows_the_pointer_while_held() {
    let mut drag = DragHandler::new();
    let hit = hit_at(1, 10, 10);
    drag.handle(1u32, true, Point::new(50, 50), hit.as_ref());
    // once grabbed, the drag follows even without a hit
    drag.handle(1u32, true, Point::new(55, 42), None);
    assert_eq!(drag.translation(), Point::new(45, 32));
}

#[test]
fn drag_ignores_other_ids() {
    let mut drag = DragHandler::new();
    let hit = hit_at(2, 10, 10);
    assert!(!drag.handle(1u32, true, Point::new(50, 50), hit.as_ref()));
    assert!(!drag.is_held());
}

#[test]
fn tap_requires_press_then_release_over_the_hit() {
    let mut tap = TapHandler::new();
    let hit = hit_at(1, 0, 0);
    assert!(!tap.handle(1u32, true, hit.as_ref()));
    assert!(tap.is_held());
    assert!(!tap.is_tapped());
    assert!(tap.handle(1u32, false, hit.as_ref()));
    assert!(tap.is_tapped());
    assert!(!tap.is_held());
    // a release without a preceding press is no tap
    assert!(!tap.handle(1u32, false, hit.as_ref()));
}

#[test]
fn tap_aborts_when_the_pointer_leaves() {
    let mut tap = TapHandler::new();
    let hit = hit_at(1, 0, 0);
    tap.handle(1u32, true, hit.as_ref());
    // hit lost mid-press: the gesture is abandoned
    assert!(!tap.handle(1u32, true, None));
    assert!(!tap.handle(1u32, false, hit.as_ref()));
}

#[test]
fn hover_reports_only_matching_hits() {
    let mut hover = HitHandler::new();
    assert!(!hover.handle(1u32, None));
    assert!(!hover.is_hit());
    assert!(hover.handle(1u32, hit_at(1, 0, 0).as_ref()));
    assert!(hover.is_hit());
    assert!(!hover.handle(1u32, hit_at(2, 0, 0).as_ref()));
    assert!(!hover.is_hit());
}

#[test]
fn scroll_pans_and_clamps_to_the_captured_size() {
    let mut scroll = OverflowHandler::new();
    scroll.measure(Some((Size::new(80, 100), Size::new(80, 300))));
    let hit = hit_at(3, 0, 0);
    // grab at y 50, then drag the pointer up by 30: the content pans down
    assert!(scroll.handle(3u32, true, Point::new(10, 50), hit.as_ref()));
    assert!(scroll.is_scrolling());
    assert!(scroll.handle(3u32, true, Point::new(10, 20), hit.as_ref()));
    assert_eq!(scroll.offset(), Point::new(0, 30));
    // panning further than the captured content height clamps there, so
    // long content can be scrolled all the way to its end
    assert!(scroll.handle(3u32, true, Point::new(10, -500), hit.as_ref()));
    assert_eq!(scroll.offset(), Point::new(0, 300));
    // panning back past the top clamps at zero
    assert!(scroll.handle(3u32, true, Point::new(10, 900), hit.as_ref()));
    assert_eq!(scroll.offset(), Point::new(0, 0));
    // release ends the gesture and keeps the offset
    assert!(!scroll.handle(3u32, false, Point::new(10, 900), hit.as_ref()));
    assert!(!scroll.is_scrolling());
}

#[test]
fn scroll_measure_captures_the_content_size() {
    let mut scroll = OverflowHandler::new();
    scroll.measure(None);
    assert_eq!(scroll.offset(), Point::new(0, 0));
    scroll.measure(Some((Size::new(12, 34), Size::new(56, 78))));
    // the captured content size is the measured half of the observation,
    // not the offered limits
    let hit = hit_at(3, 0, 0);
    scroll.handle(3u32, true, Point::new(0, 0), hit.as_ref());
    scroll.handle(3u32, true, Point::new(0, -999), hit.as_ref());
    assert_eq!(scroll.offset(), Point::new(0, 78));
}
