//! Dragging: while the pointer is pressed over a matching hit, the
//! handler tracks the grab point and reports the widget's translation.

use vstd::prelude::*;
use vstd::std_specs::cmp::PartialEqSpec;
use crate::gfx::geom::Point;
use crate::ui::widget::Hit;

verus! {

/// Accumulates a drag gesture across frames: the current translation and
/// the grab point within the dragged widget, if a drag is in progress.
pub struct DragHandler {
    pub translation: Point,
    pub touch_point: Option<Point>,
}

/// One step of the drag state machine, exactly as
/// [`DragHandler::handle`] performs it under a well-behaved id equality:
/// a press over a matching hit grabs at the hit's origin, and while
/// grabbed the translation is the pointer's offset from that origin.
pub open spec fn spec_drag_step<I: PartialEq>(
    st: DragHandler,
    id: I,
    touch: bool,
    cursor: Point,
    hit: Option<Hit<I>>,
) -> (DragHandler, bool) {
    if touch {
        let grabbed = match hit {
            Some(h) => if st.touch_point is None && h.id.eq_spec(&id) {
                DragHandler { touch_point: Some(h.bounds.origin), ..st }
            } else {
                st
            },
            None => st,
        };
        match grabbed.touch_point {
            Some(p) => (
                DragHandler {
                    translation: Point { x: (cursor.x - p.x) as i32, y: (cursor.y - p.y) as i32 },
                    ..grabbed
                },
                true,
            ),
            None => (grabbed, false),
        }
    } else {
        (DragHandler { touch_point: None, ..st }, false)
    }
}

impl DragHandler {
    pub fn new() -> (r: DragHandler)
        ensures
            r.translation == (Point { x: 0, y: 0 }),
            r.touch_point is None,
    {
        DragHandler { translation: Point::new(0, 0), touch_point: None }
    }

    /// The current translation of the dragged widget.
    pub fn translation(&self) -> (r: Point)
        ensures
            r == self.translation,
    {
        self.translation
    }

    /// Whether a drag is currently in progress.
    pub fn is_held(&self) -> (r: bool)
        ensures
            r == (self.touch_point is Some),
    {
        self.touch_point.is_some()
    }

    /// Feed one frame: the id to match, whether the pointer is pressed,
    /// its position, and this frame's hit. Returns whether a drag is in
    /// progress after the step.
    pub fn handle<I: Copy + PartialEq>(
        &mut self,
        id: I,
        touch: bool,
        cursor: Point,
        hit: Option<&Hit<I>>,
    ) -> (r: bool)
        requires
            match hit {
                Some(h) => i32::MIN <= cursor.x - h.bounds.origin.x <= i32::MAX && i32::MIN
                    <= cursor.y - h.bounds.origin.y <= i32::MAX,
                None => true,
            },
            match old(self).touch_point {
                Some(p) => i32::MIN <= cursor.x - p.x <= i32::MAX && i32::MIN <= cursor.y - p.y
                    <= i32::MAX,
                None => true,
            },
        ensures
            I::obeys_eq_spec() ==> (
            *final(self),
            r,
            ) == spec_drag_step(
                *old(self),
                id,
                touch,
                cursor,
                match hit {
                    Some(h) => Some(*h),
                    None => None,
                },
            ),
            !touch ==> final(self).touch_point is None && r == false && final(self).translation
                == old(self).translation,
    {
        if touch {
            if let Some(h) = hit {
                if self.touch_point.is_none() && *h.id() == id {
                    self.touch_point = Some(h.bounds().origin);
                }
            }
            if let Some(point) = self.touch_point {
                self.translation = cursor.sub(point);
                return true;
            }
            false
        } else {
            self.touch_point = None;
            false
        }
    }
}

} // verus!
