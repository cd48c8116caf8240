//! Scrolling: while the pointer is pressed over a matching hit, pointer
//! motion pans a vertical scroll offset, clamped to the captured content
//! height.

use vstd::prelude::*;
use vstd::std_specs::cmp::PartialEqSpec;
use crate::gfx::geom::Point;
use crate::gfx::geom::Size;
use crate::ui::widget::Hit;

verus! {

/// Accumulates a scroll gesture across frames: the current offset, the
/// layout size captured from the measure pass, and the previous pointer
/// position while a scroll is in progress.
pub struct OverflowHandler {
    pub offset: Point,
    pub content_size: Size,
    pub touch_point: Option<Point>,
}

/// One step of the scroll state machine, exactly as
/// [`OverflowHandler::handle`] performs it under a well-behaved id
/// equality: a press over a matching hit grabs; while grabbed, pointer
/// motion pans the vertical offset, clamped to `0 ..= content height`.
pub open spec fn spec_scroll_step<I: PartialEq>(
    st: OverflowHandler,
    id: I,
    touch: bool,
    cursor: Point,
    hit: Option<Hit<I>>,
) -> (OverflowHandler, bool) {
    if touch {
        let grabbed = match hit {
            Some(h) => if st.touch_point is None && h.id.eq_spec(&id) {
                OverflowHandler {
                    touch_point: Some(
                        Point {
                            x: (cursor.x - h.bounds.origin.x) as i32,
                            y: (cursor.y - h.bounds.origin.y) as i32,
                        },
                    ),
                    ..st
                }
            } else {
                st
            },
            None => st,
        };
        match grabbed.touch_point {
            Some(p) => {
                let oy = grabbed.offset.y + (p.y - cursor.y);
                let clamped = if oy <= 0 {
                    0int
                } else {
                    oy
                };
                let clamped2 = if clamped >= grabbed.content_size.height {
                    grabbed.content_size.height as int
                } else {
                    clamped
                };
                (
                    OverflowHandler {
                        touch_point: Some(cursor),
                        offset: Point { x: 0, y: clamped2 as i32 },
                        ..grabbed
                    },
                    true,
                )
            },
            None => (grabbed, false),
        }
    } else {
        (OverflowHandler { touch_point: None, ..st }, false)
    }
}

impl OverflowHandler {
    pub fn new() -> (r: OverflowHandler)
        ensures
            r.offset == (Point { x: 0, y: 0 }),
            r.content_size == (Size { width: 0, height: 0 }),
            r.touch_point is None,
    {
        OverflowHandler {
            offset: Point::new(0, 0),
            content_size: Size::new(0, 0),
            touch_point: None,
        }
    }

    /// The current scroll offset.
    pub fn offset(&self) -> (r: Point)
        ensures
            r == self.offset,
    {
        self.offset
    }

    /// Whether a scroll drag is currently in progress.
    pub fn is_scrolling(&self) -> (r: bool)
        ensures
            r == (self.touch_point is Some),
    {
        self.touch_point.is_some()
    }

    /// Record the measure-pass observation reported by
    /// [`crate::ui::widget::Widget::measure_observed`] for the frame: the
    /// child's measured size at the observed point of the tree becomes
    /// the captured content size the scroll offset is clamped against.
    pub fn measure(&mut self, observed: Option<(Size, Size)>)
        ensures
            final(self).offset == old(self).offset,
            final(self).touch_point == old(self).touch_point,
            final(self).content_size == (match observed {
                Some(o) => o.1,
                None => old(self).content_size,
            }),
    {
        if let Some(o) = observed {
            self.content_size = o.1;
        }
    }

    /// Feed one frame: the id to match, whether the pointer is pressed,
    /// its position, and this frame's hit. Returns whether a scroll is in
    /// progress after the step.
    pub fn handle<I: Copy + PartialEq>(
        &mut self,
        id: I,
        touch: bool,
        cursor: Point,
        hit: Option<&Hit<I>>,
    ) -> (r: bool)
        requires
            match hit {
                Some(h) => i32::MIN <= cursor.x - h.bounds.origin.x <= i32::MAX && i32::MIN
                    <= cursor.y - h.bounds.origin.y <= i32::MAX && (old(self).touch_point is None
                    ==> i32::MIN <= 0 - h.bounds.origin.y <= i32::MAX && i32::MIN <= old(
                    self,
                ).offset.y + (0 - h.bounds.origin.y) <= i32::MAX),
                None => true,
            },
            match old(self).touch_point {
                Some(p) => i32::MIN <= old(self).offset.y + (p.y - cursor.y) <= i32::MAX
                    && i32::MIN <= p.y - cursor.y <= i32::MAX,
                None => true,
            },
        ensures
            I::obeys_eq_spec() ==> (
            *final(self),
            r,
            ) == spec_scroll_step(
                *old(self),
                id,
                touch,
                cursor,
                match hit {
                    Some(h) => Some(*h),
                    None => None,
                },
            ),
            !touch ==> final(self).touch_point is None && r == false && final(self).offset == old(
                self,
            ).offset,
    {
        if touch {
            if let Some(h) = hit {
                if self.touch_point.is_none() && *h.id() == id {
                    self.touch_point = Some(cursor.sub(h.bounds().origin));
                }
            }
            if let Some(point) = self.touch_point {
                self.touch_point = Some(cursor);
                let dy = point.y - cursor.y;
                let oy = self.offset.y + dy;
                let clamped = if oy <= 0 {
                    0
                } else {
                    oy
                };
                let clamped2 = if clamped >= self.content_size.height {
                    self.content_size.height
                } else {
                    clamped
                };
                self.offset = Point::new(0, clamped2);
                return true;
            }
            false
        } else {
            self.touch_point = None;
            false
        }
    }
}

} // verus!
