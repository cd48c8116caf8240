//! Tapping: a press over a matching hit followed by a release over it.

use vstd::prelude::*;
use vstd::std_specs::cmp::PartialEqSpec;
use crate::ui::widget::Hit;

verus! {

/// Accumulates a tap gesture across frames: whether the id of interest is
/// currently held down, and whether a tap just completed.
pub struct TapHandler {
    pub held: bool,
    pub tapped: bool,
}

/// One step of the tap state machine, exactly as [`TapHandler::handle`]
/// performs it under a well-behaved id equality: pressing over a matching
/// hit holds; releasing over it while held taps.
pub open spec fn spec_tap_step<I: PartialEq>(
    st: TapHandler,
    id: I,
    touch: bool,
    hit: Option<Hit<I>>,
) -> TapHandler {
    match hit {
        Some(h) => if h.id.eq_spec(&id) {
            if touch {
                TapHandler { held: true, tapped: false }
            } else {
                TapHandler { held: false, tapped: st.held }
            }
        } else {
            TapHandler { held: false, tapped: false }
        },
        None => TapHandler { held: false, tapped: false },
    }
}

impl TapHandler {
    pub fn new() -> (r: TapHandler)
        ensures
            r.held == false,
            r.tapped == false,
    {
        TapHandler { held: false, tapped: false }
    }

    /// Whether the id of interest is currently pressed.
    pub fn is_held(&self) -> (r: bool)
        ensures
            r == self.held,
    {
        self.held
    }

    /// Whether a tap completed on the most recent frame.
    pub fn is_tapped(&self) -> (r: bool)
        ensures
            r == self.tapped,
    {
        self.tapped
    }

    /// Feed one frame: the id to match, whether the pointer is pressed,
    /// and this frame's hit. Returns whether a tap just completed.
    pub fn handle<I: Copy + PartialEq>(&mut self, id: I, touch: bool, hit: Option<&Hit<I>>) -> (r:
        bool)
        ensures
            I::obeys_eq_spec() ==> *final(self) == spec_tap_step(
                *old(self),
                id,
                touch,
                match hit {
                    Some(h) => Some(*h),
                    None => None,
                },
            ),
            r == final(self).tapped,
            hit is None ==> final(self).held == false && final(self).tapped == false,
    {
        let held = self.held;
        self.tapped = false;
        self.held = false;
        if let Some(h) = hit {
            if *h.id() == id {
                if touch {
                    self.held = true;
                } else {
                    if held {
                        self.tapped = true;
                    }
                }
            }
        }
        self.tapped
    }
}

} // verus!
