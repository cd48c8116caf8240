//! Hover: whether this frame's hit carries the id of interest.

use vstd::prelude::*;
use vstd::std_specs::cmp::PartialEqSpec;
use crate::ui::widget::Hit;

verus! {

/// Remembers whether the most recent frame's hit matched an id.
pub struct HitHandler {
    pub hit: bool,
}

impl HitHandler {
    pub fn new() -> (r: HitHandler)
        ensures
            r.hit == false,
    {
        HitHandler { hit: false }
    }

    /// Whether the most recent frame hit the id of interest.
    pub fn is_hit(&self) -> (r: bool)
        ensures
            r == self.hit,
    {
        self.hit
    }

    /// Feed one frame: whether this frame's hit carries `id`.
    pub fn handle<I: Copy + PartialEq>(&mut self, id: I, hit: Option<&Hit<I>>) -> (r: bool)
        ensures
            I::obeys_eq_spec() ==> r == (match hit {
                Some(h) => h.id.eq_spec(&id),
                None => false,
            }),
            final(self).hit == r,
            hit is None ==> r == false,
    {
        self.hit = false;
        if let Some(h) = hit {
            self.hit = *h.id() == id;
        }
        self.hit
    }
}

} // verus!
