//! Interaction-state accumulators: they turn the per-frame hit result
//! plus raw pointer signals into semantic gestures.

pub mod drag;
pub mod hit;
pub mod overflow;
pub mod tap;
