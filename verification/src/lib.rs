//! A retained-free, immediate-style pixel UI toolkit.
//!
//! Each frame the caller builds a tree of widget descriptors, lays it out
//! against pixel bounds, rasterizes it into a mutable pixel surface, and
//! learns which leaf (if any) the pointer currently occupies.

pub mod gfx;
pub mod ui;
