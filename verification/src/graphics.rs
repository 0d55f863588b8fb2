//! The graphics stack. A theme is everything a user may customize; the
//! compositor is everything they may not. The compositor reads a theme,
//! and a theme knows nothing about the compositor.
use vstd::prelude::*;

pub mod compositor;
pub mod font;
pub mod framebuffer;
pub mod theme;

verus! {

} // verus!
