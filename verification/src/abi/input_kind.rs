//! Values of `InputEvent::kind`.
use vstd::prelude::*;

verus! {

pub const KEY_DOWN: u64 = 1;

pub const KEY_UP: u64 = 2;

pub const POINTER_MOTION: u64 = 3;

pub const POINTER_BUTTON_DOWN: u64 = 4;

pub const POINTER_BUTTON_UP: u64 = 5;

} // verus!
