//! Devices.
use vstd::prelude::*;

pub mod input;
pub mod pci;
pub mod qemu;
pub mod rtc;
pub mod serial;

verus! {

} // verus!
