//! x86_64.
use vstd::prelude::*;

pub mod cpu;
pub mod gdt;
pub mod interrupts;
pub mod usermode;

verus! {

} // verus!
