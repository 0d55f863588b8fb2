//! What is specific to the processor.
use vstd::prelude::*;

pub mod x86_64;

verus! {

} // verus!
