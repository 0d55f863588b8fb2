//! Scheduling.
use vstd::prelude::*;

pub mod class;
pub mod task;

verus! {

} // verus!
