//! Memory management.
use vstd::prelude::*;

pub mod address_space;
pub mod allocator;
pub mod frame_pool;
pub mod kstack;
pub mod memory;
pub mod paging;

verus! {

} // verus!
