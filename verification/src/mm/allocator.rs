//! The kernel heap: where it is, and how its pages are mapped.
use vstd::prelude::*;
use crate::abi::layout;
use crate::mm::paging::PageFlags;

verus! {

/// Start of the kernel heap.
pub const HEAP_START: u64 = layout::KERNEL_HEAP_START;

/// Bytes in the kernel heap.
pub const HEAP_SIZE: usize = layout::KERNEL_HEAP_SIZE;

/// The pages to map before the heap can be used.
#[derive(Debug, Clone, Copy, PartialEq, Eq, Structural)]
pub struct HeapPlan {
    pub first: u64,
    pub pages: u64,
    pub flags: PageFlags,
}

/// Which pages the heap needs: all of its range, writable, for the kernel
/// only, and not executable where the processor can forbid it.
pub fn init_heap(nx_available: bool) -> (plan: HeapPlan)
    ensures
        plan.first == HEAP_START,
        plan.pages * 4096 == HEAP_SIZE,
        plan.flags == (PageFlags {
            writable: true,
            user_accessible: false,
            no_execute: nx_available,
        }),
{
    HeapPlan {
        first: HEAP_START,
        pages: HEAP_SIZE as u64 / 4096,
        flags: PageFlags { writable: true, user_accessible: false, no_execute: nx_available },
    }
}

/// The heap is whole pages, in the kernel's half of the address space.
pub proof fn law_heap_is_the_kernels()
    ensures
        HEAP_START % 4096 == 0,
        HEAP_SIZE % 4096 == 0,
        HEAP_START >= layout::HIGHER_HALF_START,
        HEAP_START + HEAP_SIZE <= u64::MAX,
{
}

} // verus!
