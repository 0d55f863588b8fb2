//! The virtual address map, in one place.
//!
//! The kernel lives entirely in the higher half and nothing else does;
//! every user process lives in the lower half. Creating an address space
//! is therefore copying the upper 256 top-level entries, and tearing one
//! down is freeing what the lower 256 reach.
use vstd::prelude::*;

verus! {

/// The first address of the higher half.
pub const HIGHER_HALF_START: u64 = 0xffff_8000_0000_0000;

/// One past the highest address a user program may name.
pub const USER_SPACE_END: u64 = 0x0000_7fff_ffff_f000;

/// The first top-level entry that belongs to the kernel.
pub const KERNEL_PML4_FIRST_INDEX: usize = 256;

/// Where native programs are linked to load.
pub const USER_IMAGE_BASE: u64 = 0x0000_0000_0040_0000;

/// Where the hand-encoded fallback program loads.
pub const USER_FALLBACK_IMAGE_BASE: u64 = 0x0000_0000_0050_0000;

/// Where a process's anonymous memory begins.
pub const USER_HEAP_BASE: u64 = 0x0000_1000_0000_0000;

/// Where every PE image is placed, whatever base it asks for.
pub const MIRAGE_IMAGE_BASE: u64 = 0x0000_2000_0000_0000;

/// The user-mode self-test's code page.
pub const USERMODE_TEST_CODE: u64 = 0x0000_5555_5555_0000;

/// The user-mode self-test's stack page.
pub const USERMODE_TEST_STACK: u64 = 0x0000_6666_6666_0000;

/// One past the highest byte of a user stack.
pub const USER_STACK_TOP: u64 = 0x0000_7fff_f000_0000;

/// Pages in a user stack.
pub const USER_STACK_PAGES: u64 = 16;

/// The lowest mapped byte of a user stack.
pub const USER_STACK_BOTTOM: u64 = 0x0000_7fff_efff_0000;

/// The page below the stack that is never mapped.
pub const USER_STACK_GUARD: u64 = 0x0000_7fff_effe_f000;

/// Start of the kernel heap.
pub const KERNEL_HEAP_START: u64 = 0xffff_c000_0000_0000;

/// Bytes in the kernel heap.
pub const KERNEL_HEAP_SIZE: usize = 16 * 1024 * 1024;

/// An address only the kernel may touch, for programs that probe it.
pub const KERNEL_PROBE_ADDRESS: u64 = KERNEL_HEAP_START;

/// Bytes in a page.
pub const PAGE_SIZE: u64 = 4096;

/// Whether `addr` is one a user program may name.
pub fn is_user_address(addr: u64) -> (r: bool)
    ensures
        r == (addr < USER_SPACE_END),
{
    addr < USER_SPACE_END
}

/// The stack's bounds and guard page are where its size puts them, and
/// all of it is user space.
pub proof fn law_stack_layout()
    ensures
        USER_STACK_BOTTOM + USER_STACK_PAGES * PAGE_SIZE == USER_STACK_TOP,
        USER_STACK_GUARD + PAGE_SIZE == USER_STACK_BOTTOM,
        USER_STACK_TOP <= USER_SPACE_END,
{
}

/// Every user range lies below every kernel range.
pub proof fn law_halves_are_apart(user: u64, kernel: u64)
    requires
        user < USER_SPACE_END,
        kernel >= HIGHER_HALF_START,
    ensures
        user < kernel,
        HIGHER_HALF_START <= KERNEL_HEAP_START,
{
}

} // verus!
