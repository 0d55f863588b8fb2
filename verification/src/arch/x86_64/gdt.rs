//! Segments: the order of the descriptor table, and what it makes of the
//! selectors.
use vstd::prelude::*;

verus! {

/// Which entry of the interrupt stack table the double fault handler uses.
pub const DOUBLE_FAULT_IST_INDEX: u16 = 0;

/// Positions in the descriptor table. The first is never used, and the
/// task state segment takes two.
pub const KERNEL_CODE_INDEX: u16 = 1;

pub const KERNEL_DATA_INDEX: u16 = 2;

pub const TSS_INDEX: u16 = 3;

pub const USER_DATA_INDEX: u16 = 5;

pub const USER_CODE_INDEX: u16 = 6;

/// Bytes in the double fault stack, and in the stack that the first
/// transitions out of user mode use.
pub const STACK_SIZE: usize = 4096 * 5;

/// The selector for the descriptor at `index`, requested with privilege
/// level `ring`.
pub open spec fn selector(index: u16, ring: u16) -> int {
    8 * index + ring
}

/// The code segment user programs run in.
pub fn user_code_selector() -> (s: u16)
    ensures
        s == selector(USER_CODE_INDEX, 3),
{
    8 * USER_CODE_INDEX + 3
}

/// The data segment user programs run with.
pub fn user_data_selector() -> (s: u16)
    ensures
        s == selector(USER_DATA_INDEX, 3),
{
    8 * USER_DATA_INDEX + 3
}

/// Whether a stack of that size keeps the alignment of its bottom at its
/// top, as calls require.
pub fn stack_size_is_aligned(size: usize) -> (r: bool)
    ensures
        r == (size % 16 == 0),
{
    size % 16 == 0
}

/// A selector has the index of its descriptor above three bits, the lower two
/// of which are the ring.
pub proof fn law_selectors_hold_index_and_ring(index: u16, ring: u16)
    requires
        ring < 4,
    ensures
        selector(index, ring) / 8 == index,
        selector(index, ring) % 4 == ring,
        selector(index, ring) % 8 < 4,
        selector(6, 3) == 0x33,
        selector(5, 3) == 0x2b,
{
}

} // verus!
