//! Kernel task stacks, each with a guard page beneath it.
//!
//! Each slot of the stack region is one page that is never mapped and,
//! above it, the stack. Overflow runs off the bottom into the guard page
//! and faults instead of corrupting whatever lies below.
use vstd::prelude::*;
use crate::mm::paging::{PageFlags, PAGE_SIZE};

verus! {

/// Where the stacks live.
#[derive(Debug, Clone, Copy, PartialEq, Eq, Structural)]
pub struct StackRegion {
    /// The first byte of the first slot.
    pub area: u64,
    /// Bytes from one slot to the next.
    pub slot: u64,
    /// Bytes of mapped stack in a slot.
    pub size: u64,
    /// How many slots there are.
    pub slots: u64,
}

impl StackRegion {
    /// Slots are page-aligned, hold the guard page and the stack, and fit
    /// in the address space.
    pub open spec fn wf(&self) -> bool {
        &&& self.area % 4096 == 0
        &&& self.slot % 4096 == 0
        &&& self.size % 4096 == 0
        &&& self.size + 4096 <= self.slot
        &&& self.area + self.slots * self.slot <= u64::MAX
    }

    /// The stack in slot `i`.
    pub open spec fn stack(&self, i: u64) -> KernelStack {
        KernelStack {
            slot: i,
            bottom: (self.area + i * self.slot + 4096) as u64,
            top: (self.area + i * self.slot + 4096 + self.size) as u64,
        }
    }
}

/// One allocated kernel stack.
#[derive(Debug, Clone, Copy, PartialEq, Eq, Structural)]
pub struct KernelStack {
    pub slot: u64,
    /// Lowest mapped address. The guard page sits immediately below this.
    pub bottom: u64,
    /// One past the highest mapped byte: the initial stack pointer.
    pub top: u64,
}

impl KernelStack {
    /// The unmapped page below this stack.
    pub fn guard_page(&self) -> (page: u64)
        requires
            self.bottom >= 4096,
        ensures
            page == self.bottom - 4096,
    {
        self.bottom - PAGE_SIZE
    }
}

/// The slots in use and free.
#[derive(Debug)]
pub struct Allocator {
    region: StackRegion,
    /// The next never-yet-used slot.
    next_slot: u64,
    /// Slots whose tasks have exited, reused last in first out.
    free_slots: Vec<u64>,
}

impl Allocator {
    pub closed spec fn region(&self) -> StackRegion {
        self.region
    }

    pub closed spec fn next_slot(&self) -> u64 {
        self.next_slot
    }

    pub closed spec fn free(&self) -> Seq<u64> {
        self.free_slots@
    }

    /// A slot that was handed out and not given back.
    pub open spec fn is_live(&self, slot: u64) -> bool {
        slot < self.next_slot() && !self.free().contains(slot)
    }

    /// Free slots were handed out before, and none is free twice.
    pub open spec fn wf(&self) -> bool {
        &&& self.region().wf()
        &&& self.next_slot() <= self.region().slots
        &&& self.free().no_duplicates()
        &&& forall|i: int|
            0 <= i < self.free().len() ==> #[trigger] self.free()[i] < self.next_slot()
    }

    /// An allocator over `region` with every slot unused.
    pub fn new(region: StackRegion) -> (r: Allocator)
        requires
            region.wf(),
        ensures
            r.wf(),
            r.region() == region,
            r.next_slot() == 0,
            r.free() == Seq::<u64>::empty(),
    {
        Allocator { region, next_slot: 0, free_slots: Vec::new() }
    }
}

/// A stack, and whether its pages still have to be mapped.
#[derive(Debug, Clone, Copy, PartialEq, Eq, Structural)]
pub struct Allocation {
    pub stack: KernelStack,
    /// Pages to map from `stack.bottom` on. A reused slot is mapped
    /// already.
    pub pages: u64,
}

/// Takes a slot for a new stack: the one given back last, or else the next
/// unused one. `None` when the region is exhausted.
pub fn allocate(allocator: &mut Allocator) -> (r: Option<Allocation>)
    requires
        old(allocator).wf(),
    ensures
        final(allocator).wf(),
        final(allocator).region() == old(allocator).region(),
        if old(allocator).free().len() > 0 {
            let slot = old(allocator).free().last();
            &&& r == Some(
                Allocation { stack: old(allocator).region().stack(slot), pages: 0 },
            )
            &&& final(allocator).free() == old(allocator).free().drop_last()
            &&& final(allocator).next_slot() == old(allocator).next_slot()
        } else if old(allocator).next_slot() < old(allocator).region().slots {
            &&& r == Some(
                Allocation {
                    stack: old(allocator).region().stack(old(allocator).next_slot()),
                    pages: (old(allocator).region().size / 4096) as u64,
                },
            )
            &&& final(allocator).free() == old(allocator).free()
            &&& final(allocator).next_slot() == old(allocator).next_slot() + 1
        } else {
            &&& r is None
            &&& final(allocator).free() == old(allocator).free()
            &&& final(allocator).next_slot() == old(allocator).next_slot()
        },
        r matches Some(a) ==> !old(allocator).is_live(a.stack.slot) && final(allocator).is_live(
            a.stack.slot,
        ),
{
    let region: StackRegion = allocator.region;
    match allocator.free_slots.pop() {
        Some(slot) => {
            proof {
                let before = old(allocator).free();
                assert(before[before.len() - 1] == slot);
                assert(allocator.free() =~= before.drop_last());
                assert forall|i: int| 0 <= i < allocator.free().len() implies allocator.free()[i]
                    != slot by {
                    assert(allocator.free()[i] == before[i]);
                }
            }
            Some(Allocation { stack: stack_in_slot(&region, slot), pages: 0 })
        },
        None => {
            if allocator.next_slot < region.slots {
                let slot: u64 = allocator.next_slot;
                allocator.next_slot += 1;
                proof {
                    assert(allocator.free() =~= old(allocator).free());
                }
                Some(
                    Allocation {
                        stack: stack_in_slot(&region, slot),
                        pages: region.size / PAGE_SIZE,
                    },
                )
            } else {
                None
            }
        },
    }
}

fn stack_in_slot(region: &StackRegion, slot: u64) -> (stack: KernelStack)
    requires
        region.wf(),
        slot < region.slots,
    ensures
        stack == region.stack(slot),
{
    proof {
        lemma_slot_fits(*region, slot);
    }
    let bottom: u64 = region.area + slot * region.slot + PAGE_SIZE;
    KernelStack { slot, bottom, top: bottom + region.size }
}

proof fn lemma_slot_fits(region: StackRegion, slot: u64)
    requires
        region.wf(),
        slot < region.slots,
    ensures
        0 <= slot * region.slot,
        region.area + slot * region.slot + 4096 + region.size <= region.area + (slot + 1)
            * region.slot,
        region.area + (slot + 1) * region.slot <= u64::MAX,
{
    let w = region.slot as int;
    assert((slot + 1) * w == slot * w + w) by (nonlinear_arith);
    assert((slot + 1) * w <= region.slots * w) by (nonlinear_arith)
        requires
            slot + 1 <= region.slots,
            w >= 0,
    ;
    assert(0 <= slot * w) by (nonlinear_arith)
        requires
            slot >= 0,
            w >= 0,
    ;
}

/// Page permissions for a kernel stack: writable, and never executable
/// where the processor can express that.
pub fn stack_flags(nx_available: bool) -> (flags: PageFlags)
    ensures
        flags == (PageFlags {
            writable: true,
            user_accessible: false,
            no_execute: nx_available,
        }),
{
    PageFlags { writable: true, user_accessible: false, no_execute: nx_available }
}

/// Returns a stack's slot for reuse. The mapping stays.
pub fn release(allocator: &mut Allocator, stack: KernelStack)
    ensures
        final(allocator).region() == old(allocator).region(),
        final(allocator).next_slot() == old(allocator).next_slot(),
        final(allocator).free() == old(allocator).free().push(stack.slot),
        old(allocator).wf() && old(allocator).is_live(stack.slot) ==> final(allocator).wf(),
{
    allocator.free_slots.push(stack.slot);
}

/// Slots in use, slots ever used, and capacity.
pub fn stats(allocator: &Allocator) -> (r: (u64, u64, u64))
    requires
        allocator.wf(),
    ensures
        r.0 == allocator.next_slot() - allocator.free().len(),
        r.1 == allocator.next_slot(),
        r.2 == allocator.region().slots,
{
    proof {
        lemma_distinct_below(allocator.free(), allocator.next_slot());
    }
    (
        allocator.next_slot - allocator.free_slots.len() as u64,
        allocator.next_slot,
        allocator.region.slots,
    )
}

/// Distinct numbers below `n` are at most `n` many.
proof fn lemma_distinct_below(s: Seq<u64>, n: u64)
    requires
        s.no_duplicates(),
        forall|i: int| 0 <= i < s.len() ==> #[trigger] s[i] < n,
    ensures
        s.len() <= n,
{
    let ints = s.map_values(|x: u64| x as int);
    assert(ints.no_duplicates()) by {
        assert forall|i: int, j: int| 0 <= i < ints.len() && 0 <= j < ints.len() && i != j implies ints[i]
            != ints[j] by {
            assert(s[i] != s[j]);
        }
    }
    ints.unique_seq_to_set();
    let all = vstd::set_lib::set_int_range(0, n as int);
    vstd::set_lib::lemma_int_range(0, n as int);
    assert(ints.to_set().subset_of(all)) by {
        assert forall|x: int| ints.to_set().contains(x) implies all.contains(x) by {
            let i = ints.index_of(x);
            assert(ints[i] == s[i] as int);
        }
    }
    vstd::set_lib::lemma_len_subset(ints.to_set(), all);
}

/// Whether the guard page below a stack is unmapped, given what the page
/// tables translate it to.
pub fn guard_page_is_unmapped(translated: Option<u64>) -> (r: bool)
    ensures
        r == translated.is_none(),
{
    translated.is_none()
}

/// Stacks in different slots share no byte, guard pages included, and a
/// stack's initial pointer is aligned as a call needs it.
pub proof fn law_stacks_are_apart(region: StackRegion, i: u64, j: u64)
    requires
        region.wf(),
        i < j < region.slots,
    ensures
        region.stack(i).top <= region.stack(j).bottom - 4096,
        region.stack(i).top == region.stack(i).bottom + region.size,
        region.stack(i).top % 16 == 0,
        region.stack(i).bottom >= 4096,
{
    lemma_slot_fits(region, i);
    lemma_slot_fits(region, j);
    let w = region.slot as int;
    assert((i + 1) * w <= j * w) by (nonlinear_arith)
        requires
            i + 1 <= j,
            w >= 0,
    ;
    assert((i * w) % 4096 == 0) by (nonlinear_arith)
        requires
            w % 4096 == 0,
            w >= 0,
            i >= 0,
    {
        let q = w / 4096;
        assert(w == 4096 * q);
        assert(i * w == 4096 * (i * q));
    }
}

/// Where a stack is: slots follow each other from the start of the region,
/// and in each the page at the bottom guards the stack above it.
pub proof fn law_stacks_are_in_their_slots(region: StackRegion, i: u64)
    requires
        region.wf(),
        i < region.slots,
    ensures
        region.stack(i).slot == i,
        region.stack(i).bottom == region.area + i * region.slot + 4096,
        region.stack(i).top == region.area + i * region.slot + 4096 + region.size,
        region.stack(i).top <= region.area + (i + 1) * region.slot,
{
    assert(i * region.slot + region.slot <= region.slots * region.slot) by (nonlinear_arith)
        requires
            i + 1 <= region.slots,
            0 <= region.slot,
    ;
    assert((i + 1) * region.slot == i * region.slot + region.slot) by (nonlinear_arith);
    assert(0 <= i * region.slot) by (nonlinear_arith)
        requires
            0 <= i,
            0 <= region.slot,
    ;
}

} // verus!
