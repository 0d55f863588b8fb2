//! Physical memory: which user ranges may be touched, and the allocator
//! that hands out frames from the boot memory map.
use vstd::prelude::*;
use crate::abi::layout::{is_user_address, USER_SPACE_END};
use crate::bytes::{self, fill_zero};
use crate::mm::address_space;
use crate::mm::frame_pool::{acquire, FramePool};
use crate::mm::paging::{
    self, frame_containing, page_is_user_accessible, read_entry, translate_in, PAGE_SIZE, PRESENT,
};

verus! {

/// Whether every byte of `start..start + len` is user memory: below the
/// end of user space, mapped, and marked user-accessible at every level.
pub open spec fn user_range_is_mapped(mem: Seq<u8>, root: int, start: u64, len: u64) -> bool {
    len == 0 || ({
        &&& start + len <= USER_SPACE_END
        &&& forall|a: int|
            start <= a < start + len ==> paging::page_is_user(
                mem,
                root,
                #[trigger] paging::page_base(a) as u64,
            )
    })
}

/// Whether every byte of `start..start + len` is mapped and marked
/// user-accessible in the page tables rooted at `root`. An empty range
/// trivially is; a range that wraps, or that reaches past user space, is
/// not, whatever the tables say.
pub fn user_range_is_accessible(mem: &[u8], root: u64, start: u64, len: u64) -> (r: bool)
    requires
        root <= 0x10_0000_0000_0000,
    ensures
        r == user_range_is_mapped(mem@, root as int, start, len),
{
    if len == 0 {
        return true;
    }
    let last: u64 = match start.checked_add(len - 1) {
        Some(last) => last,
        None => {
            return false;
        },
    };
    if !is_user_address(start) || !is_user_address(last) {
        return false;
    }
    let mut page: u64 = start - start % PAGE_SIZE;
    let last_page: u64 = last - last % PAGE_SIZE;
    loop
        invariant
            len > 0,
            last == start + len - 1,
            last < USER_SPACE_END,
            root <= 0x10_0000_0000_0000,
            page % 4096 == 0,
            paging::page_base(start as int) <= page <= last_page,
            last_page == paging::page_base(last as int),
            forall|a: int|
                start <= a < page ==> paging::page_is_user(
                    mem@,
                    root as int,
                    #[trigger] paging::page_base(a) as u64,
                ),
        decreases last_page - page,
    {
        if !page_is_user_accessible(mem, root, page) {
            proof {
                let a = if page >= start {
                    page as int
                } else {
                    start as int
                };
                assert(paging::page_base(a) == page);
            }
            return false;
        }
        if page == last_page {
            assert forall|a: int| start <= a < start + len implies paging::page_is_user(
                mem@,
                root as int,
                #[trigger] paging::page_base(a) as u64,
            ) by {
                if a >= page {
                    assert(paging::page_base(a) == page);
                }
            }
            return true;
        }
        assert forall|a: int| start <= a < page + 4096 implies paging::page_is_user(
            mem@,
            root as int,
            #[trigger] paging::page_base(a) as u64,
        ) by {
            if a >= page {
                assert(paging::page_base(a) == page);
            }
        }
        page += PAGE_SIZE;
    }
}

/// An accepted range is user memory throughout: no byte of it can belong
/// to the kernel's half.
pub proof fn law_accepted_range_is_user_space(mem: Seq<u8>, root: int, start: u64, len: u64, a: int)
    requires
        user_range_is_mapped(mem, root, start, len),
        start <= a < start + len,
    ensures
        a < USER_SPACE_END,
        paging::page_is_user(mem, root, paging::page_base(a) as u64),
{
}

/// Accepting a range accepts every part of it.
pub proof fn law_accepted_range_is_monotone(
    mem: Seq<u8>,
    root: int,
    start: u64,
    len: u64,
    inner: u64,
    inner_len: u64,
)
    requires
        user_range_is_mapped(mem, root, start, len),
        start <= inner,
        inner + inner_len <= start + len,
    ensures
        user_range_is_mapped(mem, root, inner, inner_len),
{
}

// ---------------------------------------------------------------------
// Copying from and to user memory
// ---------------------------------------------------------------------

/// The most that is copied for a program at once, since the buffer for it
/// has a length that the program chose.
pub const MAX_USER_TRANSFER: usize = 1024 * 1024;

/// The `len` bytes from virtual address `addr` on, page by page, or `None`
/// if one of them has no memory behind it.
pub open spec fn read_through(mem: Seq<u8>, root: int, addr: int, len: int) -> Option<Seq<u8>>
    decreases len,
{
    if len <= 0 {
        Some(Seq::empty())
    } else {
        let chunk = address_space::chunk_len(addr, len);
        match paging::translation(mem, root, addr as u64) {
            None => None,
            Some(frame) => if frame + 4096 > mem.len() {
                None
            } else {
                match read_through(mem, root, addr + chunk, len - chunk) {
                    None => None,
                    Some(rest) => Some(
                        mem.subrange(frame + addr % 4096, frame + addr % 4096 + chunk) + rest,
                    ),
                }
            },
        }
    }
}

/// What a program's range holds, if it is the program's.
pub open spec fn user_bytes(mem: Seq<u8>, root: int, ptr: u64, len: u64) -> Option<Seq<u8>> {
    if user_range_is_mapped(mem, root, ptr, len) {
        read_through(mem, root, ptr as int, len as int)
    } else {
        None
    }
}

/// As many bytes are read as were asked for.
pub proof fn lemma_read_through_len(mem: Seq<u8>, root: int, addr: int, len: int)
    requires
        root >= 0,
        len >= 0,
        addr >= 0,
    ensures
        read_through(mem, root, addr, len) matches Some(bytes) ==> bytes.len() == len,
    decreases len,
{
    if len > 0 {
        let chunk = address_space::chunk_len(addr, len);
        lemma_read_through_len(mem, root, addr + chunk, len - chunk);
        if let Some(frame) = paging::translation(mem, root, addr as u64) {
            paging::lemma_walk_aligned(mem, root, addr as u64 as int, 4);
        }
    }
}

/// Whether two memories look the same to the program whose tables are
/// rooted at `root`: they agree on the tables themselves, and on every byte
/// that the tables let the program reach.
pub open spec fn program_sees_the_same(a: Seq<u8>, b: Seq<u8>, root: int) -> bool {
    &&& a.len() == b.len()
    &&& forall|addr: int, pos: int|
        0 <= addr < USER_SPACE_END && 0 <= pos < a.len() && #[trigger] paging::walk_reads(
            a,
            root,
            addr,
            4,
            pos,
        ) ==> a[pos] == b[pos]
    &&& forall|addr: int|
        0 <= addr < USER_SPACE_END && paging::page_is_user(
            a,
            root,
            paging::page_base(addr) as u64,
        ) ==> (#[trigger] paging::translation(a, root, addr as u64) matches Some(frame) ==> frame
            + addr % 4096 < a.len() ==> a[frame + addr % 4096] == b[frame + addr % 4096])
}

proof fn lemma_same_tables(a: Seq<u8>, b: Seq<u8>, root: int, addr: int)
    requires
        program_sees_the_same(a, b, root),
        root >= 0,
        0 <= addr < USER_SPACE_END,
    ensures
        paging::translation(a, root, addr as u64) == paging::translation(b, root, addr as u64),
        paging::page_is_user(a, root, addr as u64) == paging::page_is_user(b, root, addr as u64),
{
    paging::lemma_walk_depends_on_reads(a, b, root, addr, 4);
}

/// Within one page that the program may reach, both memories hold the same.
proof fn lemma_same_chunk(a: Seq<u8>, b: Seq<u8>, root: int, addr: int, chunk: int, frame: int)
    requires
        program_sees_the_same(a, b, root),
        root >= 0,
        0 <= addr,
        0 <= chunk,
        addr + chunk <= USER_SPACE_END,
        addr % 4096 + chunk <= 4096,
        paging::page_is_user(a, root, paging::page_base(addr) as u64),
        paging::translation(a, root, addr as u64) == Some(frame),
        0 <= frame,
        frame + 4096 <= a.len(),
    ensures
        a.subrange(frame + addr % 4096, frame + addr % 4096 + chunk) == b.subrange(
            frame + addr % 4096,
            frame + addr % 4096 + chunk,
        ),
{
    let from = frame + addr % 4096;
    assert forall|k: int| 0 <= k < chunk implies a[from + k] == #[trigger] b[from + k] by {
        let x = addr + k;
        assert(x % 4096 == addr % 4096 + k);
        assert(paging::page_base(x) == paging::page_base(addr));
        assert(paging::translation(a, root, x as u64) == Some(frame)) by {
            paging::lemma_walk_same_page(a, root, addr, x, 4);
        }
    }
    assert(a.subrange(from, from + chunk) =~= b.subrange(from, from + chunk)) by {
        assert forall|k: int| 0 <= k < chunk implies #[trigger] a.subrange(from, from + chunk)[k]
            == b.subrange(from, from + chunk)[k] by {
            assert(a[from + k] == b[from + k]);
        }
    }
}

proof fn lemma_same_reading(a: Seq<u8>, b: Seq<u8>, root: int, addr: int, len: int)
    requires
        program_sees_the_same(a, b, root),
        root >= 0,
        0 <= addr,
        0 < len ==> addr + len <= USER_SPACE_END,
        forall|x: int|
            addr <= x < addr + len ==> paging::page_is_user(
                a,
                root,
                #[trigger] paging::page_base(x) as u64,
            ),
    ensures
        read_through(a, root, addr, len) == read_through(b, root, addr, len),
    decreases len,
{
    if len > 0 {
        let chunk = address_space::chunk_len(addr, len);
        lemma_same_tables(a, b, root, addr);
        lemma_same_reading(a, b, root, addr + chunk, len - chunk);
        paging::lemma_walk_aligned(a, root, addr, 4);
        if let Some(frame) = paging::translation(a, root, addr as u64) {
            if frame + 4096 <= a.len() {
                assert(paging::page_is_user(a, root, paging::page_base(addr) as u64));
                lemma_same_chunk(a, b, root, addr, chunk, frame);
            }
        }
    }
}

/// Copying from a program's memory reads nothing but that: whatever else
/// memory holds, the same is copied, and the same ranges are refused.
pub proof fn law_copies_show_only_user_memory(
    a: Seq<u8>,
    b: Seq<u8>,
    root: int,
    ptr: u64,
    len: u64,
)
    requires
        program_sees_the_same(a, b, root),
        root >= 0,
    ensures
        user_bytes(a, root, ptr, len) == user_bytes(b, root, ptr, len),
{
    if len > 0 && ptr + len <= USER_SPACE_END {
        assert forall|x: int| ptr <= x < ptr + len implies paging::page_is_user(
            a,
            root,
            #[trigger] paging::page_base(x) as u64,
        ) == paging::page_is_user(b, root, paging::page_base(x) as u64) by {
            lemma_same_tables(a, b, root, paging::page_base(x));
        }
        if user_range_is_mapped(a, root, ptr, len) {
            lemma_same_reading(a, b, root, ptr as int, len as int);
        } else {
            let x = choose|x: int|
                ptr <= x < ptr + len && !paging::page_is_user(
                    a,
                    root,
                    #[trigger] paging::page_base(x) as u64,
                );
            assert(!paging::page_is_user(b, root, paging::page_base(x) as u64));
        }
    }
}

/// As many bytes are read as were asked for.
pub proof fn lemma_user_bytes_len(mem: Seq<u8>, root: int, ptr: u64, len: u64)
    requires
        root >= 0,
    ensures
        user_bytes(mem, root, ptr, len) matches Some(bytes) ==> bytes.len() == len,
{
    lemma_read_through_len(mem, root, ptr as int, len as int);
}

/// Fills `dest` from a program's memory. Says whether the whole range was
/// the program's; if not, `dest` is as it was.
pub fn copy_from_user_into(mem: &[u8], root: u64, ptr: u64, dest: &mut Vec<u8>) -> (ok: bool)
    requires
        root <= 0x10_0000_0000_0000,
    ensures
        match user_bytes(mem@, root as int, ptr, old(dest)@.len() as u64) {
            Some(bytes) => ok && final(dest)@ == bytes,
            None => !ok && final(dest)@ == old(dest)@,
        },
{
    match copy_range(mem, root, ptr, dest.len() as u64) {
        Some(bytes) => {
            *dest = bytes;
            true
        },
        None => false,
    }
}

/// Appends `count` bytes of `mem` from `start` on.
fn append_bytes(out: &mut Vec<u8>, mem: &[u8], start: usize, count: usize)
    requires
        start + count <= mem@.len(),
    ensures
        final(out)@ == old(out)@ + mem@.subrange(start as int, start + count),
{
    let mut i: usize = 0;
    assert(out@ =~= old(out)@ + mem@.subrange(start as int, start as int));
    while i < count
        invariant
            i <= count,
            start + count <= mem@.len(),
            out@ == old(out)@ + mem@.subrange(start as int, start + i),
        decreases count - i,
    {
        assert(start + i < mem.len());
        out.push(mem[start + i]);
        i += 1;
        assert(out@ =~= old(out)@ + mem@.subrange(start as int, start + i));
    }
}

#[verifier::spinoff_prover]
#[verifier::rlimit(40)]
fn copy_range(mem: &[u8], root: u64, ptr: u64, len: u64) -> (r: Option<Vec<u8>>)
    requires
        root <= 0x10_0000_0000_0000,
    ensures
        match r {
            Some(bytes) => user_bytes(mem@, root as int, ptr, len) == Some(bytes@),
            None => user_bytes(mem@, root as int, ptr, len) is None,
        },
{
    let mut out: Vec<u8> = Vec::new();
    if !user_range_is_accessible(mem, root, ptr, len) {
        return None;
    }
    let mut done: u64 = 0;
    let ghost whole = user_bytes(mem@, root as int, ptr, len);
    assert(len > 0 ==> ptr + len <= USER_SPACE_END);
    assert(whole == read_through(mem@, root as int, ptr as int, len as int));
    assert(whole matches Some(bytes) ==> out@ + bytes =~= bytes);
    while done < len
        invariant
            root <= 0x10_0000_0000_0000,
            done <= len,
            len > 0 ==> ptr + len <= USER_SPACE_END,
            whole == user_bytes(mem@, root as int, ptr, len),
            match read_through(mem@, root as int, ptr + done, len - done) {
                Some(rest) => whole == Some(out@ + rest),
                None => whole is None,
            },
        decreases len - done,
    {
        let at: u64 = ptr + done;
        let within: u64 = at % 4096;
        let left: u64 = len - done;
        let chunk: u64 = if 4096 - within <= left {
            4096 - within
        } else {
            left
        };
        assert(chunk == address_space::chunk_len(at as int, left as int));
        let frame: u64 = match translate_in(mem, root, at) {
            Some(frame) => frame,
            None => {
                return None;
            },
        };
        let limit: u64 = mem.len() as u64;
        if limit < 4096 || frame > limit - 4096 {
            return None;
        }
        let ghost before = out@;
        append_bytes(&mut out, mem, (frame + within) as usize, chunk as usize);
        proof {
            let piece = mem@.subrange(frame + within, frame + within + chunk);
            if let Some(tail) = read_through(mem@, root as int, at + chunk, left - chunk) {
                assert(before + (piece + tail) =~= out@ + tail);
            }
        }
        done += chunk;
    }
    assert(out@ + Seq::<u8>::empty() =~= out@);
    Some(out)
}

/// Copies a range out of a program's memory, if all of it is the program's
/// and it is not too much.
pub fn copy_from_user(mem: &[u8], root: u64, ptr: u64, len: u64) -> (r: Option<Vec<u8>>)
    requires
        root <= 0x10_0000_0000_0000,
    ensures
        match r {
            Some(bytes) => len <= MAX_USER_TRANSFER && user_bytes(mem@, root as int, ptr, len)
                == Some(bytes@),
            None => len > MAX_USER_TRANSFER || user_bytes(mem@, root as int, ptr, len) is None,
        },
{
    if len > MAX_USER_TRANSFER as u64 {
        return None;
    }
    copy_range(mem, root, ptr, len)
}

/// What copying `data` into a program's memory comes to: the memory that
/// results, and whether all of it was copied.
pub open spec fn user_write(mem: Seq<u8>, root: int, ptr: u64, data: Seq<u8>) -> (Seq<u8>, bool) {
    if address_space::range_permits(mem, root, ptr, data.len() as u64, true) {
        let (after, fault) = address_space::write_through(mem, root, ptr as int, data);
        (after, fault is None)
    } else {
        (mem, false)
    }
}

/// Copies `data` into a program's memory, if the whole range is one the
/// program itself may write. Returns how many bytes were copied.
pub fn copy_to_user(mem: &mut [u8], root: u64, ptr: u64, data: &[u8]) -> (r: Option<usize>)
    requires
        root <= 0x10_0000_0000_0000,
    ensures
        final(mem)@ == user_write(old(mem)@, root as int, ptr, data@).0,
        r == (if user_write(old(mem)@, root as int, ptr, data@).1 {
            Some(data@.len() as usize)
        } else {
            None
        }),
{
    let len: usize = data.len();
    if !address_space::range_is_accessible_in(root, mem, ptr, len as u64, true) {
        return None;
    }
    if len == 0 {
        return Some(0);
    }
    match address_space::write_in(root, mem, ptr, data) {
        Ok(()) => Some(len),
        Err(_) => None,
    }
}

/// Nothing is written for a program where it could not have written
/// itself: a copy to a range it may not write leaves memory as it was.
pub proof fn law_refused_copy_changes_nothing(mem: Seq<u8>, root: int, ptr: u64, data: Seq<u8>)
    requires
        !address_space::range_permits(mem, root, ptr, data.len() as u64, true),
    ensures
        user_write(mem, root, ptr, data) == (mem, false),
{
}

/// What is copied to a program is what it finds: in a range of ordinary
/// memory that the program may write, a copy succeeds and changes exactly
/// the bytes behind that range.
pub proof fn law_copied_bytes_arrive(mem: Seq<u8>, root: int, ptr: u64, data: Seq<u8>)
    requires
        root >= 0,
        data.len() <= u64::MAX,
        address_space::range_permits(mem, root, ptr, data.len() as u64, true),
        address_space::range_is_ordinary(mem, root, ptr as int, data.len() as int),
    ensures
        user_write(mem, root, ptr, data).1,
        forall|a: int|
            ptr <= a < ptr + data.len() ==> user_write(mem, root, ptr, data).0[
            #[trigger] address_space::backing(mem, root, a)] == data[a - ptr],
{
    address_space::law_write_then_read(mem, root, ptr as int, data);
}

/// What the boot memory map says of a region.
#[derive(Debug, Clone, Copy, PartialEq, Eq, Structural)]
pub enum MemoryRegionKind {
    /// Free for the kernel to use.
    Usable,
    /// In use, reserved, or unknown.
    Other,
}

/// One region of the boot memory map.
#[derive(Debug, Clone, Copy, PartialEq, Eq, Structural)]
pub struct MemoryRegion {
    pub start: u64,
    /// One past the last byte.
    pub end: u64,
    pub kind: MemoryRegionKind,
}

/// Physical addresses have at most 52 bits.
pub open spec fn regions_are_physical(regions: Seq<MemoryRegion>) -> bool {
    forall|i: int|
        0 <= i < regions.len() ==> (#[trigger] regions[i]).start < 0x10_0000_0000_0000
            && regions[i].end <= 0x10_0000_0000_0000
}

/// A boot map as the bootloader hands it over: regions start at a page
/// boundary, and no two usable ones overlap.
pub open spec fn regions_are_regular(regions: Seq<MemoryRegion>) -> bool {
    &&& forall|i: int| 0 <= i < regions.len() ==> (#[trigger] regions[i]).start % 4096 == 0
    &&& forall|i: int, j: int|
        0 <= i < j < regions.len() && (#[trigger] regions[i]).kind is Usable && (
        #[trigger] regions[j]).kind is Usable ==> regions[i].end <= regions[j].start
            || regions[j].end <= regions[i].start
}

/// The first usable region at or after `i`.
pub open spec fn usable_from(regions: Seq<MemoryRegion>, i: int) -> int
    decreases regions.len() - i,
{
    if i >= regions.len() || i < 0 {
        i
    } else if regions[i].kind is Usable {
        i
    } else {
        usable_from(regions, i + 1)
    }
}

/// Where the next frame comes from, with the cursor at address `next` of
/// region `i`: the region and the address.
pub open spec fn next_allocation(regions: Seq<MemoryRegion>, i: int, next: int) -> Option<
    (int, int),
>
    decreases regions.len() - i,
{
    if i >= regions.len() || i < 0 {
        None
    } else if regions[i].kind is Usable && next + 4096 <= regions[i].end {
        Some((i, next))
    } else {
        let j = usable_from(regions, i + 1);
        if j <= i || j >= regions.len() {
            None
        } else {
            next_allocation(regions, j, regions[j].start as int)
        }
    }
}

/// Hands out unused physical frames from the boot memory map: a cursor
/// that only moves forward.
#[derive(Debug)]
pub struct BootInfoFrameAllocator {
    memory_regions: Vec<MemoryRegion>,
    /// Which region the next frame will come from.
    region_index: usize,
    /// The next address to hand out within that region.
    next_addr: u64,
}

impl BootInfoFrameAllocator {
    pub closed spec fn regions(&self) -> Seq<MemoryRegion> {
        self.memory_regions@
    }

    pub closed spec fn index(&self) -> int {
        self.region_index as int
    }

    pub closed spec fn next(&self) -> int {
        self.next_addr as int
    }

    /// The map is of physical memory and the cursor is inside it.
    pub open spec fn wf(&self) -> bool {
        &&& regions_are_physical(self.regions())
        &&& 0 <= self.index() <= self.regions().len()
        &&& 0 <= self.next() <= 0x10_0000_0000_0000
    }

    /// An allocator at the start of `memory_regions`.
    pub fn init(memory_regions: Vec<MemoryRegion>) -> (allocator: BootInfoFrameAllocator)
        requires
            regions_are_physical(memory_regions@),
        ensures
            allocator.wf(),
            allocator.regions() == memory_regions@,
            allocator.index() == usable_from(memory_regions@, 0),
            allocator.next() == (if allocator.index() < memory_regions@.len() {
                memory_regions@[allocator.index()].start as int
            } else {
                0
            }),
    {
        let mut allocator = BootInfoFrameAllocator {
            memory_regions,
            region_index: 0,
            next_addr: 0,
        };
        allocator.skip_to_usable_region();
        allocator
    }

    /// Moves the cursor to the start of the next usable region, from where
    /// it is, or past the end of the map.
    fn skip_to_usable_region(&mut self)
        requires
            old(self).wf(),
        ensures
            final(self).wf(),
            final(self).regions() == old(self).regions(),
            old(self).index() <= final(self).index(),
            final(self).index() == usable_from(old(self).regions(), old(self).index()),
            final(self).next() == (if final(self).index() < old(self).regions().len() {
                old(self).regions()[final(self).index()].start as int
            } else {
                old(self).next()
            }),
    {
        while self.region_index < self.memory_regions.len()
            invariant
                self.wf(),
                self.regions() == old(self).regions(),
                self.next() == old(self).next(),
                old(self).index() <= self.index() <= self.regions().len(),
                usable_from(old(self).regions(), old(self).index()) == usable_from(
                    old(self).regions(),
                    self.index(),
                ),
            decreases self.memory_regions.len() - self.region_index,
        {
            let region: MemoryRegion = self.memory_regions[self.region_index];
            if region.kind == MemoryRegionKind::Usable {
                self.next_addr = region.start;
                return;
            }
            self.region_index += 1;
        }
    }

    /// The next frame, or `None` once the map is exhausted.
    pub fn allocate_frame(&mut self) -> (frame: Option<u64>)
        requires
            old(self).wf(),
        ensures
            final(self).wf(),
            final(self).regions() == old(self).regions(),
            match next_allocation(old(self).regions(), old(self).index(), old(self).next()) {
                Some((i, addr)) => frame == Some(paging::page_base(addr) as u64) && final(self).index()
                    == i && final(self).next() == addr + 4096,
                None => frame is None && final(self).index() == old(self).regions().len(),
            },
    {
        loop
            invariant
                self.wf(),
                self.regions() == old(self).regions(),
                next_allocation(old(self).regions(), old(self).index(), old(self).next())
                    == next_allocation(self.regions(), self.index(), self.next()),
            decreases self.memory_regions.len() - self.region_index,
        {
            if self.region_index >= self.memory_regions.len() {
                return None;
            }
            let region: MemoryRegion = self.memory_regions[self.region_index];
            if region.kind != MemoryRegionKind::Usable || self.next_addr + PAGE_SIZE > region.end {
                self.region_index += 1;
                self.skip_to_usable_region();
                continue ;
            }
            let frame_addr: u64 = self.next_addr;
            self.next_addr += PAGE_SIZE;
            return Some(frame_containing(frame_addr));
        }
    }
}

/// Whether the frame at `frame` lies ahead of a cursor at address `next`
/// of region `i`.
pub open spec fn frame_is_ahead(
    regions: Seq<MemoryRegion>,
    i: int,
    next: int,
    frame: int,
) -> bool {
    frame % 4096 == 0 && exists|k: int|
        i <= k < regions.len() && (#[trigger] regions[k]).kind is Usable && frame + 4096
            <= regions[k].end && (if k == i {
            next <= frame
        } else {
            regions[k].start <= frame
        })
}

/// Takes a frame that was given back, or else a fresh one from the boot
/// map, so that reuse is automatic for every caller.
pub fn next_frame(pool: &mut FramePool, boot: &mut BootInfoFrameAllocator) -> (frame: Option<u64>)
    requires
        old(pool).wf(),
        old(boot).wf(),
    ensures
        final(pool).wf(),
        final(pool).released() == old(pool).released(),
        final(boot).wf(),
        final(boot).regions() == old(boot).regions(),
        old(pool)@.len() > 0 ==> *final(boot) == *old(boot) && frame == Some(old(pool)@.last())
            && final(pool)@ == old(pool)@.drop_last(),
        old(pool)@.len() == 0 ==> final(pool)@ == old(pool)@ && match next_allocation(
            old(boot).regions(),
            old(boot).index(),
            old(boot).next(),
        ) {
            Some((i, addr)) => frame == Some(paging::page_base(addr) as u64) && final(boot).index() == i
                && final(boot).next() == addr + 4096,
            None => frame is None && final(boot).index() == old(boot).regions().len(),
        },
{
    let reused = acquire(pool);
    match reused {
        Some(frame) => {
            assert(old(pool)@.last() == frame);
            assert(old(pool)@.drop_last() =~= pool@);
            Some(frame)
        },
        None => boot.allocate_frame(),
    }
}

/// On a regular boot map with the cursor on a page boundary, the next
/// frame is one that was still to come, it lies in a usable region, it
/// never comes again, and every other frame still does.
pub proof fn law_frames_are_handed_out_once(regions: Seq<MemoryRegion>, i: int, next: int)
    requires
        regions_are_physical(regions),
        regions_are_regular(regions),
        0 <= i <= regions.len(),
        i < regions.len() && regions[i].kind is Usable ==> regions[i].start <= next,
        next >= 0,
        next % 4096 == 0,
    ensures
        match next_allocation(regions, i, next) {
            Some((k, addr)) => {
                &&& i <= k < regions.len()
                &&& regions[k].kind is Usable
                &&& regions[k].start <= addr
                &&& addr + 4096 <= regions[k].end
                &&& addr % 4096 == 0
                &&& paging::page_base(addr) == addr
                &&& frame_is_ahead(regions, i, next, addr)
                &&& !frame_is_ahead(regions, k, addr + 4096, addr)
                &&& forall|f: int|
                    f != addr ==> (#[trigger] frame_is_ahead(regions, i, next, f)
                        == frame_is_ahead(regions, k, addr + 4096, f))
            },
            None => forall|f: int| !#[trigger] frame_is_ahead(regions, i, next, f),
        },
    decreases regions.len() - i,
{
    if i < regions.len() {
        if regions[i].kind is Usable && next + 4096 <= regions[i].end {
            assert forall|f: int| f != next implies (#[trigger] frame_is_ahead(regions, i, next, f)
                == frame_is_ahead(regions, i, next + 4096, f)) by {
                if frame_is_ahead(regions, i, next, f) {
                    let k = choose|k: int|
                        i <= k < regions.len() && (#[trigger] regions[k]).kind is Usable && f + 4096
                            <= regions[k].end && (if k == i {
                            next <= f
                        } else {
                            regions[k].start <= f
                        });
                    assert(regions[k].kind is Usable);
                }
                if frame_is_ahead(regions, i, next + 4096, f) {
                    let k = choose|k: int|
                        i <= k < regions.len() && (#[trigger] regions[k]).kind is Usable && f + 4096
                            <= regions[k].end && (if k == i {
                            next + 4096 <= f
                        } else {
                            regions[k].start <= f
                        });
                    assert(regions[k].kind is Usable);
                }
            }
            if frame_is_ahead(regions, i, next + 4096, next) {
                let k = choose|k: int|
                    i <= k < regions.len() && (#[trigger] regions[k]).kind is Usable && next + 4096
                        <= regions[k].end && (if k == i {
                        next + 4096 <= next
                    } else {
                        regions[k].start <= next
                    });
                assert(regions[i].kind is Usable && regions[k].kind is Usable);
                assert(regions[i].end <= regions[k].start || regions[k].end <= regions[i].start);
            }
            assert(frame_is_ahead(regions, i, next, next));
        } else {
            let j = usable_from(regions, i + 1);
            lemma_usable_from(regions, i + 1);
            assert forall|f: int|
                j < regions.len() implies #[trigger] frame_is_ahead(regions, i, next, f)
                == frame_is_ahead(regions, j, regions[j].start as int, f) by {
                if frame_is_ahead(regions, i, next, f) {
                    let k = choose|k: int|
                        i <= k < regions.len() && (#[trigger] regions[k]).kind is Usable && f + 4096
                            <= regions[k].end && (if k == i {
                            next <= f
                        } else {
                            regions[k].start <= f
                        });
                    assert(regions[k].kind is Usable);
                }
                if frame_is_ahead(regions, j, regions[j].start as int, f) {
                    let k = choose|k: int|
                        j <= k < regions.len() && (#[trigger] regions[k]).kind is Usable && f + 4096
                            <= regions[k].end && (if k == j {
                            regions[j].start <= f
                        } else {
                            regions[k].start <= f
                        });
                    assert(regions[k].kind is Usable);
                }
            }
            if j < regions.len() {
                assert(regions[j].start % 4096 == 0);
                law_frames_are_handed_out_once(regions, j, regions[j].start as int);
                if let Some((k, addr)) = next_allocation(regions, i, next) {
                    assert(frame_is_ahead(regions, i, next, addr) == frame_is_ahead(
                        regions,
                        j,
                        regions[j].start as int,
                        addr,
                    ));
                    assert forall|f: int| f != addr implies (#[trigger] frame_is_ahead(
                        regions,
                        i,
                        next,
                        f,
                    ) == frame_is_ahead(regions, k, addr + 4096, f)) by {
                        assert(frame_is_ahead(regions, i, next, f) == frame_is_ahead(
                            regions,
                            j,
                            regions[j].start as int,
                            f,
                        ));
                    }
                } else {
                    assert forall|f: int| !#[trigger] frame_is_ahead(regions, i, next, f) by {
                        assert(frame_is_ahead(regions, i, next, f) == frame_is_ahead(
                            regions,
                            j,
                            regions[j].start as int,
                            f,
                        ));
                    }
                }
            }
        }
    }
}

proof fn lemma_usable_from(regions: Seq<MemoryRegion>, i: int)
    requires
        0 <= i <= regions.len(),
    ensures
        i <= usable_from(regions, i) <= regions.len(),
        usable_from(regions, i) < regions.len() ==> regions[usable_from(regions, i)].kind is Usable,
        forall|k: int|
            i <= k < usable_from(regions, i) ==> !((#[trigger] regions[k]).kind is Usable),
    decreases regions.len() - i,
{
    if i < regions.len() && !(regions[i].kind is Usable) {
        lemma_usable_from(regions, i + 1);
    }
}

/// How many of the entries `from..to` of the table in `root` are present.
pub open spec fn present_entries(mem: Seq<u8>, root: int, from: int, to: int) -> int
    decreases to - from,
{
    if from >= to {
        0
    } else {
        present_entries(mem, root, from, to - 1) + (if entry_is_present(mem, root, to - 1) {
            1int
        } else {
            0
        })
    }
}

/// Whether entry `index` of the table in `root` is there and present.
pub open spec fn entry_is_present(mem: Seq<u8>, root: int, index: int) -> bool {
    paging::entry_at(mem, root, index) matches Some(entry) && entry & PRESENT != 0
}

fn count_present(mem: &[u8], root: u64, from: u64, to: u64) -> (count: usize)
    requires
        root <= 0x10_0000_0000_0000,
        from <= to <= 512,
    ensures
        count == present_entries(mem@, root as int, from as int, to as int),
        count <= to - from,
{
    let mut count: usize = 0;
    let mut index: u64 = from;
    while index < to
        invariant
            from <= index <= to <= 512,
            root <= 0x10_0000_0000_0000,
            count == present_entries(mem@, root as int, from as int, index as int),
            count <= index - from,
        decreases to - index,
    {
        if let Some(entry) = read_entry(mem, root, index) {
            if entry & PRESENT != 0 {
                count += 1;
            }
        }
        index += 1;
    }
    count
}

/// How many top-level entries are in use in the lower and in the higher
/// half.
pub fn pml4_entries_in_use(mem: &[u8], root: u64) -> (r: (usize, usize))
    requires
        root <= 0x10_0000_0000_0000,
    ensures
        r.0 == present_entries(mem@, root as int, 0, 256),
        r.1 == present_entries(mem@, root as int, 256, 512),
{
    (count_present(mem, root, 0, 256), count_present(mem, root, 256, 512))
}

/// A count of present entries is positive exactly when one is present.
pub proof fn lemma_present_entries(mem: Seq<u8>, root: int, from: int, to: int)
    ensures
        present_entries(mem, root, from, to) >= 0,
        present_entries(mem, root, from, to) > 0 <==> exists|i: int|
            from <= i < to && #[trigger] entry_is_present(mem, root, i),
    decreases to - from,
{
    if from < to {
        lemma_present_entries(mem, root, from, to - 1);
        if entry_is_present(mem, root, to - 1) {
            assert(from <= to - 1 < to);
        }
    }
}

/// Memory with the lower half of the table in `root` cleared.
pub open spec fn lower_half_cleared(mem: Seq<u8>, root: int) -> Seq<u8> {
    bytes::overwritten(mem, root, Seq::new(2048, |i: int| 0u8))
}

/// The present entries of the table in `root` below `to`, in order.
pub open spec fn present_indices(mem: Seq<u8>, root: int, to: int) -> Seq<u64>
    decreases to,
{
    if to <= 0 {
        Seq::empty()
    } else if entry_is_present(mem, root, to - 1) {
        present_indices(mem, root, to - 1).push((to - 1) as u64)
    } else {
        present_indices(mem, root, to - 1)
    }
}

/// Drops whatever is mapped in the lower half of the table in `root`, so
/// that nothing of it ends up in a process. Returns which entries were in
/// use.
pub fn clear_lower_half_mappings(mem: &mut [u8], root: u64) -> (cleared: Vec<u64>)
    requires
        root + 4096 <= old(mem)@.len(),
        root <= 0x10_0000_0000_0000,
    ensures
        cleared@ == present_indices(old(mem)@, root as int, 256),
        final(mem)@ == lower_half_cleared(old(mem)@, root as int),
{
    let mut cleared: Vec<u64> = Vec::new();
    let mut index: u64 = 0;
    while index < 256
        invariant
            index <= 256,
            root <= 0x10_0000_0000_0000,
            mem@ == old(mem)@,
            cleared@ == present_indices(mem@, root as int, index as int),
        decreases 256 - index,
    {
        if let Some(entry) = read_entry(mem, root, index) {
            if entry & PRESENT != 0 {
                cleared.push(index);
            }
        }
        index += 1;
    }
    assert(root + 4096 <= mem.len());
    fill_zero(mem, root as usize, 2048);
    assert(mem@ =~= lower_half_cleared(old(mem)@, root as int));
    cleared
}

/// Once the lower half is cleared nothing is mapped there, and what the
/// upper half maps is unchanged.
pub proof fn law_cleared_lower_half_is_empty(mem: Seq<u8>, root: int, index: int)
    requires
        root >= 0,
        root + 4096 <= mem.len(),
        0 <= index < 512,
    ensures
        index < 256 ==> !entry_is_present(lower_half_cleared(mem, root), root, index),
        index >= 256 ==> paging::entry_at(lower_half_cleared(mem, root), root, index)
            == paging::entry_at(mem, root, index),
{
    let after = lower_half_cleared(mem, root);
    let slot = root + 8 * index;
    if index < 256 {
        assert(forall|i: int| slot <= i < slot + 8 ==> after[i] == 0);
        assert(bytes::le64(after, slot) == 0);
        assert(0u64 & PRESENT == 0) by (bit_vector);
    } else {
        assert(forall|i: int| slot <= i < slot + 8 ==> #[trigger] after[i] == mem[i]);
        assert(bytes::le64(after, slot) == bytes::le64(mem, slot));
    }
}

proof fn lemma_read_through_bytes(mem: Seq<u8>, root: int, addr: int, len: int, k: int)
    requires
        root >= 0,
        addr >= 0,
        addr + len <= USER_SPACE_END,
        0 <= k < len,
    ensures
        read_through(mem, root, addr, len) matches Some(bytes) ==> {
            &&& bytes.len() == len
            &&& paging::translation(mem, root, (addr + k) as u64) is Some
            &&& bytes[k] == mem[paging::translation(mem, root, (addr + k) as u64).unwrap() + (addr
                + k) % 4096]
        },
    decreases len,
{
    if read_through(mem, root, addr, len) is Some {
        let chunk = address_space::chunk_len(addr, len);
        let frame = paging::translation(mem, root, addr as u64).unwrap();
        lemma_read_through_len(mem, root, addr + chunk, len - chunk);
        paging::lemma_walk_aligned(mem, root, addr, 4);
        let rest = read_through(mem, root, addr + chunk, len - chunk).unwrap();
        let from = frame + addr % 4096;
        let bytes = mem.subrange(from, from + chunk) + rest;
        assert(read_through(mem, root, addr, len) == Some(bytes));
        if k < chunk {
            assert((addr + k) % 4096 == addr % 4096 + k);
            assert(paging::page_base(addr + k) == paging::page_base(addr));
            paging::lemma_walk_same_page(mem, root, addr, addr + k, 4);
            assert(bytes[k] == mem[from + k]);
        } else {
            lemma_read_through_bytes(mem, root, addr + chunk, len - chunk, k - chunk);
            assert(bytes[k] == rest[k - chunk]);
        }
    }
}

proof fn lemma_read_through_succeeds(mem: Seq<u8>, root: int, addr: int, len: int)
    requires
        root >= 0,
        addr >= 0,
        addr + len <= USER_SPACE_END,
        forall|a: int|
            addr <= a < addr + len ==> (#[trigger] paging::translation(mem, root, a as u64) matches
                Some(frame) && frame + 4096 <= mem.len()),
    ensures
        read_through(mem, root, addr, len) is Some,
    decreases len,
{
    if len > 0 {
        let chunk = address_space::chunk_len(addr, len);
        assert(paging::translation(mem, root, addr as u64) is Some);
        lemma_read_through_succeeds(mem, root, addr + chunk, len - chunk);
    }
}

/// What is copied from a program is what the program has there: byte for
/// byte the memory behind its addresses, all of which the program can reach.
/// Every range that the program can reach and that memory holds is copied.
pub proof fn law_copied_bytes_are_the_programs(
    mem: Seq<u8>,
    root: int,
    ptr: u64,
    len: u64,
    k: int,
)
    requires
        root >= 0,
    ensures
        user_bytes(mem, root, ptr, len) matches Some(bytes) ==> {
            &&& bytes.len() == len
            &&& 0 <= k < len ==> {
                let a = (ptr + k) as u64;
                &&& ptr + k < 0x7fff_ffff_f000
                &&& paging::page_is_user(mem, root, (a - a % 4096) as u64)
                &&& paging::translation(mem, root, a) is Some
                &&& bytes[k] == mem[paging::translation(mem, root, a).unwrap() + a % 4096]
            }
        },
        len == 0 ==> user_bytes(mem, root, ptr, len) is Some,
        ptr + len <= 0x7fff_ffff_f000 && (forall|a: u64|
            ptr <= a < ptr + len ==> {
                &&& paging::page_is_user(mem, root, (a - a % 4096) as u64)
                &&& #[trigger] paging::translation(mem, root, a) is Some
                &&& paging::translation(mem, root, a).unwrap() + 4096 <= mem.len()
            }) ==> user_bytes(mem, root, ptr, len) is Some,
{
    lemma_user_bytes_len(mem, root, ptr, len);
    if 0 <= k < len && user_bytes(mem, root, ptr, len) is Some {
        lemma_read_through_bytes(mem, root, ptr as int, len as int, k);
        assert(paging::page_is_user(mem, root, paging::page_base(ptr + k) as u64));
    }
    if len > 0 && ptr + len <= 0x7fff_ffff_f000 && (forall|a: u64|
        ptr <= a < ptr + len ==> {
            &&& paging::page_is_user(mem, root, (a - a % 4096) as u64)
            &&& #[trigger] paging::translation(mem, root, a) is Some
            &&& paging::translation(mem, root, a).unwrap() + 4096 <= mem.len()
        }) {
        assert forall|a: int| ptr <= a < ptr + len implies paging::page_is_user(
            mem,
            root,
            #[trigger] paging::page_base(a) as u64,
        ) by {
            assert(paging::translation(mem, root, a as u64) is Some);
        }
        lemma_read_through_succeeds(mem, root, ptr as int, len as int);
    }
}

/// A copy to a program that succeeds changes no byte of memory but those
/// behind the program's own addresses.
pub proof fn law_copies_change_nothing_else(
    mem: Seq<u8>,
    root: int,
    ptr: u64,
    data: Seq<u8>,
    pos: int,
)
    requires
        root >= 0,
        data.len() <= u64::MAX,
        address_space::range_permits(mem, root, ptr, data.len() as u64, true),
        address_space::range_is_ordinary(mem, root, ptr as int, data.len() as int),
        0 <= pos < mem.len(),
        forall|a: int|
            ptr <= a < ptr + data.len() ==> #[trigger] address_space::backing(mem, root, a) != pos,
    ensures
        user_write(mem, root, ptr, data).0.len() == mem.len(),
        user_write(mem, root, ptr, data).0[pos] == mem[pos],
{
    address_space::law_write_then_read(mem, root, ptr as int, data);
}

/// Entries are counted one by one: a count over two ranges that follow each
/// other is the sum of their counts, and one entry counts one where it is
/// present.
pub proof fn law_entries_are_counted(mem: Seq<u8>, root: int, from: int, mid: int, to: int)
    requires
        from <= mid <= to,
    ensures
        present_entries(mem, root, from, to) == present_entries(mem, root, from, mid)
            + present_entries(mem, root, mid, to),
        present_entries(mem, root, from, from) == 0,
        present_entries(mem, root, from, from + 1) == (if root + 8 * from + 8
            <= mem.len() && (bytes::le64(mem, root + 8 * from) as u64) & 1 != 0 {
            1int
        } else {
            0
        }),
    decreases to - mid,
{
    reveal_with_fuel(present_entries, 2);
    if mid < to {
        law_entries_are_counted(mem, root, from, mid, to - 1);
    }
}

/// What is cleared is told: the entries that are listed are exactly those
/// that are present, each once, in order.
pub proof fn law_cleared_entries_are_told(mem: Seq<u8>, root: int, to: int, index: u64)
    requires
        0 <= to <= 512,
    ensures
        present_indices(mem, root, to).contains(index) <==> index < to && root + 8 * index + 8
            <= mem.len() && (bytes::le64(mem, root + 8 * index) as u64) & 1 != 0,
        forall|i: int, j: int|
            0 <= i < j < present_indices(mem, root, to).len() ==> (#[trigger] present_indices(
                mem,
                root,
                to,
            )[i]) < (#[trigger] present_indices(mem, root, to)[j]),
        forall|i: int|
            0 <= i < present_indices(mem, root, to).len() ==> (#[trigger] present_indices(
                mem,
                root,
                to,
            )[i]) < to,
    decreases to,
{
    if to > 0 {
        law_cleared_entries_are_told(mem, root, to - 1, index);
        let front = present_indices(mem, root, to - 1);
        let all = present_indices(mem, root, to);
        if entry_is_present(mem, root, to - 1) {
            assert(all == front.push((to - 1) as u64));
            assert(all[front.len() as int] == to - 1);
            if front.contains(index) {
                let k = front.index_of(index);
                assert(all[k] == index);
            }
            if all.contains(index) {
                let k = all.index_of(index);
                if k < front.len() {
                    assert(front[k] == index);
                }
            }
            assert forall|i: int, j: int| 0 <= i < j < all.len() implies (#[trigger] all[i]) < (
            #[trigger] all[j]) by {
                assert(all[i] == front[i]);
                if j < front.len() {
                    assert(all[j] == front[j]);
                }
            }
            assert forall|i: int| 0 <= i < all.len() implies (#[trigger] all[i]) < to by {
                if i < front.len() {
                    assert(all[i] == front[i]);
                }
            }
        }
    }
}

/// The next frame is the first that there is: where the cursor is if that
/// region has room, and otherwise at the start of the next usable region that
/// has.
pub proof fn law_first_frame_comes_first(regions: Seq<MemoryRegion>, i: int, next: int, m: int)
    requires
        0 <= i <= regions.len(),
    ensures
        next_allocation(regions, i, next) matches Some((k, addr)) ==> {
            &&& i <= k < regions.len()
            &&& k == i ==> addr == next
            &&& k > i ==> addr == regions[k].start
            &&& i < m < k && regions[m].kind is Usable ==> regions[m].start + 4096 > regions[m].end
            &&& i < k && regions[i].kind is Usable ==> next + 4096 > regions[i].end
        },
    decreases regions.len() - i,
{
    if i < regions.len() && !(regions[i].kind is Usable && next + 4096 <= regions[i].end) {
        let j = usable_from(regions, i + 1);
        lemma_usable_from(regions, i + 1);
        if j < regions.len() {
            law_first_frame_comes_first(regions, j, regions[j].start as int, m);
        }
    }
}

/// The search for usable memory passes over nothing that is usable.
pub proof fn law_usable_memory_is_found(regions: Seq<MemoryRegion>, i: int, m: int)
    requires
        0 <= i <= regions.len(),
    ensures
        i <= usable_from(regions, i) <= regions.len(),
        i <= m < usable_from(regions, i) ==> !(regions[m].kind is Usable),
        usable_from(regions, i) < regions.len() ==> regions[usable_from(regions, i)].kind is Usable,
    decreases regions.len() - i,
{
    if i < regions.len() && !(regions[i].kind is Usable) {
        law_usable_memory_is_found(regions, i + 1, m);
    }
}

} // verus!
