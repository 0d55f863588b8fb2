//! Page table entries and the walk through them.
//!
//! Physical memory is one slice, byte `n` of it being physical address
//! `n`. A table is 512 little-endian 64-bit entries in one frame; an entry
//! that would lie past the end of memory is not there.
use vstd::prelude::*;
use crate::bytes::{self, read_u64};

verus! {

broadcast use vstd::slice::group_slice_axioms;

/// Bytes in a page and in a frame.
pub const PAGE_SIZE: u64 = 4096;

pub const PRESENT: u64 = 0x1;

pub const WRITABLE: u64 = 0x2;

pub const USER_ACCESSIBLE: u64 = 0x4;

pub const HUGE_PAGE: u64 = 0x80;

pub const NO_EXECUTE: u64 = 0x8000_0000_0000_0000;

/// The permissions of a mapping.
#[derive(Debug, Clone, Copy, PartialEq, Eq, Structural)]
pub struct PageFlags {
    pub writable: bool,
    pub user_accessible: bool,
    pub no_execute: bool,
}

impl PageFlags {
    /// The page table entry bits of a present page with these permissions.
    pub open spec fn spec_bits(self) -> int {
        PRESENT + (if self.writable {
            WRITABLE as int
        } else {
            0
        }) + (if self.user_accessible {
            USER_ACCESSIBLE as int
        } else {
            0
        }) + (if self.no_execute {
            NO_EXECUTE as int
        } else {
            0
        })
    }

    /// The page table entry bits of a present page with these permissions.
    pub fn bits(&self) -> (bits: u64)
        ensures
            bits == self.spec_bits(),
    {
        let mut bits: u64 = PRESENT;
        if self.writable {
            bits += WRITABLE;
        }
        if self.user_accessible {
            bits += USER_ACCESSIBLE;
        }
        if self.no_execute {
            bits += NO_EXECUTE;
        }
        bits
    }

    /// Neither writable nor executable is allowed to hold together.
    pub open spec fn w_xor_x(self) -> bool {
        !(self.writable && !self.no_execute)
    }
}

/// The page a byte lies in.
pub open spec fn page_base(addr: int) -> int {
    addr - addr % 4096
}

/// An address the processor accepts: bits 48 to 63 repeat bit 47.
pub open spec fn canonical(addr: u64) -> bool {
    addr < 0x0000_8000_0000_0000 || addr >= 0xffff_8000_0000_0000
}

/// `VirtAddr::try_new` accepts exactly the canonical addresses and keeps
/// their value.
#[verifier::external_body]
pub(crate) fn virt_addr(addr: u64) -> (r: Option<u64>)
    ensures
        r == (if canonical(addr) {
            Some(addr)
        } else {
            None
        }),
{
    x86_64::VirtAddr::try_new(addr).ok().map(|virt| virt.as_u64())
}

/// `VirtAddr::p4_index`: bits 39 to 47 of the address.
#[verifier::external_body]
fn p4_index(addr: u64) -> (index: u64)
    requires
        canonical(addr),
    ensures
        index == addr as int / 0x80_0000_0000 % 512,
{
    u64::from(x86_64::VirtAddr::new(addr).p4_index())
}

/// `VirtAddr::p3_index`: bits 30 to 38 of the address.
#[verifier::external_body]
fn p3_index(addr: u64) -> (index: u64)
    requires
        canonical(addr),
    ensures
        index == addr as int / 0x4000_0000 % 512,
{
    u64::from(x86_64::VirtAddr::new(addr).p3_index())
}

/// `VirtAddr::p2_index`: bits 21 to 29 of the address.
#[verifier::external_body]
fn p2_index(addr: u64) -> (index: u64)
    requires
        canonical(addr),
    ensures
        index == addr as int / 0x20_0000 % 512,
{
    u64::from(x86_64::VirtAddr::new(addr).p2_index())
}

/// `VirtAddr::p1_index`: bits 12 to 20 of the address.
#[verifier::external_body]
fn p1_index(addr: u64) -> (index: u64)
    requires
        canonical(addr),
    ensures
        index == addr as int / 0x1000 % 512,
{
    u64::from(x86_64::VirtAddr::new(addr).p1_index())
}

/// `Page::containing_address`: the start of the 4 KiB page that holds the
/// address.
#[verifier::external_body]
pub(crate) fn page_containing(addr: u64) -> (page: u64)
    requires
        canonical(addr),
    ensures
        page == page_base(addr as int),
{
    x86_64::structures::paging::Page::<x86_64::structures::paging::Size4KiB>::containing_address(
        x86_64::VirtAddr::new(addr),
    ).start_address().as_u64()
}

/// `PhysFrame::containing_address`: the start of the 4 KiB frame that
/// holds the physical address. `PhysAddr::new` refuses more than 52 bits.
#[verifier::external_body]
pub(crate) fn frame_containing(addr: u64) -> (frame: u64)
    requires
        addr < 0x10_0000_0000_0000,
    ensures
        frame == page_base(addr as int),
{
    x86_64::structures::paging::PhysFrame::<x86_64::structures::paging::Size4KiB>::containing_address(
        x86_64::PhysAddr::new(addr),
    ).start_address().as_u64()
}

/// Which entry of the level `level` table an address goes through; level 4
/// is the root.
#[verifier::opaque]
pub open spec fn table_index(addr: int, level: int) -> int {
    if level == 4 {
        addr / 0x80_0000_0000 % 512
    } else if level == 3 {
        addr / 0x4000_0000 % 512
    } else if level == 2 {
        addr / 0x20_0000 % 512
    } else {
        addr / 0x1000 % 512
    }
}

fn index_at(addr: u64, level: u64) -> (index: u64)
    requires
        canonical(addr),
        1 <= level <= 4,
    ensures
        index == table_index(addr as int, level as int),
        index < 512,
{
    reveal(table_index);
    if level == 4 {
        p4_index(addr)
    } else if level == 3 {
        p3_index(addr)
    } else if level == 2 {
        p2_index(addr)
    } else {
        p1_index(addr)
    }
}

/// The entry `index` of the table in `frame`, if memory reaches that far.
pub open spec fn entry_at(mem: Seq<u8>, frame: int, index: int) -> Option<u64> {
    if frame + 8 * index + 8 <= mem.len() {
        Some(bytes::le64(mem, frame + 8 * index) as u64)
    } else {
        None
    }
}

/// The frame an entry points at.
pub open spec fn entry_frame(entry: u64) -> int {
    page_base(entry as int % 0x10_0000_0000_0000)
}

/// Reads one entry of the table in `frame`.
pub fn read_entry(mem: &[u8], frame: u64, index: u64) -> (r: Option<u64>)
    requires
        frame <= 0x10_0000_0000_0000,
        index < 512,
    ensures
        r == entry_at(mem@, frame as int, index as int),
{
    let at: u64 = frame + 8 * index;
    if at + 8 > mem.len() as u64 {
        return None;
    }
    Some(read_u64(mem, at as usize))
}

fn frame_of_entry(entry: u64) -> (frame: u64)
    ensures
        frame == entry_frame(entry),
        frame < 0x10_0000_0000_0000,
{
    frame_containing(entry % 0x10_0000_0000_0000)
}

/// Walking from the level `level` table in `frame` to the frame that backs
/// `addr`. A huge page above the last level resolves to nothing.
pub open spec fn walk(mem: Seq<u8>, frame: int, addr: int, level: nat) -> Option<int>
    decreases level,
{
    if level == 0 {
        Some(frame)
    } else {
        match entry_at(mem, frame, table_index(addr, level as int)) {
            None => None,
            Some(entry) => if entry & PRESENT == 0 || (level > 1 && entry & HUGE_PAGE != 0) {
                None
            } else {
                walk(mem, entry_frame(entry), addr, (level - 1) as nat)
            },
        }
    }
}

/// The frame that backs `addr` in the address space rooted at `root`.
pub open spec fn translation(mem: Seq<u8>, root: int, addr: u64) -> Option<int> {
    if canonical(addr) {
        walk(mem, root, addr as int, 4)
    } else {
        None
    }
}

/// Resolves an address by walking the tables from `root`.
pub fn translate_in(mem: &[u8], root: u64, addr: u64) -> (r: Option<u64>)
    requires
        root <= 0x10_0000_0000_0000,
    ensures
        match r {
            Some(frame) => translation(mem@, root as int, addr) == Some(frame as int) && frame
                <= 0x10_0000_0000_0000,
            None => translation(mem@, root as int, addr) is None,
        },
{
    let virt: u64 = match virt_addr(addr) {
        Some(v) => v,
        None => {
            return None;
        },
    };
    let mut frame: u64 = root;
    let mut level: u64 = 4;
    while level > 0
        invariant
            level <= 4,
            virt == addr,
            canonical(addr),
            frame <= 0x10_0000_0000_0000,
            translation(mem@, root as int, addr) == walk(
                mem@,
                frame as int,
                addr as int,
                level as nat,
            ),
        decreases level,
    {
        let entry: u64 = match read_entry(mem, frame, index_at(virt, level)) {
            Some(e) => e,
            None => {
                return None;
            },
        };
        if entry & PRESENT == 0 {
            return None;
        }
        if level > 1 && entry & HUGE_PAGE != 0 {
            return None;
        }
        frame = frame_of_entry(entry);
        level -= 1;
    }
    Some(frame)
}

/// Whether every level from `level` down permits a user access, and a
/// write where one is asked for. The processor takes the conjunction of
/// the flags along the path, so this does too.
pub open spec fn path_permits(
    mem: Seq<u8>,
    frame: int,
    addr: int,
    writable: bool,
    level: nat,
) -> bool
    decreases level,
{
    if level == 0 {
        true
    } else {
        match entry_at(mem, frame, table_index(addr, level as int)) {
            None => false,
            Some(entry) => {
                &&& entry & PRESENT != 0
                &&& entry & USER_ACCESSIBLE != 0
                &&& (writable ==> entry & WRITABLE != 0)
                &&& path_permits(mem, entry_frame(entry), addr, writable, (level - 1) as nat)
            },
        }
    }
}

/// Whether the page that holds `addr` may be accessed from user mode.
pub open spec fn page_permits(mem: Seq<u8>, root: int, addr: u64, writable: bool) -> bool {
    canonical(addr) && path_permits(mem, root, addr as int, writable, 4)
}

/// Whether a page may be accessed from user mode in the address space
/// rooted at `root`.
pub fn page_is_accessible(mem: &[u8], root: u64, addr: u64, require_writable: bool) -> (r: bool)
    requires
        root <= 0x10_0000_0000_0000,
    ensures
        r == page_permits(mem@, root as int, addr, require_writable),
{
    let virt: u64 = match virt_addr(addr) {
        Some(v) => v,
        None => {
            return false;
        },
    };
    let mut frame: u64 = root;
    let mut level: u64 = 4;
    while level > 0
        invariant
            level <= 4,
            virt == addr,
            canonical(addr),
            frame <= 0x10_0000_0000_0000,
            page_permits(mem@, root as int, addr, require_writable) == path_permits(
                mem@,
                frame as int,
                addr as int,
                require_writable,
                level as nat,
            ),
        decreases level,
    {
        let entry: u64 = match read_entry(mem, frame, index_at(virt, level)) {
            Some(e) => e,
            None => {
                return false;
            },
        };
        if entry & PRESENT == 0 || entry & USER_ACCESSIBLE == 0 {
            return false;
        }
        if require_writable && entry & WRITABLE == 0 {
            return false;
        }
        frame = frame_of_entry(entry);
        level -= 1;
    }
    true
}

/// Whether every level down to the page, or to a huge page on the way,
/// permits a user access.
pub open spec fn path_is_user(mem: Seq<u8>, frame: int, addr: int, level: nat) -> bool
    decreases level,
{
    if level == 0 {
        true
    } else {
        match entry_at(mem, frame, table_index(addr, level as int)) {
            None => false,
            Some(entry) => {
                &&& entry & PRESENT != 0
                &&& entry & USER_ACCESSIBLE != 0
                &&& ((level > 1 && entry & HUGE_PAGE != 0) || path_is_user(
                    mem,
                    entry_frame(entry),
                    addr,
                    (level - 1) as nat,
                ))
            },
        }
    }
}

/// Whether the page that holds `addr` is present and user-accessible at
/// every level of the tables rooted at `root`.
pub open spec fn page_is_user(mem: Seq<u8>, root: int, addr: u64) -> bool {
    canonical(addr) && path_is_user(mem, root, addr as int, 4)
}

/// Walks the levels for one page, requiring it to be present and
/// user-accessible at every one. A huge page ends the walk early; at the
/// last level the same bit means something else, so it is not read there.
pub fn page_is_user_accessible(mem: &[u8], root: u64, addr: u64) -> (r: bool)
    requires
        root <= 0x10_0000_0000_0000,
    ensures
        r == page_is_user(mem@, root as int, addr),
{
    let virt: u64 = match virt_addr(addr) {
        Some(v) => v,
        None => {
            return false;
        },
    };
    let mut frame: u64 = root;
    let mut level: u64 = 4;
    while level > 0
        invariant
            level <= 4,
            virt == addr,
            canonical(addr),
            frame <= 0x10_0000_0000_0000,
            page_is_user(mem@, root as int, addr) == path_is_user(
                mem@,
                frame as int,
                addr as int,
                level as nat,
            ),
        decreases level,
    {
        let entry: u64 = match read_entry(mem, frame, index_at(virt, level)) {
            Some(e) => e,
            None => {
                return false;
            },
        };
        if entry & PRESENT == 0 || entry & USER_ACCESSIBLE == 0 {
            return false;
        }
        if level > 1 && entry & HUGE_PAGE != 0 {
            return true;
        }
        frame = frame_of_entry(entry);
        level -= 1;
    }
    true
}

/// Whether byte `pos` of memory is read by the walk for `addr` from the
/// level `level` table in `frame`.
pub open spec fn walk_reads(mem: Seq<u8>, frame: int, addr: int, level: nat, pos: int) -> bool
    decreases level,
{
    if level == 0 {
        false
    } else {
        let slot = frame + 8 * table_index(addr, level as int);
        ||| slot <= pos < slot + 8
        ||| match entry_at(mem, frame, table_index(addr, level as int)) {
            None => false,
            Some(entry) => walk_reads(mem, entry_frame(entry), addr, (level - 1) as nat, pos),
        }
    }
}

/// A walk gives the same answer in two memories that agree on the bytes
/// it reads.
pub proof fn lemma_walk_depends_on_reads(
    a: Seq<u8>,
    b: Seq<u8>,
    frame: int,
    addr: int,
    level: nat,
)
    requires
        a.len() == b.len(),
        frame >= 0,
        addr >= 0,
        level <= 4,
        forall|pos: int|
            0 <= pos < a.len() && #[trigger] walk_reads(a, frame, addr, level, pos) ==> a[pos]
                == b[pos],
    ensures
        walk(a, frame, addr, level) == walk(b, frame, addr, level),
        path_is_user(a, frame, addr, level) == path_is_user(b, frame, addr, level),
        forall|pos: int|
            walk_reads(a, frame, addr, level, pos) == #[trigger] walk_reads(
                b,
                frame,
                addr,
                level,
                pos,
            ),
    decreases level,
{
    if level > 0 {
        let index = table_index(addr, level as int);
        let slot = frame + 8 * index;
        lemma_index_bound(addr, level as int);
        if slot + 8 <= a.len() {
            assert forall|pos: int| slot <= pos < slot + 8 implies #[trigger] a[pos] == b[pos] by {
                assert(walk_reads(a, frame, addr, level, pos));
            }
            assert(bytes::le64(a, slot) == bytes::le64(b, slot));
            let entry = entry_at(a, frame, index).unwrap();
            assert forall|pos: int|
                0 <= pos < a.len() && #[trigger] walk_reads(
                    a,
                    entry_frame(entry),
                    addr,
                    (level - 1) as nat,
                    pos,
                ) implies a[pos] == b[pos] by {
                assert(walk_reads(a, frame, addr, level, pos));
            }
            lemma_walk_depends_on_reads(a, b, entry_frame(entry), addr, (level - 1) as nat);
            assert forall|pos: int|
                walk_reads(a, frame, addr, level, pos) == #[trigger] walk_reads(
                    b,
                    frame,
                    addr,
                    level,
                    pos,
                ) by {
                assert(walk_reads(a, entry_frame(entry), addr, (level - 1) as nat, pos)
                    == walk_reads(b, entry_frame(entry), addr, (level - 1) as nat, pos));
            }
        }
    }
}

/// A table index is below 512.
pub proof fn lemma_index_bound(addr: int, level: int)
    requires
        addr >= 0,
    ensures
        0 <= table_index(addr, level) < 512,
{
    reveal(table_index);
}

/// Two addresses in one page take the same walk.
pub proof fn lemma_walk_same_page(mem: Seq<u8>, frame: int, x: int, y: int, level: nat)
    requires
        x >= 0,
        y >= 0,
        page_base(x) == page_base(y),
        level <= 4,
    ensures
        walk(mem, frame, x, level) == walk(mem, frame, y, level),
        forall|pos: int|
            walk_reads(mem, frame, x, level, pos) == #[trigger] walk_reads(
                mem,
                frame,
                y,
                level,
                pos,
            ),
    decreases level,
{
    if level > 0 {
        lemma_same_index(x, y, level as int);
        match entry_at(mem, frame, table_index(x, level as int)) {
            None => {},
            Some(entry) => {
                lemma_walk_same_page(mem, entry_frame(entry), x, y, (level - 1) as nat);
                assert forall|pos: int|
                    walk_reads(mem, frame, x, level, pos) == #[trigger] walk_reads(
                        mem,
                        frame,
                        y,
                        level,
                        pos,
                    ) by {
                    assert(walk_reads(mem, entry_frame(entry), x, (level - 1) as nat, pos)
                        == walk_reads(mem, entry_frame(entry), y, (level - 1) as nat, pos));
                }
            },
        }
    }
}

proof fn lemma_same_index(x: int, y: int, level: int)
    requires
        x >= 0,
        y >= 0,
        page_base(x) == page_base(y),
        1 <= level <= 4,
    ensures
        table_index(x, level) == table_index(y, level),
{
    reveal(table_index);
    assert(x / 0x1000 == y / 0x1000);
    assert(x / 0x20_0000 == x / 0x1000 / 512);
    assert(y / 0x20_0000 == y / 0x1000 / 512);
    assert(x / 0x4000_0000 == x / 0x20_0000 / 512);
    assert(y / 0x4000_0000 == y / 0x20_0000 / 512);
    assert(x / 0x80_0000_0000 == x / 0x4000_0000 / 512);
    assert(y / 0x80_0000_0000 == y / 0x4000_0000 / 512);
}

/// A walk that ends ends at the start of a frame.
pub proof fn lemma_walk_aligned(mem: Seq<u8>, frame: int, addr: int, level: nat)
    requires
        level > 0,
        frame >= 0,
    ensures
        walk(mem, frame, addr, level) matches Some(f) ==> f >= 0 && f % 4096 == 0,
    decreases level,
{
    match entry_at(mem, frame, table_index(addr, level as int)) {
        None => {},
        Some(entry) => {
            if level > 1 {
                lemma_walk_aligned(mem, entry_frame(entry), addr, (level - 1) as nat);
            }
        },
    }
}

// ---------------------------------------------------------------------
// Laws
// ---------------------------------------------------------------------

/// Whether four page table entries are the ones that `addr` goes through,
/// from the root down: nine bits of the address pick the entry of each table,
/// the highest first, and bits 12 to 51 of an entry say where the next table
/// is.
pub open spec fn is_path(
    mem: Seq<u8>,
    root: int,
    addr: u64,
    path: (u64, u64, u64, u64),
) -> bool {
    let a = addr as int;
    let first = root + 8 * (a / 0x80_0000_0000 % 512);
    let second = path.0 as int / 4096 % 0x100_0000_0000 * 4096 + 8 * (a / 0x4000_0000 % 512);
    let third = path.1 as int / 4096 % 0x100_0000_0000 * 4096 + 8 * (a / 0x20_0000 % 512);
    let fourth = path.2 as int / 4096 % 0x100_0000_0000 * 4096 + 8 * (a / 0x1000 % 512);
    &&& first + 8 <= mem.len() && bytes::le64(mem, first) == path.0
    &&& second + 8 <= mem.len() && bytes::le64(mem, second) == path.1
    &&& third + 8 <= mem.len() && bytes::le64(mem, third) == path.2
    &&& fourth + 8 <= mem.len() && bytes::le64(mem, fourth) == path.3
}

/// An address is backed by the frame that the last of its four entries names,
/// exactly where all four are present and none of the first three is a huge
/// page. A program may access it exactly where all four say so, and write to
/// it where all four say that too. What is no address is backed by nothing.
pub proof fn law_four_entries_decide(
    mem: Seq<u8>,
    root: int,
    addr: u64,
    path: (u64, u64, u64, u64),
)
    requires
        is_path(mem, root, addr, path),
    ensures
        0x8000_0000_0000 <= addr < 0xffff_8000_0000_0000 ==> translation(mem, root, addr) is None
            && !page_permits(mem, root, addr, false) && !page_is_user(mem, root, addr),
        addr < 0x8000_0000_0000 || addr >= 0xffff_8000_0000_0000 ==> {
            let present = path.0 & 1 != 0 && path.1 & 1 != 0 && path.2 & 1 != 0 && path.3 & 1 != 0;
            let user = path.0 & 4 != 0 && path.1 & 4 != 0 && path.2 & 4 != 0 && path.3 & 4 != 0;
            let written = path.0 & 2 != 0 && path.1 & 2 != 0 && path.2 & 2 != 0 && path.3 & 2 != 0;
            let huge = path.0 & 0x80 != 0 || path.1 & 0x80 != 0 || path.2 & 0x80 != 0;
            &&& present && !huge ==> translation(mem, root, addr) == Some(
                path.3 as int / 4096 % 0x100_0000_0000 * 4096,
            )
            &&& !(present && !huge) ==> translation(mem, root, addr) is None
            &&& page_permits(mem, root, addr, false) <==> present && user
            &&& page_permits(mem, root, addr, true) <==> present && user && written
            &&& !huge ==> (page_is_user(mem, root, addr) <==> present && user)
        },
{
    reveal(table_index);
    reveal_with_fuel(walk, 5);
    reveal_with_fuel(path_permits, 5);
    reveal_with_fuel(path_is_user, 5);
    lemma_entry_frame(path.0);
    lemma_entry_frame(path.1);
    lemma_entry_frame(path.2);
    lemma_entry_frame(path.3);
    let a = addr as int;
    let second = entry_frame(path.0);
    let third = entry_frame(path.1);
    let fourth = entry_frame(path.2);
    assert(entry_at(mem, root, table_index(a, 4)) == Some(path.0));
    assert(entry_at(mem, second, table_index(a, 3)) == Some(path.1));
    assert(entry_at(mem, third, table_index(a, 2)) == Some(path.2));
    assert(entry_at(mem, fourth, table_index(a, 1)) == Some(path.3));
}

proof fn lemma_entry_frame(entry: u64)
    ensures
        entry_frame(entry) == entry as int / 4096 % 0x100_0000_0000 * 4096,
{
    let e = entry as int;
    assert(e % 0x10_0000_0000_0000 / 4096 == e / 4096 % 0x100_0000_0000);
}

/// The bits of an entry say each permission by itself: the first that it is
/// present, the second that it can be written, the third that a program
/// reaches it, and the last that it is not run.
pub proof fn law_permission_bits(flags: PageFlags)
    ensures
        flags.spec_bits() == 1 + (if flags.writable {
            2int
        } else {
            0
        }) + (if flags.user_accessible {
            4int
        } else {
            0
        }) + (if flags.no_execute {
            0x8000_0000_0000_0000int
        } else {
            0
        }),
{
}

} // verus!
