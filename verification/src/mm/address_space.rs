//! Per-process address spaces.
//!
//! An address space is one top-level table whose upper half is copied from
//! the kernel's, so the kernel is mapped identically everywhere, and whose
//! lower half belongs to the process alone. Every frame the space
//! allocates is recorded, and teardown gives back exactly that list.
use vstd::prelude::*;
use crate::abi::layout::{self, is_user_address, USER_SPACE_END};
use crate::bytes::{self, copy_into, fill_zero};
use crate::mm::frame_pool::{self, release, FramePool};
use crate::mm::paging::{self, page_is_accessible, translate_in, PageFlags, PAGE_SIZE, PRESENT};
use crate::text::{self, push_decimal, push_hexadecimal};

verus! {

broadcast use vstd::slice::group_slice_axioms;

/// Why mapping into an address space failed.
#[derive(Debug)]
pub enum MapError {
    /// The address is not in the lower half: it would collide with the
    /// kernel mappings every address space shares.
    NotUserAddress(u64),
    /// The requested flags omit user access, which would make the page
    /// unreachable by its own process.
    NotUserAccessible(u64),
    /// No physical frames left.
    OutOfMemory,
    /// The address is not mapped in this space.
    NotMapped(u64),
    /// The underlying paging operation failed; carries its message.
    Paging(String),
}

impl MapError {
    /// What `message` says.
    pub open spec fn text(&self) -> Seq<char> {
        match self {
            MapError::NotUserAddress(addr) => "0x"@ + text::hexadecimal(*addr as nat)
                + " is not a user address - mapping it would overwrite a kernel entry shared \
                 by every address space"@,
            MapError::NotUserAccessible(addr) => "0x"@ + text::hexadecimal(*addr as nat)
                + " was requested without USER_ACCESSIBLE, which would make it unreachable by \
                 its own process"@,
            MapError::OutOfMemory => "out of physical frames"@,
            MapError::NotMapped(addr) => "0x"@ + text::hexadecimal(*addr as nat)
                + " is not mapped in this address space"@,
            MapError::Paging(message) => "paging error: "@ + message@,
        }
    }

    /// A sentence for the log.
    pub fn message(&self) -> (out: String)
        ensures
            out@ == self.text(),
    {
        match self {
            MapError::NotUserAddress(addr) => {
                let mut out = String::from_str("0x");
                push_hexadecimal(&mut out, *addr);
                out.append(
                    " is not a user address - mapping it would overwrite a kernel entry shared \
                 by every address space",
                );
                out
            },
            MapError::NotUserAccessible(addr) => {
                let mut out = String::from_str("0x");
                push_hexadecimal(&mut out, *addr);
                out.append(
                    " was requested without USER_ACCESSIBLE, which would make it unreachable by \
                 its own process",
                );
                out
            },
            MapError::OutOfMemory => String::from_str("out of physical frames"),
            MapError::NotMapped(addr) => {
                let mut out = String::from_str("0x");
                push_hexadecimal(&mut out, *addr);
                out.append(" is not mapped in this address space");
                out
            },
            MapError::Paging(message) => {
                let mut out = String::from_str("paging error: ");
                out.append(message.as_str());
                out
            },
        }
    }
}

/// The bytes from `at` on that lie in one page, out of `len` to go.
pub open spec fn chunk_len(at: int, len: int) -> int {
    if 4096 - at % 4096 <= len {
        4096 - at % 4096
    } else {
        len
    }
}

/// Writing `data` at virtual address `addr`, page by page: the memory that
/// results, and the address that turned out to have no memory behind it.
pub open spec fn write_through(mem: Seq<u8>, root: int, addr: int, data: Seq<u8>) -> (
    Seq<u8>,
    Option<int>,
)
    decreases data.len(),
{
    if data.len() == 0 {
        (mem, None)
    } else {
        let chunk = chunk_len(addr, data.len() as int);
        match paging::translation(mem, root, addr as u64) {
            None => (mem, Some(addr)),
            Some(frame) => if frame + 4096 > mem.len() {
                (mem, Some(addr))
            } else {
                write_through(
                    bytes::overwritten(mem, frame + addr % 4096, data.subrange(0, chunk)),
                    root,
                    addr + chunk,
                    data.subrange(chunk, data.len() as int),
                )
            },
        }
    }
}

/// Copies `bytes` to virtual address `addr` of the space rooted at `root`,
/// through the frames its tables lead to. Stops at the first address that has no
/// memory behind it; what was written before stays.
pub fn write_in(root: u64, mem: &mut [u8], addr: u64, bytes: &[u8]) -> (r: Result<(), MapError>)
    requires
        root <= 0x10_0000_0000_0000,
        addr + bytes@.len() <= u64::MAX,
    ensures
        ({
            let (after, fault) = write_through(
                old(mem)@,
                root as int,
                addr as int,
                bytes@,
            );
            &&& final(mem)@ == after
            &&& r == match fault {
                None => Ok::<(), MapError>(()),
                Some(at) => Err::<(), MapError>(MapError::NotMapped(at as u64)),
            }
        }),
{
    let mut written: usize = 0;
    assert(bytes@.subrange(0, bytes@.len() as int) =~= bytes@);
    while written < bytes.len()
        invariant
            root <= 0x10_0000_0000_0000,
            written <= bytes.len(),
            addr + bytes@.len() <= u64::MAX,
            write_through(old(mem)@, root as int, addr as int, bytes@) == write_through(
                mem@,
                root as int,
                addr + written,
                bytes@.subrange(written as int, bytes@.len() as int),
            ),
        decreases bytes.len() - written,
    {
        let ghost rest = bytes@.subrange(written as int, bytes@.len() as int);
        let target: u64 = addr + written as u64;
        let page_offset: usize = (target % PAGE_SIZE) as usize;
        let left: usize = bytes.len() - written;
        let chunk: usize = if 4096 - page_offset <= left {
            4096 - page_offset
        } else {
            left
        };
        let frame: u64 = match translate_in(mem, root, target) {
            Some(f) => f,
            None => {
                return Err(MapError::NotMapped(target));
            },
        };
        let limit: u64 = mem.len() as u64;
        if limit < 4096 || frame > limit - 4096 {
            return Err(MapError::NotMapped(target));
        }
        copy_into(mem, frame as usize + page_offset, bytes, written, chunk);
        assert(rest.subrange(0, chunk as int) =~= bytes@.subrange(
            written as int,
            written + chunk,
        ));
        assert(rest.subrange(chunk as int, rest.len() as int) =~= bytes@.subrange(
            written + chunk,
            bytes@.len() as int,
        ));
        written += chunk;
    }
    Ok(())
}

/// Whether every page of `start..end` permits the access.
#[verifier::opaque]
pub open spec fn pages_permit(mem: Seq<u8>, root: int, start: int, end: int, writable: bool) -> bool {
    forall|a: int|
        start <= a < end ==> paging::page_permits(
            mem,
            root,
            #[trigger] paging::page_base(a) as u64,
            writable,
        )
}

/// One more page that permits the access.
proof fn lemma_one_more_page(mem: Seq<u8>, root: int, start: int, page: int, end: int, writable: bool)
    requires
        0 <= page <= u64::MAX,
        page % 4096 == 0,
        paging::page_base(start) <= page,
        start < end <= page + 4096,
        page < end,
        pages_permit(mem, root, start, page, writable),
    ensures
        pages_permit(mem, root, start, end, writable) == paging::page_permits(
            mem,
            root,
            page as u64,
            writable,
        ),
{
    reveal(pages_permit);
    let a = if page >= start {
        page
    } else {
        start
    };
    assert(paging::page_base(a) == page);
    assert forall|b: int| page <= b < end implies #[trigger] paging::page_base(b)
        == page by {}
}

/// Whether `start..start + len` is entirely mapped, user-accessible
/// and, if asked, writable in the space rooted at `root`.
pub fn range_is_accessible_in(
    root: u64,
    mem: &[u8],
    start: u64,
    len: u64,
    require_writable: bool,
) -> (r: bool)
    requires
        root <= 0x10_0000_0000_0000,
    ensures
        r == range_permits(mem@, root as int, start, len, require_writable),
{
    if len == 0 {
        return true;
    }
    let last: u64 = match start.checked_add(len - 1) {
        Some(last) => last,
        None => {
            return false;
        },
    };
    if !is_user_address(start) || !is_user_address(last) {
        return false;
    }
    let mut page: u64 = start - start % PAGE_SIZE;
    let last_page: u64 = last - last % PAGE_SIZE;
    let ghost end = start + len;
    proof {
        reveal(pages_permit);
        assert(pages_permit(mem@, root as int, start as int, page as int, require_writable));
        assert(range_permits(mem@, root as int, start, len, require_writable) == pages_permit(
            mem@,
            root as int,
            start as int,
            end,
            require_writable,
        ));
    }
    while page < last_page
        invariant
            root <= 0x10_0000_0000_0000,
            end == start + len,
            last == end - 1,
            start <= last < USER_SPACE_END,
            page % 4096 == 0,
            last_page == paging::page_base(last as int),
            paging::page_base(start as int) <= page <= last_page,
            pages_permit(mem@, root as int, start as int, page as int, require_writable),
            range_permits(mem@, root as int, start, len, require_writable) == pages_permit(
                mem@,
                root as int,
                start as int,
                end,
                require_writable,
            ),
        decreases last_page - page,
    {
        proof {
            lemma_one_more_page(
                mem@,
                root as int,
                start as int,
                page as int,
                page + 4096,
                require_writable,
            );
        }
        if !page_is_accessible(mem, root, page, require_writable) {
            proof {
                lemma_fewer_pages(
                    mem@,
                    root as int,
                    start as int,
                    page + 4096,
                    end,
                    require_writable,
                );
            }
            return false;
        }
        page += PAGE_SIZE;
    }
    proof {
        lemma_one_more_page(
            mem@,
            root as int,
            start as int,
            page as int,
            end,
            require_writable,
        );
    }
    page_is_accessible(mem, root, page, require_writable)
}

/// A longer range permits no more than a shorter one.
proof fn lemma_fewer_pages(mem: Seq<u8>, root: int, start: int, end: int, more: int, writable: bool)
    requires
        end <= more,
    ensures
        pages_permit(mem, root, start, more, writable) ==> pages_permit(
            mem,
            root,
            start,
            end,
            writable,
        ),
{
    reveal(pages_permit);
}

/// What the paging hardware's tables gave back for one mapping request.
#[derive(Debug)]
pub enum MapAttempt {
    /// There was no frame to map.
    NoFrame,
    /// The page is mapped to `frame`; `tables` were allocated on the way.
    Mapped { frame: u64, tables: Vec<u64> },
    /// The mapping failed after `tables` were allocated.
    Failed { tables: Vec<u64>, message: String },
}

/// One process's virtual address space.
#[derive(Debug)]
pub struct AddressSpace {
    /// The frame holding this space's top-level table.
    root: u64,
    /// Every frame this space owns: the frames backing its pages and the
    /// tables that reach them.
    owned_frames: Vec<u64>,
}

/// Top-level table entry `index` as the space at `root` has it after the
/// kernel's upper half was copied into it.
pub open spec fn fresh_root(mem: Seq<u8>, root: int, kernel_root: int) -> Seq<u8> {
    Seq::new(
        mem.len(),
        |i: int|
            if root <= i < root + 2048 {
                0u8
            } else if root + 2048 <= i < root + 4096 {
                mem[kernel_root + (i - root)]
            } else {
                mem[i]
            },
    )
}

/// Whether some entry of the upper half of the table at `root` is present.
pub open spec fn has_kernel_entries(mem: Seq<u8>, root: int) -> bool {
    exists|i: int|
        256 <= i < 512 && (#[trigger] paging::entry_at(mem, root, i) matches Some(entry) && entry & PRESENT
            != 0)
}

impl AddressSpace {
    pub closed spec fn root(&self) -> u64 {
        self.root
    }

    pub closed spec fn owned(&self) -> Seq<u64> {
        self.owned_frames@
    }

    /// The root is a physical address.
    pub open spec fn wf(&self) -> bool {
        self.root() < 0x10_0000_0000_0000
    }

    /// Builds a new address space in `frame` that shares the kernel's
    /// higher half and has an empty lower half. There is none without a
    /// frame to put it in. A kernel table without a present entry would
    /// make the first interrupt after switching fatal, so it is not
    /// accepted.
    pub fn new(mem: &mut [u8], frame: Option<u64>, kernel_root: u64) -> (space: Option<
        AddressSpace,
    >)
        requires
            kernel_root + 4096 <= old(mem)@.len(),
            has_kernel_entries(old(mem)@, kernel_root as int),
            frame matches Some(root) ==> {
                &&& root + 4096 <= old(mem)@.len()
                &&& root < 0x10_0000_0000_0000
                &&& (root + 4096 <= kernel_root || kernel_root + 4096 <= root)
            },
        ensures
            match frame {
                Some(root) => {
                    &&& space matches Some(s) && s.wf() && s.root() == root && s.owned() == Seq::<
                        u64,
                    >::empty()
                    &&& final(mem)@ == fresh_root(old(mem)@, root as int, kernel_root as int)
                },
                None => space is None && final(mem)@ == old(mem)@,
            },
    {
        let root: u64 = match frame {
            Some(f) => f,
            None => {
                return None;
            },
        };
        let base: usize = root as usize;
        let kernel: usize = kernel_root as usize;
        assert(base == root && kernel == kernel_root) by {
            assert(old(mem)@.len() == old(mem).len());
        }
        let mut i: usize = 0;
        while i < 4096
            invariant
                i <= 4096,
                base == root,
                kernel == kernel_root,
                kernel + 4096 <= mem@.len(),
                base + 4096 <= mem@.len(),
                base + 4096 <= kernel || kernel + 4096 <= base,
                mem@.len() == old(mem)@.len(),
                mem@.len() == mem.len(),
                forall|j: int|
                    0 <= j < mem@.len() && !(base <= j < base + i) ==> mem@[j] == old(mem)@[j],
                forall|j: int|
                    base <= j < base + i ==> mem@[j] == fresh_root(
                        old(mem)@,
                        root as int,
                        kernel_root as int,
                    )[j],
            decreases 4096 - i,
        {
            let byte: u8 = if i < 2048 {
                0
            } else {
                mem[kernel + i]
            };
            mem[base + i] = byte;
            i += 1;
        }
        assert(mem@ =~= fresh_root(old(mem)@, root as int, kernel_root as int));
        Some(AddressSpace { root, owned_frames: Vec::new() })
    }

    /// The physical frame to load to make this space current.
    pub fn root_frame(&self) -> (root: u64)
        ensures
            root == self.root(),
    {
        self.root
    }

    /// How many frames this space owns.
    pub fn owned_frame_count(&self) -> (count: usize)
        ensures
            count == self.owned().len(),
    {
        self.owned_frames.len()
    }

    /// Whether a request to map the page at `page` may be carried out. A
    /// mapping outside the lower half would overwrite an entry the kernel
    /// shares with every other space; one that is not user-accessible can
    /// only be a mistake.
    pub fn check_map(page: u64, flags: PageFlags) -> (r: Result<(), MapError>)
        ensures
            match r {
                Ok(_) => page < USER_SPACE_END && flags.user_accessible,
                Err(e) => e == (if page >= USER_SPACE_END {
                    MapError::NotUserAddress(page)
                } else {
                    MapError::NotUserAccessible(page)
                }) && !(page < USER_SPACE_END && flags.user_accessible),
            },
    {
        if !is_user_address(page) {
            return Err(MapError::NotUserAddress(page));
        }
        if !flags.user_accessible {
            return Err(MapError::NotUserAccessible(page));
        }
        Ok(())
    }

    /// Maps a page: refuses what `check_map` refuses, and otherwise
    /// records what the attempt allocated. Tables allocated on the way to
    /// a failed mapping are owned all the same, so that teardown frees
    /// them.
    pub fn map_page(&mut self, page: u64, flags: PageFlags, attempt: MapAttempt) -> (r: Result<
        (),
        MapError,
    >)
        ensures
            final(self).root() == old(self).root(),
            if page >= USER_SPACE_END {
                final(self).owned() == old(self).owned() && r == Err::<(), MapError>(
                    MapError::NotUserAddress(page),
                )
            } else if !flags.user_accessible {
                final(self).owned() == old(self).owned() && r == Err::<(), MapError>(
                    MapError::NotUserAccessible(page),
                )
            } else {
                match attempt {
                    MapAttempt::NoFrame => final(self).owned() == old(self).owned() && r == Err::<
                        (),
                        MapError,
                    >(MapError::OutOfMemory),
                    MapAttempt::Mapped { frame, tables } => r is Ok && final(self).owned() == old(
                        self,
                    ).owned().push(frame) + tables@,
                    MapAttempt::Failed { tables, message } => final(self).owned() == old(
                        self,
                    ).owned() + tables@ && r == Err::<(), MapError>(MapError::Paging(message)),
                }
            },
    {
        match Self::check_map(page, flags) {
            Ok(_) => {},
            Err(e) => {
                return Err(e);
            },
        }
        match attempt {
            MapAttempt::NoFrame => Err(MapError::OutOfMemory),
            MapAttempt::Mapped { frame, tables } => {
                let mut tables = tables;
                self.owned_frames.push(frame);
                self.owned_frames.append(&mut tables);
                Ok(())
            },
            MapAttempt::Failed { tables, message } => {
                let mut tables = tables;
                self.owned_frames.append(&mut tables);
                Err(MapError::Paging(message))
            },
        }
    }

    /// Changes an already-mapped page's permissions: refuses any address
    /// outside the lower half, and otherwise reports what the attempt
    /// gave, `Some` message being a failure.
    pub fn protect_page(&self, page: u64, failure: Option<String>) -> (r: Result<(), MapError>)
        ensures
            r == (if page >= USER_SPACE_END {
                Err(MapError::NotUserAddress(page))
            } else {
                match failure {
                    Some(message) => Err(MapError::Paging(message)),
                    None => Ok(()),
                }
            }),
    {
        if !is_user_address(page) {
            return Err(MapError::NotUserAddress(page));
        }
        match failure {
            Some(message) => Err(MapError::Paging(message)),
            None => Ok(()),
        }
    }

    /// Resolves a virtual address in this address space to its frame.
    pub fn translate(&self, mem: &[u8], addr: u64) -> (r: Option<u64>)
        requires
            self.wf(),
        ensures
            match r {
                Some(frame) => paging::translation(mem@, self.root() as int, addr) == Some(frame as int),
                None => paging::translation(mem@, self.root() as int, addr) is None,
            },
    {
        translate_in(mem, self.root, addr)
    }

    /// Copies `bytes` into this address space at `addr`, through the
    /// frames its tables lead to. Stops at the first address that has no
    /// memory behind it; what was written before stays.
    pub fn write_at(&self, mem: &mut [u8], addr: u64, bytes: &[u8]) -> (r: Result<(), MapError>)
        requires
            self.wf(),
            addr + bytes@.len() <= u64::MAX,
        ensures
            ({
                let (after, fault) = write_through(
                    old(mem)@,
                    self.root() as int,
                    addr as int,
                    bytes@,
                );
                &&& final(mem)@ == after
                &&& r == match fault {
                    None => Ok::<(), MapError>(()),
                    Some(at) => Err::<(), MapError>(MapError::NotMapped(at as u64)),
                }
            }),
    {
        write_in(self.root, mem, addr, bytes)
    }

    /// Zeroes `len` bytes at `addr` in this address space.
    pub fn zero_at(&self, mem: &mut [u8], addr: u64, len: usize) -> (r: Result<(), MapError>)
        requires
            self.wf(),
            addr + len <= u64::MAX,
        ensures
            ({
                let (after, fault) = write_through(
                    old(mem)@,
                    self.root() as int,
                    addr as int,
                    Seq::new(len as nat, |i: int| 0u8),
                );
                &&& final(mem)@ == after
                &&& r == match fault {
                    None => Ok::<(), MapError>(()),
                    Some(at) => Err::<(), MapError>(MapError::NotMapped(at as u64)),
                }
            }),
    {
        let mut done: usize = 0;
        let ghost zeros = Seq::new(len as nat, |i: int| 0u8);
        while done < len
            invariant
                self.wf(),
                done <= len,
                addr + len <= u64::MAX,
                zeros == Seq::new(len as nat, |i: int| 0u8),
                write_through(old(mem)@, self.root() as int, addr as int, zeros) == write_through(
                    mem@,
                    self.root() as int,
                    addr + done,
                    Seq::new((len - done) as nat, |i: int| 0u8),
                ),
            decreases len - done,
        {
            let ghost rest = Seq::new((len - done) as nat, |i: int| 0u8);
            let target: u64 = addr + done as u64;
            let page_offset: usize = (target % PAGE_SIZE) as usize;
            let left: usize = len - done;
            let chunk: usize = if 4096 - page_offset <= left {
                4096 - page_offset
            } else {
                left
            };
            let frame: u64 = match self.translate(mem, target) {
                Some(f) => f,
                None => {
                    return Err(MapError::NotMapped(target));
                },
            };
            let limit: u64 = mem.len() as u64;
            if limit < 4096 || frame > limit - 4096 {
                return Err(MapError::NotMapped(target));
            }
            fill_zero(mem, frame as usize + page_offset, chunk);
            assert(rest.subrange(0, chunk as int) =~= Seq::new(chunk as nat, |i: int| 0u8));
            assert(rest.subrange(chunk as int, rest.len() as int) =~= Seq::new(
                (len - done - chunk) as nat,
                |i: int| 0u8,
            ));
            done += chunk;
        }
        Ok(())
    }

    /// Whether `start..start + len` is entirely mapped, user-accessible
    /// and, if asked, writable in this address space: the question a
    /// system call needs answered about a pointer it was handed.
    pub fn range_is_accessible(
        &self,
        mem: &[u8],
        start: u64,
        len: u64,
        require_writable: bool,
    ) -> (r: bool)
        requires
            self.wf(),
        ensures
            r == range_permits(mem@, self.root() as int, start, len, require_writable),
    {
        range_is_accessible_in(self.root, mem, start, len, require_writable)
    }

    /// Gives every owned frame back to the pool, the root last: it is what
    /// the others were reached through. Returns how many were handed over,
    /// and what there is to log: a line for each frame that the pool
    /// refused, and one about the whole.
    pub fn tear_down(self, pool: &mut FramePool) -> (r: TornDown)
        requires
            old(pool).wf(),
            old(pool).released() + self.owned().len() + 1 <= u64::MAX,
            self.owned().len() < usize::MAX,
        ensures
            final(pool).wf(),
            final(pool)@ == released_all(old(pool)@, self.owned().push(self.root())),
            final(pool).released() == old(pool).released() + (final(pool)@.len() - old(
                pool,
            )@.len()),
            r.count == self.owned().len() + 1,
            text::texts(r.lines@) == refusals(
                old(pool)@,
                self.owned().push(self.root()),
            ).push(torn_down_line((self.owned().len() + 1) as nat)),
    {
        let mut i: usize = 0;
        let mut lines: Vec<String> = Vec::new();
        assert(text::texts(lines@) =~= Seq::<Seq<char>>::empty());
        assert(self.owned().subrange(0, 0) =~= Seq::<u64>::empty());
        while i < self.owned_frames.len()
            invariant
                i <= self.owned_frames.len(),
                self.owned().len() == self.owned_frames.len(),
                self.owned_frames.len() < usize::MAX,
                pool.wf(),
                old(pool).released() + self.owned().len() + 1 <= u64::MAX,
                pool.released() == old(pool).released() + (pool@.len() - old(pool)@.len()),
                pool@.len() <= old(pool)@.len() + i,
                pool@ == released_all(old(pool)@, self.owned().subrange(0, i as int)),
                text::texts(lines@) == refusals(
                    old(pool)@,
                    self.owned().subrange(0, i as int),
                ),
            decreases self.owned_frames.len() - i,
        {
            let ghost done = self.owned().subrange(0, i as int);
            let ghost said = text::texts(lines@);
            match release(pool, self.owned_frames[i]) {
                Some(line) => {
                    let ghost new = line@;
                    lines.push(line);
                    assert(text::texts(lines@) =~= said.push(new));
                },
                None => {},
            }
            i += 1;
            assert(self.owned().subrange(0, i as int).drop_last() =~= done);
        }
        assert(self.owned().subrange(0, i as int) =~= self.owned());
        let ghost said = text::texts(lines@);
        match release(pool, self.root) {
            Some(line) => {
                let ghost new = line@;
                lines.push(line);
                assert(text::texts(lines@) =~= said.push(new));
            },
            None => {},
        }
        assert(self.owned().push(self.root()).drop_last() =~= self.owned());
        let mut line = String::from_str("Najm Kernel: address space torn down - ");
        push_decimal(&mut line, (i + 1) as u64);
        line.append(" frames returned to the pool");
        let ghost refused = text::texts(lines@);
        let ghost last = line@;
        lines.push(line);
        assert(text::texts(lines@) =~= refused.push(last));
        TornDown { count: i + 1, lines }
    }
}

/// What giving an address space's memory back came to.
#[derive(Debug)]
pub struct TornDown {
    /// How many frames were handed over.
    pub count: usize,
    /// What there is to log.
    pub lines: Vec<String>,
}

/// The line about an address space that is gone.
pub open spec fn torn_down_line(count: nat) -> Seq<char> {
    "Najm Kernel: address space torn down - "@ + text::decimal(count)
        + " frames returned to the pool"@
}

/// The lines about frames that a pool refuses when they are released into
/// it one by one.
pub open spec fn refusals(free: Seq<u64>, frames: Seq<u64>) -> Seq<Seq<char>>
    decreases frames.len(),
{
    if frames.len() == 0 {
        Seq::empty()
    } else {
        let before = refusals(free, frames.drop_last());
        if released_all(free, frames.drop_last()).contains(frames.last()) {
            before.push(frame_pool::double_release_line(frames.last()))
        } else {
            before
        }
    }
}

/// What a pool holds after frames are released into it one by one.
pub open spec fn released_all(free: Seq<u64>, frames: Seq<u64>) -> Seq<u64>
    decreases frames.len(),
{
    if frames.len() == 0 {
        free
    } else {
        frame_pool::after_release(released_all(free, frames.drop_last()), frames.last())
    }
}

/// Whether a range is user memory that the space rooted at `root` owns.
pub open spec fn range_permits(
    mem: Seq<u8>,
    root: int,
    start: u64,
    len: u64,
    writable: bool,
) -> bool {
    len == 0 || ({
        &&& start + len <= USER_SPACE_END
        &&& forall|a: int|
            start <= a < start + len ==> paging::page_permits(
                mem,
                root,
                #[trigger] paging::page_base(a) as u64,
                writable,
            )
    })
}

/// Which root to load to make a space current: none where it already is.
#[derive(Debug, Clone, Copy, PartialEq, Eq, Structural)]
pub struct Switch {
    /// What was active, to be restored later.
    pub previous: u64,
    /// The root to load, unless it is loaded already.
    pub load: Option<u64>,
}

/// Makes `space` the active address space, where `current` is the root
/// that is loaded now.
pub fn activate(space: &AddressSpace, current: u64) -> (r: Switch)
    ensures
        r.previous == current,
        r.load == (if current == space.root() {
            None
        } else {
            Some(space.root())
        }),
{
    Switch {
        previous: current,
        load: if current == space.root {
            None
        } else {
            Some(space.root)
        },
    }
}

/// Restores a previously active root, where `current` is loaded now.
pub fn restore(root: u64, current: u64) -> (load: Option<u64>)
    ensures
        load == (if current == root {
            None
        } else {
            Some(root)
        }),
{
    if current == root {
        None
    } else {
        Some(root)
    }
}

/// The kernel's own top-level frame, recorded once at boot.
#[derive(Debug, Clone, Copy, PartialEq, Eq, Structural)]
pub struct KernelRoot {
    root: Option<u64>,
}

impl KernelRoot {
    /// The recorded root, if there is one yet.
    pub closed spec fn recorded(&self) -> Option<u64> {
        self.root
    }

    /// Nothing recorded yet.
    pub fn new() -> (r: KernelRoot)
        ensures
            r.recorded() is None,
    {
        KernelRoot { root: None }
    }
}

/// Records the kernel's root before any process exists. Captured once: a
/// later call changes nothing, because by then the active space may be a
/// process's.
pub fn record_kernel_root(state: &mut KernelRoot, current: u64)
    ensures
        final(state).recorded() == (match old(state).recorded() {
            Some(root) => Some(root),
            None => Some(current),
        }),
{
    if state.root.is_none() {
        state.root = Some(current);
    }
}

/// The kernel's own root: the one to return to when no process is current.
pub fn kernel_root(state: &KernelRoot) -> (root: u64)
    requires
        state.recorded() is Some,
    ensures
        state.recorded() == Some(root),
{
    match state.root {
        Some(root) => root,
        None => 0,
    }
}

// ---------------------------------------------------------------------
// Laws
// ---------------------------------------------------------------------

/// A new address space maps nothing in its lower half.
pub proof fn law_new_space_is_empty(mem: Seq<u8>, root: int, kernel_root: int, addr: u64)
    requires
        root >= 0,
        root + 4096 <= mem.len(),
        addr < 0x0000_8000_0000_0000,
    ensures
        paging::translation(fresh_root(mem, root, kernel_root), root, addr) is None,
{
    let fresh = fresh_root(mem, root, kernel_root);
    let index = paging::table_index(addr as int, 4);
    assert(0 <= index < 256) by {
        reveal(paging::table_index);
    }
    let slot = root + 8 * index;
    assert(forall|i: int| slot <= i < slot + 8 ==> fresh[i] == 0);
    assert(bytes::le64(fresh, slot) == 0);
    assert(paging::entry_at(fresh, root, index) == Some(0u64));
    assert(0u64 & PRESENT == 0) by (bit_vector);
}

/// A new address space sees the kernel exactly as the kernel does: every
/// higher-half address goes through the same tables to the same frame,
/// unless one of those tables is the very frame the new root was put in.
#[verifier::spinoff_prover]
#[verifier::rlimit(40)]
pub proof fn law_new_space_shares_the_kernel(mem: Seq<u8>, root: int, kernel_root: int, addr: u64)
    requires
        root >= 0,
        kernel_root >= 0,
        root + 4096 <= mem.len(),
        kernel_root + 4096 <= mem.len(),
        root + 4096 <= kernel_root || kernel_root + 4096 <= root,
        addr >= layout::HIGHER_HALF_START,
        forall|pos: int|
            root <= pos < root + 4096 ==> !#[trigger] paging::walk_reads(
                mem,
                kernel_root,
                addr as int,
                4,
                pos,
            ),
    ensures
        paging::translation(fresh_root(mem, root, kernel_root), root, addr) == paging::translation(
            mem,
            kernel_root,
            addr,
        ),
{
    let fresh = fresh_root(mem, root, kernel_root);
    let index = paging::table_index(addr as int, 4);
    assert(256 <= index < 512) by {
        reveal(paging::table_index);
    }
    let slot = root + 8 * index;
    let kernel_slot = kernel_root + 8 * index;
    assert(forall|i: int|
        slot <= i < slot + 8 ==> #[trigger] fresh[i] == mem[kernel_root + (i - root)]);
    assert(fresh[slot] == mem[kernel_slot]);
    assert(fresh[slot + 1] == mem[kernel_slot + 1]);
    assert(fresh[slot + 2] == mem[kernel_slot + 2]);
    assert(fresh[slot + 3] == mem[kernel_slot + 3]);
    assert(fresh[slot + 4] == mem[kernel_slot + 4]);
    assert(fresh[slot + 5] == mem[kernel_slot + 5]);
    assert(fresh[slot + 6] == mem[kernel_slot + 6]);
    assert(fresh[slot + 7] == mem[kernel_slot + 7]);
    assert(bytes::le64(fresh, slot) == bytes::le64(mem, kernel_slot));
    let entry = paging::entry_at(mem, kernel_root, index).unwrap();
    assert(paging::entry_at(fresh, root, index) == Some(entry));
    let next = paging::entry_frame(entry);
    assert forall|pos: int|
        0 <= pos < mem.len() && #[trigger] paging::walk_reads(mem, next, addr as int, 3, pos) implies mem[pos]
        == fresh[pos] by {
        assert(paging::walk_reads(mem, kernel_root, addr as int, 4, pos));
    }
    paging::lemma_walk_depends_on_reads(mem, fresh, next, addr as int, 3);
}

/// The physical byte behind virtual address `a`.
pub open spec fn backing(mem: Seq<u8>, root: int, a: int) -> int {
    paging::translation(mem, root, a as u64).unwrap() + a % 4096
}

/// A range that can be written: every byte has memory behind it, distinct
/// pages have distinct frames, and none of those frames is a table that
/// the range's own translations go through.
pub open spec fn range_is_ordinary(mem: Seq<u8>, root: int, start: int, len: int) -> bool {
    &&& 0 <= start && start + len <= USER_SPACE_END
    &&& forall|a: int|
        start <= a < start + len ==> (#[trigger] paging::translation(mem, root, a as u64) matches Some(f)
            && f + 4096 <= mem.len())
    &&& forall|a: int, b: int|
        #![trigger paging::translation(mem, root, a as u64), paging::translation(mem, root, b as u64)]
        start <= a < start + len && start <= b < start + len && paging::page_base(a) != paging::page_base(b)
            ==> paging::translation(mem, root, a as u64) != paging::translation(mem, root, b as u64)
    &&& forall|a: int, b: int, pos: int|
        #![trigger paging::translation(mem, root, a as u64), paging::walk_reads(mem, root, b, 4, pos)]
        start <= a < start + len && start <= b < start + len && paging::walk_reads(mem, root, b, 4, pos)
            ==> !(paging::translation(mem, root, a as u64).unwrap() <= pos < paging::translation(
            mem,
            root,
            a as u64,
        ).unwrap() + 4096)
}

/// What a read gives back of a write: in an ordinary range a write
/// succeeds, every byte of it is then found through the same translation,
/// and no byte of memory outside the range's backing changes.
#[verifier::spinoff_prover]
#[verifier::rlimit(40)]
pub proof fn law_write_then_read(mem: Seq<u8>, root: int, addr: int, data: Seq<u8>)
    requires
        root >= 0,
        range_is_ordinary(mem, root, addr, data.len() as int),
    ensures
        ({
            let (after, fault) = write_through(mem, root, addr, data);
            &&& fault is None
            &&& after.len() == mem.len()
            &&& forall|a: int|
                addr <= a < addr + data.len() ==> #[trigger] paging::translation(after, root, a as u64)
                    == paging::translation(mem, root, a as u64)
            &&& forall|a: int|
                addr <= a < addr + data.len() ==> after[#[trigger] backing(mem, root, a)] == data[a
                    - addr]
            &&& forall|pos: int|
                0 <= pos < mem.len() && (forall|a: int|
                    addr <= a < addr + data.len() ==> #[trigger] backing(mem, root, a) != pos)
                    ==> #[trigger] after[pos] == mem[pos]
        }),
    decreases data.len(),
{
    if data.len() > 0 {
        let n = data.len() as int;
        let chunk = chunk_len(addr, n);
        assert(paging::translation(mem, root, addr as u64) is Some);
        let frame = paging::translation(mem, root, addr as u64).unwrap();
        paging::lemma_walk_aligned(mem, root, addr, 4);
        let off = addr % 4096;
        let head = data.subrange(0, chunk);
        let rest = data.subrange(chunk, n);
        let mid = bytes::overwritten(mem, frame + off, head);
        // The chunk stays inside one page, so inside one frame.
        assert forall|a: int| addr <= a < addr + chunk implies #[trigger] paging::translation(
            mem,
            root,
            a as u64,
        ) == Some(frame) && backing(mem, root, a) == frame + off + (a - addr) by {
            assert(paging::page_base(a) == paging::page_base(addr));
            paging::lemma_walk_same_page(mem, root, a, addr, 4);
        }
        // Every translation of the range is untouched by it.
        assert forall|b: int| addr <= b < addr + n implies #[trigger] paging::translation(
            mid,
            root,
            b as u64,
        ) == paging::translation(mem, root, b as u64) by {
            lemma_translation_survives(mem, mid, root, addr, b, frame, off, head);
        }
        assert forall|b: int, pos: int| addr <= b < addr + n implies #[trigger] paging::walk_reads(
            mid,
            root,
            b,
            4,
            pos,
        ) == paging::walk_reads(mem, root, b, 4, pos) by {
            lemma_translation_survives(mem, mid, root, addr, b, frame, off, head);
        }
        assert(range_is_ordinary(mid, root, addr + chunk, n - chunk));
        law_write_then_read(mid, root, addr + chunk, rest);
        let after = write_through(mid, root, addr + chunk, rest).0;
        assert(write_through(mem, root, addr, data) == write_through(
            mid,
            root,
            addr + chunk,
            rest,
        ));
        assert forall|a: int| addr <= a < addr + n implies #[trigger] paging::translation(
            after,
            root,
            a as u64,
        ) == paging::translation(mem, root, a as u64) by {
            if a < addr + chunk {
                lemma_later_writes_keep_walk(mem, mid, after, root, addr, chunk, n, a);
            } else {
                assert(paging::translation(mid, root, a as u64) == paging::translation(mem, root, a as u64));
            }
        }
        assert forall|a: int| addr <= a < addr + n implies after[#[trigger] backing(mem, root, a)]
            == data[a - addr] by {
            if a < addr + chunk {
                let pos = backing(mem, root, a);
                assert(paging::translation(mem, root, a as u64) == Some(frame));
                assert(mid[pos] == head[a - addr]);
                assert forall|b: int| addr + chunk <= b < addr + n implies #[trigger] backing(
                    mid,
                    root,
                    b,
                ) != pos by {
                    lemma_backings_differ(mem, root, addr, n, a, b);
                    assert(paging::translation(mid, root, b as u64) == paging::translation(mem, root, b as u64));
                }
            } else {
                assert(paging::translation(mid, root, a as u64) == paging::translation(mem, root, a as u64));
                assert(after[backing(mid, root, a)] == rest[a - (addr + chunk)]);
            }
        }
        assert forall|pos: int|
            0 <= pos < mem.len() && (forall|a: int|
                addr <= a < addr + n ==> #[trigger] backing(mem, root, a) != pos) implies #[trigger]
        after[pos] == mem[pos] by {
            assert forall|b: int| addr + chunk <= b < addr + n implies #[trigger] backing(
                mid,
                root,
                b,
            ) != pos by {
                assert(paging::translation(mid, root, b as u64) == paging::translation(mem, root, b as u64));
                assert(backing(mem, root, b) != pos);
            }
            if frame + off <= pos < frame + off + chunk {
                let a = addr + (pos - frame - off);
                assert(paging::translation(mem, root, a as u64) == Some(frame));
                assert(backing(mem, root, a) == pos);
            }
            assert(mid[pos] == mem[pos]);
        }
    }
}

/// One chunk of a write leaves the translations of the range alone.
proof fn lemma_translation_survives(
    mem: Seq<u8>,
    mid: Seq<u8>,
    root: int,
    a: int,
    b: int,
    frame: int,
    off: int,
    head: Seq<u8>,
)
    requires
        root >= 0,
        0 <= b < USER_SPACE_END,
        paging::translation(mem, root, a as u64) == Some(frame),
        0 <= off,
        off + head.len() <= 4096,
        mid == bytes::overwritten(mem, frame + off, head),
        forall|pos: int|
            #[trigger] paging::walk_reads(mem, root, b, 4, pos) ==> !(frame <= pos < frame + 4096),
    ensures
        paging::translation(mid, root, b as u64) == paging::translation(mem, root, b as u64),
        forall|pos: int|
            paging::walk_reads(mem, root, b, 4, pos) == #[trigger] paging::walk_reads(mid, root, b, 4, pos),
{
    assert forall|pos: int|
        0 <= pos < mem.len() && #[trigger] paging::walk_reads(mem, root, b, 4, pos) implies mem[pos]
        == mid[pos] by {}
    paging::lemma_walk_depends_on_reads(mem, mid, root, b, 4);
}

/// The chunks that follow leave the translation of an earlier byte alone.
proof fn lemma_later_writes_keep_walk(
    mem: Seq<u8>,
    mid: Seq<u8>,
    after: Seq<u8>,
    root: int,
    addr: int,
    chunk: int,
    n: int,
    a: int,
)
    requires
        root >= 0,
        range_is_ordinary(mem, root, addr, n),
        0 < chunk <= n,
        addr <= a < addr + chunk,
        mid.len() == mem.len(),
        after.len() == mem.len(),
        forall|b: int|
            addr <= b < addr + n ==> #[trigger] paging::translation(mid, root, b as u64) == paging::translation(
                mem,
                root,
                b as u64,
            ),
        forall|b: int, pos: int|
            addr <= b < addr + n ==> #[trigger] paging::walk_reads(mid, root, b, 4, pos) == paging::walk_reads(
                mem,
                root,
                b,
                4,
                pos,
            ),
        forall|pos: int|
            0 <= pos < mid.len() && (forall|b: int|
                addr + chunk <= b < addr + n ==> #[trigger] backing(mid, root, b) != pos)
                ==> #[trigger] after[pos] == mid[pos],
    ensures
        paging::translation(after, root, a as u64) == paging::translation(mem, root, a as u64),
{
    assert forall|pos: int|
        0 <= pos < mid.len() && #[trigger] paging::walk_reads(mid, root, a, 4, pos) implies mid[pos]
        == after[pos] by {
        assert(paging::walk_reads(mem, root, a, 4, pos));
        assert forall|b: int| addr + chunk <= b < addr + n implies #[trigger] backing(
            mid,
            root,
            b,
        ) != pos by {
            assert(paging::translation(mid, root, b as u64) == paging::translation(mem, root, b as u64));
            assert(paging::translation(mem, root, b as u64) is Some);
        }
    }
    paging::lemma_walk_depends_on_reads(mid, after, root, a, 4);
    assert(paging::translation(mid, root, a as u64) == paging::translation(mem, root, a as u64));
}

/// Distinct bytes of an ordinary range have distinct bytes behind them.
#[verifier::spinoff_prover]
#[verifier::rlimit(40)]
proof fn lemma_backings_differ(mem: Seq<u8>, root: int, addr: int, n: int, a: int, b: int)
    requires
        root >= 0,
        range_is_ordinary(mem, root, addr, n),
        addr <= a < addr + n,
        addr <= b < addr + n,
        a != b,
    ensures
        backing(mem, root, a) != backing(mem, root, b),
{
    assert(paging::translation(mem, root, a as u64) is Some);
    assert(paging::translation(mem, root, b as u64) is Some);
    paging::lemma_walk_aligned(mem, root, a, 4);
    paging::lemma_walk_aligned(mem, root, b, 4);
    if paging::page_base(a) == paging::page_base(b) {
        paging::lemma_walk_same_page(mem, root, a, b, 4);
    } else {
        let fa = paging::translation(mem, root, a as u64).unwrap();
        let fb = paging::translation(mem, root, b as u64).unwrap();
        assert(fa != fb);
    }
}

/// Tearing a space down hands back every frame it owned and its root.
pub proof fn law_teardown_returns_everything(free: Seq<u64>, frames: Seq<u64>, frame: u64)
    requires
        free.contains(frame) || frames.contains(frame),
    ensures
        released_all(free, frames).contains(frame),
    decreases frames.len(),
{
    if frames.len() > 0 {
        let before = released_all(free, frames.drop_last());
        if frame == frames.last() {
            if !before.contains(frame) {
                assert(before.push(frame)[before.len() as int] == frame);
            }
        } else {
            if frames.contains(frame) {
                let i = frames.index_of(frame);
                assert(frames.drop_last()[i] == frame);
            }
            law_teardown_returns_everything(free, frames.drop_last(), frame);
            let i = before.index_of(frame);
            assert(before.push(frames.last())[i] == frame);
        }
    }
}

/// Tearing a space down hands back nothing else.
pub proof fn law_teardown_returns_only_its_own(free: Seq<u64>, frames: Seq<u64>, frame: u64)
    requires
        released_all(free, frames).contains(frame),
    ensures
        free.contains(frame) || frames.contains(frame),
    decreases frames.len(),
{
    if frames.len() > 0 {
        let before = released_all(free, frames.drop_last());
        if frame == frames.last() {
            assert(frames[frames.len() - 1] == frame);
        } else {
            let after = frame_pool::after_release(before, frames.last());
            let i = after.index_of(frame);
            assert(before.contains(frame)) by {
                if !before.contains(frames.last()) {
                    assert(before[i] == frame);
                }
            }
            law_teardown_returns_only_its_own(free, frames.drop_last(), frame);
            if frames.drop_last().contains(frame) {
                let j = frames.drop_last().index_of(frame);
                assert(frames[j] == frame);
            }
        }
    }
}

/// A torn-down space gives back its frames in order, each once: those that
/// were not free yet are free behind the others, and every other one is
/// reported.
pub proof fn law_frames_are_given_back_once(free: Seq<u64>, frames: Seq<u64>)
    ensures
        released_all(free, frames).len() + refusals(free, frames).len() == free.len()
            + frames.len(),
        (forall|i: int| 0 <= i < frames.len() ==> !free.contains(#[trigger] frames[i]))
            && frames.no_duplicates() ==> released_all(free, frames) == free + frames && refusals(
            free,
            frames,
        ).len() == 0,
    decreases frames.len(),
{
    if frames.len() == 0 {
        assert(free + frames =~= free);
    } else {
        let front = frames.drop_last();
        let last = frames.last();
        law_frames_are_given_back_once(free, front);
        if (forall|i: int| 0 <= i < frames.len() ==> !free.contains(#[trigger] frames[i]))
            && frames.no_duplicates() {
            assert forall|i: int| 0 <= i < front.len() implies !free.contains(
                #[trigger] front[i],
            ) by {
                assert(front[i] == frames[i]);
            }
            assert(front.no_duplicates()) by {
                assert forall|i: int, j: int| 0 <= i < front.len() && 0 <= j < front.len() && i
                    != j implies front[i] != front[j] by {
                    assert(frames[i] != frames[j]);
                }
            }
            let all = free + front;
            if all.contains(last) {
                let k = all.index_of(last);
                if k < free.len() {
                    assert(free[k] == last);
                    assert(!free.contains(frames[frames.len() - 1]));
                } else {
                    assert(frames[k - free.len()] == last);
                    assert(frames[frames.len() - 1] == last);
                }
            }
            assert(all.push(last) =~= free + frames);
        }
    }
}

/// A program may use a range exactly where every page of it is the
/// program's to use, and nothing of it is past the user half.
pub proof fn law_ranges_are_checked_page_by_page(
    mem: Seq<u8>,
    root: int,
    start: u64,
    len: u64,
    writable: bool,
)
    ensures
        len == 0 ==> range_permits(mem, root, start, len, writable),
        len > 0 && start + len > 0x7fff_ffff_f000 ==> !range_permits(
            mem,
            root,
            start,
            len,
            writable,
        ),
        len > 0 && start + len <= 0x7fff_ffff_f000 ==> (range_permits(
            mem,
            root,
            start,
            len,
            writable,
        ) <==> (forall|page: int|
            page % 4096 == 0 && start < page + 4096 && page < start + len
                ==> #[trigger] paging::page_permits(mem, root, page as u64, writable))),
{
    if len > 0 && start + len <= 0x7fff_ffff_f000 {
        if range_permits(mem, root, start, len, writable) {
            assert forall|page: int|
                page % 4096 == 0 && start < page + 4096 && page < start + len implies
                #[trigger] paging::page_permits(mem, root, page as u64, writable) by {
                let a = if page >= start {
                    page
                } else {
                    start as int
                };
                assert(paging::page_base(a) == page);
            }
        }
        if forall|page: int|
            page % 4096 == 0 && start < page + 4096 && page < start + len
                ==> #[trigger] paging::page_permits(mem, root, page as u64, writable) {
            assert forall|a: int| start <= a < start + len implies paging::page_permits(
                mem,
                root,
                #[trigger] paging::page_base(a) as u64,
                writable,
            ) by {
                let page = paging::page_base(a);
                assert(page % 4096 == 0);
                assert(paging::page_permits(mem, root, page as u64, writable));
            }
        }
    }
}

/// What a new space starts with: its upper half is the kernel's, entry for
/// entry, its lower half is empty, and no other memory changes.
pub proof fn law_new_space_is_half_the_kernels(
    mem: Seq<u8>,
    root: int,
    kernel_root: int,
    i: int,
)
    requires
        0 <= root,
        root + 4096 <= mem.len(),
        0 <= kernel_root,
        kernel_root + 4096 <= mem.len(),
    ensures
        fresh_root(mem, root, kernel_root).len() == mem.len(),
        0 <= i < 2048 ==> fresh_root(mem, root, kernel_root)[root + i] == 0,
        2048 <= i < 4096 ==> fresh_root(mem, root, kernel_root)[root + i] == mem[kernel_root + i],
        0 <= i < mem.len() && !(root <= i < root + 4096) ==> fresh_root(mem, root, kernel_root)[i]
            == mem[i],
{
}

/// The log says how many frames a torn-down space gave back.
pub proof fn law_teardown_is_logged(count: nat)
    ensures
        text::says(
            torn_down_line(count),
            seq![
                text::decimal(count),
            ],
        ),
{
    let none = Seq::<Seq<char>>::empty();
    let start = "Najm Kernel: address space torn down - "@;
    text::lemma_says(start, none, text::decimal(count), " frames returned to the pool"@);
    let line1 = start + text::decimal(count) + " frames returned to the pool"@;
    let parts1 = none.push(text::decimal(count));
    assert(parts1 =~= seq![text::decimal(count)]);
    assert(torn_down_line(count) =~= line1);
}

} // verus!
