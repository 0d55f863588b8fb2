//! The ELF64 loader: validates a program file and plans its private
//! address space.
//!
//! Only fixed-address (`ET_EXEC`) x86_64 programs are supported. A
//! malformed file is an error a caller can report, never a panic.
use vstd::prelude::*;
use crate::abi::layout;
use crate::bytes::{self, read_u16, read_u32, read_u64};
use crate::image::{self, push_line, LogLine, LogLineView, Ready, Step, StepView};
use crate::mm::address_space::MapError;
use crate::mm::paging::{self, page_containing, PageFlags};
use crate::text::{self, push_decimal, push_hexadecimal};

verus! {

broadcast use vstd::slice::group_slice_axioms;

pub const ELFCLASS64: u8 = 2;

pub const ELFDATA2LSB: u8 = 1;

pub const ET_EXEC: u16 = 2;

pub const EM_X86_64: u16 = 0x3E;

pub const PT_LOAD: u32 = 1;

/// Segment permission bits of a program header.
pub const PF_X: u32 = 1;

pub const PF_W: u32 = 2;

pub const PF_R: u32 = 4;

pub const NOT_READABLE: &'static str =
    "segment is not readable - x86_64 paging cannot express that";

pub const WRITE_AND_EXECUTE: &'static str =
    "segment requests both write and execute permission; Najm OS enforces W^X, so a \
             writable segment can never be executable. Split it into separate PT_LOAD segments \
             on page boundaries.";

pub const SHARED_PAGE: &'static str =
    "two segments share a page, so they cannot have different \
                             permissions - page-align them in the linker script";

/// Why building an image's address space failed.
#[derive(Debug)]
pub enum LoadError {
    NotAnElf(&'static str),
    BadSegment { index: usize, vaddr: u64, reason: &'static str },
    Mapping(MapError),
    OutOfMemory,
}

impl LoadError {
    /// What `message` says.
    pub open spec fn text(&self) -> Seq<char> {
        match self {
            LoadError::NotAnElf(why) => "not a loadable ELF64 image: "@ + why@,
            LoadError::BadSegment { index, vaddr, reason } => "segment "@ + text::decimal(
                *index as nat,
            ) + " at 0x"@ + text::hexadecimal(*vaddr as nat) + " is not loadable: "@ + reason@,
            LoadError::Mapping(e) => "could not map the image: "@ + e.text(),
            LoadError::OutOfMemory => "out of memory building the address space"@,
        }
    }

    /// A sentence for the log.
    pub fn message(&self) -> (out: String)
        ensures
            out@ == self.text(),
    {
        match self {
            LoadError::NotAnElf(why) => {
                let mut out = String::from_str("not a loadable ELF64 image: ");
                out.append(*why);
                out
            },
            LoadError::BadSegment { index, vaddr, reason } => {
                let mut out = String::from_str("segment ");
                push_decimal(&mut out, *index as u64);
                out.append(" at 0x");
                push_hexadecimal(&mut out, *vaddr);
                out.append(" is not loadable: ");
                out.append(*reason);
                out
            },
            LoadError::Mapping(e) => {
                let mut out = String::from_str("could not map the image: ");
                out.append(e.message().as_str());
                out
            },
            LoadError::OutOfMemory => String::from_str("out of memory building the address space"),
        }
    }
}

/// The page permissions a segment's declared ones come to, or why they are
/// refused. Writable implies not executable; what is not readable cannot
/// be expressed at all.
pub open spec fn flags_for(p_flags: u32, nx_available: bool) -> Result<PageFlags, &'static str> {
    if p_flags & PF_R == 0 {
        Err(NOT_READABLE)
    } else if p_flags & PF_W != 0 && p_flags & PF_X != 0 {
        Err(WRITE_AND_EXECUTE)
    } else {
        Ok(
            PageFlags {
                writable: p_flags & PF_W != 0,
                user_accessible: true,
                no_execute: p_flags & PF_X == 0 && nx_available,
            },
        )
    }
}

/// Turns a segment's declared permissions into page permissions, enforcing
/// that a writable page is never executable.
pub fn segment_flags(p_flags: u32, nx_available: bool) -> (r: Result<PageFlags, &'static str>)
    ensures
        r == flags_for(p_flags, nx_available),
{
    let readable = p_flags & PF_R != 0;
    let writable = p_flags & PF_W != 0;
    let executable = p_flags & PF_X != 0;
    if !readable {
        return Err(NOT_READABLE);
    }
    if writable && executable {
        return Err(WRITE_AND_EXECUTE);
    }
    Ok(
        PageFlags {
            writable,
            user_accessible: true,
            no_execute: !executable && nx_available,
        },
    )
}

/// The header fields the loader needs.
#[derive(Debug, Clone, Copy, PartialEq, Eq, Structural)]
pub struct ElfHeader {
    pub entry: u64,
    pub phoff: usize,
    pub phentsize: usize,
    pub phnum: usize,
}

/// Which check refuses a file's header first, or what it says.
pub open spec fn header_of(s: Seq<u8>) -> Result<ElfHeader, LoadError> {
    let phoff = bytes::le64(s, 32);
    let phentsize = bytes::le16(s, 54);
    let phnum = bytes::le16(s, 56);
    if s.len() < 64 {
        Err(LoadError::NotAnElf("smaller than an ELF64 header"))
    } else if !(s[0] == 0x7f && s[1] == 0x45 && s[2] == 0x4c && s[3] == 0x46) {
        Err(LoadError::NotAnElf("wrong magic number"))
    } else if s[4] != ELFCLASS64 {
        Err(LoadError::NotAnElf("not 64-bit"))
    } else if s[5] != ELFDATA2LSB {
        Err(LoadError::NotAnElf("not little-endian"))
    } else if bytes::le16(s, 16) != ET_EXEC {
        Err(LoadError::NotAnElf("not ET_EXEC - PIE and dynamic linking are not supported"))
    } else if bytes::le16(s, 18) != EM_X86_64 {
        Err(LoadError::NotAnElf("not x86_64"))
    } else if phentsize < 56 {
        Err(
            LoadError::NotAnElf(
                "program header entries are too small to contain the fields the loader reads",
            ),
        )
    } else if phoff + phnum * phentsize > u64::MAX {
        Err(LoadError::NotAnElf("program header table offset overflows"))
    } else if phoff + phnum * phentsize > s.len() {
        Err(LoadError::NotAnElf("program header table extends past the end of the image"))
    } else {
        Ok(
            ElfHeader {
                entry: bytes::le64(s, 24) as u64,
                phoff: phoff as usize,
                phentsize: phentsize as usize,
                phnum: phnum as usize,
            },
        )
    }
}

/// Validates the header completely before any segment is read, so that a
/// truncated or hostile file produces one clear error.
pub fn parse_header(bytes: &[u8]) -> (r: Result<ElfHeader, LoadError>)
    ensures
        r == header_of(bytes@),
{
    if bytes.len() < 64 {
        return Err(LoadError::NotAnElf("smaller than an ELF64 header"));
    }
    if !(bytes[0] == 0x7f && bytes[1] == 0x45 && bytes[2] == 0x4c && bytes[3] == 0x46) {
        return Err(LoadError::NotAnElf("wrong magic number"));
    }
    if bytes[4] != ELFCLASS64 {
        return Err(LoadError::NotAnElf("not 64-bit"));
    }
    if bytes[5] != ELFDATA2LSB {
        return Err(LoadError::NotAnElf("not little-endian"));
    }
    if read_u16(bytes, 16) != ET_EXEC {
        return Err(LoadError::NotAnElf("not ET_EXEC - PIE and dynamic linking are not supported"));
    }
    if read_u16(bytes, 18) != EM_X86_64 {
        return Err(LoadError::NotAnElf("not x86_64"));
    }
    let phoff: u64 = read_u64(bytes, 32);
    let phentsize: u64 = read_u16(bytes, 54) as u64;
    let phnum: u64 = read_u16(bytes, 56) as u64;
    if phentsize < 56 {
        return Err(
            LoadError::NotAnElf(
                "program header entries are too small to contain the fields the loader reads",
            ),
        );
    }
    assert(phnum * phentsize <= 0x1_0000 * 0x1_0000) by (nonlinear_arith)
        requires
            phnum <= 0x1_0000,
            phentsize <= 0x1_0000,
    ;
    let table_size: u64 = phnum * phentsize;
    let table_end: u64 = match phoff.checked_add(table_size) {
        Some(end) => end,
        None => {
            return Err(LoadError::NotAnElf("program header table offset overflows"));
        },
    };
    if table_end > bytes.len() as u64 {
        return Err(LoadError::NotAnElf("program header table extends past the end of the image"));
    }
    Ok(
        ElfHeader {
            entry: read_u64(bytes, 24),
            phoff: phoff as usize,
            phentsize: phentsize as usize,
            phnum: phnum as usize,
        },
    )
}

/// One program header.
#[derive(Debug, Clone, Copy, PartialEq, Eq, Structural)]
pub struct Segment {
    pub kind: u32,
    pub flags: u32,
    pub offset: u64,
    pub vaddr: u64,
    pub filesz: u64,
    pub memsz: u64,
}

/// The program header at file offset `at`.
pub open spec fn segment_at(s: Seq<u8>, at: int) -> Segment {
    Segment {
        kind: bytes::le32(s, at) as u32,
        flags: bytes::le32(s, at + 4) as u32,
        offset: bytes::le64(s, at + 8) as u64,
        vaddr: bytes::le64(s, at + 16) as u64,
        filesz: bytes::le64(s, at + 32) as u64,
        memsz: bytes::le64(s, at + 40) as u64,
    }
}

/// Program header `i`.
pub open spec fn segment(s: Seq<u8>, h: ElfHeader, i: int) -> Segment {
    segment_at(s, h.phoff + i * h.phentsize)
}

fn read_segment(bytes: &[u8], at: usize) -> (r: Segment)
    requires
        at + 56 <= bytes.len(),
    ensures
        r == segment_at(bytes@, at as int),
{
    Segment {
        kind: read_u32(bytes, at),
        flags: read_u32(bytes, at + 4),
        offset: read_u64(bytes, at + 8),
        vaddr: read_u64(bytes, at + 16),
        filesz: read_u64(bytes, at + 32),
        memsz: read_u64(bytes, at + 40),
    }
}

/// The first and last page of a segment.
#[derive(Debug, Clone, Copy, PartialEq, Eq, Structural)]
pub struct PageRange {
    pub first: u64,
    pub last: u64,
}

/// The lowest page of `first..=last` that one of `mapped` holds already.
pub open spec fn shared_page(mapped: Seq<PageRange>, first: int, last: int) -> Option<int>
    decreases mapped.len(),
{
    if mapped.len() == 0 {
        None
    } else {
        let r = mapped.last();
        let low = if r.first >= first {
            r.first as int
        } else {
            first
        };
        let rest = shared_page(mapped.drop_last(), first, last);
        if low <= last && low <= r.last {
            match rest {
                Some(page) if page < low => rest,
                _ => Some(low),
            }
        } else {
            rest
        }
    }
}

/// Why a loadable segment is refused before anything of it is mapped.
pub open spec fn segment_fault(s: Seq<u8>, x: Segment, i: int, nx: bool) -> Option<LoadError> {
    let bad = |reason: &'static str| LoadError::BadSegment {
        index: i as usize,
        vaddr: x.vaddr,
        reason,
    };
    match flags_for(x.flags, nx) {
        Err(reason) => Some(bad(reason)),
        Ok(_) => if x.vaddr >= layout::USER_SPACE_END {
            Some(bad("load address is outside user space"))
        } else if x.filesz > x.memsz {
            Some(bad("file size exceeds memory size"))
        } else if x.offset + x.filesz > u64::MAX {
            Some(bad("file offset + size overflows"))
        } else if x.offset + x.filesz > s.len() {
            Some(bad("segment extends past the end of the image"))
        } else if x.vaddr + x.memsz > u64::MAX {
            Some(bad("vaddr + memsz overflows"))
        } else {
            None
        },
    }
}

/// Permissions while a segment is being filled in.
pub open spec fn load_flags() -> PageFlags {
    PageFlags { writable: true, user_accessible: true, no_execute: false }
}

/// What planning one program header adds: steps, and then either the pages
/// it now holds (none for a header that loads nothing) or the error that
/// ends the load.
#[verifier::opaque]
pub open spec fn segment_plan(
    s: Seq<u8>,
    x: Segment,
    i: int,
    nx: bool,
    mapped: Seq<PageRange>,
) -> (Seq<StepView>, Result<Option<PageRange>, LoadError>) {
    let first = paging::page_base(x.vaddr as int);
    let last = paging::page_base(x.vaddr + x.memsz - 1);
    if x.kind != PT_LOAD {
        (Seq::empty(), Ok(None))
    } else if segment_fault(s, x, i, nx) is Some {
        (Seq::empty(), Err(segment_fault(s, x, i, nx).unwrap()))
    } else if x.memsz == 0 {
        (Seq::empty(), Ok(None))
    } else {
        match shared_page(mapped, first, last) {
            Some(page) => (
                seq![
                    StepView::MapPages {
                        first: first as u64,
                        pages: ((page - first) / 4096) as u64,
                        flags: load_flags(),
                    },
                ],
                Err(
                    LoadError::BadSegment {
                        index: i as usize,
                        vaddr: page as u64,
                        reason: SHARED_PAGE,
                    },
                ),
            ),
            None => if last >= layout::USER_SPACE_END {
                (
                    seq![
                        StepView::MapPages {
                            first: first as u64,
                            pages: ((layout::USER_SPACE_END - first) / 4096) as u64,
                            flags: load_flags(),
                        },
                    ],
                    Err(
                        LoadError::Mapping(
                            MapError::NotUserAddress(layout::USER_SPACE_END),
                        ),
                    ),
                )
            } else {
                let pages = ((last - first) / 4096 + 1) as u64;
                (
                    seq![
                        StepView::MapPages { first: first as u64, pages, flags: load_flags() },
                        StepView::Zero { addr: first as u64, len: (last + 4096 - first) as u64 },
                        StepView::Copy {
                            addr: x.vaddr,
                            from: x.offset as usize,
                            to: (x.offset + x.filesz) as usize,
                        },
                        StepView::Protect {
                            first: first as u64,
                            pages,
                            flags: flags_for(x.flags, nx)->Ok_0,
                        },
                    ],
                    Ok(Some(PageRange { first: first as u64, last: last as u64 })),
                )
            },
        }
    }
}

fn lowest_shared_page(mapped: &Vec<PageRange>, first: u64, last: u64) -> (r: Option<u64>)
    ensures
        match r {
            Some(page) => shared_page(mapped@, first as int, last as int) == Some(page as int)
                && first <= page <= last,
            None => shared_page(mapped@, first as int, last as int) is None,
        },
{
    let mut best: Option<u64> = None;
    let mut i: usize = 0;
    while i < mapped.len()
        invariant
            i <= mapped.len(),
            match best {
                Some(page) => shared_page(
                    mapped@.subrange(0, i as int),
                    first as int,
                    last as int,
                ) == Some(page as int) && first <= page <= last,
                None => shared_page(
                    mapped@.subrange(0, i as int),
                    first as int,
                    last as int,
                ) is None,
            },
        decreases mapped.len() - i,
    {
        let r: PageRange = mapped[i];
        let low: u64 = if r.first >= first {
            r.first
        } else {
            first
        };
        if low <= last && low <= r.last {
            match best {
                Some(page) => {
                    if !(page < low) {
                        best = Some(low);
                    }
                },
                None => {
                    best = Some(low);
                },
            }
        }
        assert(mapped@.subrange(0, i + 1).drop_last() =~= mapped@.subrange(0, i as int));
        i += 1;
    }
    assert(mapped@.subrange(0, mapped@.len() as int) =~= mapped@);
    best
}

fn check_segment(bytes: &[u8], x: &Segment, index: usize, nx_available: bool) -> (r: Result<
    PageFlags,
    LoadError,
>)
    ensures
        match r {
            Ok(flags) => segment_fault(bytes@, *x, index as int, nx_available) is None && flags_for(
                x.flags,
                nx_available,
            ) == Ok::<PageFlags, &'static str>(flags),
            Err(e) => segment_fault(bytes@, *x, index as int, nx_available) == Some(e),
        },
{
    let vaddr: u64 = x.vaddr;
    let flags: PageFlags = match segment_flags(x.flags, nx_available) {
        Ok(f) => f,
        Err(reason) => {
            return Err(LoadError::BadSegment { index, vaddr, reason });
        },
    };
    // A user program must never be able to name a kernel address in its
    // own program headers.
    if !layout::is_user_address(vaddr) {
        return Err(
            LoadError::BadSegment { index, vaddr, reason: "load address is outside user space" },
        );
    }
    if x.filesz > x.memsz {
        return Err(
            LoadError::BadSegment { index, vaddr, reason: "file size exceeds memory size" },
        );
    }
    let file_end: u64 = match x.offset.checked_add(x.filesz) {
        Some(end) => end,
        None => {
            return Err(
                LoadError::BadSegment { index, vaddr, reason: "file offset + size overflows" },
            );
        },
    };
    if file_end > bytes.len() as u64 {
        return Err(
            LoadError::BadSegment {
                index,
                vaddr,
                reason: "segment extends past the end of the image",
            },
        );
    }
    // Wrapping here would under-map the segment while the copy still used
    // the original size.
    if x.vaddr.checked_add(x.memsz).is_none() {
        return Err(LoadError::BadSegment { index, vaddr, reason: "vaddr + memsz overflows" });
    }
    Ok(flags)
}

fn plan_segment(
    bytes: &[u8],
    x: &Segment,
    index: usize,
    nx_available: bool,
    mapped: &Vec<PageRange>,
    steps: &mut Vec<Step>,
) -> (r: Result<Option<PageRange>, LoadError>)
    ensures
        ({
            let plan = segment_plan(bytes@, *x, index as int, nx_available, mapped@);
            &&& r == plan.1
            &&& image::step_views(final(steps)@) == image::step_views(old(steps)@) + plan.0
        }),
{
    reveal(segment_plan);
    let ghost before = image::step_views(steps@);
    if x.kind != PT_LOAD {
        assert(before =~= before + Seq::<StepView>::empty());
        return Ok(None);
    }
    let flags: PageFlags = match check_segment(bytes, x, index, nx_available) {
        Ok(f) => f,
        Err(e) => {
            assert(before =~= before + Seq::<StepView>::empty());
            return Err(e);
        },
    };
    if x.memsz == 0 {
        assert(before =~= before + Seq::<StepView>::empty());
        return Ok(None);
    }
    let load_flags = PageFlags { writable: true, user_accessible: true, no_execute: false };
    let first: u64 = page_containing(x.vaddr);
    let end: u64 = x.vaddr + x.memsz - 1;
    let last: u64 = end - end % 4096;
    // Permissions are a property of a page, so two segments in one page
    // would silently grant each other what they never asked for.
    match lowest_shared_page(mapped, first, last) {
        Some(page) => {
            image::push_step(
                steps,
                Step::MapPages { first, pages: (page - first) / 4096, flags: load_flags },
            );
            let ghost added = segment_plan(bytes@, *x, index as int, nx_available, mapped@).0;
            assert(image::step_views(steps@) =~= before + added);
            return Err(LoadError::BadSegment { index, vaddr: page, reason: SHARED_PAGE });
        },
        None => {},
    }
    if !layout::is_user_address(last) {
        image::push_step(
            steps,
            Step::MapPages {
                first,
                pages: (layout::USER_SPACE_END - first) / 4096,
                flags: load_flags,
            },
        );
        let ghost added = segment_plan(bytes@, *x, index as int, nx_available, mapped@).0;
        assert(image::step_views(steps@) =~= before + added);
        return Err(LoadError::Mapping(MapError::NotUserAddress(layout::USER_SPACE_END)));
    }
    let pages: u64 = (last - first) / 4096 + 1;
    // Writable while the contents go in; cleared first, because fresh
    // frames still hold what their last owner left there; tightened last.
    image::push_step(steps, Step::MapPages { first, pages, flags: load_flags });
    image::push_step(steps, Step::Zero { addr: first, len: last + 4096 - first });
    image::push_step(
        steps,
        Step::Copy {
            addr: x.vaddr,
            from: x.offset as usize,
            to: (x.offset + x.filesz) as usize,
        },
    );
    image::push_step(steps, Step::Protect { first, pages, flags });
    let ghost added = segment_plan(bytes@, *x, index as int, nx_available, mapped@).0;
    assert(image::step_views(steps@) =~= before + added);
    Ok(Some(PageRange { first, last }))
}

/// Planning the program headers from `i` on, after `steps`, with `mapped`
/// pages taken: all the steps, and the error that ended them, if any.
pub open spec fn segments_plan(
    s: Seq<u8>,
    h: ElfHeader,
    nx: bool,
    i: int,
    mapped: Seq<PageRange>,
    steps: Seq<StepView>,
) -> (Seq<StepView>, Option<LoadError>)
    decreases h.phnum - i,
{
    if i >= h.phnum {
        (steps, None)
    } else {
        let plan = segment_plan(s, segment(s, h, i), i, nx, mapped);
        match plan.1 {
            Err(e) => (steps + plan.0, Some(e)),
            Ok(None) => segments_plan(s, h, nx, i + 1, mapped, steps + plan.0),
            Ok(Some(range)) => segments_plan(
                s,
                h,
                nx,
                i + 1,
                mapped.push(range),
                steps + plan.0,
            ),
        }
    }
}

/// The steps of a load, and how it ends once they are carried out.
#[derive(Debug)]
pub struct LoadPlan {
    pub steps: Vec<Step>,
    pub outcome: Result<Ready, LoadError>,
}

/// The plan for a file whose header is `h`.
pub open spec fn plan_of(s: Seq<u8>, h: ElfHeader, nx: bool) -> (
    Seq<StepView>,
    Result<Ready, LoadError>,
) {
    let (steps, fault) = segments_plan(s, h, nx, 0, Seq::empty(), Seq::empty());
    match fault {
        Some(e) => (steps, Err(e)),
        None => (
            steps + image::stack_steps(nx),
            Ok(Ready { entry: h.entry, stack_top: layout::USER_STACK_TOP }),
        ),
    }
}

/// The line about a load that begins.
pub open spec fn loading_line(name: Seq<char>, h: ElfHeader) -> Seq<char> {
    "Najm Kernel: loading '"@ + name + "' into a private address space - entry 0x"@
        + text::hexadecimal(h.entry as nat) + ", "@ + text::decimal(h.phnum as nat)
        + " program header(s)"@
}

/// A segment's permissions, as the log shows them.
pub open spec fn permissions_text(flags: u32) -> Seq<char> {
    (if flags & PF_R != 0 {
        "r"@
    } else {
        "-"@
    }) + (if flags & PF_W != 0 {
        "w"@
    } else {
        "-"@
    }) + (if flags & PF_X != 0 {
        "x"@
    } else {
        "-"@
    })
}

/// The line about a segment that has been loaded.
pub open spec fn segment_line(i: nat, x: Segment) -> Seq<char> {
    "Najm Kernel:   segment "@ + text::decimal(i) + " - vaddr 0x"@ + text::hexadecimal(
        x.vaddr as nat,
    ) + ", "@ + text::decimal(x.filesz as nat) + " bytes ("@ + text::decimal(x.memsz as nat)
        + " in memory), permissions "@ + permissions_text(x.flags)
}

/// The log of the program headers from `i` on: a line for each segment,
/// due when its steps have been carried out.
pub open spec fn segments_log(
    s: Seq<u8>,
    h: ElfHeader,
    nx: bool,
    i: int,
    mapped: Seq<PageRange>,
    steps: nat,
    log: Seq<LogLineView>,
) -> Seq<LogLineView>
    decreases h.phnum - i,
{
    if i >= h.phnum {
        log
    } else {
        let x = segment(s, h, i);
        let plan = segment_plan(s, x, i, nx, mapped);
        let after = steps + plan.0.len();
        match plan.1 {
            Err(e) => log,
            Ok(None) => segments_log(s, h, nx, i + 1, mapped, after, log),
            Ok(Some(range)) => segments_log(
                s,
                h,
                nx,
                i + 1,
                mapped.push(range),
                after,
                log.push(LogLineView { after, text: segment_line(i as nat, x) }),
            ),
        }
    }
}

/// The log of a load of `name`, whose header is `h`.
pub open spec fn log_of(s: Seq<u8>, name: Seq<char>, h: ElfHeader, nx: bool) -> Seq<LogLineView> {
    segments_log(
        s,
        h,
        nx,
        0,
        Seq::empty(),
        0,
        seq![LogLineView { after: 0, text: loading_line(name, h) }],
    )
}

fn describe_load(name: &str, h: &ElfHeader) -> (line: String)
    ensures
        line@ == loading_line(name@, *h),
{
    let mut line = String::from_str("Najm Kernel: loading '");
    line.append(name);
    line.append("' into a private address space - entry 0x");
    push_hexadecimal(&mut line, h.entry);
    line.append(", ");
    push_decimal(&mut line, h.phnum as u64);
    line.append(" program header(s)");
    line
}

fn describe_segment(i: usize, x: &Segment) -> (line: String)
    ensures
        line@ == segment_line(i as nat, *x),
{
    let mut line = String::from_str("Najm Kernel:   segment ");
    push_decimal(&mut line, i as u64);
    line.append(" - vaddr 0x");
    push_hexadecimal(&mut line, x.vaddr);
    line.append(", ");
    push_decimal(&mut line, x.filesz);
    line.append(" bytes (");
    push_decimal(&mut line, x.memsz);
    line.append(" in memory), permissions ");
    let ghost before = line@;
    if x.flags & PF_R != 0 {
        line.append("r");
    } else {
        line.append("-");
    }
    if x.flags & PF_W != 0 {
        line.append("w");
    } else {
        line.append("-");
    }
    if x.flags & PF_X != 0 {
        line.append("x");
    } else {
        line.append("-");
    }
    assert(line@ =~= before + permissions_text(x.flags));
    line
}

/// Validates an ELF64 image and plans a complete private address space for
/// it. A header that is refused is an error at once; everything else is
/// the plan, whose outcome holds once all its steps have been carried out.
/// What there is to log meanwhile is appended to `log`.
pub fn load_image(
    bytes: &[u8],
    name: &str,
    nx_available: bool,
    log: &mut Vec<LogLine>,
) -> (r: Result<LoadPlan, LoadError>)
    ensures
        match r {
            Err(e) => header_of(bytes@) == Err::<ElfHeader, LoadError>(e) && final(log)@ == old(
                log,
            )@,
            Ok(plan) => {
                &&& header_of(bytes@) is Ok
                &&& (image::step_views(plan.steps@), plan.outcome) == plan_of(
                    bytes@,
                    header_of(bytes@)->Ok_0,
                    nx_available,
                )
                &&& image::log_views(final(log)@) == image::log_views(old(log)@) + log_of(
                    bytes@,
                    name@,
                    header_of(bytes@)->Ok_0,
                    nx_available,
                )
            },
        },
{
    let h: ElfHeader = match parse_header(bytes) {
        Ok(h) => h,
        Err(e) => {
            return Err(e);
        },
    };
    let mut steps: Vec<Step> = Vec::new();
    let mut mapped: Vec<PageRange> = Vec::new();
    let mut i: usize = 0;
    assert(image::step_views(steps@) =~= Seq::<StepView>::empty());
    let ghost logged = image::log_views(log@);
    push_line(log, 0, describe_load(name, &h));
    let ghost first = seq![LogLineView { after: 0, text: loading_line(name@, h) }];
    assert(image::log_views(log@) =~= logged + first);
    proof {
        lemma_log_appends(bytes@, h, nx_available, 0, Seq::empty(), 0, logged, first);
    }
    while i < h.phnum
        invariant
            i <= h.phnum,
            header_of(bytes@) == Ok::<ElfHeader, LoadError>(h),
            logged == image::log_views(old(log)@),
            logged + log_of(bytes@, name@, h, nx_available) == segments_log(
                bytes@,
                h,
                nx_available,
                i as int,
                mapped@,
                image::step_views(steps@).len(),
                image::log_views(log@),
            ),
            segments_plan(bytes@, h, nx_available, 0, Seq::empty(), Seq::empty())
                == segments_plan(
                bytes@,
                h,
                nx_available,
                i as int,
                mapped@,
                image::step_views(steps@),
            ),
        decreases h.phnum - i,
    {
        proof {
            assert(bytes@.len() == bytes.len());
            lemma_header_in_table(bytes@, h, i as int);
        }
        let at: usize = h.phoff + i * h.phentsize;
        let x: Segment = read_segment(bytes, at);
        match plan_segment(bytes, &x, i, nx_available, &mapped, &mut steps) {
            Err(e) => {
                return Ok(LoadPlan { steps, outcome: Err(e) });
            },
            Ok(None) => {},
            Ok(Some(range)) => {
                mapped.push(range);
                push_line(log, steps.len(), describe_segment(i, &x));
            },
        }
        i += 1;
    }
    image::push_stack_steps(&mut steps, nx_available);
    Ok(
        LoadPlan {
            steps,
            outcome: Ok(Ready { entry: h.entry, stack_top: layout::USER_STACK_TOP }),
        },
    )
}

/// What is logged already stays in front of what a load adds.
proof fn lemma_log_appends(
    s: Seq<u8>,
    h: ElfHeader,
    nx: bool,
    i: int,
    mapped: Seq<PageRange>,
    steps: nat,
    before: Seq<LogLineView>,
    log: Seq<LogLineView>,
)
    ensures
        segments_log(s, h, nx, i, mapped, steps, before + log) == before + segments_log(
            s,
            h,
            nx,
            i,
            mapped,
            steps,
            log,
        ),
    decreases h.phnum - i,
{
    if i < h.phnum {
        let x = segment(s, h, i);
        let plan = segment_plan(s, x, i, nx, mapped);
        let after = steps + plan.0.len();
        match plan.1 {
            Err(e) => {},
            Ok(None) => {
                lemma_log_appends(s, h, nx, i + 1, mapped, after, before, log);
            },
            Ok(Some(range)) => {
                let line = LogLineView { after, text: segment_line(i as nat, x) };
                assert((before + log).push(line) =~= before + log.push(line));
                lemma_log_appends(
                    s,
                    h,
                    nx,
                    i + 1,
                    mapped.push(range),
                    after,
                    before,
                    log.push(line),
                );
            },
        }
    }
}

/// An accepted header's program headers all lie in the file.
proof fn lemma_header_in_table(s: Seq<u8>, h: ElfHeader, i: int)
    requires
        header_of(s) == Ok::<ElfHeader, LoadError>(h),
        0 <= i < h.phnum,
        s.len() <= usize::MAX,
    ensures
        0 <= i * h.phentsize,
        h.phoff + i * h.phentsize + 56 <= s.len(),
{
    let e = h.phentsize as int;
    let n = h.phnum as int;
    assert((i + 1) * e <= n * e) by (nonlinear_arith)
        requires
            i + 1 <= n,
            e >= 0,
    ;
    assert((i + 1) * e == i * e + e) by (nonlinear_arith);
    assert(0 <= i * e) by (nonlinear_arith)
        requires
            i >= 0,
            e >= 0,
    ;
    let phoff = bytes::le64(s, 32);
    let phentsize = bytes::le16(s, 54);
    let phnum = bytes::le16(s, 56);
    assert(0 <= phnum * phentsize) by (nonlinear_arith)
        requires
            phnum >= 0,
            phentsize >= 0,
    ;
    assert(phoff <= s.len());
}

// ---------------------------------------------------------------------
// Laws
// ---------------------------------------------------------------------

/// A program header that puts something into memory.
pub open spec fn loads(x: Segment) -> bool {
    x.kind == PT_LOAD && x.memsz > 0
}

/// The byte a segment has at address `a` of its pages: the file's where
/// the file has one, zero everywhere else.
pub open spec fn segment_byte(s: Seq<u8>, x: Segment, a: int) -> u8 {
    if x.vaddr <= a < x.vaddr + x.filesz {
        s[x.offset + (a - x.vaddr)]
    } else {
        0
    }
}

/// A segment as it should be in memory: its pages have the permissions it
/// declared, and its bytes are the file's, padded with zeros.
pub open spec fn segment_holds(s: Seq<u8>, x: Segment, nx: bool, p: image::Picture) -> bool {
    let first = paging::page_base(x.vaddr as int);
    let last = paging::page_base(x.vaddr + x.memsz - 1);
    &&& forall|page: int|
        image::in_pages(first, (last - first) / 4096 + 1, page) ==> {
            &&& #[trigger] p.flags.dom().contains(page)
            &&& flags_for(x.flags, nx) == Ok::<PageFlags, &'static str>(p.flags[page])
        }
    &&& forall|a: int|
        first <= a < last + 4096 ==> #[trigger] (p.bytes)(a) == segment_byte(s, x, a)
}

/// Every page has permissions some accepted segment asked for.
pub open spec fn flags_are_accepted(p: image::Picture, nx: bool) -> bool {
    forall|page: int| #[trigger]
        p.flags.dom().contains(page) ==> {
            &&& p.flags[page].user_accessible
            &&& (nx ==> p.flags[page].w_xor_x())
            &&& 0 <= page < layout::USER_SPACE_END
        }
}

proof fn lemma_segment_runs(
    s: Seq<u8>, stale: spec_fn(int) -> u8,
    x: Segment,
    i: int,
    nx: bool,
    mapped: Seq<PageRange>,
    steps: Seq<StepView>,
    p: image::Picture,
)
    requires
        image::run(s, stale, steps) == Some(p),
        segment_plan(s, x, i, nx, mapped).1 is Ok,
        image::run(s, stale, steps + segment_plan(s, x, i, nx, mapped).0) is Some,
        s.len() <= usize::MAX,
    ensures
        ({
            let q = image::run(s, stale, steps + segment_plan(s, x, i, nx, mapped).0).unwrap();
            &&& (loads(x) ==> segment_holds(s, x, nx, q))
            &&& forall|page: int| #[trigger]
                p.flags.dom().contains(page) ==> q.flags.dom().contains(page) && q.flags[page]
                    == p.flags[page]
            &&& forall|a: int|
                p.flags.dom().contains(image::page_of(a)) ==> #[trigger] (q.bytes)(a) == (p.bytes)(a)
            &&& (flags_are_accepted(p, nx) ==> flags_are_accepted(q, nx))
        }),
{
    reveal(segment_plan);
    let added = segment_plan(s, x, i, nx, mapped).0;
    if segment_plan(s, x, i, nx, mapped).1 == Ok::<Option<PageRange>, LoadError>(None) {
        assert(steps + added =~= steps);
    } else {
        let first = paging::page_base(x.vaddr as int);
        let last = paging::page_base(x.vaddr + x.memsz - 1);
        let pages = (last - first) / 4096 + 1;
        let flags = flags_for(x.flags, nx)->Ok_0;
        let s1 = steps.push(added[0]);
        let s2 = s1.push(added[1]);
        let s3 = s2.push(added[2]);
        let s4 = s3.push(added[3]);
        assert(steps + added =~= s4);
        image::lemma_run_push(s, stale, steps, added[0]);
        image::lemma_run_push(s, stale, s1, added[1]);
        image::lemma_run_push(s, stale, s2, added[2]);
        image::lemma_run_push(s, stale, s3, added[3]);
        let p1 = image::run(s, stale, s1).unwrap();
        let p2 = image::run(s, stale, s2).unwrap();
        let p3 = image::run(s, stale, s3).unwrap();
        let q = image::run(s, stale, s4).unwrap();
        assert forall|page: int| image::in_pages(first, pages, page) implies !p.flags.dom().contains(
            page,
        ) by {}
        assert forall|a: int| first <= a < last + 4096 implies #[trigger] (q.bytes)(a)
            == segment_byte(s, x, a) by {
            assert((p2.bytes)(a) == 0);
            if x.vaddr <= a < x.vaddr + x.filesz {
                assert((p3.bytes)(a) == s.subrange(
                    x.offset as int,
                    x.offset + x.filesz,
                )[a - x.vaddr]);
            } else {
                assert((p3.bytes)(a) == (p2.bytes)(a));
            }
        }
        assert forall|a: int| p.flags.dom().contains(image::page_of(a)) implies #[trigger] (q.bytes)(a)
            == (p.bytes)(a) by {
            if first <= a < last + 4096 {
                assert(image::in_pages(first, pages, image::page_of(a)));
            }
            assert((p2.bytes)(a) == (p1.bytes)(a));
            assert((p3.bytes)(a) == (p2.bytes)(a));
        }
        assert forall|page: int| #[trigger] q.flags.dom().contains(page) implies (if image::in_pages(
            first,
            pages,
            page,
        ) {
            q.flags[page] == flags
        } else {
            p.flags.dom().contains(page) && q.flags[page] == p.flags[page]
        }) by {}
    }
}

/// What holds of every segment so far keeps holding.
proof fn lemma_segment_kept(
    s: Seq<u8>,
    x: Segment,
    nx: bool,
    p: image::Picture,
    q: image::Picture,
)
    requires
        segment_holds(s, x, nx, p),
        forall|page: int| #[trigger]
            p.flags.dom().contains(page) ==> q.flags.dom().contains(page) && q.flags[page]
                == p.flags[page],
        forall|a: int|
            p.flags.dom().contains(image::page_of(a)) ==> #[trigger] (q.bytes)(a) == (p.bytes)(a),
    ensures
        segment_holds(s, x, nx, q),
{
    let first = paging::page_base(x.vaddr as int);
    let last = paging::page_base(x.vaddr + x.memsz - 1);
    assert forall|page: int|
        image::in_pages(first, (last - first) / 4096 + 1, page) implies ({
        &&& #[trigger] q.flags.dom().contains(page)
        &&& flags_for(x.flags, nx) == Ok::<PageFlags, &'static str>(q.flags[page])
    }) by {
        assert(p.flags.dom().contains(page));
    }
    assert forall|a: int| first <= a < last + 4096 implies #[trigger] (q.bytes)(a) == segment_byte(
        s,
        x,
        a,
    ) by {
        assert(image::in_pages(first, (last - first) / 4096 + 1, image::page_of(a)));
        assert(p.flags.dom().contains(image::page_of(a)));
        assert((p.bytes)(a) == segment_byte(s, x, a));
    }
}

proof fn lemma_segments_run(
    s: Seq<u8>, stale: spec_fn(int) -> u8,
    h: ElfHeader,
    nx: bool,
    i: int,
    mapped: Seq<PageRange>,
    steps: Seq<StepView>,
    p: image::Picture,
)
    requires
        0 <= i <= h.phnum,
        s.len() <= usize::MAX,
        image::run(s, stale, steps) == Some(p),
        segments_plan(s, h, nx, i, mapped, steps).1 is None,
        image::run(s, stale, segments_plan(s, h, nx, i, mapped, steps).0) is Some,
        flags_are_accepted(p, nx),
        forall|j: int|
            0 <= j < i && loads(#[trigger] segment(s, h, j)) ==> segment_holds(
                s,
                segment(s, h, j),
                nx,
                p,
            ),
    ensures
        ({
            let q = image::run(s, stale, segments_plan(s, h, nx, i, mapped, steps).0).unwrap();
            &&& flags_are_accepted(q, nx)
            &&& forall|j: int|
                0 <= j < h.phnum && loads(#[trigger] segment(s, h, j)) ==> segment_holds(
                    s,
                    segment(s, h, j),
                    nx,
                    q,
                )
        }),
    decreases h.phnum - i,
{
    if i < h.phnum {
        let x = segment(s, h, i);
        let plan = segment_plan(s, x, i, nx, mapped);
        let next = match plan.1 {
            Ok(Some(range)) => mapped.push(range),
            _ => mapped,
        };
        assert(segments_plan(s, h, nx, i, mapped, steps) == segments_plan(
            s,
            h,
            nx,
            i + 1,
            next,
            steps + plan.0,
        ));
        lemma_plan_extends(s, h, nx, i + 1, next, steps + plan.0);
        image::lemma_run_prefix(
            s, stale,
            steps + plan.0,
            segments_plan(s, h, nx, i + 1, next, steps + plan.0).0,
        );
        lemma_segment_runs(s, stale, x, i, nx, mapped, steps, p);
        let q = image::run(s, stale, steps + plan.0).unwrap();
        assert forall|j: int| 0 <= j < i + 1 && loads(#[trigger] segment(s, h, j)) implies segment_holds(
            s,
            segment(s, h, j),
            nx,
            q,
        ) by {
            if j < i {
                lemma_segment_kept(s, segment(s, h, j), nx, p, q);
            }
        }
        lemma_segments_run(s, stale, h, nx, i + 1, next, steps + plan.0, q);
    }
}

/// A plan only ever grows.
proof fn lemma_plan_extends(
    s: Seq<u8>,
    h: ElfHeader,
    nx: bool,
    i: int,
    mapped: Seq<PageRange>,
    steps: Seq<StepView>,
)
    ensures
        steps.is_prefix_of(segments_plan(s, h, nx, i, mapped, steps).0),
    decreases h.phnum - i,
{
    if i < h.phnum {
        let plan = segment_plan(s, segment(s, h, i), i, nx, mapped);
        let longer = steps + plan.0;
        match plan.1 {
            Err(e) => {},
            Ok(None) => {
                lemma_plan_extends(s, h, nx, i + 1, mapped, longer);
            },
            Ok(Some(range)) => {
                lemma_plan_extends(s, h, nx, i + 1, mapped.push(range), longer);
            },
        }
        assert(steps.is_prefix_of(longer));
    }
}

/// Whether `page` is one of the pages that `mapped` holds.
pub open spec fn is_held(mapped: Seq<PageRange>, page: int) -> bool {
    &&& page % 4096 == 0
    &&& exists|k: int| 0 <= k < mapped.len() && (#[trigger] mapped[k]).first <= page <= mapped[k].last
}

/// Whether a process has mapped exactly the pages that `mapped` holds.
pub open spec fn maps_exactly(p: image::Picture, mapped: Seq<PageRange>) -> bool {
    forall|page: int| #[trigger] p.flags.dom().contains(page) == is_held(mapped, page)
}

/// Where no page is shared, no page of the range is held.
proof fn lemma_nothing_shared(mapped: Seq<PageRange>, first: int, last: int, page: int)
    requires
        shared_page(mapped, first, last) is None,
        first <= page <= last,
        page % 4096 == 0,
    ensures
        !is_held(mapped, page),
    decreases mapped.len(),
{
    if mapped.len() > 0 {
        lemma_nothing_shared(mapped.drop_last(), first, last, page);
        assert forall|k: int| 0 <= k < mapped.len() implies !((#[trigger] mapped[k]).first <= page
            <= mapped[k].last) by {
            if k < mapped.len() - 1 {
                assert(mapped.drop_last()[k] == mapped[k]);
            }
        }
    }
}

/// What is held with one more range.
proof fn lemma_held_push(mapped: Seq<PageRange>, range: PageRange, page: int)
    ensures
        is_held(mapped.push(range), page) == (is_held(mapped, page) || (page % 4096 == 0
            && range.first <= page <= range.last)),
{
    let next = mapped.push(range);
    if is_held(mapped, page) {
        let k = choose|k: int|
            0 <= k < mapped.len() && (#[trigger] mapped[k]).first <= page <= mapped[k].last;
        assert(next[k] == mapped[k]);
    }
    if page % 4096 == 0 && range.first <= page <= range.last {
        assert(next[mapped.len() as int] == range);
    }
    if is_held(next, page) {
        let k = choose|k: int|
            0 <= k < next.len() && (#[trigger] next[k]).first <= page <= next[k].last;
        if k < mapped.len() {
            assert(next[k] == mapped[k]);
        }
    }
}

/// Every step of a segment that is accepted can be carried out.
#[verifier::spinoff_prover]
#[verifier::rlimit(40)]
proof fn lemma_segment_can_run(
    s: Seq<u8>,
    stale: spec_fn(int) -> u8,
    x: Segment,
    i: int,
    nx: bool,
    mapped: Seq<PageRange>,
    steps: Seq<StepView>,
    p: image::Picture,
)
    requires
        image::run(s, stale, steps) == Some(p),
        segment_plan(s, x, i, nx, mapped).1 is Ok,
        s.len() <= usize::MAX,
        maps_exactly(p, mapped),
    ensures
        ({
            let plan = segment_plan(s, x, i, nx, mapped);
            let next = match plan.1 {
                Ok(Some(range)) => mapped.push(range),
                _ => mapped,
            };
            let q = image::run(s, stale, steps + plan.0);
            &&& q is Some
            &&& maps_exactly(q.unwrap(), next)
            &&& plan.1 matches Ok(Some(range)) ==> loads(x) && range.first == paging::page_base(
                x.vaddr as int,
            ) && range.last == paging::page_base(x.vaddr + x.memsz - 1)
        }),
{
    reveal(segment_plan);
    let plan = segment_plan(s, x, i, nx, mapped);
    let added = plan.0;
    if plan.1 == Ok::<Option<PageRange>, LoadError>(None) {
        assert(steps + added =~= steps);
    } else {
        let first = paging::page_base(x.vaddr as int);
        let last = paging::page_base(x.vaddr + x.memsz - 1);
        let pages = (last - first) / 4096 + 1;
        let s1 = steps.push(added[0]);
        let s2 = s1.push(added[1]);
        let s3 = s2.push(added[2]);
        let s4 = s3.push(added[3]);
        assert(steps + added =~= s4);
        image::lemma_run_push(s, stale, steps, added[0]);
        image::lemma_run_push(s, stale, s1, added[1]);
        image::lemma_run_push(s, stale, s2, added[2]);
        image::lemma_run_push(s, stale, s3, added[3]);
        assert forall|page: int| image::in_pages(first, pages, page) implies
            !#[trigger] p.flags.dom().contains(page) by {
            lemma_nothing_shared(mapped, first, last, page);
        }
        let p1 = image::run(s, stale, s1).unwrap();
        assert(image::run(s, stale, s1) is Some);
        assert forall|a: int| first <= a < last + 4096 implies p1.flags.dom().contains(
            #[trigger] image::page_of(a),
        ) by {
            assert(image::in_pages(first, pages, image::page_of(a)));
        }
        assert(image::run(s, stale, s2) is Some);
        assert(image::run(s, stale, s3) is Some);
        let p3 = image::run(s, stale, s3).unwrap();
        assert forall|page: int| image::in_pages(first, pages, page) implies
            #[trigger] p3.flags.dom().contains(page) by {
            assert(p1.flags.dom().contains(page));
        }
        let q = image::run(s, stale, s4).unwrap();
        let range = PageRange { first: first as u64, last: last as u64 };
        let next = mapped.push(range);
        assert forall|page: int| #[trigger] q.flags.dom().contains(page) == is_held(next, page) by {
            assert(q.flags.dom().contains(page) == (p.flags.dom().contains(page)
                || image::in_pages(first, pages, page)));
            lemma_held_push(mapped, range, page);
        }
    }
}

/// Whether a segment keeps off the pages of the stack.
pub open spec fn keeps_off_the_stack(x: Segment) -> bool {
    paging::page_base(x.vaddr + x.memsz - 1) < layout::USER_STACK_BOTTOM || paging::page_base(
        x.vaddr as int,
    ) >= layout::USER_STACK_TOP
}

/// Whether none of the pages that are held is the stack's.
pub open spec fn off_the_stack(mapped: Seq<PageRange>) -> bool {
    forall|k: int|
        0 <= k < mapped.len() ==> (#[trigger] mapped[k]).last < layout::USER_STACK_BOTTOM
            || mapped[k].first >= layout::USER_STACK_TOP
}

proof fn lemma_segments_can_run(
    s: Seq<u8>,
    stale: spec_fn(int) -> u8,
    h: ElfHeader,
    nx: bool,
    i: int,
    mapped: Seq<PageRange>,
    steps: Seq<StepView>,
    p: image::Picture,
)
    requires
        0 <= i <= h.phnum,
        s.len() <= usize::MAX,
        image::run(s, stale, steps) == Some(p),
        segments_plan(s, h, nx, i, mapped, steps).1 is None,
        maps_exactly(p, mapped),
        off_the_stack(mapped),
        forall|j: int|
            0 <= j < h.phnum && loads(#[trigger] segment(s, h, j)) ==> keeps_off_the_stack(
                segment(s, h, j),
            ),
    ensures
        ({
            let q = image::run(s, stale, segments_plan(s, h, nx, i, mapped, steps).0);
            &&& q is Some
            &&& forall|page: int|
                layout::USER_STACK_BOTTOM <= page < layout::USER_STACK_TOP
                    ==> !#[trigger] q.unwrap().flags.dom().contains(page)
        }),
    decreases h.phnum - i,
{
    if i < h.phnum {
        let x = segment(s, h, i);
        let plan = segment_plan(s, x, i, nx, mapped);
        let next = match plan.1 {
            Ok(Some(range)) => mapped.push(range),
            _ => mapped,
        };
        lemma_segment_can_run(s, stale, x, i, nx, mapped, steps, p);
        let q = image::run(s, stale, steps + plan.0).unwrap();
        assert forall|k: int| 0 <= k < next.len() implies (#[trigger] next[k]).last
            < layout::USER_STACK_BOTTOM || next[k].first >= layout::USER_STACK_TOP by {
            if k < mapped.len() {
                assert(next[k] == mapped[k]);
            }
        }
        lemma_segments_can_run(s, stale, h, nx, i + 1, next, steps + plan.0, q);
    }
}

/// A load that is planned to succeed can be carried out to its end, as long
/// as no segment wants the pages of the stack: no step meets a page that is
/// mapped already, or one that is not mapped yet.
pub proof fn law_load_can_be_carried_out(
    s: Seq<u8>,
    stale: spec_fn(int) -> u8,
    h: ElfHeader,
    nx: bool,
)
    requires
        s.len() <= usize::MAX,
        header_of(s) == Ok::<ElfHeader, LoadError>(h),
        plan_of(s, h, nx).1 is Ok,
        forall|j: int|
            0 <= j < h.phnum && loads(#[trigger] segment(s, h, j)) ==> keeps_off_the_stack(
                segment(s, h, j),
            ),
    ensures
        image::run(s, stale, plan_of(s, h, nx).0) is Some,
{
    let blank = image::blank(stale);
    assert(image::run(s, stale, Seq::<StepView>::empty()) == Some(blank));
    lemma_segments_can_run(s, stale, h, nx, 0, Seq::empty(), Seq::empty(), blank);
    let steps = segments_plan(s, h, nx, 0, Seq::empty(), Seq::empty()).0;
    let added = image::stack_steps(nx);
    let s1 = steps.push(added[0]);
    let s2 = s1.push(added[1]);
    assert(steps + added =~= s2);
    image::lemma_run_push(s, stale, steps, added[0]);
    image::lemma_run_push(s, stale, s1, added[1]);
    let p1 = image::run(s, stale, s1).unwrap();
    assert(image::run(s, stale, s1) is Some);
    let bottom = layout::USER_STACK_BOTTOM as int;
    assert forall|a: int| bottom <= a < layout::USER_STACK_TOP implies p1.flags.dom().contains(
        #[trigger] image::page_of(a),
    ) by {
        assert(image::in_pages(bottom, layout::USER_STACK_PAGES as int, image::page_of(a)));
    }
}

/// Whether a segment has a byte in `page`.
pub open spec fn touches(x: Segment, page: int) -> bool {
    paging::page_base(x.vaddr as int) <= page <= paging::page_base(x.vaddr + x.memsz - 1)
}

#[verifier::spinoff_prover]
proof fn lemma_segment_avoids(
    s: Seq<u8>,
    x: Segment,
    i: int,
    nx: bool,
    mapped: Seq<PageRange>,
    page: int,
)
    requires
        page % 4096 == 0,
        loads(x) ==> !touches(x, page),
        segment_plan(s, x, i, nx, mapped).1 is Ok,
    ensures
        image::avoids(segment_plan(s, x, i, nx, mapped).0, page),
{
    reveal(segment_plan);
}

#[verifier::spinoff_prover]
#[verifier::rlimit(40)]
proof fn lemma_segments_avoid(
    s: Seq<u8>,
    h: ElfHeader,
    nx: bool,
    i: int,
    mapped: Seq<PageRange>,
    steps: Seq<StepView>,
    page: int,
)
    requires
        0 <= i <= h.phnum,
        page % 4096 == 0,
        image::avoids(steps, page),
        segments_plan(s, h, nx, i, mapped, steps).1 is None,
        forall|j: int|
            0 <= j < h.phnum && loads(#[trigger] segment(s, h, j)) ==> !touches(
                segment(s, h, j),
                page,
            ),
    ensures
        image::avoids(segments_plan(s, h, nx, i, mapped, steps).0, page),
    decreases h.phnum - i,
{
    if i < h.phnum {
        let x = segment(s, h, i);
        let plan = segment_plan(s, x, i, nx, mapped);
        let next = match plan.1 {
            Ok(Some(range)) => mapped.push(range),
            _ => mapped,
        };
        lemma_segment_avoids(s, x, i, nx, mapped, page);
        assert(image::avoids(steps + plan.0, page)) by {
            assert forall|k: int| 0 <= k < (steps + plan.0).len() implies (
            #[trigger] (steps + plan.0)[k] matches StepView::MapPages { first, pages, .. }
                ==> !image::in_pages(first as int, pages as int, page)) by {
                if k < steps.len() {
                    assert((steps + plan.0)[k] == steps[k]);
                } else {
                    assert((steps + plan.0)[k] == plan.0[k - steps.len()]);
                }
            }
        }
        lemma_segments_avoid(s, h, nx, i + 1, next, steps + plan.0, page);
    }
}

/// The page below the stack stays unmapped, so that a program that runs off
/// its stack faults, as long as no segment wants that page for itself.
pub proof fn law_guard_page_stays_unmapped(
    s: Seq<u8>,
    stale: spec_fn(int) -> u8,
    h: ElfHeader,
    nx: bool,
)
    requires
        s.len() <= usize::MAX,
        header_of(s) == Ok::<ElfHeader, LoadError>(h),
        plan_of(s, h, nx).1 is Ok,
        image::run(s, stale, plan_of(s, h, nx).0) is Some,
        forall|j: int|
            0 <= j < h.phnum && loads(#[trigger] segment(s, h, j)) ==> !touches(
                segment(s, h, j),
                layout::USER_STACK_GUARD as int,
            ),
    ensures
        !image::run(s, stale, plan_of(s, h, nx).0).unwrap().flags.dom().contains(
            layout::USER_STACK_GUARD as int,
        ),
{
    let page = layout::USER_STACK_GUARD as int;
    lemma_segments_avoid(s, h, nx, 0, Seq::empty(), Seq::empty(), page);
    let steps = segments_plan(s, h, nx, 0, Seq::empty(), Seq::empty()).0;
    let all = plan_of(s, h, nx).0;
    assert forall|k: int| 0 <= k < all.len() implies (
    #[trigger] all[k] matches StepView::MapPages { first, pages, .. } ==> !image::in_pages(
        first as int,
        pages as int,
        page,
    )) by {
        if k < steps.len() {
            assert(all[k] == steps[k]);
        }
    }
    image::lemma_avoided_page_is_not_mapped(s, stale, all, page);
}

/// Where a load succeeds on a processor that can forbid execution, no page
/// of the process is both writable and executable, and every page is user
/// memory that the process can reach.
pub proof fn law_loaded_process_is_safe(s: Seq<u8>, stale: spec_fn(int) -> u8, h: ElfHeader)
    requires
        s.len() <= usize::MAX,
        header_of(s) == Ok::<ElfHeader, LoadError>(h),
        plan_of(s, h, true).1 is Ok,
        image::run(s, stale, plan_of(s, h, true).0) is Some,
    ensures
        image::picture_is_safe(image::run(s, stale, plan_of(s, h, true).0).unwrap()),
{
    lemma_load_runs(s, stale, h, true);
}

/// Where a load succeeds, every segment is in memory as its program header
/// says: the file's bytes at its address, zeros in the rest of its pages,
/// and the permissions it declared.
pub proof fn law_segments_are_loaded(
    s: Seq<u8>,
    stale: spec_fn(int) -> u8,
    h: ElfHeader,
    nx: bool,
    j: int,
)
    requires
        s.len() <= usize::MAX,
        header_of(s) == Ok::<ElfHeader, LoadError>(h),
        plan_of(s, h, nx).1 is Ok,
        image::run(s, stale, plan_of(s, h, nx).0) is Some,
        0 <= j < h.phnum,
        loads(segment(s, h, j)),
    ensures
        segment_holds(s, segment(s, h, j), nx, image::run(s, stale, plan_of(s, h, nx).0).unwrap()),
{
    lemma_load_runs(s, stale, h, nx);
}

/// Where a load succeeds, the process starts with a zeroed stack.
pub proof fn law_stack_starts_zeroed(
    s: Seq<u8>,
    stale: spec_fn(int) -> u8,
    h: ElfHeader,
    nx: bool,
    a: int,
)
    requires
        s.len() <= usize::MAX,
        header_of(s) == Ok::<ElfHeader, LoadError>(h),
        plan_of(s, h, nx).1 is Ok,
        image::run(s, stale, plan_of(s, h, nx).0) is Some,
        layout::USER_STACK_BOTTOM <= a < layout::USER_STACK_TOP,
    ensures
        (image::run(s, stale, plan_of(s, h, nx).0).unwrap().bytes)(a) == 0,
{
    lemma_load_runs(s, stale, h, nx);
}

proof fn lemma_load_runs(s: Seq<u8>, stale: spec_fn(int) -> u8, h: ElfHeader, nx: bool)
    requires
        s.len() <= usize::MAX,
        plan_of(s, h, nx).1 is Ok,
        image::run(s, stale, plan_of(s, h, nx).0) is Some,
    ensures
        ({
            let q = image::run(s, stale, plan_of(s, h, nx).0).unwrap();
            &&& flags_are_accepted(q, nx)
            &&& forall|j: int|
                0 <= j < h.phnum && loads(#[trigger] segment(s, h, j)) ==> segment_holds(
                    s,
                    segment(s, h, j),
                    nx,
                    q,
                )
            &&& forall|a: int|
                layout::USER_STACK_BOTTOM <= a < layout::USER_STACK_TOP ==> #[trigger] (q.bytes)(a)
                    == 0
        }),
{
    let steps = segments_plan(s, h, nx, 0, Seq::empty(), Seq::empty()).0;
    assert(steps.is_prefix_of(steps + image::stack_steps(nx)));
    image::lemma_run_prefix(s, stale, steps, steps + image::stack_steps(nx));
    let blank = image::blank(stale);
    assert(image::run(s, stale, Seq::<StepView>::empty()) == Some(blank));
    lemma_segments_run(s, stale, h, nx, 0, Seq::empty(), Seq::empty(), blank);
    let p = image::run(s, stale, steps).unwrap();
    image::lemma_stack_runs(s, stale, nx, steps, p);
    let q = image::run(s, stale, steps + image::stack_steps(nx)).unwrap();
    assert forall|j: int| 0 <= j < h.phnum && loads(#[trigger] segment(s, h, j)) implies segment_holds(
        s,
        segment(s, h, j),
        nx,
        q,
    ) by {
        lemma_segment_kept(s, segment(s, h, j), nx, p, q);
    }
    assert forall|page: int| #[trigger] q.flags.dom().contains(page) implies ({
        &&& q.flags[page].user_accessible
        &&& (nx ==> q.flags[page].w_xor_x())
        &&& 0 <= page < layout::USER_SPACE_END
    }) by {
        if p.flags.dom().contains(page) {
            assert(q.flags[page] == p.flags[page]);
        }
    }
}

/// A file's header is accepted exactly where it is that of a 64-bit
/// little-endian program for this machine that runs at a fixed address, and
/// its program headers are in the file. What it says is at the places of the
/// format.
pub proof fn law_header_is_read(s: Seq<u8>)
    ensures
        header_of(s) is Ok <==> {
            &&& s.len() >= 64
            &&& s[0] == 0x7f && s[1] == 0x45 && s[2] == 0x4c && s[3] == 0x46
            &&& s[4] == 2 && s[5] == 1
            &&& bytes::le16(s, 16) == 2
            &&& bytes::le16(s, 18) == 0x3e
            &&& bytes::le16(s, 54) >= 56
            &&& bytes::le64(s, 32) + bytes::le16(s, 56) * bytes::le16(s, 54) <= s.len()
            &&& bytes::le64(s, 32) + bytes::le16(s, 56) * bytes::le16(s, 54) <= u64::MAX
        },
        s.len() <= usize::MAX ==> (header_of(s) matches Ok(h) ==> {
            &&& h.entry == bytes::le64(s, 24)
            &&& h.phoff == bytes::le64(s, 32)
            &&& h.phentsize == bytes::le16(s, 54)
            &&& h.phnum == bytes::le16(s, 56)
        }),
{
    let n = bytes::le16(s, 56);
    let size = bytes::le16(s, 54);
    assert(0 <= n * size) by (nonlinear_arith)
        requires
            n >= 0,
            size >= 0,
    ;
}

/// Where in the file program header `j` is, by the places of the format.
pub open spec fn entry_of(s: Seq<u8>, j: int) -> int {
    bytes::le64(s, 32) + j * bytes::le16(s, 54)
}

/// Where a load succeeds, every segment is in memory: as many bytes of the
/// file as its program header says, from where it says, at the address it
/// says; zeros after them up to its size in memory; on pages that the program
/// can reach, with exactly the permissions it asks for.
#[verifier::spinoff_prover]
#[verifier::rlimit(60)]
pub proof fn law_program_is_in_memory(
    s: Seq<u8>,
    stale: spec_fn(int) -> u8,
    h: ElfHeader,
    nx: bool,
    j: int,
    k: int,
)
    requires
        s.len() <= usize::MAX,
        header_of(s) == Ok::<ElfHeader, LoadError>(h),
        plan_of(s, h, nx).1 is Ok,
        image::run(s, stale, plan_of(s, h, nx).0) is Some,
        0 <= j < bytes::le16(s, 56),
        bytes::le32(s, entry_of(s, j)) == 1,
        0 <= k < bytes::le64(s, entry_of(s, j) + 40),
    ensures
        ({
            let q = image::run(s, stale, plan_of(s, h, nx).0).unwrap();
            let at = entry_of(s, j);
            let permissions = bytes::le32(s, at + 4) as u32;
            let offset = bytes::le64(s, at + 8);
            let address = bytes::le64(s, at + 16);
            let in_file = bytes::le64(s, at + 32);
            let in_memory = bytes::le64(s, at + 40);
            let page = address + k - (address + k) % 4096;
            &&& in_file <= in_memory
            &&& offset + in_file <= s.len()
            &&& address + in_memory <= 0x7fff_ffff_f000
            &&& (q.bytes)(address + k) == (if k < in_file {
                s[offset + k]
            } else {
                0
            })
            &&& q.flags.dom().contains(page)
            &&& q.flags[page].user_accessible
            &&& permissions & 4 != 0
            &&& q.flags[page].writable <==> permissions & 2 != 0
            &&& q.flags[page].no_execute <==> nx && permissions & 1 == 0
            &&& !(permissions & 2 != 0 && permissions & 1 != 0)
        }),
{
    law_header_is_read(s);
    let x = segment(s, h, j);
    assert(h.phoff + j * h.phentsize == entry_of(s, j));
    lemma_segment_fields(s, entry_of(s, j));
    assert(loads(x));
    lemma_load_runs(s, stale, h, nx);
    lemma_planned_segment_is_sound(s, h, nx, 0, Seq::empty(), Seq::empty(), j);
    let q = image::run(s, stale, plan_of(s, h, nx).0).unwrap();
    lemma_held_segment(s, x, j, nx, q, k);
}

proof fn lemma_segment_fields(s: Seq<u8>, at: int)
    ensures
        segment_at(s, at).kind == bytes::le32(s, at),
        segment_at(s, at).flags == bytes::le32(s, at + 4) as u32,
        segment_at(s, at).offset == bytes::le64(s, at + 8),
        segment_at(s, at).vaddr == bytes::le64(s, at + 16),
        segment_at(s, at).filesz == bytes::le64(s, at + 32),
        segment_at(s, at).memsz == bytes::le64(s, at + 40),
{
}

proof fn lemma_held_segment(
    s: Seq<u8>,
    x: Segment,
    j: int,
    nx: bool,
    q: image::Picture,
    k: int,
)
    requires
        segment_holds(s, x, nx, q),
        segment_fault(s, x, j, nx) is None,
        paging::page_base(x.vaddr + x.memsz - 1) < 0x7fff_ffff_f000,
        0 <= k < x.memsz,
    ensures
        x.filesz <= x.memsz,
        x.offset + x.filesz <= s.len(),
        x.vaddr + x.memsz <= 0x7fff_ffff_f000,
        (q.bytes)(x.vaddr + k) == (if k < x.filesz {
            s[x.offset + k]
        } else {
            0
        }),
        ({
            let page = x.vaddr + k - (x.vaddr + k) % 4096;
            &&& q.flags.dom().contains(page)
            &&& q.flags[page].user_accessible
            &&& x.flags & 4 != 0
            &&& q.flags[page].writable <==> x.flags & 2 != 0
            &&& q.flags[page].no_execute <==> nx && x.flags & 1 == 0
            &&& !(x.flags & 2 != 0 && x.flags & 1 != 0)
        }),
{
    let a = x.vaddr + k;
    let first = paging::page_base(x.vaddr as int);
    let last = paging::page_base(x.vaddr + x.memsz - 1);
    let page = a - a % 4096;
    assert((q.bytes)(a) == segment_byte(s, x, a));
    assert(image::in_pages(first, (last - first) / 4096 + 1, page));
    assert(q.flags.dom().contains(page));
}

/// A segment of a plan that ends well is one that was accepted.
proof fn lemma_planned_segment_is_sound(
    s: Seq<u8>,
    h: ElfHeader,
    nx: bool,
    i: int,
    mapped: Seq<PageRange>,
    steps: Seq<StepView>,
    j: int,
)
    requires
        0 <= i <= j < h.phnum,
        segments_plan(s, h, nx, i, mapped, steps).1 is None,
        loads(segment(s, h, j)),
    ensures
        segment_fault(s, segment(s, h, j), j, nx) is None,
        paging::page_base(segment(s, h, j).vaddr + segment(s, h, j).memsz - 1)
            < layout::USER_SPACE_END,
    decreases j - i,
{
    reveal(segment_plan);
    let plan = segment_plan(s, segment(s, h, i), i, nx, mapped);
    let next = match plan.1 {
        Ok(Some(range)) => mapped.push(range),
        _ => mapped,
    };
    if i < j {
        lemma_planned_segment_is_sound(s, h, nx, i + 1, next, steps + plan.0, j);
    }
}

/// A program that loads starts at its entry point, on a stack whose pages it
/// can write and never run, and which end where the stack pointer is.
pub proof fn law_program_starts_on_its_stack(
    s: Seq<u8>,
    stale: spec_fn(int) -> u8,
    h: ElfHeader,
    nx: bool,
    a: int,
)
    requires
        s.len() <= usize::MAX,
        header_of(s) == Ok::<ElfHeader, LoadError>(h),
        plan_of(s, h, nx).1 is Ok,
        image::run(s, stale, plan_of(s, h, nx).0) is Some,
        0x7fff_efff_0000 <= a < 0x7fff_f000_0000,
    ensures
        plan_of(s, h, nx).1 matches Ok(ready) && ready.entry == bytes::le64(s, 24)
            && ready.stack_top == 0x7fff_f000_0000,
        ({
            let q = image::run(s, stale, plan_of(s, h, nx).0).unwrap();
            let page = a - a % 4096;
            &&& (q.bytes)(a) == 0
            &&& q.flags.dom().contains(page)
            &&& q.flags[page].writable && q.flags[page].user_accessible
            &&& q.flags[page].no_execute == nx
        }),
{
    law_header_is_read(s);
    lemma_load_runs(s, stale, h, nx);
    let steps = segments_plan(s, h, nx, 0, Seq::empty(), Seq::empty()).0;
    let added = image::stack_steps(nx);
    let s1 = steps.push(added[0]);
    let s2 = s1.push(added[1]);
    assert(steps + added =~= s2);
    assert(s1.is_prefix_of(s2));
    image::lemma_run_prefix(s, stale, s1, s2);
    assert(steps.is_prefix_of(s1));
    image::lemma_run_prefix(s, stale, steps, s1);
    image::lemma_run_push(s, stale, steps, added[0]);
    image::lemma_run_push(s, stale, s1, added[1]);
    let page = a - a % 4096;
    assert(image::in_pages(0x7fff_efff_0000, 16, page));
    let q1 = image::run(s, stale, s1).unwrap();
    assert(q1.flags.dom().contains(page));
}

/// Whether program header `j` can be loaded on its own: what it loads is
/// readable, is not both writable and executable, is in the file, and fits in
/// user space. One that loads nothing can always.
pub open spec fn entry_is_sound(s: Seq<u8>, j: int) -> bool {
    let at = entry_of(s, j);
    let permissions = bytes::le32(s, at + 4) as u32;
    let offset = bytes::le64(s, at + 8);
    let address = bytes::le64(s, at + 16);
    let in_file = bytes::le64(s, at + 32);
    let in_memory = bytes::le64(s, at + 40);
    bytes::le32(s, at) == 1 ==> {
        &&& permissions & 4 != 0
        &&& !(permissions & 2 != 0 && permissions & 1 != 0)
        &&& in_file <= in_memory
        &&& offset + in_file <= s.len()
        &&& address < 0x7fff_ffff_f000
        &&& address + in_memory <= 0x7fff_ffff_f000
    }
}

/// Whether program headers `i` and `j` both put a byte on `page`.
pub open spec fn entries_share(s: Seq<u8>, i: int, j: int, page: int) -> bool {
    entry_touches(s, i, page) && entry_touches(s, j, page)
}

/// Whether program header `j` puts a byte on `page`.
pub open spec fn entry_touches(s: Seq<u8>, j: int, page: int) -> bool {
    let at = entry_of(s, j);
    let address = bytes::le64(s, at + 16);
    let in_memory = bytes::le64(s, at + 40);
    &&& bytes::le32(s, at) == 1
    &&& 0 < in_memory
    &&& address < page + 4096
    &&& page < address + in_memory
}

/// A program is loaded where each of its segments can be loaded on its own
/// and no two of them have a byte on the same page.
pub proof fn law_sound_programs_are_loaded(s: Seq<u8>, h: ElfHeader, nx: bool)
    requires
        s.len() <= usize::MAX,
        header_of(s) == Ok::<ElfHeader, LoadError>(h),
        forall|j: int| 0 <= j < bytes::le16(s, 56) ==> #[trigger] entry_is_sound(s, j),
        forall|i: int, j: int, page: int|
            0 <= i < j < bytes::le16(s, 56) && page % 4096 == 0 ==> !#[trigger] entries_share(
                s,
                i,
                j,
                page,
            ),
    ensures
        plan_of(s, h, nx).1 is Ok,
{
    law_header_is_read(s);
    lemma_sound_segments_are_planned(s, h, nx, 0, Seq::empty(), Seq::empty());
}

proof fn lemma_shared_page_is_held(mapped: Seq<PageRange>, first: int, last: int)
    requires
        first % 4096 == 0,
        forall|k: int| 0 <= k < mapped.len() ==> (#[trigger] mapped[k]).first % 4096 == 0,
    ensures
        shared_page(mapped, first, last) matches Some(page) ==> first <= page <= last && is_held(
            mapped,
            page,
        ),
    decreases mapped.len(),
{
    if mapped.len() > 0 {
        let less = mapped.drop_last();
        assert forall|k: int| 0 <= k < less.len() implies (#[trigger] less[k]).first % 4096
            == 0 by {
            assert(less[k] == mapped[k]);
        }
        lemma_shared_page_is_held(less, first, last);
        let r = mapped.last();
        assert(r == mapped[mapped.len() - 1]);
        assert(mapped =~= less.push(r));
        if let Some(page) = shared_page(mapped, first, last) {
            lemma_held_push(less, r, page);
        }
    }
}

#[verifier::spinoff_prover]
#[verifier::rlimit(60)]
proof fn lemma_sound_segments_are_planned(
    s: Seq<u8>,
    h: ElfHeader,
    nx: bool,
    i: int,
    mapped: Seq<PageRange>,
    steps: Seq<StepView>,
)
    requires
        s.len() <= usize::MAX,
        header_of(s) == Ok::<ElfHeader, LoadError>(h),
        h.phoff == bytes::le64(s, 32),
        h.phentsize == bytes::le16(s, 54),
        h.phnum == bytes::le16(s, 56),
        0 <= i <= h.phnum,
        forall|j: int| 0 <= j < bytes::le16(s, 56) ==> #[trigger] entry_is_sound(s, j),
        forall|i: int, j: int, page: int|
            0 <= i < j < bytes::le16(s, 56) && page % 4096 == 0 ==> !#[trigger] entries_share(
                s,
                i,
                j,
                page,
            ),
        forall|k: int| 0 <= k < mapped.len() ==> (#[trigger] mapped[k]).first % 4096 == 0,
        forall|page: int| #[trigger]
            is_held(mapped, page) ==> exists|j: int|
                0 <= j < i && #[trigger] entry_touches(s, j, page),
    ensures
        segments_plan(s, h, nx, i, mapped, steps).1 is None,
    decreases h.phnum - i,
{
    if i < h.phnum {
        reveal(segment_plan);
        let x = segment(s, h, i);
        assert(h.phoff + i * h.phentsize == entry_of(s, i));
        assert(entry_is_sound(s, i));
        let plan = segment_plan(s, x, i, nx, mapped);
        let first = paging::page_base(x.vaddr as int);
        let last = paging::page_base(x.vaddr + x.memsz - 1);
        if loads(x) {
            assert(segment_fault(s, x, i, nx) is None);
            lemma_shared_page_is_held(mapped, first, last);
            if let Some(page) = shared_page(mapped, first, last) {
                let j = choose|j: int| 0 <= j < i && #[trigger] entry_touches(s, j, page);
                assert(entry_touches(s, i, page));
                assert(entries_share(s, j, i, page));
            }
            let range = PageRange { first: first as u64, last: last as u64 };
            let next = mapped.push(range);
            assert(plan.1 == Ok::<Option<PageRange>, LoadError>(Some(range)));
            assert forall|page: int| #[trigger] is_held(next, page) implies exists|j: int|
                0 <= j < i + 1 && #[trigger] entry_touches(s, j, page) by {
                lemma_held_push(mapped, range, page);
                if is_held(mapped, page) {
                    let j = choose|j: int| 0 <= j < i && #[trigger] entry_touches(s, j, page);
                    assert(0 <= j < i + 1 && entry_touches(s, j, page));
                } else {
                    assert(entry_touches(s, i, page));
                }
            }
            lemma_sound_segments_are_planned(s, h, nx, i + 1, next, steps + plan.0);
        } else {
            assert(plan.1 == Ok::<Option<PageRange>, LoadError>(None));
            assert forall|page: int| #[trigger] is_held(mapped, page) implies exists|j: int|
                0 <= j < i + 1 && #[trigger] entry_touches(s, j, page) by {
                let j = choose|j: int| 0 <= j < i && #[trigger] entry_touches(s, j, page);
                assert(0 <= j < i + 1 && entry_touches(s, j, page));
            }
            lemma_sound_segments_are_planned(s, h, nx, i + 1, mapped, steps + plan.0);
        }
    }
}

/// The log says of a segment its number, its address, how many bytes it has
/// in the file and in memory, and its permissions.
pub proof fn law_segments_are_logged(i: nat, x: Segment)
    ensures
        text::says(
            segment_line(i, x),
            seq![
                text::decimal(i),
                text::hexadecimal(x.vaddr as nat),
                text::decimal(x.filesz as nat),
                text::decimal(x.memsz as nat),
                permissions_text(x.flags),
            ],
        ),
{
    let none = Seq::<Seq<char>>::empty();
    let start = "Najm Kernel:   segment "@;
    text::lemma_says(start, none, text::decimal(i), " - vaddr 0x"@);
    let line1 = start + text::decimal(i) + " - vaddr 0x"@;
    let parts1 = none.push(text::decimal(i));
    text::lemma_says(line1, parts1, text::hexadecimal(x.vaddr as nat), ", "@);
    let line2 = line1 + text::hexadecimal(x.vaddr as nat) + ", "@;
    let parts2 = parts1.push(text::hexadecimal(x.vaddr as nat));
    text::lemma_says(line2, parts2, text::decimal(x.filesz as nat), " bytes ("@);
    let line3 = line2 + text::decimal(x.filesz as nat) + " bytes ("@;
    let parts3 = parts2.push(text::decimal(x.filesz as nat));
    text::lemma_says(line3, parts3, text::decimal(x.memsz as nat), " in memory), permissions "@);
    let line4 = line3 + text::decimal(x.memsz as nat) + " in memory), permissions "@;
    let parts4 = parts3.push(text::decimal(x.memsz as nat));
    text::lemma_says(line4, parts4, permissions_text(x.flags), Seq::<char>::empty());
    let line5 = line4 + permissions_text(x.flags) + Seq::<char>::empty();
    let parts5 = parts4.push(permissions_text(x.flags));
    assert(parts5 =~= seq![
        text::decimal(i),
        text::hexadecimal(x.vaddr as nat),
        text::decimal(x.filesz as nat),
        text::decimal(x.memsz as nat),
        permissions_text(x.flags),
    ]);
    assert(segment_line(i, x) =~= line5);
}

/// The log says which program is loaded, where it starts and how many
/// program headers it has.
pub proof fn law_loading_is_logged(name: Seq<char>, h: ElfHeader)
    ensures
        text::says(
            loading_line(name, h),
            seq![
                name,
                text::hexadecimal(h.entry as nat),
                text::decimal(h.phnum as nat),
            ],
        ),
{
    let none = Seq::<Seq<char>>::empty();
    let start = "Najm Kernel: loading '"@;
    text::lemma_says(start, none, name, "' into a private address space - entry 0x"@);
    let line1 = start + name + "' into a private address space - entry 0x"@;
    let parts1 = none.push(name);
    text::lemma_says(line1, parts1, text::hexadecimal(h.entry as nat), ", "@);
    let line2 = line1 + text::hexadecimal(h.entry as nat) + ", "@;
    let parts2 = parts1.push(text::hexadecimal(h.entry as nat));
    text::lemma_says(line2, parts2, text::decimal(h.phnum as nat), " program header(s)"@);
    let line3 = line2 + text::decimal(h.phnum as nat) + " program header(s)"@;
    let parts3 = parts2.push(text::decimal(h.phnum as nat));
    assert(parts3 =~= seq![name, text::hexadecimal(h.entry as nat), text::decimal(h.phnum as nat)]);
    assert(loading_line(name, h) =~= line3);
}

/// Permissions are written as three letters, for reading, writing and
/// running, with a dash for what is not permitted.
pub proof fn law_permissions_are_written(flags: u32)
    ensures
        permissions_text(flags).len() == 3,
        permissions_text(flags)[0] == (if flags & 4 != 0 {
            'r'
        } else {
            '-'
        }),
        permissions_text(flags)[1] == (if flags & 2 != 0 {
            'w'
        } else {
            '-'
        }),
        permissions_text(flags)[2] == (if flags & 1 != 0 {
            'x'
        } else {
            '-'
        }),
{
    reveal_strlit("r");
    reveal_strlit("w");
    reveal_strlit("x");
    reveal_strlit("-");
}

proof fn lemma_accepted_segment_is_sound(
    s: Seq<u8>,
    x: Segment,
    i: int,
    nx: bool,
    mapped: Seq<PageRange>,
)
    requires
        segment_plan(s, x, i, nx, mapped).1 is Ok,
        x.kind == 1,
    ensures
        x.flags & 4 != 0,
        !(x.flags & 2 != 0 && x.flags & 1 != 0),
        x.filesz <= x.memsz,
        x.offset + x.filesz <= s.len(),
        x.vaddr < 0x7fff_ffff_f000,
        x.vaddr + x.memsz <= 0x7fff_ffff_f000,
{
    reveal(segment_plan);
    let last = x.vaddr + x.memsz - 1;
    assert(paging::page_base(last) == last - last % 4096);
}

proof fn lemma_planned_segments_are_sound(
    s: Seq<u8>,
    h: ElfHeader,
    nx: bool,
    i: int,
    mapped: Seq<PageRange>,
    steps: Seq<StepView>,
    j: int,
)
    requires
        segments_plan(s, h, nx, i, mapped, steps).1 is None,
        0 <= i <= j < h.phnum,
    ensures
        exists|held: Seq<PageRange>|
            (#[trigger] segment_plan(s, segment(s, h, j), j, nx, held)).1 is Ok,
    decreases h.phnum - i,
{
    let x = segment(s, h, i);
    let plan = segment_plan(s, x, i, nx, mapped);
    if j > i {
        match plan.1 {
            Err(_) => {},
            Ok(None) => {
                lemma_planned_segments_are_sound(s, h, nx, i + 1, mapped, steps + plan.0, j);
            },
            Ok(Some(range)) => {
                lemma_planned_segments_are_sound(
                    s,
                    h,
                    nx,
                    i + 1,
                    mapped.push(range),
                    steps + plan.0,
                    j,
                );
            },
        }
    } else {
        assert(segment_plan(s, segment(s, h, j), j, nx, mapped).1 is Ok);
    }
}

/// Nothing else is loaded: every segment of a program that is loaded can be
/// read, is not both written and run, is in the file and in user space, and
/// has no more bytes in the file than in memory.
#[verifier::spinoff_prover]
#[verifier::rlimit(40)]
pub proof fn law_loaded_programs_are_sound(s: Seq<u8>, h: ElfHeader, nx: bool, j: int)
    requires
        s.len() <= usize::MAX,
        header_of(s) == Ok::<ElfHeader, LoadError>(h),
        plan_of(s, h, nx).1 is Ok,
        0 <= j < bytes::le16(s, 56),
    ensures
        entry_is_sound(s, j),
{
    law_header_is_read(s);
    lemma_planned_segments_are_sound(s, h, nx, 0, Seq::empty(), Seq::empty(), j);
    let x = segment(s, h, j);
    let held = choose|held: Seq<PageRange>| (#[trigger] segment_plan(s, x, j, nx, held)).1 is Ok;
    assert(h.phoff + j * h.phentsize == entry_of(s, j));
    lemma_segment_fields(s, entry_of(s, j));
    assert(x == segment_at(s, entry_of(s, j)));
    if x.kind == 1 {
        lemma_accepted_segment_is_sound(s, x, j, nx, held);
    }
}

/// Whether a line of the log is the one about segment `i`, which is loaded.
pub open spec fn is_line_about(s: Seq<u8>, h: ElfHeader, line: LogLineView, i: int) -> bool {
    0 <= i < h.phnum && loads(segment(s, h, i)) && line.text == segment_line(
        i as nat,
        segment(s, h, i),
    )
}

proof fn lemma_segments_are_logged(
    s: Seq<u8>,
    h: ElfHeader,
    nx: bool,
    i: int,
    mapped: Seq<PageRange>,
    steps: Seq<StepView>,
    log: Seq<LogLineView>,
)
    requires
        0 <= i,
    ensures
        ({
            let all = segments_log(s, h, nx, i, mapped, steps.len(), log);
            let planned = segments_plan(s, h, nx, i, mapped, steps).0.len();
            &&& log.len() <= all.len()
            &&& planned >= steps.len()
            &&& forall|k: int| 0 <= k < log.len() ==> #[trigger] all[k] == log[k]
            &&& forall|k: int|
                log.len() <= k < all.len() ==> steps.len() < (#[trigger] all[k]).after <= planned
                    && exists|j: int| i <= j && #[trigger] is_line_about(s, h, all[k], j)
            &&& forall|k: int, m: int|
                log.len() <= k < m < all.len() ==> (#[trigger] all[k]).after < (
                #[trigger] all[m]).after
        }),
    decreases h.phnum - i,
{
    reveal(segment_plan);
    if i < h.phnum {
        let x = segment(s, h, i);
        let plan = segment_plan(s, x, i, nx, mapped);
        let next = steps + plan.0;
        match plan.1 {
            Err(_) => {},
            Ok(None) => {
                lemma_segments_are_logged(s, h, nx, i + 1, mapped, next, log);
            },
            Ok(Some(range)) => {
                let line = LogLineView { after: next.len(), text: segment_line(i as nat, x) };
                let longer = log.push(line);
                lemma_segments_are_logged(s, h, nx, i + 1, mapped.push(range), next, longer);
                let all = segments_log(s, h, nx, i, mapped, steps.len(), log);
                assert(all == segments_log(
                    s,
                    h,
                    nx,
                    i + 1,
                    mapped.push(range),
                    next.len(),
                    longer,
                ));
                assert(plan.0.len() > 0);
                assert(all[log.len() as int] == line);
                assert(is_line_about(s, h, line, i));
                assert forall|k: int| 0 <= k < log.len() implies #[trigger] all[k] == log[k] by {
                    assert(all[k] == longer[k]);
                }
            },
        }
    }
}

/// What is logged of a load: first that it begins, and then a line about each
/// segment once it is in memory, behind the steps that put it there and
/// before those of the next.
pub proof fn law_log_follows_the_load(
    s: Seq<u8>,
    name: Seq<char>,
    h: ElfHeader,
    nx: bool,
    k: int,
)
    ensures
        ({
            let log = log_of(s, name, h, nx);
            &&& log.len() > 0
            &&& log[0].after == 0
            &&& log[0].text == loading_line(name, h)
            &&& 0 < k < log.len() ==> {
                &&& log[k - 1].after < log[k].after <= plan_of(s, h, nx).0.len()
                &&& exists|j: int| #[trigger] is_line_about(s, h, log[k], j)
            }
        }),
{
    let first = seq![LogLineView { after: 0, text: loading_line(name, h) }];
    lemma_segments_are_logged(s, h, nx, 0, Seq::empty(), Seq::empty(), first);
    let log = log_of(s, name, h, nx);
    assert(log[0] == first[0]);
    if 0 < k < log.len() {
        let j = choose|j: int| 0 <= j && #[trigger] is_line_about(s, h, log[k], j);
        assert(is_line_about(s, h, log[k], j));
    }
}

} // verus!
