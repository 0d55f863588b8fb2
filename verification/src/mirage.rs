//! Running Windows binaries natively: a PE32+ loader and the thunks that
//! translate between calling conventions.
//!
//! An image is placed at a fixed base whatever base it asks for, relocated
//! to it, and its imports are bound to generated thunks. No page of it
//! ends up both writable and executable.
use vstd::prelude::*;
use crate::abi::layout;
use crate::bytes::{self, read_u64, u64_le_bytes};
use crate::image::{
    self, push_line, push_stack_steps, push_step, LogLine, LogLineView, Ready, Step, StepView,
};
use crate::mm::address_space::{AddressSpace, MapError};
use crate::mm::paging::{self, PageFlags};
use crate::text::{self, push_decimal, push_hexadecimal};

pub mod pe;
pub mod win32;

verus! {

broadcast use vstd::slice::group_slice_axioms;

/// Why a PE image could not be prepared for execution.
#[derive(Debug)]
pub enum MirageError {
    /// The file is not a PE32+ image this loader understands.
    NotPe(&'static str),
    /// An import names a function there is no thunk for.
    UnimplementedImport(String),
    /// A structural problem in the image.
    Malformed(&'static str),
    /// A mapping step failed.
    Mapping(MapError),
    /// There was no frame for a new address space.
    OutOfMemory,
}

impl MirageError {
    /// What `message` says.
    pub open spec fn text(&self) -> Seq<char> {
        match self {
            MirageError::NotPe(why) => "not a loadable PE32+ image: "@ + why@,
            MirageError::UnimplementedImport(name) => "the image imports '"@ + name@
                + "', which Mirage does not implement yet. Mirage currently \
                 provides "@ + text::decimal(win32::THUNK_COUNT as nat)
                + " functions; a real Windows application imports several hundred"@,
            MirageError::Malformed(why) => "malformed PE image: "@ + why@,
            MirageError::Mapping(e) => "could not map the image: "@ + e.text(),
            MirageError::OutOfMemory => "out of memory building the address space"@,
        }
    }

    /// A sentence for the log.
    pub fn message(&self) -> (out: String)
        ensures
            out@ == self.text(),
    {
        match self {
            MirageError::NotPe(why) => {
                let mut out = String::from_str("not a loadable PE32+ image: ");
                out.append(*why);
                out
            },
            MirageError::UnimplementedImport(name) => {
                let mut out = String::from_str("the image imports '");
                out.append(name.as_str());
                out.append(
                    "', which Mirage does not implement yet. Mirage currently \
                 provides ",
                );
                push_decimal(&mut out, win32::THUNK_COUNT as u64);
                out.append(" functions; a real Windows application imports several hundred");
                out
            },
            MirageError::Malformed(why) => {
                let mut out = String::from_str("malformed PE image: ");
                out.append(*why);
                out
            },
            MirageError::Mapping(e) => {
                let mut out = String::from_str("could not map the image: ");
                out.append(e.message().as_str());
                out
            },
            MirageError::OutOfMemory => String::from_str(
                "out of memory building the address space",
            ),
        }
    }
}

pub const OUTSIDE_IMAGE: &'static str = "a relocation points outside the mapped image";

pub const STRADDLES: &'static str = "a relocation straddles a page boundary";

pub const SECTION_WRITE_EXECUTE: &'static str =
    "a section requests both write and execute permission; Najm OS enforces W^X, so \
                 a self-modifying or packed image cannot run";

pub const TOO_MANY_THUNKS: &'static str = "too many imports to fit in one page of thunks";

/// The steps of a load, and how it ends once they are carried out.
#[derive(Debug)]
pub struct MiragePlan {
    pub steps: Vec<Step>,
    pub outcome: Result<Ready, MirageError>,
}

/// The name of the first import from `i` on that there is no thunk for.
pub open spec fn missing_import(imports: Seq<pe::ImportView>, i: int) -> Option<Seq<char>>
    decreases imports.len() - i,
{
    if i < 0 || i >= imports.len() {
        None
    } else if win32::thunk_for(imports[i].name) is None {
        Some(imports[i].name)
    } else {
        missing_import(imports, i + 1)
    }
}

/// Pages an image takes up.
pub open spec fn image_pages(v: pe::ImageView) -> int {
    (v.image_size + 4095) / 4096
}

/// Where the thunks go: the page right after the image.
pub open spec fn thunk_base(v: pe::ImageView) -> int {
    layout::MIRAGE_IMAGE_BASE + 4096 * image_pages(v)
}

/// Permissions of the image while it is filled in, and of the pages of it
/// that belong to no section: never executable.
pub open spec fn fill_flags(nx: bool) -> PageFlags {
    PageFlags { writable: true, user_accessible: true, no_execute: nx }
}

/// The steps that copy the sections' file data in.
pub open spec fn section_copies(sections: Seq<pe::Section>) -> Seq<StepView>
    decreases sections.len(),
{
    if sections.len() == 0 {
        Seq::empty()
    } else {
        let x = sections.last();
        let before = section_copies(sections.drop_last());
        if x.raw_size == 0 {
            before
        } else {
            before.push(
                StepView::Copy {
                    addr: (layout::MIRAGE_IMAGE_BASE + x.virtual_address) as u64,
                    from: x.raw_offset,
                    to: (x.raw_offset + x.raw_size) as usize,
                },
            )
        }
    }
}

/// How far the image moves from the base it was linked for.
pub open spec fn relocation_delta(v: pe::ImageView) -> u64 {
    if layout::MIRAGE_IMAGE_BASE >= v.preferred_base {
        (layout::MIRAGE_IMAGE_BASE - v.preferred_base) as u64
    } else {
        (0x1_0000_0000_0000_0000 + layout::MIRAGE_IMAGE_BASE - v.preferred_base) as u64
    }
}

/// The steps that adjust absolute addresses: none for an image that
/// happens to be linked for the base it is placed at.
pub open spec fn relocation_steps(v: pe::ImageView) -> Seq<StepView> {
    if relocation_delta(v) == 0 {
        Seq::empty()
    } else {
        Seq::new(
            v.relocations.len(),
            |i: int|
                StepView::Relocate {
                    addr: (layout::MIRAGE_IMAGE_BASE + v.relocations[i]) as u64,
                    delta: relocation_delta(v),
                },
        )
    }
}

/// The steps that bind the first `n` imports: each one's thunk, and its
/// address in the import address table.
pub open spec fn binding_steps(v: pe::ImageView, n: int) -> Seq<StepView>
    decreases n,
{
    if n <= 0 {
        Seq::empty()
    } else {
        let address = (thunk_base(v) + win32::THUNK_STRIDE * (n - 1)) as u64;
        binding_steps(v, n - 1).push(
            StepView::Write {
                addr: address,
                data: win32::thunk_code(win32::thunk_for(v.imports[n - 1].name).unwrap()),
            },
        ).push(
            StepView::Write {
                addr: (layout::MIRAGE_IMAGE_BASE + v.imports[n - 1].iat_rva) as u64,
                data: bytes::le64_bytes(address),
            },
        )
    }
}

/// How many thunks fit in their page.
pub const THUNKS_PER_PAGE: usize = 128;

/// Binding the imports: steps, and the error where they do not all fit.
pub open spec fn binding_plan(v: pe::ImageView, nx: bool) -> (Seq<StepView>, Option<MirageError>) {
    let head = seq![
        StepView::MapPages { first: thunk_base(v) as u64, pages: 1, flags: fill_flags(nx) },
        StepView::Zero { addr: thunk_base(v) as u64, len: 4096 },
    ];
    if v.imports.len() > THUNKS_PER_PAGE {
        (
            head + binding_steps(v, THUNKS_PER_PAGE as int),
            Some(MirageError::Malformed(TOO_MANY_THUNKS)),
        )
    } else {
        (
            (head + binding_steps(v, v.imports.len() as int)).push(
                StepView::Protect {
                    first: thunk_base(v) as u64,
                    pages: 1,
                    flags: PageFlags {
                        writable: false,
                        user_accessible: true,
                        no_execute: false,
                    },
                },
            ),
            None,
        )
    }
}

/// The step that gives a section's pages the permissions it declares.
pub open spec fn section_protection(x: pe::Section, nx: bool) -> StepView {
    let extent = if x.virtual_size == 0 {
        1
    } else {
        x.virtual_size as int
    };
    let first = x.virtual_address as int / 4096;
    let last = (x.virtual_address + extent - 1) / 4096;
    StepView::Protect {
        first: (layout::MIRAGE_IMAGE_BASE + 4096 * first) as u64,
        pages: (last - first + 1) as u64,
        flags: PageFlags {
            writable: x.writable,
            user_accessible: true,
            no_execute: !x.executable && nx,
        },
    }
}

/// The steps that tighten the sections from `i` on, after `steps`. A
/// section that asks for write and execute together ends the load.
pub open spec fn protections(
    sections: Seq<pe::Section>,
    nx: bool,
    i: int,
    steps: Seq<StepView>,
) -> (Seq<StepView>, Option<MirageError>)
    decreases sections.len() - i,
{
    if i < 0 || i >= sections.len() {
        (steps, None)
    } else if sections[i].writable && sections[i].executable {
        (steps, Some(MirageError::Malformed(SECTION_WRITE_EXECUTE)))
    } else {
        protections(sections, nx, i + 1, steps.push(section_protection(sections[i], nx)))
    }
}

/// The steps that map the image and copy the file into it.
pub open spec fn copying_steps(v: pe::ImageView, nx: bool) -> Seq<StepView> {
    seq![
        StepView::MapPages {
            first: layout::MIRAGE_IMAGE_BASE,
            pages: image_pages(v) as u64,
            flags: fill_flags(nx),
        },
        StepView::Zero {
            addr: layout::MIRAGE_IMAGE_BASE,
            len: (4096 * image_pages(v)) as u64,
        },
        StepView::Copy { addr: layout::MIRAGE_IMAGE_BASE, from: 0, to: v.headers_size },
    ] + section_copies(v.sections)
}

/// The steps up to and with the relocations.
pub open spec fn filling_steps(v: pe::ImageView, nx: bool) -> Seq<StepView> {
    copying_steps(v, nx) + relocation_steps(v)
}

/// The whole plan for a parsed image whose imports all have thunks.
pub open spec fn mirage_plan(v: pe::ImageView, nx: bool) -> (
    Seq<StepView>,
    Result<Ready, MirageError>,
) {
    let binding = binding_plan(v, nx);
    let bound = filling_steps(v, nx) + binding.0;
    match binding.1 {
        Some(e) => (bound, Err(e)),
        None => {
            let (tightened, fault) = protections(v.sections, nx, 0, bound);
            match fault {
                Some(e) => (tightened, Err(e)),
                None => (
                    tightened + image::stack_steps(nx),
                    Ok(
                        Ready {
                            entry: (layout::MIRAGE_IMAGE_BASE + v.entry_rva) as u64,
                            stack_top: (layout::USER_STACK_TOP - 64) as u64,
                        },
                    ),
                ),
            }
        },
    }
}

/// Adds `delta` to the 64-bit number at `address` of `space`: what carrying
/// out a relocation comes to. A relocation that straddles two pages is
/// refused rather than corrupting the next one.
#[verifier::spinoff_prover]
#[verifier::rlimit(40)]
pub fn relocate_at(space: &AddressSpace, mem: &mut [u8], address: u64, delta: u64) -> (r: Result<
    (),
    MirageError,
>)
    requires
        space.wf(),
    ensures
        match paging::translation(old(mem)@, space.root() as int, address) {
            None => r == Err::<(), MirageError>(MirageError::Malformed(OUTSIDE_IMAGE))
                && final(mem)@ == old(mem)@,
            Some(frame) => {
                let at = frame + address % 4096;
                if address % 4096 > 4088 {
                    r == Err::<(), MirageError>(MirageError::Malformed(STRADDLES)) && final(mem)@
                        == old(mem)@
                } else if at + 8 > old(mem)@.len() {
                    r == Err::<(), MirageError>(MirageError::Malformed(OUTSIDE_IMAGE))
                        && final(mem)@ == old(mem)@
                } else {
                    r == Ok::<(), MirageError>(()) && final(mem)@ == bytes::overwritten(
                        old(mem)@,
                        at,
                        bytes::le64_bytes(
                            ((bytes::le64(old(mem)@, at) + delta) % 0x1_0000_0000_0000_0000) as u64,
                        ),
                    )
                }
            },
        },
{
    let frame: u64 = match space.translate(mem, address) {
        Some(f) => f,
        None => {
            return Err(MirageError::Malformed(OUTSIDE_IMAGE));
        },
    };
    if address % 4096 > 4088 {
        return Err(MirageError::Malformed(STRADDLES));
    }
    let limit: u64 = mem.len() as u64;
    let offset: u64 = address % 4096;
    if limit < offset + 8 || frame > limit - (offset + 8) {
        return Err(MirageError::Malformed(OUTSIDE_IMAGE));
    }
    let at: usize = (frame + offset) as usize;
    let value: u64 = read_u64(mem, at);
    let moved: u64 = value.wrapping_add(delta);
    let data: Vec<u8> = u64_le_bytes(moved);
    let ghost before = mem@;
    let mut i: usize = 0;
    while i < 8
        invariant
            i <= 8,
            data@.len() == 8,
            at + 8 <= mem@.len(),
            mem@.len() == mem.len(),
            mem@ == bytes::overwritten(before, at as int, data@.subrange(0, i as int)),
        decreases 8 - i,
    {
        mem[at + i] = data[i];
        i += 1;
        assert(mem@ =~= bytes::overwritten(
            before,
            at as int,
            data@.subrange(0, i as int),
        ));
    }
    assert(data@.subrange(0, 8) =~= data@);
    Ok(())
}

fn check_imports(imports: &Vec<pe::Import>) -> (r: Result<(), MirageError>)
    ensures
        match r {
            Ok(_) => missing_import(pe::import_views(imports@), 0) is None,
            Err(MirageError::UnimplementedImport(name)) => missing_import(
                pe::import_views(imports@),
                0,
            ) == Some(name@),
            Err(_) => false,
        },
{
    let mut i: usize = 0;
    while i < imports.len()
        invariant
            i <= imports.len(),
            missing_import(pe::import_views(imports@), 0) == missing_import(
                pe::import_views(imports@),
                i as int,
            ),
        decreases imports.len() - i,
    {
        if win32::lookup(imports[i].name.as_str()).is_none() {
            return Err(MirageError::UnimplementedImport(imports[i].name.clone()));
        }
        i += 1;
    }
    Ok(())
}

/// With no import missing, every import has a thunk.
proof fn lemma_none_missing(imports: Seq<pe::ImportView>, i: int, j: int)
    requires
        missing_import(imports, i) is None,
        0 <= i <= j < imports.len(),
    ensures
        win32::thunk_for(imports[j].name) is Some,
    decreases j - i,
{
    if i < j {
        lemma_none_missing(imports, i + 1, j);
    }
}

/// The bounds the plan's arithmetic rests on.
pub open spec fn image_is_bounded(v: pe::ImageView, len: int) -> bool {
    &&& 0 < v.image_size <= pe::MAX_IMAGE_SIZE
    &&& v.headers_size <= len
    &&& v.sections.len() <= pe::MAX_SECTIONS
    &&& v.imports.len() <= pe::MAX_IMPORTS
    &&& forall|i: int|
        0 <= i < v.sections.len() ==> pe::section_is_bounded(
            #[trigger] v.sections[i],
            len,
            v.image_size as int,
        )
}

fn push_section_copies(sections: &Vec<pe::Section>, len: usize, steps: &mut Vec<Step>)
    requires
        forall|i: int|
            0 <= i < sections@.len() ==> (#[trigger] sections@[i]).raw_size > 0
                ==> sections@[i].raw_offset + sections@[i].raw_size <= len,
    ensures
        image::step_views(final(steps)@) == image::step_views(old(steps)@) + section_copies(
            sections@,
        ),
{
    let ghost before = image::step_views(steps@);
    let mut i: usize = 0;
    assert(sections@.subrange(0, 0) =~= Seq::<pe::Section>::empty());
    assert(before =~= before + section_copies(sections@.subrange(0, 0)));
    while i < sections.len()
        invariant
            i <= sections.len(),
            forall|i: int|
                0 <= i < sections@.len() ==> (#[trigger] sections@[i]).raw_size > 0
                    ==> sections@[i].raw_offset + sections@[i].raw_size <= len,
            image::step_views(steps@) == before + section_copies(
                sections@.subrange(0, i as int),
            ),
        decreases sections.len() - i,
    {
        let x: pe::Section = sections[i];
        let ghost done = sections@.subrange(0, i as int);
        let ghost next = sections@.subrange(0, i + 1);
        assert(next.drop_last() =~= done);
        if x.raw_size != 0 {
            push_step(
                steps,
                Step::Copy {
                    addr: layout::MIRAGE_IMAGE_BASE + x.virtual_address as u64,
                    from: x.raw_offset,
                    to: x.raw_offset + x.raw_size,
                },
            );
        }
        assert(image::step_views(steps@) =~= before + section_copies(next));
        i += 1;
    }
    assert(sections@.subrange(0, sections@.len() as int) =~= sections@);
}

/// Rewrites absolute addresses for the base the image is placed at. An
/// image that is already linked for that base needs none.
fn apply_relocations(image: &pe::Image, steps: &mut Vec<Step>)
    ensures
        image::step_views(final(steps)@) == image::step_views(old(steps)@) + relocation_steps(
            image@,
        ),
{
    let ghost before = image::step_views(steps@);
    let delta: u64 = layout::MIRAGE_IMAGE_BASE.wrapping_sub(image.preferred_base);
    assert(delta == relocation_delta(image@));
    if delta == 0 {
        assert(before =~= before + relocation_steps(image@));
        return;
    }
    let mut i: usize = 0;
    while i < image.relocations.len()
        invariant
            i <= image.relocations.len(),
            delta != 0,
            delta == relocation_delta(image@),
            image::step_views(steps@) == before + relocation_steps(image@).subrange(0, i as int),
        decreases image.relocations.len() - i,
    {
        push_step(
            steps,
            Step::Relocate {
                addr: layout::MIRAGE_IMAGE_BASE + image.relocations[i] as u64,
                delta,
            },
        );
        i += 1;
        assert(image::step_views(steps@) =~= before + relocation_steps(image@).subrange(
            0,
            i as int,
        ));
    }
    assert(relocation_steps(image@).subrange(0, i as int) =~= relocation_steps(image@));
}

/// Writes a thunk for each import and points the import address table at
/// it. The thunks live on their own page right after the image, so that
/// they can be executable and read-only independently of any section.
fn bind_imports(image: &pe::Image, nx_available: bool, steps: &mut Vec<Step>) -> (r: Result<
    (),
    MirageError,
>)
    requires
        0 < image@.image_size <= pe::MAX_IMAGE_SIZE,
        missing_import(image@.imports, 0) is None,
    ensures
        ({
            let plan = binding_plan(image@, nx_available);
            &&& image::step_views(final(steps)@) == image::step_views(old(steps)@) + plan.0
            &&& r == match plan.1 {
                Some(e) => Err::<(), MirageError>(e),
                None => Ok::<(), MirageError>(()),
            }
        }),
{
    let ghost before = image::step_views(steps@);
    let base: u64 = layout::MIRAGE_IMAGE_BASE;
    let pages: u64 = (image.image_size as u64 + 4095) / 4096;
    let thunks: u64 = base + pages * 4096;
    let fill = PageFlags { writable: true, user_accessible: true, no_execute: nx_available };
    push_step(steps, Step::MapPages { first: thunks, pages: 1, flags: fill });
    push_step(steps, Step::Zero { addr: thunks, len: 4096 });
    let ghost head = seq![
        StepView::MapPages {
            first: thunk_base(image@) as u64,
            pages: 1,
            flags: fill_flags(nx_available),
        },
        StepView::Zero { addr: thunk_base(image@) as u64, len: 4096 },
    ];
    assert(image::step_views(steps@) =~= before + (head + binding_steps(image@, 0)));
    let mut index: usize = 0;
    while index < image.imports.len()
        invariant
            index <= image.imports.len(),
            index <= THUNKS_PER_PAGE,
            before == image::step_views(old(steps)@),
            0 < image@.image_size <= pe::MAX_IMAGE_SIZE,
            missing_import(image@.imports, 0) is None,
            base == layout::MIRAGE_IMAGE_BASE,
            thunks == thunk_base(image@),
            thunks <= 0x3000_0000_0000,
            head == seq![
                StepView::MapPages {
                    first: thunk_base(image@) as u64,
                    pages: 1,
                    flags: fill_flags(nx_available),
                },
                StepView::Zero { addr: thunk_base(image@) as u64, len: 4096 },
            ],
            image::step_views(steps@) == before + (head + binding_steps(image@, index as int)),
        decreases image.imports.len() - index,
    {
        if index >= THUNKS_PER_PAGE {
            return Err(MirageError::Malformed(TOO_MANY_THUNKS));
        }
        proof {
            lemma_none_missing(image@.imports, 0, index as int);
        }
        match win32::lookup(image.imports[index].name.as_str()) {
            None => {
                return Err(
                    MirageError::UnimplementedImport(image.imports[index].name.clone()),
                );
            },
            Some(thunk) => {
                let code: Vec<u8> = win32::generate_thunk(&thunk);
                let address: u64 = thunks + (index * win32::THUNK_STRIDE) as u64;
                push_step(steps, Step::Write { addr: address, data: code });
                push_step(
                    steps,
                    Step::Write {
                        addr: base + image.imports[index].iat_rva as u64,
                        data: u64_le_bytes(address),
                    },
                );
                assert(image::step_views(steps@) =~= before + (head + binding_steps(
                    image@,
                    index + 1,
                )));
            },
        }
        index += 1;
    }
    // Code this loader generated must not stay writable.
    let flags = PageFlags { writable: false, user_accessible: true, no_execute: false };
    push_step(steps, Step::Protect { first: thunks, pages: 1, flags });
    assert(image::step_views(steps@) =~= before + binding_plan(image@, nx_available).0);
    Ok(())
}

fn protect_sections(sections: &Vec<pe::Section>, nx_available: bool, steps: &mut Vec<Step>) -> (r:
    Result<(), MirageError>)
    requires
        forall|i: int|
            0 <= i < sections@.len() ==> (#[trigger] sections@[i]).virtual_address
                + sections@[i].virtual_size <= pe::MAX_IMAGE_SIZE,
    ensures
        ({
            let (after, fault) = protections(
                sections@,
                nx_available,
                0,
                image::step_views(old(steps)@),
            );
            &&& image::step_views(final(steps)@) == after
            &&& r == match fault {
                Some(e) => Err::<(), MirageError>(e),
                None => Ok::<(), MirageError>(()),
            }
        }),
{
    let mut i: usize = 0;
    while i < sections.len()
        invariant
            i <= sections.len(),
            forall|i: int|
                0 <= i < sections@.len() ==> (#[trigger] sections@[i]).virtual_address
                    + sections@[i].virtual_size <= pe::MAX_IMAGE_SIZE,
            protections(sections@, nx_available, 0, image::step_views(old(steps)@)) == protections(
                sections@,
                nx_available,
                i as int,
                image::step_views(steps@),
            ),
        decreases sections.len() - i,
    {
        let x: pe::Section = sections[i];
        if x.writable && x.executable {
            return Err(MirageError::Malformed(SECTION_WRITE_EXECUTE));
        }
        let extent: u64 = if x.virtual_size == 0 {
            1
        } else {
            x.virtual_size as u64
        };
        let first: u64 = x.virtual_address as u64 / 4096;
        let last: u64 = (x.virtual_address as u64 + extent - 1) / 4096;
        let flags = PageFlags {
            writable: x.writable,
            user_accessible: true,
            no_execute: !x.executable && nx_available,
        };
        push_step(
            steps,
            Step::Protect {
                first: layout::MIRAGE_IMAGE_BASE + first * 4096,
                pages: last - first + 1,
                flags,
            },
        );
        i += 1;
    }
    Ok(())
}

/// The line about a load that begins.
pub open spec fn loading_line(name: Seq<char>, v: pe::ImageView) -> Seq<char> {
    "Najm Kernel: Mirage loading '"@ + name + "' - PE32+ image, "@ + text::decimal(
        v.sections.len(),
    ) + " section(s), "@ + text::decimal(v.imports.len()) + " import(s), preferred base 0x"@
        + text::hexadecimal(v.preferred_base as nat) + ", relocating to 0x"@ + text::hexadecimal(
        layout::MIRAGE_IMAGE_BASE as nat,
    )
}

/// The line about a load that is done.
pub open spec fn bound_line(v: pe::ImageView) -> Seq<char> {
    "Najm Kernel: Mirage bound "@ + text::decimal(v.imports.len())
        + " import(s) to ABI-translation thunks at 0x"@ + text::hexadecimal(thunk_base(v) as nat)
        + "; entry 0x"@ + text::hexadecimal((layout::MIRAGE_IMAGE_BASE + v.entry_rva) as nat)
}

/// The log of a load of `name`: a line at its beginning, whether or not its
/// imports can be bound, and one when every step has been carried out.
pub open spec fn mirage_log(name: Seq<char>, v: pe::ImageView, nx: bool) -> Seq<LogLineView> {
    let first = seq![LogLineView { after: 0, text: loading_line(name, v) }];
    let plan = mirage_plan(v, nx);
    if missing_import(v.imports, 0) is None && plan.1 is Ok {
        first.push(LogLineView { after: plan.0.len(), text: bound_line(v) })
    } else {
        first
    }
}

fn describe_load(name: &str, image: &pe::Image) -> (line: String)
    ensures
        line@ == loading_line(name@, image@),
{
    let mut line = String::from_str("Najm Kernel: Mirage loading '");
    line.append(name);
    line.append("' - PE32+ image, ");
    push_decimal(&mut line, image.sections.len() as u64);
    line.append(" section(s), ");
    push_decimal(&mut line, image.imports.len() as u64);
    line.append(" import(s), preferred base 0x");
    push_hexadecimal(&mut line, image.preferred_base);
    line.append(", relocating to 0x");
    push_hexadecimal(&mut line, layout::MIRAGE_IMAGE_BASE);
    line
}

fn describe_binding(image: &pe::Image) -> (line: String)
    requires
        0 < image@.image_size <= pe::MAX_IMAGE_SIZE,
    ensures
        line@ == bound_line(image@),
{
    let pages: u64 = (image.image_size as u64 + 4095) / 4096;
    let mut line = String::from_str("Najm Kernel: Mirage bound ");
    push_decimal(&mut line, image.imports.len() as u64);
    line.append(" import(s) to ABI-translation thunks at 0x");
    push_hexadecimal(&mut line, layout::MIRAGE_IMAGE_BASE + pages * 4096);
    line.append("; entry 0x");
    push_hexadecimal(&mut line, layout::MIRAGE_IMAGE_BASE + image.entry_rva as u64);
    line
}

/// Validates a PE32+ image and plans a private address space for it: map
/// and clear the image, copy headers and sections in, relocate, bind the
/// imports, tighten permissions per section, and add a stack.
///
/// A file that does not parse, or that imports a function there is no
/// thunk for, is an error at once; everything else is the plan, whose
/// outcome holds once all its steps have been carried out. What there is to
/// log meanwhile is appended to `log`.
pub fn load_image(
    bytes: &[u8],
    name: &str,
    nx_available: bool,
    log: &mut Vec<LogLine>,
) -> (r: Result<MiragePlan, MirageError>)
    ensures
        match pe::image_of(bytes@) {
            Err(e) => r == Err::<MiragePlan, MirageError>(e) && final(log)@ == old(log)@,
            Ok(v) => {
                &&& image::log_views(final(log)@) == image::log_views(old(log)@) + mirage_log(
                    name@,
                    v,
                    nx_available,
                )
                &&& match missing_import(v.imports, 0) {
                    Some(name) => r matches Err(MirageError::UnimplementedImport(n)) && n@ == name,
                    None => r matches Ok(plan) && (image::step_views(plan.steps@), plan.outcome)
                        == mirage_plan(v, nx_available),
                }
            },
        },
{
    let parsed: pe::Image = match pe::parse(bytes) {
        Ok(v) => v,
        Err(e) => {
            return Err(e);
        },
    };
    proof {
        pe::law_accepted_image_is_bounded(bytes@);
    }
    let ghost v = parsed@;
    assert(image_is_bounded(v, bytes@.len() as int));
    let ghost logged = image::log_views(log@);
    push_line(log, 0, describe_load(name, &parsed));
    let ghost first = seq![LogLineView { after: 0, text: loading_line(name@, v) }];
    assert(image::log_views(log@) =~= logged + first);
    match check_imports(&parsed.imports) {
        Ok(_) => {},
        Err(e) => {
            return Err(e);
        },
    }
    let base: u64 = layout::MIRAGE_IMAGE_BASE;
    let pages: u64 = (parsed.image_size as u64 + 4095) / 4096;
    let fill = PageFlags { writable: true, user_accessible: true, no_execute: nx_available };
    let mut steps: Vec<Step> = Vec::new();
    push_step(&mut steps, Step::MapPages { first: base, pages, flags: fill });
    push_step(&mut steps, Step::Zero { addr: base, len: pages * 4096 });
    push_step(&mut steps, Step::Copy { addr: base, from: 0, to: parsed.headers_size });
    push_section_copies(&parsed.sections, bytes.len(), &mut steps);
    apply_relocations(&parsed, &mut steps);
    assert(image::step_views(steps@) =~= filling_steps(v, nx_available));
    match bind_imports(&parsed, nx_available, &mut steps) {
        Ok(_) => {},
        Err(e) => {
            return Ok(MiragePlan { steps, outcome: Err(e) });
        },
    }
    match protect_sections(&parsed.sections, nx_available, &mut steps) {
        Ok(_) => {},
        Err(e) => {
            return Ok(MiragePlan { steps, outcome: Err(e) });
        },
    }
    push_stack_steps(&mut steps, nx_available);
    push_line(log, steps.len(), describe_binding(&parsed));
    assert(image::log_views(log@) =~= logged + mirage_log(name@, v, nx_available));
    Ok(
        MiragePlan {
            steps,
            // The Microsoft x64 convention wants space above the return
            // address for the callee to spill its arguments into.
            outcome: Ok(
                Ready {
                    entry: base + parsed.entry_rva as u64,
                    stack_top: layout::USER_STACK_TOP - 64,
                },
            ),
        },
    )
}

// ---------------------------------------------------------------------
// Laws
// ---------------------------------------------------------------------

/// Every step of loading an accepted image keeps to user space and never
/// makes a page both writable and executable, on a processor that can
/// forbid execution; so no process built by them has such a page, at any
/// moment of the load.
#[verifier::spinoff_prover]
#[verifier::rlimit(60)]
pub proof fn law_mirage_process_is_safe(s: Seq<u8>, stale: spec_fn(int) -> u8, n: int)
    requires
        pe::image_of(s) is Ok,
        0 <= n <= mirage_plan(pe::image_of(s)->Ok_0, true).0.len(),
    ensures
        ({
            let steps = mirage_plan(pe::image_of(s)->Ok_0, true).0;
            image::run(s, stale, steps.subrange(0, n)) matches Some(p) ==> image::picture_is_safe(p)
        }),
{
    let v = pe::image_of(s)->Ok_0;
    let steps = mirage_plan(v, true).0;
    pe::law_accepted_image_is_bounded(s);
    assert(image_is_bounded(v, s.len() as int));
    lemma_filling_safe(v);
    lemma_binding_safe(v, v.imports.len() as int);
    lemma_binding_safe(v, THUNKS_PER_PAGE as int);
    let binding = binding_plan(v, true).0;
    assert(image::steps_are_safe(binding));
    let bound = filling_steps(v, true) + binding;
    assert(image::steps_are_safe(bound));
    lemma_protections_safe(v, s.len() as int, 0, bound);
    assert(image::steps_are_safe(steps));
    assert(image::steps_are_safe(steps.subrange(0, n)));
    image::lemma_safe_steps_run_safely(s, stale, steps.subrange(0, n));
}

proof fn lemma_copies_safe(sections: Seq<pe::Section>)
    ensures
        image::steps_are_safe(section_copies(sections)),
    decreases sections.len(),
{
    if sections.len() > 0 {
        lemma_copies_safe(sections.drop_last());
    }
}

proof fn lemma_filling_safe(v: pe::ImageView)
    requires
        0 < v.image_size <= pe::MAX_IMAGE_SIZE,
    ensures
        image::steps_are_safe(filling_steps(v, true)),
{
    lemma_copies_safe(v.sections);
}

proof fn lemma_binding_safe(v: pe::ImageView, n: int)
    ensures
        image::steps_are_safe(binding_steps(v, n)),
    decreases n,
{
    if n > 0 {
        lemma_binding_safe(v, n - 1);
    }
}

proof fn lemma_protections_safe(v: pe::ImageView, len: int, i: int, steps: Seq<StepView>)
    requires
        image_is_bounded(v, len),
        image::steps_are_safe(steps),
        0 <= i,
    ensures
        image::steps_are_safe(protections(v.sections, true, i, steps).0),
    decreases v.sections.len() - i,
{
    if i < v.sections.len() {
        let x = v.sections[i];
        assert(pe::section_is_bounded(x, len, v.image_size as int));
        if !(x.writable && x.executable) {
            assert(image::step_is_safe(section_protection(x, true)));
            lemma_protections_safe(v, len, i + 1, steps.push(section_protection(x, true)));
        }
    }
}

// ---------------------------------------------------------------------
// What a loaded image holds
// ---------------------------------------------------------------------

/// Where the import address table has import `j`'s slot.
pub open spec fn import_slot(v: pe::ImageView, j: int) -> int {
    layout::MIRAGE_IMAGE_BASE + v.imports[j].iat_rva
}

/// Where import `j`'s thunk is.
pub open spec fn import_thunk(v: pe::ImageView, j: int) -> int {
    thunk_base(v) + win32::THUNK_STRIDE * j
}

/// The slots of the import address table lie in the image, and no two of
/// them overlap.
pub open spec fn slots_are_regular(v: pe::ImageView) -> bool {
    &&& forall|j: int|
        0 <= j < v.imports.len() ==> #[trigger] import_slot(v, j) + 8 <= thunk_base(v)
    &&& forall|i: int, j: int|
        0 <= i < v.imports.len() && 0 <= j < v.imports.len() && i != j ==> #[trigger] import_slot(
            v,
            i,
        ) + 8 <= #[trigger] import_slot(v, j) || import_slot(v, j) + 8 <= import_slot(v, i)
}

/// Import `j` is bound: its thunk is in place, and its slot holds the
/// thunk's address.
pub open spec fn import_is_bound(v: pe::ImageView, p: image::Picture, j: int) -> bool {
    &&& forall|k: int|
        0 <= k < win32::THUNK_STRIDE ==> #[trigger] (p.bytes)(import_thunk(v, j) + k)
            == win32::thunk_code(win32::thunk_for(v.imports[j].name).unwrap())[k]
    &&& image::eight_bytes(p, import_slot(v, j)) == bytes::le64_bytes(import_thunk(v, j) as u64)
}

/// Whether binding the first `n` imports writes at `a`.
pub open spec fn is_written_by_binding(v: pe::ImageView, n: int, a: int) -> bool {
    ||| thunk_base(v) <= a < thunk_base(v) + 4096
    ||| exists|j: int| 0 <= j < n && #[trigger] import_slot(v, j) <= a < import_slot(v, j) + 8
}

/// One import is bound, and those before it stay bound.
#[verifier::spinoff_prover]
#[verifier::rlimit(40)]
proof fn lemma_one_binding(
    v: pe::ImageView,
    before: image::Picture,
    after: image::Picture,
    n: int,
)
    requires
        0 < v.image_size <= pe::MAX_IMAGE_SIZE,
        slots_are_regular(v),
        0 <= n < v.imports.len() <= THUNKS_PER_PAGE,
        forall|j: int| 0 <= j < n ==> #[trigger] import_is_bound(v, before, j),
        after.bytes == image::with_data(
            image::with_data(
                before,
                import_thunk(v, n),
                win32::thunk_code(win32::thunk_for(v.imports[n].name).unwrap()),
            ),
            import_slot(v, n),
            bytes::le64_bytes(import_thunk(v, n) as u64),
        ).bytes,
    ensures
        forall|j: int| 0 <= j < n + 1 ==> #[trigger] import_is_bound(v, after, j),
        forall|a: int|
            !is_written_by_binding(v, n + 1, a) ==> #[trigger] (after.bytes)(a) == (before.bytes)(
                a,
            ),
{
    let code = win32::thunk_code(win32::thunk_for(v.imports[n].name).unwrap());
    let target = bytes::le64_bytes(import_thunk(v, n) as u64);
    win32::law_thunks_return(win32::thunk_for(v.imports[n].name).unwrap());
    assert(import_slot(v, n) + 8 <= thunk_base(v));
    assert forall|j: int| 0 <= j < n + 1 implies #[trigger] import_is_bound(v, after, j) by {
        assert(import_slot(v, j) + 8 <= thunk_base(v));
        if j == n {
            assert(image::eight_bytes(after, import_slot(v, n)) =~= target);
        } else {
            assert(import_is_bound(v, before, j));
            assert(import_slot(v, n) + 8 <= import_slot(v, j) || import_slot(v, j) + 8
                <= import_slot(v, n));
            assert forall|k: int| 0 <= k < win32::THUNK_STRIDE implies #[trigger] (after.bytes)(
                import_thunk(v, j) + k,
            ) == win32::thunk_code(win32::thunk_for(v.imports[j].name).unwrap())[k] by {
                assert((before.bytes)(import_thunk(v, j) + k) == win32::thunk_code(
                    win32::thunk_for(v.imports[j].name).unwrap(),
                )[k]);
            }
            assert(image::eight_bytes(after, import_slot(v, j)) =~= image::eight_bytes(
                before,
                import_slot(v, j),
            ));
        }
    }
    assert forall|a: int| !is_written_by_binding(v, n + 1, a) implies #[trigger] (after.bytes)(a)
        == (before.bytes)(a) by {
        assert(!(import_slot(v, n) <= a < import_slot(v, n) + 8));
    }
}

/// What binding the first `n` imports comes to.
proof fn lemma_bindings_run(
    file: Seq<u8>,
    stale: spec_fn(int) -> u8,
    v: pe::ImageView,
    steps: Seq<StepView>,
    p: image::Picture,
    n: int,
)
    requires
        0 < v.image_size <= pe::MAX_IMAGE_SIZE,
        slots_are_regular(v),
        0 <= n <= v.imports.len() <= THUNKS_PER_PAGE,
        image::run(file, stale, steps) == Some(p),
        image::run(file, stale, steps + binding_steps(v, n)) is Some,
    ensures
        ({
            let q = image::run(file, stale, steps + binding_steps(v, n)).unwrap();
            &&& forall|j: int| 0 <= j < n ==> #[trigger] import_is_bound(v, q, j)
            &&& forall|a: int|
                !is_written_by_binding(v, n, a) ==> #[trigger] (q.bytes)(a) == (p.bytes)(a)
            &&& q.flags == p.flags
        }),
    decreases n,
{
    if n == 0 {
        assert(steps + binding_steps(v, 0) =~= steps);
    } else {
        let shorter = steps + binding_steps(v, n - 1);
        let longer = steps + binding_steps(v, n);
        let thunk = binding_steps(v, n)[binding_steps(v, n).len() - 2];
        let slot = binding_steps(v, n).last();
        assert(longer =~= shorter.push(thunk).push(slot));
        image::lemma_run_push(file, stale, shorter.push(thunk), slot);
        image::lemma_run_push(file, stale, shorter, thunk);
        assert(image::run(file, stale, shorter) is Some);
        lemma_bindings_run(file, stale, v, steps, p, n - 1);
        let before = image::run(file, stale, shorter).unwrap();
        let after = image::run(file, stale, longer).unwrap();
        assert(import_slot(v, n - 1) + 8 <= thunk_base(v));
        lemma_one_binding(v, before, after, n - 1);
        assert forall|a: int| !is_written_by_binding(v, n, a) implies #[trigger] (after.bytes)(a)
            == (p.bytes)(a) by {
            assert(!is_written_by_binding(v, n - 1, a)) by {
                if is_written_by_binding(v, n - 1, a) && !(thunk_base(v) <= a < thunk_base(v)
                    + 4096) {
                    let j = choose|j: int|
                        0 <= j < n - 1 && #[trigger] import_slot(v, j) <= a < import_slot(v, j) + 8;
                    assert(import_slot(v, j) <= a < import_slot(v, j) + 8);
                }
            }
        }
    }
}

/// Giving sections their permissions changes no byte, and no page past the
/// image.
proof fn lemma_protections_run(
    file: Seq<u8>,
    stale: spec_fn(int) -> u8,
    v: pe::ImageView,
    nx: bool,
    i: int,
    steps: Seq<StepView>,
    p: image::Picture,
)
    requires
        image_is_bounded(v, file.len() as int),
        0 <= i <= v.sections.len(),
        image::run(file, stale, steps) == Some(p),
        image::run(file, stale, protections(v.sections, nx, i, steps).0) is Some,
    ensures
        ({
            let q = image::run(file, stale, protections(v.sections, nx, i, steps).0).unwrap();
            &&& q.bytes == p.bytes
            &&& p.flags.dom().contains(thunk_base(v)) ==> q.flags.dom().contains(thunk_base(v))
                && q.flags[thunk_base(v)] == p.flags[thunk_base(v)]
        }),
    decreases v.sections.len() - i,
{
    if i < v.sections.len() && !(v.sections[i].writable && v.sections[i].executable) {
        let step = section_protection(v.sections[i], nx);
        let next = steps.push(step);
        image::lemma_run_push(file, stale, steps, step);
        lemma_protections_extend(v.sections, nx, i + 1, next);
        image::lemma_run_prefix(file, stale, next, protections(v.sections, nx, i + 1, next).0);
        let q = image::run(file, stale, next).unwrap();
        assert(pe::section_is_bounded(v.sections[i], file.len() as int, v.image_size as int));
        lemma_protections_run(file, stale, v, nx, i + 1, next, q);
    }
}

proof fn lemma_protections_extend(
    sections: Seq<pe::Section>,
    nx: bool,
    i: int,
    steps: Seq<StepView>,
)
    ensures
        steps.is_prefix_of(protections(sections, nx, i, steps).0),
    decreases sections.len() - i,
{
    if 0 <= i < sections.len() && !(sections[i].writable && sections[i].executable) {
        lemma_protections_extend(
            sections,
            nx,
            i + 1,
            steps.push(section_protection(sections[i], nx)),
        );
    }
}

/// What a whole load leaves of the filled image: its imports are bound,
/// and every other byte of it is as it was filled in.
proof fn lemma_load_binds(
    s: Seq<u8>,
    stale: spec_fn(int) -> u8,
    v: pe::ImageView,
    nx: bool,
    filled: image::Picture,
)
    requires
        image_is_bounded(v, s.len() as int),
        slots_are_regular(v),
        mirage_plan(v, nx).1 is Ok,
        image::run(s, stale, filling_steps(v, nx)) == Some(filled),
        image::run(s, stale, mirage_plan(v, nx).0) is Some,
    ensures
        ({
            let q = image::run(s, stale, mirage_plan(v, nx).0).unwrap();
            &&& forall|j: int| 0 <= j < v.imports.len() ==> #[trigger] import_is_bound(v, q, j)
            &&& forall|a: int|
                a < thunk_base(v) && !is_written_by_binding(v, v.imports.len() as int, a)
                    ==> #[trigger] (q.bytes)(a) == (filled.bytes)(a)
            &&& q.flags.dom().contains(thunk_base(v))
            &&& q.flags[thunk_base(v)] == (PageFlags {
                writable: false,
                user_accessible: true,
                no_execute: false,
            })
        }),
{
    let n = v.imports.len() as int;
    let base = thunk_base(v);
    let whole = mirage_plan(v, nx).0;
    let binding = binding_plan(v, nx).0;
    let bound = filling_steps(v, nx) + binding;
    let tightened = protections(v.sections, nx, 0, bound).0;
    assert(whole == tightened + image::stack_steps(nx));
    assert(tightened.is_prefix_of(whole));
    image::lemma_run_prefix(s, stale, tightened, whole);
    lemma_protections_extend(v.sections, nx, 0, bound);
    image::lemma_run_prefix(s, stale, bound, tightened);
    let f1 = filling_steps(v, nx).push(binding[0]);
    let f2 = f1.push(binding[1]);
    let f3 = f2 + binding_steps(v, n);
    assert(bound =~= f3.push(binding.last()));
    assert(f3.is_prefix_of(bound));
    image::lemma_run_prefix(s, stale, f3, bound);
    assert(f2.is_prefix_of(f3));
    image::lemma_run_prefix(s, stale, f2, f3);
    image::lemma_run_push(s, stale, filling_steps(v, nx), binding[0]);
    image::lemma_run_push(s, stale, f1, binding[1]);
    let p2 = image::run(s, stale, f2).unwrap();
    assert forall|a: int| a < base implies #[trigger] (p2.bytes)(a) == (filled.bytes)(a) by {}
    assert(image::in_pages(base, 1, base));
    assert(p2.flags.dom().contains(base));
    lemma_bindings_run(s, stale, v, f2, p2, n);
    let p3 = image::run(s, stale, f3).unwrap();
    image::lemma_run_push(s, stale, f3, binding.last());
    let p4 = image::run(s, stale, bound).unwrap();
    assert(p4.bytes == p3.bytes);
    lemma_protections_run(s, stale, v, nx, 0, bound, p4);
    let p5 = image::run(s, stale, tightened).unwrap();
    let t1 = tightened.push(image::stack_steps(nx)[0]);
    let t2 = t1.push(image::stack_steps(nx)[1]);
    assert(whole =~= t2);
    image::lemma_run_push(s, stale, tightened, image::stack_steps(nx)[0]);
    image::lemma_run_push(s, stale, t1, image::stack_steps(nx)[1]);
    let q = image::run(s, stale, whole).unwrap();
    assert(base + 4096 <= layout::USER_STACK_BOTTOM);
    assert forall|a: int| a < base + 4096 implies #[trigger] (q.bytes)(a) == (p3.bytes)(a) by {}
    assert forall|j: int| 0 <= j < n implies #[trigger] import_is_bound(v, q, j) by {
        assert(import_is_bound(v, p3, j));
        assert(import_slot(v, j) + 8 <= base);
        assert forall|k: int| 0 <= k < win32::THUNK_STRIDE implies #[trigger] (q.bytes)(
            import_thunk(v, j) + k,
        ) == win32::thunk_code(win32::thunk_for(v.imports[j].name).unwrap())[k] by {
            assert((p3.bytes)(import_thunk(v, j) + k) == win32::thunk_code(
                win32::thunk_for(v.imports[j].name).unwrap(),
            )[k]);
        }
        assert(image::eight_bytes(q, import_slot(v, j)) =~= image::eight_bytes(
            p3,
            import_slot(v, j),
        ));
    }
}

/// Where a load succeeds, every import is bound: the slot it is called
/// through holds the address of the thunk of that name, and the thunk is
/// there, can be run, and cannot be written.
pub proof fn law_imports_are_bound(
    s: Seq<u8>,
    stale: spec_fn(int) -> u8,
    v: pe::ImageView,
    nx: bool,
    j: int,
)
    requires
        pe::image_of(s) == Ok::<pe::ImageView, MirageError>(v),
        missing_import(v.imports, 0) is None,
        slots_are_regular(v),
        mirage_plan(v, nx).1 is Ok,
        image::run(s, stale, mirage_plan(v, nx).0) is Some,
        0 <= j < v.imports.len(),
    ensures
        ({
            let q = image::run(s, stale, mirage_plan(v, nx).0).unwrap();
            &&& win32::thunk_for(v.imports[j].name) is Some
            &&& import_is_bound(v, q, j)
            &&& q.flags.dom().contains(thunk_base(v))
            &&& !q.flags[thunk_base(v)].writable && !q.flags[thunk_base(v)].no_execute
        }),
{
    pe::law_accepted_image_is_bounded(s);
    lemma_none_missing(v.imports, 0, j);
    lemma_filling_runs(s, stale, v, nx);
    lemma_load_binds(s, stale, v, nx, image::run(s, stale, filling_steps(v, nx)).unwrap());
}

proof fn lemma_filling_runs(s: Seq<u8>, stale: spec_fn(int) -> u8, v: pe::ImageView, nx: bool)
    requires
        mirage_plan(v, nx).1 is Ok,
        image::run(s, stale, mirage_plan(v, nx).0) is Some,
    ensures
        image::run(s, stale, filling_steps(v, nx)) is Some,
{
    let bound = filling_steps(v, nx) + binding_plan(v, nx).0;
    let tightened = protections(v.sections, nx, 0, bound).0;
    let whole = mirage_plan(v, nx).0;
    assert(whole == tightened + image::stack_steps(nx));
    assert(tightened.is_prefix_of(whole));
    image::lemma_run_prefix(s, stale, tightened, whole);
    lemma_protections_extend(v.sections, nx, 0, bound);
    image::lemma_run_prefix(s, stale, bound, tightened);
    assert(filling_steps(v, nx).is_prefix_of(bound));
    image::lemma_run_prefix(s, stale, filling_steps(v, nx), bound);
}

/// Where relocation `j` is applied.
pub open spec fn relocated_at(v: pe::ImageView, j: int) -> int {
    layout::MIRAGE_IMAGE_BASE + v.relocations[j]
}

/// The relocations do not overlap.
pub open spec fn relocations_are_apart(v: pe::ImageView) -> bool {
    forall|i: int, j: int|
        0 <= i < v.relocations.len() && 0 <= j < v.relocations.len() && i != j
            ==> #[trigger] relocated_at(v, i) + 8 <= #[trigger] relocated_at(v, j) || relocated_at(
            v,
            j,
        ) + 8 <= relocated_at(v, i)
}

/// The 64-bit number at `a`.
pub open spec fn number_at(p: image::Picture, a: int) -> int {
    bytes::le64(image::eight_bytes(p, a), 0)
}

/// What the first `n` relocations come to.
#[verifier::spinoff_prover]
#[verifier::rlimit(40)]
proof fn lemma_relocations_run(
    file: Seq<u8>,
    stale: spec_fn(int) -> u8,
    v: pe::ImageView,
    steps: Seq<StepView>,
    p: image::Picture,
    n: int,
)
    requires
        relocations_are_apart(v),
        relocation_delta(v) != 0,
        0 <= n <= v.relocations.len(),
        image::run(file, stale, steps) == Some(p),
        image::run(file, stale, steps + relocation_steps(v).take(n)) is Some,
    ensures
        ({
            let q = image::run(file, stale, steps + relocation_steps(v).take(n)).unwrap();
            &&& forall|j: int|
                0 <= j < n ==> number_at(q, #[trigger] relocated_at(v, j)) == (number_at(
                    p,
                    relocated_at(v, j),
                ) + relocation_delta(v)) % 0x1_0000_0000_0000_0000
            &&& forall|j: int|
                n <= j < v.relocations.len() ==> image::eight_bytes(
                    q,
                    #[trigger] relocated_at(v, j),
                ) == image::eight_bytes(p, relocated_at(v, j))
        }),
    decreases n,
{
    if n == 0 {
        assert(steps + relocation_steps(v).take(0) =~= steps);
    } else {
        let shorter = steps + relocation_steps(v).take(n - 1);
        let longer = steps + relocation_steps(v).take(n);
        let step = relocation_steps(v)[n - 1];
        assert(longer =~= shorter.push(step));
        image::lemma_run_push(file, stale, shorter, step);
        assert(image::run(file, stale, shorter) is Some);
        lemma_relocations_run(file, stale, v, steps, p, n - 1);
        let before = image::run(file, stale, shorter).unwrap();
        let after = image::run(file, stale, longer).unwrap();
        let at = relocated_at(v, n - 1);
        let moved = ((number_at(before, at) + relocation_delta(v)) % 0x1_0000_0000_0000_0000) as u64;
        assert(image::eight_bytes(before, at) == image::eight_bytes(p, at));
        assert(image::eight_bytes(after, at) =~= bytes::le64_bytes(moved));
        bytes::lemma_le64_round_trip(moved);
        assert(number_at(after, at) == moved);
        assert forall|j: int| 0 <= j < v.relocations.len() && j != n - 1 implies image::eight_bytes(
            after,
            #[trigger] relocated_at(v, j),
        ) == image::eight_bytes(before, relocated_at(v, j)) by {
            assert(relocated_at(v, j) + 8 <= at || at + 8 <= relocated_at(v, j));
            assert(image::eight_bytes(after, relocated_at(v, j)) =~= image::eight_bytes(
                before,
                relocated_at(v, j),
            ));
        }
    }
}

/// Where a load succeeds, every address that the image says is absolute
/// has moved along with the image: it is what the file had there, plus the
/// distance from the base the image was linked for to the base it has.
/// Slots of the import address table are not addresses of this kind.
#[verifier::spinoff_prover]
#[verifier::rlimit(40)]
pub proof fn law_addresses_move_with_the_image(
    s: Seq<u8>,
    stale: spec_fn(int) -> u8,
    v: pe::ImageView,
    nx: bool,
    j: int,
)
    requires
        pe::image_of(s) == Ok::<pe::ImageView, MirageError>(v),
        slots_are_regular(v),
        relocations_are_apart(v),
        mirage_plan(v, nx).1 is Ok,
        image::run(s, stale, mirage_plan(v, nx).0) is Some,
        0 <= j < v.relocations.len(),
        relocated_at(v, j) + 8 <= thunk_base(v),
        forall|a: int|
            relocated_at(v, j) <= a < relocated_at(v, j) + 8 ==> !#[trigger] is_written_by_binding(
                v,
                v.imports.len() as int,
                a,
            ),
    ensures
        image::run(s, stale, copying_steps(v, nx)) is Some,
        ({
            let copied = image::run(s, stale, copying_steps(v, nx)).unwrap();
            let q = image::run(s, stale, mirage_plan(v, nx).0).unwrap();
            number_at(q, relocated_at(v, j)) == (number_at(copied, relocated_at(v, j))
                + relocation_delta(v)) % 0x1_0000_0000_0000_0000
        }),
{
    pe::law_accepted_image_is_bounded(s);
    lemma_filling_runs(s, stale, v, nx);
    let filled = image::run(s, stale, filling_steps(v, nx)).unwrap();
    lemma_load_binds(s, stale, v, nx, filled);
    let q = image::run(s, stale, mirage_plan(v, nx).0).unwrap();
    let at = relocated_at(v, j);
    assert(image::eight_bytes(q, at) == image::eight_bytes(filled, at)) by {
        assert forall|i: int| 0 <= i < 8 implies #[trigger] image::eight_bytes(q, at)[i]
            == image::eight_bytes(filled, at)[i] by {
            assert(!is_written_by_binding(v, v.imports.len() as int, at + i));
        }
        assert(image::eight_bytes(q, at) =~= image::eight_bytes(filled, at));
    }
    lemma_filled_is_relocated(s, stale, v, nx, filled, j);
}

/// What filling an image in leaves at a relocation.
proof fn lemma_filled_is_relocated(
    s: Seq<u8>,
    stale: spec_fn(int) -> u8,
    v: pe::ImageView,
    nx: bool,
    filled: image::Picture,
    j: int,
)
    requires
        relocations_are_apart(v),
        image::run(s, stale, filling_steps(v, nx)) == Some(filled),
        0 <= j < v.relocations.len(),
    ensures
        image::run(s, stale, copying_steps(v, nx)) is Some,
        number_at(filled, relocated_at(v, j)) == (number_at(
            image::run(s, stale, copying_steps(v, nx)).unwrap(),
            relocated_at(v, j),
        ) + relocation_delta(v)) % 0x1_0000_0000_0000_0000,
{
    let copies = copying_steps(v, nx);
    assert(copies.is_prefix_of(filling_steps(v, nx)));
    image::lemma_run_prefix(s, stale, copies, filling_steps(v, nx));
    let copied = image::run(s, stale, copies).unwrap();
    if relocation_delta(v) == 0 {
        assert(filling_steps(v, nx) =~= copies);
        lemma_number_is_small(copied, relocated_at(v, j));
    } else {
        let n = v.relocations.len() as int;
        assert(relocation_steps(v).take(n) =~= relocation_steps(v));
        lemma_relocations_run(s, stale, v, copies, copied, n);
    }
}

proof fn lemma_number_is_small(p: image::Picture, a: int)
    ensures
        0 <= number_at(p, a) < 0x1_0000_0000_0000_0000,
{
}

// ---------------------------------------------------------------------
// Carrying a load out
// ---------------------------------------------------------------------

/// The pages that are mapped are the first `pages` from the image's base.
spec fn maps_from_the_base(p: image::Picture, pages: int) -> bool {
    forall|page: int| #[trigger]
        p.flags.dom().contains(page) <==> image::in_pages(
            layout::MIRAGE_IMAGE_BASE as int,
            pages,
            page,
        )
}

/// A step that maps nothing and touches nothing but those pages.
spec fn stays_inside(step: StepView, pages: int) -> bool {
    let base = layout::MIRAGE_IMAGE_BASE as int;
    let end = base + 4096 * pages;
    match step {
        StepView::MapPages { .. } => false,
        StepView::Zero { addr, len } => base <= addr && addr + len <= end,
        StepView::Copy { addr, from, to } => base <= addr && addr + (to - from) <= end,
        StepView::Write { addr, data } => base <= addr && addr + data.len() <= end,
        StepView::Relocate { addr, .. } => base <= addr && addr + 8 <= end && addr % 4096 <= 4088,
        StepView::Protect { first, pages: n, .. } => base <= first && (first - base) % 4096 == 0
            && first + 4096 * n <= end,
    }
}

proof fn lemma_inside_can_run(
    file: Seq<u8>,
    stale: spec_fn(int) -> u8,
    steps: Seq<StepView>,
    more: Seq<StepView>,
    pages: int,
)
    requires
        image::run(file, stale, steps) is Some,
        maps_from_the_base(image::run(file, stale, steps).unwrap(), pages),
        forall|k: int| 0 <= k < more.len() ==> stays_inside(#[trigger] more[k], pages),
    ensures
        image::run(file, stale, steps + more) is Some,
        maps_from_the_base(image::run(file, stale, steps + more).unwrap(), pages),
    decreases more.len(),
{
    if more.len() == 0 {
        assert(steps + more =~= steps);
    } else {
        let less = more.drop_last();
        assert forall|k: int| 0 <= k < less.len() implies stays_inside(
            #[trigger] less[k],
            pages,
        ) by {
            assert(less[k] == more[k]);
        }
        lemma_inside_can_run(file, stale, steps, less, pages);
        assert(steps + more =~= (steps + less).push(more.last()));
        image::lemma_run_push(file, stale, steps + less, more.last());
        let p = image::run(file, stale, steps + less).unwrap();
        let base = layout::MIRAGE_IMAGE_BASE as int;
        assert(stays_inside(more[more.len() - 1], pages));
        assert forall|a: int| base <= a < base + 4096 * pages implies p.flags.dom().contains(
            #[trigger] image::page_of(a),
        ) by {
            assert(image::in_pages(base, pages, image::page_of(a)));
        }
        if let StepView::Protect { first, pages: n, .. } = more.last() {
            assert forall|page: int| image::in_pages(first as int, n as int, page) implies
                #[trigger] p.flags.dom().contains(page) by {
                assert(image::in_pages(base, pages, page));
            }
        }
        let q = image::run(file, stale, steps + more).unwrap();
        assert forall|page: int| #[trigger]
            q.flags.dom().contains(page) <==> image::in_pages(base, pages, page) by {
            assert(q.flags.dom().contains(page) <==> p.flags.dom().contains(page));
        }
    }
}

/// Mapping the next page after those from the base.
proof fn lemma_map_can_run(
    file: Seq<u8>,
    stale: spec_fn(int) -> u8,
    steps: Seq<StepView>,
    before: int,
    added: int,
    flags: PageFlags,
)
    requires
        image::run(file, stale, steps) is Some,
        maps_from_the_base(image::run(file, stale, steps).unwrap(), before),
        0 <= before,
        0 <= added,
        layout::MIRAGE_IMAGE_BASE + 4096 * (before + added) <= layout::USER_STACK_BOTTOM,
    ensures
        ({
            let step = StepView::MapPages {
                first: (layout::MIRAGE_IMAGE_BASE + 4096 * before) as u64,
                pages: added as u64,
                flags,
            };
            let q = image::run(file, stale, steps.push(step));
            &&& q is Some
            &&& maps_from_the_base(q.unwrap(), before + added)
        }),
{
    let base = layout::MIRAGE_IMAGE_BASE as int;
    let step = StepView::MapPages {
        first: (base + 4096 * before) as u64,
        pages: added as u64,
        flags,
    };
    image::lemma_run_push(file, stale, steps, step);
    let p = image::run(file, stale, steps).unwrap();
    let q = image::run(file, stale, steps.push(step));
    assert(q is Some);
    assert forall|page: int| #[trigger]
        q.unwrap().flags.dom().contains(page) <==> image::in_pages(base, before + added, page) by {
        assert(q.unwrap().flags.dom().contains(page) <==> p.flags.dom().contains(page)
            || image::in_pages(base + 4096 * before, added, page));
        assert(p.flags.dom().contains(page) <==> image::in_pages(base, before, page));
    }
}

proof fn lemma_copies_stay_inside(sections: Seq<pe::Section>, pages: int)
    requires
        forall|i: int|
            0 <= i < sections.len() && (#[trigger] sections[i]).raw_size > 0
                ==> sections[i].virtual_address + sections[i].raw_size <= 4096 * pages
                && sections[i].raw_offset + sections[i].raw_size <= usize::MAX,
    ensures
        forall|k: int|
            0 <= k < section_copies(sections).len() ==> stays_inside(
                #[trigger] section_copies(sections)[k],
                pages,
            ),
    decreases sections.len(),
{
    if sections.len() > 0 {
        let less = sections.drop_last();
        assert forall|i: int| 0 <= i < less.len() && (#[trigger] less[i]).raw_size > 0 implies
            less[i].virtual_address + less[i].raw_size <= 4096 * pages && less[i].raw_offset
            + less[i].raw_size <= usize::MAX by {
            assert(less[i] == sections[i]);
        }
        lemma_copies_stay_inside(less, pages);
        let x = sections.last();
        assert(x == sections[sections.len() - 1]);
        let before = section_copies(less);
        assert forall|k: int| 0 <= k < section_copies(sections).len() implies stays_inside(
            #[trigger] section_copies(sections)[k],
            pages,
        ) by {
            if k < before.len() {
                assert(section_copies(sections)[k] == before[k]);
            }
        }
    }
}

proof fn lemma_bindings_stay_inside(v: pe::ImageView, n: int, pages: int)
    requires
        0 < v.image_size <= pe::MAX_IMAGE_SIZE,
        0 <= n <= v.imports.len() <= THUNKS_PER_PAGE,
        pages == image_pages(v) + 1,
        forall|j: int|
            0 <= j < v.imports.len() ==> #[trigger] import_slot(v, j) + 8 <= thunk_base(v) + 4096,
    ensures
        forall|k: int|
            0 <= k < binding_steps(v, n).len() ==> stays_inside(
                #[trigger] binding_steps(v, n)[k],
                pages,
            ),
    decreases n,
{
    if n > 0 {
        lemma_bindings_stay_inside(v, n - 1, pages);
        win32::law_thunks_return(win32::thunk_for(v.imports[n - 1].name).unwrap());
        assert(import_slot(v, n - 1) + 8 <= thunk_base(v) + 4096);
        let before = binding_steps(v, n - 1);
        assert forall|k: int| 0 <= k < binding_steps(v, n).len() implies stays_inside(
            #[trigger] binding_steps(v, n)[k],
            pages,
        ) by {
            if k < before.len() {
                assert(binding_steps(v, n)[k] == before[k]);
            }
        }
    }
}

proof fn lemma_protections_stay_inside(
    v: pe::ImageView,
    len: int,
    nx: bool,
    i: int,
    steps: Seq<StepView>,
    pages: int,
)
    requires
        image_is_bounded(v, len),
        0 <= i <= v.sections.len(),
        pages >= image_pages(v),
    ensures
        forall|k: int|
            steps.len() <= k < protections(v.sections, nx, i, steps).0.len() ==> stays_inside(
                #[trigger] protections(v.sections, nx, i, steps).0[k],
                pages,
            ),
    decreases v.sections.len() - i,
{
    if i < v.sections.len() && !(v.sections[i].writable && v.sections[i].executable) {
        let step = section_protection(v.sections[i], nx);
        let next = steps.push(step);
        assert(pe::section_is_bounded(v.sections[i], len, v.image_size as int));
        assert(stays_inside(step, pages));
        lemma_protections_stay_inside(v, len, nx, i + 1, next, pages);
        lemma_protections_extend(v.sections, nx, i + 1, next);
        assert forall|k: int|
            steps.len() <= k < protections(v.sections, nx, i, steps).0.len() implies stays_inside(
            #[trigger] protections(v.sections, nx, i, steps).0[k],
            pages,
        ) by {
            if k == steps.len() {
                assert(next[k] == step);
                assert(protections(v.sections, nx, i + 1, next).0[k] == next[k]);
            }
        }
    }
}

/// Everything the image asks to be filled in lies in the image: its
/// headers, its sections' data, its relocations and the slots of its
/// import address table. (The slots may also lie in the page of the
/// thunks.) No relocation straddles two pages.
pub open spec fn fits_its_memory(v: pe::ImageView) -> bool {
    let size = 4096 * image_pages(v);
    &&& v.headers_size <= size
    &&& forall|i: int|
        0 <= i < v.sections.len() && (#[trigger] v.sections[i]).raw_size > 0
            ==> v.sections[i].virtual_address + v.sections[i].raw_size <= size
    &&& forall|j: int|
        0 <= j < v.relocations.len() ==> #[trigger] relocated_at(v, j) + 8 <= thunk_base(v)
            && relocated_at(v, j) % 4096 <= 4088
    &&& forall|j: int|
        0 <= j < v.imports.len() ==> #[trigger] import_slot(v, j) + 8 <= thunk_base(v) + 4096
}

/// A load that is planned to succeed can be carried out to its end, as long
/// as the image fits the memory it asks for: no step meets a page that is
/// mapped already, or one that is not mapped yet.
#[verifier::spinoff_prover]
#[verifier::rlimit(40)]
pub proof fn law_image_can_be_carried_out(
    s: Seq<u8>,
    stale: spec_fn(int) -> u8,
    v: pe::ImageView,
    nx: bool,
)
    requires
        s.len() <= usize::MAX,
        pe::image_of(s) == Ok::<pe::ImageView, MirageError>(v),
        mirage_plan(v, nx).1 is Ok,
        fits_its_memory(v),
    ensures
        image::run(s, stale, mirage_plan(v, nx).0) is Some,
{
    pe::law_accepted_image_is_bounded(s);
    let pages = image_pages(v);
    let bound = filling_steps(v, nx) + binding_plan(v, nx).0;
    lemma_filling_can_run(s, stale, v, nx);
    lemma_binding_can_run(s, stale, v, nx);
    let tightened = protections(v.sections, nx, 0, bound).0;
    lemma_protections_extend(v.sections, nx, 0, bound);
    lemma_protections_stay_inside(v, s.len() as int, nx, 0, bound, pages + 1);
    let tail = tightened.skip(bound.len() as int);
    assert forall|k: int| 0 <= k < tail.len() implies stays_inside(
        #[trigger] tail[k],
        pages + 1,
    ) by {
        assert(tail[k] == tightened[bound.len() + k]);
    }
    assert(bound + tail =~= tightened);
    lemma_inside_can_run(s, stale, bound, tail, pages + 1);
    lemma_stack_can_run(s, stale, tightened, nx, pages + 1);
}

proof fn lemma_filling_can_run(s: Seq<u8>, stale: spec_fn(int) -> u8, v: pe::ImageView, nx: bool)
    requires
        s.len() <= usize::MAX,
        image_is_bounded(v, s.len() as int),
        fits_its_memory(v),
    ensures
        image::run(s, stale, filling_steps(v, nx)) is Some,
        maps_from_the_base(
            image::run(s, stale, filling_steps(v, nx)).unwrap(),
            image_pages(v),
        ),
{
    let none = Seq::<StepView>::empty();
    let blank = image::blank(stale);
    let pages = image_pages(v);
    assert(image::run(s, stale, none) == Some(blank));
    assert(maps_from_the_base(blank, 0));
    lemma_map_can_run(s, stale, none, 0, pages, fill_flags(nx));
    let filling = filling_steps(v, nx);
    let inner = filling.skip(1);
    assert forall|i: int| 0 <= i < v.sections.len() && (#[trigger] v.sections[i]).raw_size
        > 0 implies v.sections[i].virtual_address + v.sections[i].raw_size <= 4096 * pages
        && v.sections[i].raw_offset + v.sections[i].raw_size <= usize::MAX by {
        assert(pe::section_is_bounded(v.sections[i], s.len() as int, v.image_size as int));
    }
    lemma_copies_stay_inside(v.sections, pages);
    assert forall|k: int| 0 <= k < inner.len() implies stays_inside(#[trigger] inner[k], pages) by {
        let copies = section_copies(v.sections);
        if k < 2 {
        } else if k < 2 + copies.len() {
            assert(inner[k] == copies[k - 2]);
        } else {
            assert(inner[k] == relocation_steps(v)[k - 2 - copies.len()]);
            assert(relocated_at(v, k - 2 - copies.len()) + 8 <= thunk_base(v));
        }
    }
    let first = none.push(filling[0]);
    assert(first + inner =~= filling);
    lemma_inside_can_run(s, stale, first, inner, pages);
}

proof fn lemma_binding_can_run(s: Seq<u8>, stale: spec_fn(int) -> u8, v: pe::ImageView, nx: bool)
    requires
        image_is_bounded(v, s.len() as int),
        fits_its_memory(v),
        v.imports.len() <= THUNKS_PER_PAGE,
        image::run(s, stale, filling_steps(v, nx)) is Some,
        maps_from_the_base(
            image::run(s, stale, filling_steps(v, nx)).unwrap(),
            image_pages(v),
        ),
    ensures
        ({
            let q = image::run(s, stale, filling_steps(v, nx) + binding_plan(v, nx).0);
            &&& q is Some
            &&& maps_from_the_base(q.unwrap(), image_pages(v) + 1)
        }),
{
    let pages = image_pages(v);
    let filling = filling_steps(v, nx);
    let binding = binding_plan(v, nx).0;
    lemma_map_can_run(s, stale, filling, pages, 1, fill_flags(nx));
    let mapped = filling.push(binding[0]);
    let rest = binding.skip(1);
    let n = v.imports.len() as int;
    lemma_bindings_stay_inside(v, n, pages + 1);
    assert forall|k: int| 0 <= k < rest.len() implies stays_inside(
        #[trigger] rest[k],
        pages + 1,
    ) by {
        if 1 <= k < 1 + binding_steps(v, n).len() {
            assert(rest[k] == binding_steps(v, n)[k - 1]);
        }
    }
    assert(mapped + rest =~= filling + binding);
    lemma_inside_can_run(s, stale, mapped, rest, pages + 1);
}

proof fn lemma_stack_can_run(
    file: Seq<u8>,
    stale: spec_fn(int) -> u8,
    steps: Seq<StepView>,
    nx: bool,
    pages: int,
)
    requires
        image::run(file, stale, steps) is Some,
        maps_from_the_base(image::run(file, stale, steps).unwrap(), pages),
        layout::MIRAGE_IMAGE_BASE + 4096 * pages <= layout::USER_STACK_BOTTOM,
    ensures
        image::run(file, stale, steps + image::stack_steps(nx)) is Some,
{
    let added = image::stack_steps(nx);
    let s1 = steps.push(added[0]);
    let s2 = s1.push(added[1]);
    assert(steps + added =~= s2);
    image::lemma_run_push(file, stale, steps, added[0]);
    image::lemma_run_push(file, stale, s1, added[1]);
    let p1 = image::run(file, stale, s1).unwrap();
    assert(image::run(file, stale, s1) is Some);
    let bottom = layout::USER_STACK_BOTTOM as int;
    assert forall|a: int| bottom <= a < layout::USER_STACK_TOP implies p1.flags.dom().contains(
        #[trigger] image::page_of(a),
    ) by {
        assert(image::in_pages(bottom, layout::USER_STACK_PAGES as int, image::page_of(a)));
    }
}

/// Whether none of the steps maps anything.
spec fn maps_nothing(steps: Seq<StepView>) -> bool {
    forall|k: int| 0 <= k < steps.len() ==> !(#[trigger] steps[k] is MapPages)
}

proof fn lemma_copies_map_nothing(sections: Seq<pe::Section>)
    ensures
        maps_nothing(section_copies(sections)),
    decreases sections.len(),
{
    if sections.len() > 0 {
        lemma_copies_map_nothing(sections.drop_last());
        let before = section_copies(sections.drop_last());
        let all = section_copies(sections);
        assert forall|k: int| 0 <= k < all.len() implies !(#[trigger] all[k] is MapPages) by {
            if k < before.len() {
                assert(all[k] == before[k]);
            }
        }
    }
}

proof fn lemma_bindings_map_nothing(v: pe::ImageView, n: int)
    ensures
        maps_nothing(binding_steps(v, n)),
    decreases n,
{
    if n > 0 {
        lemma_bindings_map_nothing(v, n - 1);
        let before = binding_steps(v, n - 1);
        let all = binding_steps(v, n);
        assert forall|k: int| 0 <= k < all.len() implies !(#[trigger] all[k] is MapPages) by {
            if k < before.len() {
                assert(all[k] == before[k]);
            }
        }
    }
}

proof fn lemma_protections_avoid(
    sections: Seq<pe::Section>,
    nx: bool,
    i: int,
    steps: Seq<StepView>,
    page: int,
)
    requires
        image::avoids(steps, page),
    ensures
        image::avoids(protections(sections, nx, i, steps).0, page),
    decreases sections.len() - i,
{
    if 0 <= i < sections.len() && !(sections[i].writable && sections[i].executable) {
        let next = steps.push(section_protection(sections[i], nx));
        assert forall|k: int| 0 <= k < next.len() implies (
        #[trigger] next[k] matches StepView::MapPages { first, pages, .. } ==> !image::in_pages(
            first as int,
            pages as int,
            page,
        )) by {
            if k < steps.len() {
                assert(next[k] == steps[k]);
            }
        }
        lemma_protections_avoid(sections, nx, i + 1, next, page);
    }
}

/// The page below the stack stays unmapped, so that a program that runs off
/// its stack faults.
pub proof fn law_guard_page_stays_unmapped(
    s: Seq<u8>,
    stale: spec_fn(int) -> u8,
    v: pe::ImageView,
    nx: bool,
)
    requires
        pe::image_of(s) == Ok::<pe::ImageView, MirageError>(v),
        mirage_plan(v, nx).1 is Ok,
        image::run(s, stale, mirage_plan(v, nx).0) is Some,
    ensures
        !image::run(s, stale, mirage_plan(v, nx).0).unwrap().flags.dom().contains(
            layout::USER_STACK_GUARD as int,
        ),
{
    pe::law_accepted_image_is_bounded(s);
    let page = layout::USER_STACK_GUARD as int;
    lemma_bound_avoids(v, nx, page);
    let bound = filling_steps(v, nx) + binding_plan(v, nx).0;
    lemma_protections_avoid(v.sections, nx, 0, bound, page);
    let tightened = protections(v.sections, nx, 0, bound).0;
    let all = mirage_plan(v, nx).0;
    assert(all == tightened + image::stack_steps(nx));
    assert forall|k: int| 0 <= k < all.len() implies (
    #[trigger] all[k] matches StepView::MapPages { first, pages, .. } ==> !image::in_pages(
        first as int,
        pages as int,
        page,
    )) by {
        if k < tightened.len() {
            assert(all[k] == tightened[k]);
        }
    }
    image::lemma_avoided_page_is_not_mapped(s, stale, all, page);
}

/// Filling an image in and binding its imports maps nothing outside the
/// image and its thunks.
proof fn lemma_bound_avoids(v: pe::ImageView, nx: bool, page: int)
    requires
        0 < v.image_size <= pe::MAX_IMAGE_SIZE,
        v.imports.len() <= THUNKS_PER_PAGE,
        page >= thunk_base(v) + 4096,
    ensures
        image::avoids(filling_steps(v, nx) + binding_plan(v, nx).0, page),
{
    let copies = section_copies(v.sections);
    let bindings = binding_steps(v, v.imports.len() as int);
    let filling = filling_steps(v, nx);
    let binding = binding_plan(v, nx).0;
    let all = filling + binding;
    lemma_copies_map_nothing(v.sections);
    lemma_bindings_map_nothing(v, v.imports.len() as int);
    assert forall|k: int| 0 <= k < all.len() implies (
    #[trigger] all[k] matches StepView::MapPages { first, pages, .. } ==> !image::in_pages(
        first as int,
        pages as int,
        page,
    )) by {
        if k < filling.len() {
            assert(all[k] == filling[k]);
            if 3 <= k < 3 + copies.len() {
                assert(filling[k] == copies[k - 3]);
            } else if k >= 3 {
                assert(filling[k] == relocation_steps(v)[k - 3 - copies.len()]);
            }
        } else {
            let j = k - filling.len();
            assert(all[k] == binding[j]);
            if 2 <= j < 2 + bindings.len() {
                assert(binding[j] == bindings[j - 2]);
            }
        }
    }
}

// ---------------------------------------------------------------------
// What of the file is in memory
// ---------------------------------------------------------------------

/// Whether a section's file data goes to address `a`.
pub open spec fn puts_data_at(section: pe::Section, a: int) -> bool {
    let start = 0x2000_0000_0000 + section.virtual_address;
    start <= a < start + section.raw_size
}

proof fn lemma_copies_run(
    file: Seq<u8>,
    stale: spec_fn(int) -> u8,
    steps: Seq<StepView>,
    p: image::Picture,
    sections: Seq<pe::Section>,
    a: int,
)
    requires
        image::run(file, stale, steps) == Some(p),
        image::run(file, stale, steps + section_copies(sections)) is Some,
        forall|i: int|
            0 <= i < sections.len() ==> (#[trigger] sections[i]).raw_size > 0
                ==> sections[i].raw_offset + sections[i].raw_size <= file.len(),
        file.len() <= usize::MAX,
    ensures
        ({
            let q = image::run(file, stale, steps + section_copies(sections)).unwrap();
            &&& q.flags == p.flags
            &&& (forall|i: int| 0 <= i < sections.len() ==> !puts_data_at(#[trigger] sections[i], a))
                ==> (q.bytes)(a) == (p.bytes)(a)
            &&& forall|i: int|
                0 <= i < sections.len() && puts_data_at(#[trigger] sections[i], a) && (forall|j: int|
                    i < j < sections.len() ==> !puts_data_at(#[trigger] sections[j], a))
                    ==> (q.bytes)(a) == file[sections[i].raw_offset + (a - 0x2000_0000_0000
                    - sections[i].virtual_address)]
        }),
    decreases sections.len(),
{
    if sections.len() == 0 {
        assert(steps + section_copies(sections) =~= steps);
    } else {
        let less = sections.drop_last();
        let x = sections.last();
        let shorter = steps + section_copies(less);
        let longer = steps + section_copies(sections);
        assert forall|i: int| 0 <= i < less.len() && (#[trigger] less[i]).raw_size
            > 0 implies less[i].raw_offset + less[i].raw_size <= file.len() by {
            assert(less[i] == sections[i]);
        }
        assert(x == sections[sections.len() - 1]);
        assert(shorter.is_prefix_of(longer));
        image::lemma_run_prefix(file, stale, shorter, longer);
        lemma_copies_run(file, stale, steps, p, less, a);
        let r = image::run(file, stale, shorter).unwrap();
        if x.raw_size > 0 {
            let step = section_copies(sections).last();
            assert(longer =~= shorter.push(step));
            image::lemma_run_push(file, stale, shorter, step);
        } else {
            assert(longer =~= shorter);
        }
        let q = image::run(file, stale, longer).unwrap();
        if puts_data_at(x, a) {
            let data = file.subrange(x.raw_offset as int, x.raw_offset + x.raw_size);
            assert((q.bytes)(a) == data[a - 0x2000_0000_0000 - x.virtual_address]);
        } else {
            assert((q.bytes)(a) == (r.bytes)(a));
        }
        assert forall|i: int|
            0 <= i < sections.len() && puts_data_at(#[trigger] sections[i], a) && (forall|j: int|
                i < j < sections.len() ==> !puts_data_at(#[trigger] sections[j], a))
            implies (q.bytes)(a) == file[sections[i].raw_offset + (a - 0x2000_0000_0000
            - sections[i].virtual_address)] by {
            if i < less.len() {
                assert(less[i] == sections[i]);
                assert(!puts_data_at(sections[sections.len() - 1], a));
                assert forall|j: int| i < j < less.len() implies !puts_data_at(
                    #[trigger] less[j],
                    a,
                ) by {
                    assert(less[j] == sections[j]);
                }
            }
        }
        if forall|i: int| 0 <= i < sections.len() ==> !puts_data_at(#[trigger] sections[i], a) {
            assert(!puts_data_at(sections[sections.len() - 1], a));
            assert forall|i: int| 0 <= i < less.len() implies !puts_data_at(
                #[trigger] less[i],
                a,
            ) by {
                assert(less[i] == sections[i]);
            }
        }
    }
}

/// Whether a relocation changes the byte at `a`.
pub open spec fn is_moved(v: pe::ImageView, a: int) -> bool {
    exists|j: int|
        0 <= j < v.relocations.len() && 0x2000_0000_0000 + (#[trigger] v.relocations[j]) <= a
            < 0x2000_0000_0000 + v.relocations[j] + 8
}

proof fn lemma_relocations_leave_the_rest(
    file: Seq<u8>,
    stale: spec_fn(int) -> u8,
    v: pe::ImageView,
    steps: Seq<StepView>,
    p: image::Picture,
    n: int,
    a: int,
)
    requires
        !is_moved(v, a),
        relocation_delta(v) != 0,
        0 <= n <= v.relocations.len(),
        image::run(file, stale, steps) == Some(p),
        image::run(file, stale, steps + relocation_steps(v).take(n)) is Some,
    ensures
        (image::run(file, stale, steps + relocation_steps(v).take(n)).unwrap().bytes)(a) == (
        p.bytes)(a),
    decreases n,
{
    if n == 0 {
        assert(steps + relocation_steps(v).take(0) =~= steps);
    } else {
        let shorter = steps + relocation_steps(v).take(n - 1);
        let longer = steps + relocation_steps(v).take(n);
        let step = relocation_steps(v)[n - 1];
        assert(longer =~= shorter.push(step));
        image::lemma_run_push(file, stale, shorter, step);
        assert(image::run(file, stale, shorter) is Some);
        lemma_relocations_leave_the_rest(file, stale, v, steps, p, n - 1, a);
        assert(!(0x2000_0000_0000 + v.relocations[n - 1] <= a < 0x2000_0000_0000
            + v.relocations[n - 1] + 8));
    }
}

/// Where a load succeeds, the file is in memory: at every address of the
/// image there is the byte of the last section whose data covers it, else the
/// byte of the headers, else zero. What the relocations and the bound imports
/// changed is left out here.
#[verifier::spinoff_prover]
#[verifier::rlimit(60)]
pub proof fn law_file_is_in_memory(
    s: Seq<u8>,
    stale: spec_fn(int) -> u8,
    v: pe::ImageView,
    nx: bool,
    a: int,
    i: int,
)
    requires
        s.len() <= usize::MAX,
        pe::image_of(s) == Ok::<pe::ImageView, MirageError>(v),
        slots_are_regular(v),
        mirage_plan(v, nx).1 is Ok,
        image::run(s, stale, mirage_plan(v, nx).0) is Some,
        0x2000_0000_0000 <= a < 0x2000_0000_0000 + v.image_size,
        !is_moved(v, a),
        !is_written_by_binding(v, v.imports.len() as int, a),
        -1 <= i < v.sections.len(),
        i >= 0 ==> puts_data_at(v.sections[i], a),
        forall|j: int| i < j < v.sections.len() ==> !puts_data_at(#[trigger] v.sections[j], a),
    ensures
        ({
            let q = image::run(s, stale, mirage_plan(v, nx).0).unwrap();
            let into = a - 0x2000_0000_0000;
            (q.bytes)(a) == (if i >= 0 {
                s[v.sections[i].raw_offset + (into - v.sections[i].virtual_address)]
            } else if into < v.headers_size {
                s[into]
            } else {
                0
            })
        }),
{
    pe::law_accepted_image_is_bounded(s);
    lemma_filling_runs(s, stale, v, nx);
    let filled = image::run(s, stale, filling_steps(v, nx)).unwrap();
    lemma_load_binds(s, stale, v, nx, filled);
    let copies = copying_steps(v, nx);
    let head = copies.take(3);
    assert(copies =~= head + section_copies(v.sections));
    assert(copies.is_prefix_of(filling_steps(v, nx)));
    image::lemma_run_prefix(s, stale, copies, filling_steps(v, nx));
    assert(head.is_prefix_of(copies));
    image::lemma_run_prefix(s, stale, head, copies);
    let none = Seq::<StepView>::empty();
    let s1 = none.push(copies[0]);
    let s2 = s1.push(copies[1]);
    let s3 = s2.push(copies[2]);
    assert(head =~= s3);
    image::lemma_run_push(s, stale, none, copies[0]);
    image::lemma_run_push(s, stale, s1, copies[1]);
    image::lemma_run_push(s, stale, s2, copies[2]);
    let p2 = image::run(s, stale, s2).unwrap();
    let p3 = image::run(s, stale, s3).unwrap();
    assert((p2.bytes)(a) == 0);
    let into = a - 0x2000_0000_0000;
    if into < v.headers_size {
        assert((p3.bytes)(a) == s.subrange(0, v.headers_size as int)[into]);
    } else {
        assert((p3.bytes)(a) == 0);
    }
    assert forall|k: int| 0 <= k < v.sections.len() && (#[trigger] v.sections[k]).raw_size
        > 0 implies v.sections[k].raw_offset + v.sections[k].raw_size <= s.len() by {
        assert(pe::section_is_bounded(v.sections[k], s.len() as int, v.image_size as int));
    }
    lemma_copies_run(s, stale, s3, p3, v.sections, a);
    let copied = image::run(s, stale, copies).unwrap();
    assert(s3 + section_copies(v.sections) =~= copies);
    if relocation_delta(v) == 0 {
        assert(filling_steps(v, nx) =~= copies);
    } else {
        let n = v.relocations.len() as int;
        assert(relocation_steps(v).take(n) =~= relocation_steps(v));
        lemma_relocations_leave_the_rest(s, stale, v, copies, copied, n, a);
    }
    assert((filled.bytes)(a) == (copied.bytes)(a));
    assert(a < thunk_base(v));
}

/// How far an image moves is from the base that it was linked for to the base
/// of every image, around the end of the address space where it has to.
pub proof fn law_image_moves_to_its_base(v: pe::ImageView)
    ensures
        (v.preferred_base + relocation_delta(v)) % 0x1_0000_0000_0000_0000 == 0x2000_0000_0000,
{
}

/// Every section's pages get the permissions that the section declares, where
/// no section after it has a byte on them, and a load that succeeds has no
/// section that asks to be both written and run.
pub proof fn law_sections_get_their_permissions(
    s: Seq<u8>,
    stale: spec_fn(int) -> u8,
    v: pe::ImageView,
    nx: bool,
    i: int,
    page: int,
)
    requires
        pe::image_of(s) == Ok::<pe::ImageView, MirageError>(v),
        mirage_plan(v, nx).1 is Ok,
        image::run(s, stale, mirage_plan(v, nx).0) is Some,
        0 <= i < v.sections.len(),
        page % 4096 == 0,
        is_on_page(v.sections[i], page),
        forall|j: int|
            i < j < v.sections.len() ==> !is_on_page(#[trigger] v.sections[j], page),
    ensures
        ({
            let q = image::run(s, stale, mirage_plan(v, nx).0).unwrap();
            let x = v.sections[i];
            &&& q.flags.dom().contains(page)
            &&& q.flags[page].user_accessible
            &&& q.flags[page].writable == x.writable
            &&& q.flags[page].no_execute == (nx && !x.executable)
            &&& !(x.writable && x.executable)
        }),
{
    pe::law_accepted_image_is_bounded(s);
    lemma_filling_runs(s, stale, v, nx);
    let bound = filling_steps(v, nx) + binding_plan(v, nx).0;
    let tightened = protections(v.sections, nx, 0, bound).0;
    let whole = mirage_plan(v, nx).0;
    assert(whole == tightened + image::stack_steps(nx));
    assert(tightened.is_prefix_of(whole));
    image::lemma_run_prefix(s, stale, tightened, whole);
    lemma_protections_extend(v.sections, nx, 0, bound);
    image::lemma_run_prefix(s, stale, bound, tightened);
    lemma_protections_set(
        s,
        stale,
        v,
        nx,
        0,
        bound,
        image::run(s, stale, bound).unwrap(),
        i,
        page,
    );
    let p = image::run(s, stale, tightened).unwrap();
    image::lemma_stack_runs(s, stale, nx, tightened, p);
}

/// Whether a section has a byte on a page of the loaded image. One of no size
/// counts as one byte.
pub open spec fn is_on_page(x: pe::Section, page: int) -> bool {
    let start = 0x2000_0000_0000 + x.virtual_address;
    let end = start + (if x.virtual_size == 0 {
        1
    } else {
        x.virtual_size as int
    });
    page < end && start < page + 4096
}

#[verifier::spinoff_prover]
#[verifier::rlimit(40)]
proof fn lemma_protections_set(
    file: Seq<u8>,
    stale: spec_fn(int) -> u8,
    v: pe::ImageView,
    nx: bool,
    k: int,
    steps: Seq<StepView>,
    p: image::Picture,
    i: int,
    page: int,
)
    requires
        image_is_bounded(v, file.len() as int),
        0 <= k <= v.sections.len(),
        0 <= i < v.sections.len(),
        image::run(file, stale, steps) == Some(p),
        protections(v.sections, nx, k, steps).1 is None,
        image::run(file, stale, protections(v.sections, nx, k, steps).0) is Some,
        page % 4096 == 0,
        is_on_page(v.sections[i], page),
        forall|j: int|
            i < j < v.sections.len() ==> !is_on_page(#[trigger] v.sections[j], page),
        i < k ==> {
            let x = v.sections[i];
            &&& p.flags.dom().contains(page)
            &&& p.flags[page] == (PageFlags {
                writable: x.writable,
                user_accessible: true,
                no_execute: nx && !x.executable,
            })
            &&& !(x.writable && x.executable)
        },
    ensures
        ({
            let q = image::run(file, stale, protections(v.sections, nx, k, steps).0).unwrap();
            let x = v.sections[i];
            &&& q.flags.dom().contains(page)
            &&& q.flags[page] == (PageFlags {
                writable: x.writable,
                user_accessible: true,
                no_execute: nx && !x.executable,
            })
            &&& !(x.writable && x.executable)
        }),
    decreases v.sections.len() - k,
{
    if k < v.sections.len() {
        let step = section_protection(v.sections[k], nx);
        let next = steps.push(step);
        image::lemma_run_push(file, stale, steps, step);
        lemma_protections_extend(v.sections, nx, k + 1, next);
        image::lemma_run_prefix(file, stale, next, protections(v.sections, nx, k + 1, next).0);
        let q = image::run(file, stale, next).unwrap();
        let x = v.sections[k];
        assert(pe::section_is_bounded(x, file.len() as int, v.image_size as int));
        let extent = if x.virtual_size == 0 {
            1
        } else {
            x.virtual_size as int
        };
        let first = x.virtual_address as int / 4096;
        let last = (x.virtual_address + extent - 1) / 4096;
        assert(image::in_pages(0x2000_0000_0000 + 4096 * first, last - first + 1, page)
            <==> is_on_page(x, page));
        lemma_protections_set(file, stale, v, nx, k + 1, next, q, i, page);
    }
}

/// A parsed image whose imports all have thunks is loaded exactly where no
/// section asks to be both written and run and the thunks fit in their page.
/// It starts at its entry point, on its stack.
pub proof fn law_sound_images_are_loaded(v: pe::ImageView, nx: bool)
    ensures
        mirage_plan(v, nx).1 is Ok <==> v.imports.len() <= 128 && forall|i: int|
            0 <= i < v.sections.len() ==> !((#[trigger] v.sections[i]).writable
                && v.sections[i].executable),
        mirage_plan(v, nx).1 matches Ok(ready) ==> ready.entry == 0x2000_0000_0000 + v.entry_rva
            && ready.stack_top == 0x7fff_f000_0000 - 64,
{
    let bound = filling_steps(v, nx) + binding_plan(v, nx).0;
    lemma_protections_fault(v.sections, nx, 0, bound);
}

proof fn lemma_protections_fault(
    sections: Seq<pe::Section>,
    nx: bool,
    k: int,
    steps: Seq<StepView>,
)
    requires
        0 <= k,
    ensures
        protections(sections, nx, k, steps).1 is None <==> forall|i: int|
            k <= i < sections.len() ==> !((#[trigger] sections[i]).writable
                && sections[i].executable),
    decreases sections.len() - k,
{
    if k < sections.len() {
        let x = sections[k];
        if !(x.writable && x.executable) {
            lemma_protections_fault(
                sections,
                nx,
                k + 1,
                steps.push(section_protection(x, nx)),
            );
        }
        assert(x == sections[k]);
    }
}

/// An image is refused for the first of its imports that there is no thunk
/// for, and for no import where every one has its thunk.
pub proof fn law_first_missing_import_is_named(imports: Seq<pe::ImportView>, i: int)
    requires
        0 <= i <= imports.len(),
        forall|j: int|
            0 <= j < i ==> win32::thunk_for((#[trigger] imports[j]).name) is Some,
        i < imports.len() ==> win32::thunk_for(imports[i].name) is None,
    ensures
        missing_import(imports, 0) == (if i < imports.len() {
            Some(imports[i].name)
        } else {
            None
        }),
{
    lemma_imports_before_are_there(imports, 0, i);
}

proof fn lemma_imports_before_are_there(imports: Seq<pe::ImportView>, k: int, i: int)
    requires
        0 <= k <= i <= imports.len(),
        forall|j: int|
            0 <= j < i ==> win32::thunk_for((#[trigger] imports[j]).name) is Some,
    ensures
        missing_import(imports, k) == missing_import(imports, i),
    decreases i - k,
{
    if k < i {
        assert(win32::thunk_for(imports[k].name) is Some);
        lemma_imports_before_are_there(imports, k + 1, i);
    }
}

/// A bound import's slot holds the address of its thunk, which lies past the
/// image's last page and apart from every other thunk.
pub proof fn law_thunks_are_past_the_image(v: pe::ImageView, i: int, j: int)
    requires
        0 <= i < j,
    ensures
        import_thunk(v, i) >= 0x2000_0000_0000 + v.image_size,
        import_thunk(v, i) % 32 == 0,
        import_thunk(v, i) + win32::THUNK_STRIDE <= import_thunk(v, j),
        import_thunk(v, 0) % 4096 == 0,
        import_thunk(v, 0) - (0x2000_0000_0000 + v.image_size) < 4096,
{
}

/// The log says which image is loaded, how many sections and imports it has,
/// and the base that it prefers and the one it gets.
pub proof fn law_mirage_loading_is_logged(name: Seq<char>, v: pe::ImageView)
    ensures
        text::says(
            loading_line(name, v),
            seq![
                name,
                text::decimal(v.sections.len()),
                text::decimal(v.imports.len()),
                text::hexadecimal(v.preferred_base as nat),
                text::hexadecimal(0x0000_2000_0000_0000),
            ],
        ),
{
    let none = Seq::<Seq<char>>::empty();
    let start = "Najm Kernel: Mirage loading '"@;
    text::lemma_says(start, none, name, "' - PE32+ image, "@);
    let line1 = start + name + "' - PE32+ image, "@;
    let parts1 = none.push(name);
    text::lemma_says(line1, parts1, text::decimal(v.sections.len()), " section(s), "@);
    let line2 = line1 + text::decimal(v.sections.len()) + " section(s), "@;
    let parts2 = parts1.push(text::decimal(v.sections.len()));
    text::lemma_says(
        line2,
        parts2,
        text::decimal(v.imports.len()),
        " import(s), preferred base 0x"@,
    );
    let line3 = line2 + text::decimal(v.imports.len()) + " import(s), preferred base 0x"@;
    let parts3 = parts2.push(text::decimal(v.imports.len()));
    text::lemma_says(
        line3,
        parts3,
        text::hexadecimal(v.preferred_base as nat),
        ", relocating to 0x"@,
    );
    let line4 = line3 + text::hexadecimal(v.preferred_base as nat) + ", relocating to 0x"@;
    let parts4 = parts3.push(text::hexadecimal(v.preferred_base as nat));
    text::lemma_says(line4, parts4, text::hexadecimal(0x0000_2000_0000_0000), Seq::<char>::empty());
    let line5 = line4 + text::hexadecimal(0x0000_2000_0000_0000) + Seq::<char>::empty();
    let parts5 = parts4.push(text::hexadecimal(0x0000_2000_0000_0000));
    assert(parts5 =~= seq![
        name,
        text::decimal(v.sections.len()),
        text::decimal(v.imports.len()),
        text::hexadecimal(v.preferred_base as nat),
        text::hexadecimal(0x0000_2000_0000_0000),
    ]);
    assert(loading_line(name, v) =~= line5);
}

/// The log says how many imports were bound, where their thunks are, and
/// where the image starts.
pub proof fn law_mirage_binding_is_logged(v: pe::ImageView)
    ensures
        text::says(
            bound_line(v),
            seq![
                text::decimal(v.imports.len()),
                text::hexadecimal(thunk_base(v) as nat),
                text::hexadecimal((0x0000_2000_0000_0000 + v.entry_rva) as nat),
            ],
        ),
{
    let none = Seq::<Seq<char>>::empty();
    let start = "Najm Kernel: Mirage bound "@;
    text::lemma_says(
        start,
        none,
        text::decimal(v.imports.len()),
        " import(s) to ABI-translation thunks at 0x"@,
    );
    let line1 = start + text::decimal(v.imports.len())
        + " import(s) to ABI-translation thunks at 0x"@;
    let parts1 = none.push(text::decimal(v.imports.len()));
    text::lemma_says(line1, parts1, text::hexadecimal(thunk_base(v) as nat), "; entry 0x"@);
    let line2 = line1 + text::hexadecimal(thunk_base(v) as nat) + "; entry 0x"@;
    let parts2 = parts1.push(text::hexadecimal(thunk_base(v) as nat));
    text::lemma_says(
        line2,
        parts2,
        text::hexadecimal((0x0000_2000_0000_0000 + v.entry_rva) as nat),
        Seq::<char>::empty(),
    );
    let line3 = line2 + text::hexadecimal((0x0000_2000_0000_0000 + v.entry_rva) as nat)
        + Seq::<char>::empty();
    let parts3 = parts2.push(text::hexadecimal((0x0000_2000_0000_0000 + v.entry_rva) as nat));
    assert(parts3 =~= seq![
        text::decimal(v.imports.len()),
        text::hexadecimal(thunk_base(v) as nat),
        text::hexadecimal((0x0000_2000_0000_0000 + v.entry_rva) as nat),
    ]);
    assert(bound_line(v) =~= line3);
}

/// What is logged of an image: that it is loaded, before anything is done,
/// and that it is bound, once all of it is, where it can be loaded at all.
pub proof fn law_mirage_logs_begin_and_end(name: Seq<char>, v: pe::ImageView, nx: bool)
    ensures
        ({
            let log = mirage_log(name, v, nx);
            let bound = missing_import(v.imports, 0) is None && mirage_plan(v, nx).1 is Ok;
            &&& log.len() == (if bound {
                2int
            } else {
                1
            })
            &&& log[0].after == 0
            &&& log[0].text == loading_line(name, v)
            &&& bound ==> log[1].after == mirage_plan(v, nx).0.len() && log[1].text == bound_line(v)
        }),
{
}

/// An image starts on a stack of its own: sixteen pages of zeros that it can
/// write and, where the machine can forbid it, not run.
pub proof fn law_image_starts_on_its_stack(
    s: Seq<u8>,
    stale: spec_fn(int) -> u8,
    v: pe::ImageView,
    nx: bool,
    a: int,
)
    requires
        mirage_plan(v, nx).1 is Ok,
        image::run(s, stale, mirage_plan(v, nx).0) is Some,
        0x7fff_efff_0000 <= a < 0x7fff_f000_0000,
    ensures
        ({
            let q = image::run(s, stale, mirage_plan(v, nx).0).unwrap();
            let page = a - a % 4096;
            &&& (q.bytes)(a) == 0
            &&& q.flags.dom().contains(page)
            &&& q.flags[page].writable && q.flags[page].user_accessible
            &&& q.flags[page].no_execute == nx
        }),
{
    let bound = filling_steps(v, nx) + binding_plan(v, nx).0;
    let steps = protections(v.sections, nx, 0, bound).0;
    assert(mirage_plan(v, nx).0 == steps + image::stack_steps(nx));
    image::lemma_stack_is_there(s, stale, steps, nx, a);
}

} // verus!
