//! The steps that turn a program file into a process's memory.
//!
//! A loader decides everything before anything is mapped: which pages with
//! which permissions, what goes into them, and how the load ends. The
//! steps are then carried out one by one against the page tables; the
//! first that fails ends the load.
use vstd::prelude::*;
use crate::abi::layout;
use crate::bytes;
use crate::mm::paging::PageFlags;

verus! {

/// One step of building an image.
#[derive(Debug)]
pub enum Step {
    /// Map `pages` fresh pages from `first` on.
    MapPages { first: u64, pages: u64, flags: PageFlags },
    /// Clear `len` bytes at `addr`.
    Zero { addr: u64, len: u64 },
    /// Copy bytes `from..to` of the file to `addr`.
    Copy { addr: u64, from: usize, to: usize },
    /// Write generated bytes at `addr`.
    Write { addr: u64, data: Vec<u8> },
    /// Add `delta`, wrapping, to the 64-bit number at `addr`.
    Relocate { addr: u64, delta: u64 },
    /// Give `pages` mapped pages from `first` on their final permissions.
    Protect { first: u64, pages: u64, flags: PageFlags },
}

/// What a step does.
pub enum StepView {
    MapPages { first: u64, pages: u64, flags: PageFlags },
    Zero { addr: u64, len: u64 },
    Copy { addr: u64, from: usize, to: usize },
    Write { addr: u64, data: Seq<u8> },
    Relocate { addr: u64, delta: u64 },
    Protect { first: u64, pages: u64, flags: PageFlags },
}

impl View for Step {
    type V = StepView;

    open spec fn view(&self) -> StepView {
        match self {
            Step::MapPages { first, pages, flags } => StepView::MapPages {
                first: *first,
                pages: *pages,
                flags: *flags,
            },
            Step::Zero { addr, len } => StepView::Zero { addr: *addr, len: *len },
            Step::Copy { addr, from, to } => StepView::Copy { addr: *addr, from: *from, to: *to },
            Step::Write { addr, data } => StepView::Write { addr: *addr, data: data@ },
            Step::Relocate { addr, delta } => StepView::Relocate { addr: *addr, delta: *delta },
            Step::Protect { first, pages, flags } => StepView::Protect {
                first: *first,
                pages: *pages,
                flags: *flags,
            },
        }
    }
}

/// The views of a list of steps.
pub open spec fn step_views(steps: Seq<Step>) -> Seq<StepView> {
    Seq::new(steps.len(), |i: int| steps[i]@)
}

/// Pushing a step pushes its view.
pub proof fn lemma_step_views_push(steps: Seq<Step>, step: Step)
    ensures
        step_views(steps.push(step)) == step_views(steps).push(step@),
{
    assert(step_views(steps.push(step)) =~= step_views(steps).push(step@));
}

/// A line for the log, and how many steps have been carried out when it is
/// due.
#[derive(Debug)]
pub struct LogLine {
    pub after: usize,
    pub text: String,
}

/// A line for the log.
pub struct LogLineView {
    pub after: nat,
    pub text: Seq<char>,
}

impl View for LogLine {
    type V = LogLineView;

    open spec fn view(&self) -> LogLineView {
        LogLineView { after: self.after as nat, text: self.text@ }
    }
}

/// The views of a list of lines.
pub open spec fn log_views(log: Seq<LogLine>) -> Seq<LogLineView> {
    Seq::new(log.len(), |i: int| log[i]@)
}

/// Appends a line that is due after `after` steps.
pub fn push_line(log: &mut Vec<LogLine>, after: usize, text: String)
    ensures
        log_views(final(log)@) == log_views(old(log)@).push(
            LogLineView { after: after as nat, text: text@ },
        ),
{
    let ghost before = log_views(log@);
    let line = LogLine { after, text };
    let ghost new = line@;
    log.push(line);
    assert(log_views(log@) =~= before.push(new));
}

/// A process's lower half: the permissions of its pages, by page address,
/// and its bytes.
pub struct Picture {
    pub flags: Map<int, PageFlags>,
    pub bytes: spec_fn(int) -> u8,
}

/// A process with nothing mapped. What its fresh pages will hold is
/// whatever their last owner left there.
pub open spec fn blank(stale: spec_fn(int) -> u8) -> Picture {
    Picture { flags: Map::empty(), bytes: stale }
}

/// Whether `page` is one of the `pages` pages from `first` on.
pub open spec fn in_pages(first: int, pages: int, page: int) -> bool {
    &&& first <= page < first + 4096 * pages
    &&& (page - first) % 4096 == 0
}

/// Whether every byte of `addr..addr + len` is in a mapped page.
pub open spec fn range_is_mapped(p: Picture, addr: int, len: int) -> bool {
    forall|a: int| addr <= a < addr + len ==> p.flags.dom().contains(#[trigger] page_of(a))
}

/// The page a byte is in.
pub open spec fn page_of(a: int) -> int {
    a - a % 4096
}

/// The picture with the bytes of `data` at `addr`.
pub open spec fn with_data(p: Picture, addr: int, data: Seq<u8>) -> Picture {
    Picture {
        flags: p.flags,
        bytes: |a: int|
            if addr <= a < addr + data.len() {
                data[a - addr]
            } else {
                (p.bytes)(a)
            },
    }
}

/// The eight bytes at `addr`.
pub open spec fn eight_bytes(p: Picture, addr: int) -> Seq<u8> {
    Seq::new(8, |i: int| (p.bytes)(addr + i))
}

/// One step carried out; `None` where it cannot be: a page that is mapped
/// already is not mapped again, nothing is done to a page that is not
/// mapped, and a relocation that straddles two pages is refused.
pub open spec fn apply(file: Seq<u8>, p: Picture, step: StepView) -> Option<Picture> {
    match step {
        StepView::MapPages { first, pages, flags } => if exists|page: int|
            in_pages(first as int, pages as int, page) && #[trigger] p.flags.dom().contains(page) {
            None
        } else {
            Some(
                Picture {
                    flags: p.flags.union_prefer_right(
                        Map::new(
                            |page: int| in_pages(first as int, pages as int, page),
                            |page: int| flags,
                        ),
                    ),
                    bytes: p.bytes,
                },
            )
        },
        StepView::Zero { addr, len } => if range_is_mapped(p, addr as int, len as int) {
            Some(with_data(p, addr as int, Seq::new(len as nat, |i: int| 0u8)))
        } else {
            None
        },
        StepView::Copy { addr, from, to } => if range_is_mapped(p, addr as int, to - from) {
            Some(with_data(p, addr as int, file.subrange(from as int, to as int)))
        } else {
            None
        },
        StepView::Write { addr, data } => if range_is_mapped(p, addr as int, data.len() as int) {
            Some(with_data(p, addr as int, data))
        } else {
            None
        },
        StepView::Relocate { addr, delta } => if addr % 4096 <= 4088 && range_is_mapped(
            p,
            addr as int,
            8,
        ) {
            Some(
                with_data(
                    p,
                    addr as int,
                    bytes::le64_bytes(
                        ((bytes::le64(eight_bytes(p, addr as int), 0) + delta)
                            % 0x1_0000_0000_0000_0000) as u64,
                    ),
                ),
            )
        } else {
            None
        },
        StepView::Protect { first, pages, flags } => if forall|page: int|
            in_pages(first as int, pages as int, page) ==> #[trigger] p.flags.dom().contains(
                page,
            ) {
            Some(
                Picture {
                    flags: p.flags.union_prefer_right(
                        Map::new(
                            |page: int| in_pages(first as int, pages as int, page),
                            |page: int| flags,
                        ),
                    ),
                    bytes: p.bytes,
                },
            )
        } else {
            None
        },
    }
}

/// Steps carried out in order, from a blank process.
pub open spec fn run(
    file: Seq<u8>,
    stale: spec_fn(int) -> u8,
    steps: Seq<StepView>,
) -> Option<Picture>
    decreases steps.len(),
{
    if steps.len() == 0 {
        Some(blank(stale))
    } else {
        match run(file, stale, steps.drop_last()) {
            None => None,
            Some(p) => apply(file, p, steps.last()),
        }
    }
}

/// Running one more step.
pub proof fn lemma_run_push(
    file: Seq<u8>,
    stale: spec_fn(int) -> u8,
    steps: Seq<StepView>,
    step: StepView,
)
    ensures
        run(file, stale, steps.push(step)) == match run(file, stale, steps) {
            None => None,
            Some(p) => apply(file, p, step),
        },
{
    assert(steps.push(step).drop_last() =~= steps);
}

/// How a load ends once every step has been carried out.
#[derive(Debug, Clone, Copy, PartialEq, Eq, Structural)]
pub struct Ready {
    /// Where the program starts.
    pub entry: u64,
    /// Its initial stack pointer.
    pub stack_top: u64,
}

/// No page is both writable and executable, every page is one the process
/// itself can reach, and all of them are user space.
pub open spec fn picture_is_safe(p: Picture) -> bool {
    forall|page: int| #[trigger]
        p.flags.dom().contains(page) ==> {
            &&& p.flags[page].w_xor_x()
            &&& p.flags[page].user_accessible
            &&& 0 <= page < layout::USER_SPACE_END
        }
}

/// Appends a step.
pub fn push_step(steps: &mut Vec<Step>, step: Step)
    ensures
        step_views(final(steps)@) == step_views(old(steps)@).push(step@),
{
    proof {
        lemma_step_views_push(steps@, step);
    }
    steps.push(step);
}

/// The stack's permissions: writable, never executable.
pub open spec fn stack_flags(nx: bool) -> PageFlags {
    PageFlags { writable: true, user_accessible: true, no_execute: nx }
}

/// The steps that give a process its stack. The guard page below it is
/// simply never mapped.
pub open spec fn stack_steps(nx: bool) -> Seq<StepView> {
    seq![
        StepView::MapPages {
            first: layout::USER_STACK_BOTTOM,
            pages: layout::USER_STACK_PAGES,
            flags: stack_flags(nx),
        },
        StepView::Zero {
            addr: layout::USER_STACK_BOTTOM,
            len: (layout::USER_STACK_PAGES * 4096) as u64,
        },
    ]
}

/// Appends the steps that give a process its stack.
pub fn push_stack_steps(steps: &mut Vec<Step>, nx_available: bool)
    ensures
        step_views(final(steps)@) == step_views(old(steps)@) + stack_steps(
            nx_available,
        ),
{
    let ghost before = step_views(steps@);
    push_step(
        steps,
        Step::MapPages {
            first: layout::USER_STACK_BOTTOM,
            pages: layout::USER_STACK_PAGES,
            flags: PageFlags { writable: true, user_accessible: true, no_execute: nx_available },
        },
    );
    push_step(
        steps,
        Step::Zero { addr: layout::USER_STACK_BOTTOM, len: layout::USER_STACK_PAGES * 4096 },
    );
    assert(step_views(steps@) =~= before + stack_steps(nx_available));
}

/// Steps that can all be carried out can be carried out part of the way.
pub proof fn lemma_run_prefix(
    file: Seq<u8>,
    stale: spec_fn(int) -> u8,
    steps: Seq<StepView>,
    longer: Seq<StepView>,
)
    requires
        steps.is_prefix_of(longer),
        run(file, stale, longer) is Some,
    ensures
        run(file, stale, steps) is Some,
    decreases longer.len(),
{
    if steps.len() < longer.len() {
        assert(steps.is_prefix_of(longer.drop_last()));
        lemma_run_prefix(file, stale, steps, longer.drop_last());
    } else {
        assert(steps =~= longer);
    }
}

/// Whether none of the steps maps `page`.
pub open spec fn avoids(steps: Seq<StepView>, page: int) -> bool {
    forall|k: int|
        0 <= k < steps.len() ==> (#[trigger] steps[k] matches StepView::MapPages { first, pages, .. }
            ==> !in_pages(first as int, pages as int, page))
}

/// A page that no step maps is not mapped in the end.
pub proof fn lemma_avoided_page_is_not_mapped(
    file: Seq<u8>,
    stale: spec_fn(int) -> u8,
    steps: Seq<StepView>,
    page: int,
)
    requires
        avoids(steps, page),
        run(file, stale, steps) is Some,
    ensures
        !run(file, stale, steps).unwrap().flags.dom().contains(page),
    decreases steps.len(),
{
    if steps.len() > 0 {
        let less = steps.drop_last();
        assert forall|k: int| 0 <= k < less.len() implies (
        #[trigger] less[k] matches StepView::MapPages { first, pages, .. } ==> !in_pages(
            first as int,
            pages as int,
            page,
        )) by {
            assert(less[k] == steps[k]);
        }
        lemma_avoided_page_is_not_mapped(file, stale, less, page);
        assert(steps.last() == steps[steps.len() - 1]);
    }
}

/// Once a stack was added, its pages are there: sixteen of them, of zeros,
/// that a program can write and, where the machine can forbid it, not run.
pub proof fn lemma_stack_is_there(
    file: Seq<u8>,
    stale: spec_fn(int) -> u8,
    steps: Seq<StepView>,
    nx: bool,
    a: int,
)
    requires
        run(file, stale, steps + stack_steps(nx)) is Some,
        0x7fff_efff_0000 <= a < 0x7fff_f000_0000,
    ensures
        ({
            let q = run(file, stale, steps + stack_steps(nx)).unwrap();
            let page = a - a % 4096;
            &&& (q.bytes)(a) == 0
            &&& q.flags.dom().contains(page)
            &&& q.flags[page].writable && q.flags[page].user_accessible
            &&& q.flags[page].no_execute == nx
        }),
{
    let added = stack_steps(nx);
    let s1 = steps.push(added[0]);
    let s2 = s1.push(added[1]);
    assert(steps + added =~= s2);
    assert(s1.is_prefix_of(s2));
    lemma_run_prefix(file, stale, s1, s2);
    assert(steps.is_prefix_of(s1));
    lemma_run_prefix(file, stale, steps, s1);
    lemma_run_push(file, stale, steps, added[0]);
    lemma_run_push(file, stale, s1, added[1]);
    let page = a - a % 4096;
    assert(in_pages(0x7fff_efff_0000, 16, page));
    let q1 = run(file, stale, s1).unwrap();
    assert(q1.flags.dom().contains(page));
}

/// What the stack steps add to a process.
pub proof fn lemma_stack_runs(
    file: Seq<u8>,
    stale: spec_fn(int) -> u8,
    nx: bool,
    steps: Seq<StepView>,
    p: Picture,
)
    requires
        run(file, stale, steps) == Some(p),
        run(file, stale, steps + stack_steps(nx)) is Some,
    ensures
        ({
            let q = run(file, stale, steps + stack_steps(nx)).unwrap();
            &&& forall|page: int| #[trigger]
                p.flags.dom().contains(page) ==> q.flags.dom().contains(page) && q.flags[page]
                    == p.flags[page]
            &&& forall|a: int|
                p.flags.dom().contains(page_of(a)) ==> #[trigger] (q.bytes)(a) == (p.bytes)(a)
            &&& forall|page: int| #[trigger]
                q.flags.dom().contains(page) ==> p.flags.dom().contains(page) || (q.flags[page]
                    == stack_flags(nx) && layout::USER_STACK_BOTTOM <= page
                    < layout::USER_STACK_TOP)
            &&& forall|a: int|
                layout::USER_STACK_BOTTOM <= a < layout::USER_STACK_TOP ==> #[trigger] (q.bytes)(a)
                    == 0
        }),
{
    let added = stack_steps(nx);
    let s1 = steps.push(added[0]);
    let s2 = s1.push(added[1]);
    assert(steps + added =~= s2);
    lemma_run_push(file, stale, steps, added[0]);
    lemma_run_push(file, stale, s1, added[1]);
    let p1 = run(file, stale, s1).unwrap();
    let q = run(file, stale, s2).unwrap();
    let first = layout::USER_STACK_BOTTOM as int;
    assert forall|a: int| p.flags.dom().contains(page_of(a)) implies #[trigger] (q.bytes)(a)
        == (p.bytes)(a) by {
        if first <= a < layout::USER_STACK_TOP {
            assert(in_pages(first, layout::USER_STACK_PAGES as int, page_of(a)));
        }
    }
    assert forall|page: int| #[trigger] q.flags.dom().contains(page) implies p.flags.dom().contains(
        page,
    ) || (q.flags[page] == stack_flags(nx) && layout::USER_STACK_BOTTOM <= page
        < layout::USER_STACK_TOP) by {
        assert(q.flags.dom().contains(page) == p1.flags.dom().contains(page));
    }
}

/// A step that cannot make a page both writable and executable, unreachable
/// by its process, or part of the kernel's half.
pub open spec fn step_is_safe(step: StepView) -> bool {
    match step {
        StepView::MapPages { first, pages, flags } | StepView::Protect { first, pages, flags } => {
            &&& flags.w_xor_x()
            &&& flags.user_accessible
            &&& first + 4096 * pages <= layout::USER_SPACE_END
        },
        _ => true,
    }
}

/// Whether every step is safe.
pub open spec fn steps_are_safe(steps: Seq<StepView>) -> bool {
    forall|i: int| 0 <= i < steps.len() ==> step_is_safe(#[trigger] steps[i])
}

/// Safe steps build a safe process.
pub proof fn lemma_safe_steps_run_safely(
    file: Seq<u8>,
    stale: spec_fn(int) -> u8,
    steps: Seq<StepView>,
)
    requires
        steps_are_safe(steps),
    ensures
        run(file, stale, steps) matches Some(p) ==> picture_is_safe(p),
    decreases steps.len(),
{
    if steps.len() > 0 {
        assert(steps_are_safe(steps.drop_last()));
        lemma_safe_steps_run_safely(file, stale, steps.drop_last());
        assert(step_is_safe(steps.last()));
    }
}

} // verus!
