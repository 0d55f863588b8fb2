//! Programs running in user mode, and how they end.
use vstd::prelude::*;
use crate::abi::layout;
use crate::bytes::{self, u64_le_bytes};
use crate::image::{self, push_step, Ready, Step, StepView};
use crate::mm::paging::PageFlags;
use crate::text::{self, push_decimal};

verus! {

/// How a program ended.
#[derive(Debug, Clone, Copy, PartialEq, Eq, Structural)]
pub enum ProgramExit {
    /// It asked to exit with this status.
    Exited(u32),
    PageFault,
    GeneralProtectionFault,
}

pub const KIND_EXITED: u64 = 0;

pub const KIND_PAGE_FAULT: u64 = 1;

pub const KIND_GENERAL_PROTECTION_FAULT: u64 = 2;

impl ProgramExit {
    /// The one register's worth that crosses back from user mode: the kind
    /// in the upper half, the status in the lower.
    pub open spec fn encoded(self) -> u64 {
        match self {
            ProgramExit::Exited(status) => status as u64,
            ProgramExit::PageFault => 0x1_0000_0000,
            ProgramExit::GeneralProtectionFault => 0x2_0000_0000,
        }
    }

    /// Packs an exit into one register.
    pub fn encode(self) -> (raw: u64)
        ensures
            raw == self.encoded(),
    {
        match self {
            ProgramExit::Exited(status) => KIND_EXITED * 0x1_0000_0000 + status as u64,
            ProgramExit::PageFault => KIND_PAGE_FAULT * 0x1_0000_0000,
            ProgramExit::GeneralProtectionFault => KIND_GENERAL_PROTECTION_FAULT * 0x1_0000_0000,
        }
    }

    /// Unpacks an exit. A kind that nothing encodes is a corrupted handoff.
    pub fn decode(raw: u64) -> (exit: ProgramExit)
        requires
            raw / 0x1_0000_0000 <= KIND_GENERAL_PROTECTION_FAULT,
        ensures
            exit == decoded(raw),
    {
        let kind: u64 = raw / 0x1_0000_0000;
        if kind == KIND_EXITED {
            ProgramExit::Exited(raw as u32)
        } else if kind == KIND_PAGE_FAULT {
            ProgramExit::PageFault
        } else {
            ProgramExit::GeneralProtectionFault
        }
    }
}

impl ProgramExit {
    /// What `describe` says.
    pub open spec fn text(self) -> Seq<char> {
        match self {
            ProgramExit::Exited(status) => "Exited("@ + text::decimal(status as nat) + ")"@,
            ProgramExit::PageFault => "PageFault"@,
            ProgramExit::GeneralProtectionFault => "GeneralProtectionFault"@,
        }
    }

    /// The exit's name, for the log.
    pub fn describe(self) -> (out: String)
        ensures
            out@ == self.text(),
    {
        match self {
            ProgramExit::Exited(status) => {
                let mut out = String::from_str("Exited(");
                push_decimal(&mut out, status as u64);
                out.append(")");
                out
            },
            ProgramExit::PageFault => String::from_str("PageFault"),
            ProgramExit::GeneralProtectionFault => String::from_str("GeneralProtectionFault"),
        }
    }
}

/// What unpacking a register gives.
pub open spec fn decoded(raw: u64) -> ProgramExit {
    if raw < 0x1_0000_0000 {
        ProgramExit::Exited(raw as u32)
    } else if raw < 0x2_0000_0000 {
        ProgramExit::PageFault
    } else {
        ProgramExit::GeneralProtectionFault
    }
}

/// An exit survives the crossing.
pub proof fn law_exit_round_trip(exit: ProgramExit)
    ensures
        exit.encoded() / 0x1_0000_0000 <= KIND_GENERAL_PROTECTION_FAULT,
        decoded(exit.encoded()) == exit,
{
}

/// Whether a program is running, given where its supervisor would resume.
pub fn program_is_running(supervisor_rsp: u64) -> (r: bool)
    ensures
        r == (supervisor_rsp != 0),
{
    supervisor_rsp != 0
}

// ---------------------------------------------------------------------
// The user-mode self-tests
// ---------------------------------------------------------------------

/// The page that must not be executable and is jumped to.
pub const NX_TEST_DATA: u64 = 0x0000_5555_5555_1000;

/// The stack of that test.
pub const NX_TEST_STACK: u64 = 0x0000_6666_6666_1000;

/// A program of three instructions: load a system call number that names
/// nothing, make the call, and halt. The last is privileged, so a program
/// in user mode is stopped at it.
pub const TEST_PAYLOAD: [u8; 10] = [0x48, 0xC7, 0xC0, 0xEE, 0x00, 0x00, 0x00, 0xCD, 0x80, 0xF4];

/// What has to be in memory for a self-test, and where it starts.
#[derive(Debug)]
pub struct TestRun {
    pub steps: Vec<Step>,
    pub ready: Ready,
    /// For the log.
    pub line: &'static str,
}

/// A page that the program can write while it is being set up.
pub open spec fn setup_flags() -> PageFlags {
    PageFlags { writable: true, user_accessible: true, no_execute: false }
}

/// What puts the test program in place. Both pages start writable, since
/// even the kernel cannot write to a page that is not. Then the code page
/// loses its write permission and the stack page, where the processor can
/// do that, its execute permission.
pub open spec fn test_steps(nx: bool) -> Seq<StepView> {
    seq![
        StepView::MapPages {
            first: layout::USERMODE_TEST_CODE,
            pages: 1,
            flags: setup_flags(),
        },
        StepView::MapPages {
            first: layout::USERMODE_TEST_STACK,
            pages: 1,
            flags: setup_flags(),
        },
        StepView::Write { addr: layout::USERMODE_TEST_CODE, data: TEST_PAYLOAD@ },
        StepView::Protect {
            first: layout::USERMODE_TEST_CODE,
            pages: 1,
            flags: PageFlags { writable: false, user_accessible: true, no_execute: false },
        },
        StepView::Protect {
            first: layout::USERMODE_TEST_STACK,
            pages: 1,
            flags: PageFlags { writable: true, user_accessible: true, no_execute: nx },
        },
    ]
}

/// The first self-test: a program that is expected to be stopped at a
/// privileged instruction.
pub fn run_test(nx_available: bool) -> (run: TestRun)
    ensures
        image::step_views(run.steps@) == test_steps(nx_available),
        run.ready == (Ready {
            entry: layout::USERMODE_TEST_CODE,
            stack_top: (layout::USERMODE_TEST_STACK + 4096) as u64,
        }),
        run.line
            == "Najm Kernel: entering Ring 3 - expect a syscall confirmation, then a General Protection Fault (the payload's `hlt` being correctly refused *is* the proof this works)",
{
    let setup = PageFlags { writable: true, user_accessible: true, no_execute: false };
    let payload: [u8; 10] = TEST_PAYLOAD;
    let mut data: Vec<u8> = Vec::new();
    let mut i: usize = 0;
    while i < 10
        invariant
            i <= 10,
            payload@ == TEST_PAYLOAD@,
            data@ == payload@.subrange(0, i as int),
        decreases 10 - i,
    {
        data.push(payload[i]);
        i += 1;
        assert(data@ =~= payload@.subrange(0, i as int));
    }
    assert(data@ =~= TEST_PAYLOAD@);
    let mut steps: Vec<Step> = Vec::new();
    assert(image::step_views(steps@) =~= Seq::<StepView>::empty());
    push_step(
        &mut steps,
        Step::MapPages { first: layout::USERMODE_TEST_CODE, pages: 1, flags: setup },
    );
    push_step(
        &mut steps,
        Step::MapPages { first: layout::USERMODE_TEST_STACK, pages: 1, flags: setup },
    );
    push_step(&mut steps, Step::Write { addr: layout::USERMODE_TEST_CODE, data });
    push_step(
        &mut steps,
        Step::Protect {
            first: layout::USERMODE_TEST_CODE,
            pages: 1,
            flags: PageFlags { writable: false, user_accessible: true, no_execute: false },
        },
    );
    push_step(
        &mut steps,
        Step::Protect {
            first: layout::USERMODE_TEST_STACK,
            pages: 1,
            flags: PageFlags { writable: true, user_accessible: true, no_execute: nx_available },
        },
    );
    assert(image::step_views(steps@) =~= test_steps(nx_available));
    TestRun {
        steps,
        ready: Ready {
            entry: layout::USERMODE_TEST_CODE,
            stack_top: layout::USERMODE_TEST_STACK + 4096,
        },
        line: "Najm Kernel: entering Ring 3 - expect a syscall confirmation, then a General Protection Fault (the payload's `hlt` being correctly refused *is* the proof this works)",
    }
}

/// What puts the second test in place: a single return instruction, on a
/// page that then loses its execute permission. Should it run after all,
/// it returns to where nothing dangerous is.
pub open spec fn nx_test_steps() -> Seq<StepView> {
    seq![
        StepView::MapPages { first: NX_TEST_DATA, pages: 1, flags: setup_flags() },
        StepView::MapPages { first: NX_TEST_STACK, pages: 1, flags: setup_flags() },
        StepView::Write { addr: NX_TEST_DATA, data: seq![0xC3u8] },
        StepView::Write {
            addr: (NX_TEST_STACK + 0xFF8) as u64,
            data: bytes::le64_bytes((NX_TEST_DATA + 0x800) as u64),
        },
        StepView::Protect {
            first: NX_TEST_DATA,
            pages: 1,
            flags: PageFlags { writable: true, user_accessible: true, no_execute: true },
        },
    ]
}

/// The second self-test: a jump to a page that must not be executed, which
/// is expected to fault. Without support for that there is nothing to
/// test.
pub fn run_nx_test(nx_available: bool) -> (run: Option<TestRun>)
    ensures
        match run {
            Some(run) => {
                &&& nx_available
                &&& image::step_views(run.steps@) == nx_test_steps()
                &&& run.ready == (Ready {
                    entry: NX_TEST_DATA,
                    stack_top: (NX_TEST_STACK + 4096) as u64,
                })
                &&& run.line
                    == "Najm Kernel: entering Ring 3 at a NO_EXECUTE page - a page fault here is the pass condition, because it means the CPU is enforcing the bit rather than ignoring it"
            },
            None => !nx_available,
        },
{
    if !nx_available {
        return None;
    }
    let setup = PageFlags { writable: true, user_accessible: true, no_execute: false };
    let mut code: Vec<u8> = Vec::new();
    code.push(0xC3);
    assert(code@ =~= seq![0xC3u8]);
    let target: Vec<u8> = u64_le_bytes(NX_TEST_DATA + 0x800);
    let mut steps: Vec<Step> = Vec::new();
    assert(image::step_views(steps@) =~= Seq::<StepView>::empty());
    push_step(&mut steps, Step::MapPages { first: NX_TEST_DATA, pages: 1, flags: setup });
    push_step(&mut steps, Step::MapPages { first: NX_TEST_STACK, pages: 1, flags: setup });
    push_step(&mut steps, Step::Write { addr: NX_TEST_DATA, data: code });
    push_step(&mut steps, Step::Write { addr: NX_TEST_STACK + 0xFF8, data: target });
    push_step(
        &mut steps,
        Step::Protect {
            first: NX_TEST_DATA,
            pages: 1,
            flags: PageFlags { writable: true, user_accessible: true, no_execute: true },
        },
    );
    assert(image::step_views(steps@) =~= nx_test_steps());
    Some(
        TestRun {
            steps,
            ready: Ready { entry: NX_TEST_DATA, stack_top: NX_TEST_STACK + 4096 },
            line: "Najm Kernel: entering Ring 3 at a NO_EXECUTE page - a page fault here is the pass condition, because it means the CPU is enforcing the bit rather than ignoring it",
        },
    )
}

/// The test program runs under the conditions of a real one: its code is
/// in place and cannot be written, and where the processor can forbid it
/// its stack cannot be executed.
pub proof fn law_test_program_is_in_place(nx: bool, stale: spec_fn(int) -> u8, i: int)
    requires
        0 <= i < 10,
    ensures
        ({
            let p = image::run(Seq::empty(), stale, test_steps(nx));
            &&& p is Some
            &&& (p.unwrap().bytes)(layout::USERMODE_TEST_CODE + i) == TEST_PAYLOAD@[i]
            &&& !p.unwrap().flags[layout::USERMODE_TEST_CODE as int].writable
            &&& p.unwrap().flags[layout::USERMODE_TEST_STACK as int].no_execute == nx
        }),
{
    let code = layout::USERMODE_TEST_CODE as int;
    let stack = layout::USERMODE_TEST_STACK as int;
    let s = test_steps(nx);
    let s0 = Seq::<StepView>::empty();
    let s1 = s0.push(s[0]);
    let s2 = s1.push(s[1]);
    let s3 = s2.push(s[2]);
    let s4 = s3.push(s[3]);
    let s5 = s4.push(s[4]);
    assert(s5 =~= s);
    let file = Seq::<u8>::empty();
    image::lemma_run_push(file, stale, s0, s[0]);
    image::lemma_run_push(file, stale, s1, s[1]);
    image::lemma_run_push(file, stale, s2, s[2]);
    image::lemma_run_push(file, stale, s3, s[3]);
    image::lemma_run_push(file, stale, s4, s[4]);
    assert(image::in_pages(code, 1, code));
    assert(image::in_pages(stack, 1, stack));
    let p1 = image::run(file, stale, s1).unwrap();
    let p2 = image::run(file, stale, s2).unwrap();
    assert(p2.flags.dom().contains(code) && p2.flags.dom().contains(stack));
    assert forall|a: int| code <= a < code + 10 implies p2.flags.dom().contains(
        #[trigger] image::page_of(a),
    ) by {
        assert(image::page_of(a) == code);
    }
    assert forall|page: int| image::in_pages(code, 1, page) implies page == code by {}
    assert forall|page: int| image::in_pages(stack, 1, page) implies page == stack by {}
}

/// How an ending is encoded: the kind in the upper half, which is 0 for an
/// exit, 1 for a page fault and 2 for a protection fault, and the status of
/// an exit in the lower.
pub proof fn law_endings_are_encoded(status: u32)
    ensures
        ProgramExit::Exited(status).encoded() == status,
        ProgramExit::PageFault.encoded() == 0x1_0000_0000,
        ProgramExit::GeneralProtectionFault.encoded() == 0x2_0000_0000,
{
}

/// The program that tests the execute-disable bit is a return instruction on
/// a page that may not be run, and its stack holds the address of another
/// place on that page to return to. Both pages are the program's and can be
/// written.
pub proof fn law_nx_test_program_is_in_place(stale: spec_fn(int) -> u8)
    ensures
        ({
            let p = image::run(Seq::empty(), stale, nx_test_steps());
            let data: int = 0x0000_5555_5555_1000;
            let stack: int = 0x0000_6666_6666_1000;
            &&& p is Some
            &&& (p.unwrap().bytes)(data) == 0xC3
            &&& bytes::le64(image::eight_bytes(p.unwrap(), stack + 0xFF8), 0) == data + 0x800
            &&& p.unwrap().flags[data] == (PageFlags {
                writable: true,
                user_accessible: true,
                no_execute: true,
            })
            &&& p.unwrap().flags[stack].writable
            &&& p.unwrap().flags[stack].user_accessible
        }),
{
    let data = NX_TEST_DATA as int;
    let stack = NX_TEST_STACK as int;
    let s = nx_test_steps();
    let s0 = Seq::<StepView>::empty();
    let s1 = s0.push(s[0]);
    let s2 = s1.push(s[1]);
    let s3 = s2.push(s[2]);
    let s4 = s3.push(s[3]);
    let s5 = s4.push(s[4]);
    assert(s5 =~= s);
    let file = Seq::<u8>::empty();
    image::lemma_run_push(file, stale, s0, s[0]);
    image::lemma_run_push(file, stale, s1, s[1]);
    image::lemma_run_push(file, stale, s2, s[2]);
    image::lemma_run_push(file, stale, s3, s[3]);
    image::lemma_run_push(file, stale, s4, s[4]);
    assert(image::in_pages(data, 1, data));
    assert(image::in_pages(stack, 1, stack));
    assert forall|page: int| image::in_pages(data, 1, page) implies page == data by {}
    assert forall|page: int| image::in_pages(stack, 1, page) implies page == stack by {}
    let p2 = image::run(file, stale, s2).unwrap();
    assert(p2.flags.dom().contains(data) && p2.flags.dom().contains(stack));
    assert(image::page_of(data) == data);
    assert(image::range_is_mapped(p2, data, 1)) by {
        assert forall|a: int| data <= a < data + 1 implies p2.flags.dom().contains(
            #[trigger] image::page_of(a),
        ) by {
            assert(image::page_of(a) == data);
        }
    }
    let p3 = image::run(file, stale, s3).unwrap();
    let there = bytes::le64_bytes((NX_TEST_DATA + 0x800) as u64);
    assert(image::range_is_mapped(p3, stack + 0xFF8, 8)) by {
        assert forall|a: int| stack + 0xFF8 <= a < stack + 0x1000 implies p3.flags.dom().contains(
            #[trigger] image::page_of(a),
        ) by {
            assert(image::page_of(a) == stack);
        }
    }
    let p4 = image::run(file, stale, s4).unwrap();
    assert(image::eight_bytes(p4, stack + 0xFF8) =~= there);
    bytes::lemma_le64_round_trip((NX_TEST_DATA + 0x800) as u64);
    let p5 = image::run(file, stale, s5).unwrap();
    assert(image::eight_bytes(p5, stack + 0xFF8) =~= there);
}

/// What the test program finds: its code can be run and not written, its
/// stack can be written, and both are the program's. The code loads a number
/// of a system call, makes the call, and then halts.
pub proof fn law_test_program_is_protected(nx: bool, stale: spec_fn(int) -> u8)
    ensures
        ({
            let p = image::run(Seq::empty(), stale, test_steps(nx));
            let code: int = 0x0000_5555_5555_0000;
            let stack: int = 0x0000_6666_6666_0000;
            &&& p is Some
            &&& p.unwrap().flags[code] == (PageFlags {
                writable: false,
                user_accessible: true,
                no_execute: false,
            })
            &&& p.unwrap().flags[stack] == (PageFlags {
                writable: true,
                user_accessible: true,
                no_execute: nx,
            })
            &&& (p.unwrap().bytes)(code + 7) == 0xCD
            &&& (p.unwrap().bytes)(code + 8) == 0x80
            &&& (p.unwrap().bytes)(code + 9) == 0xF4
        }),
{
    law_test_program_is_in_place(nx, stale, 7);
    law_test_program_is_in_place(nx, stale, 8);
    law_test_program_is_in_place(nx, stale, 9);
    let code = layout::USERMODE_TEST_CODE as int;
    let stack = layout::USERMODE_TEST_STACK as int;
    let s = test_steps(nx);
    let front = s.drop_last();
    let file = Seq::<u8>::empty();
    assert(front.push(s[4]) =~= s);
    image::lemma_run_push(file, stale, front, s[4]);
    let before = front.drop_last();
    assert(before.push(s[3]) =~= front);
    image::lemma_run_push(file, stale, before, s[3]);
    assert(image::in_pages(code, 1, code));
    assert(image::in_pages(stack, 1, stack));
    assert(!image::in_pages(stack, 1, code));
}

} // verus!
