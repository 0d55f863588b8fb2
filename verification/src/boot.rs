//! The boot sequence's decisions: what each self-test concludes from what
//! was observed, and what is reported.
//!
//! The order of the sequence, and the observing itself, belong to the
//! entry point. Here is what an observation means.
use vstd::prelude::*;
use crate::arch::x86_64::cpu::Features;
use crate::arch::x86_64::interrupts::{ticks_with_capability, Clock, TIMER_HZ};
use crate::arch::x86_64::usermode::ProgramExit;
use crate::drivers::qemu::ExitCode;
use crate::drivers::rtc::{self, DateTime};
use crate::drivers::serial::write_with_capability;
use crate::fs::{self, FileSystem};
use crate::graphics::framebuffer::Colour;
use crate::graphics::theme::{self, Theme};
use crate::process::ProcessState;
use crate::sched::class::{
    ClassStats, SchedClass, REALTIME_LATENCY_BUDGET_TICKS, STARVATION_LIMIT_TICKS,
};
use crate::security::capability::{Capability, Registry, SerialWrite, TimerRead};
use crate::selftest::{self, check, Tally};
use crate::text::{self, from_utf8_lossy, push_decimal, push_hexadecimal};

verus! {

broadcast use vstd::slice::group_slice_axioms;

/// Whether a self-test was recorded and reported.
pub open spec fn recorded(
    before: Tally,
    after: Tally,
    line: Seq<char>,
    name: Seq<char>,
    passed: bool,
    detail: Seq<char>,
) -> bool {
    after == selftest::counted(before, passed) && line == selftest::check_line(name, passed, detail)
}

// ---------------------------------------------------------------------
// Text
// ---------------------------------------------------------------------

/// Numbers in brackets, from position `i` on.
pub open spec fn list_from(values: Seq<u32>, i: int) -> Seq<char>
    decreases values.len() - i,
{
    if i < 0 || i >= values.len() {
        "]"@
    } else if i == 0 {
        text::decimal(values[i] as nat) + list_from(values, i + 1)
    } else {
        ", "@ + text::decimal(values[i] as nat) + list_from(values, i + 1)
    }
}

/// Numbers in brackets.
pub open spec fn number_list(values: Seq<u32>) -> Seq<char> {
    "["@ + list_from(values, 0)
}

fn push_list(out: &mut String, values: &Vec<u32>)
    ensures
        final(out)@ == old(out)@ + number_list(values@),
{
    let ghost before = out@;
    out.append("[");
    let mut i: usize = 0;
    assert(before + number_list(values@) =~= out@ + list_from(values@, 0));
    while i < values.len()
        invariant
            i <= values.len(),
            before + number_list(values@) == out@ + list_from(values@, i as int),
        decreases values.len() - i,
    {
        let ghost sofar = out@;
        if i > 0 {
            out.append(", ");
        }
        push_decimal(out, values[i] as u64);
        i += 1;
        assert(sofar + list_from(values@, i - 1) =~= out@ + list_from(values@, i as int));
    }
    out.append("]");
}

/// An exit that may not have happened.
pub open spec fn outcome_text(exit: Option<ProgramExit>) -> Seq<char> {
    match exit {
        Some(exit) => "Some("@ + exit.text() + ")"@,
        None => "None"@,
    }
}

fn push_outcome(out: &mut String, exit: Option<ProgramExit>)
    ensures
        final(out)@ == old(out)@ + outcome_text(exit),
{
    let ghost before = out@;
    match exit {
        Some(exit) => {
            out.append("Some(");
            out.append(exit.describe().as_str());
            out.append(")");
        },
        None => {
            out.append("None");
        },
    }
    assert(out@ =~= before + outcome_text(exit));
}

/// A process's state.
pub open spec fn state_text(state: ProcessState) -> Seq<char> {
    match state {
        ProcessState::Ready => "Ready"@,
        ProcessState::Running => "Running"@,
        ProcessState::Exited(exit) => "Exited("@ + exit.text() + ")"@,
    }
}

/// The line about a process at the end of the boot.
pub fn process_line(pid: u64, name: &str, state: ProcessState) -> (line: String)
    ensures
        line@ == "Najm Kernel: process "@ + text::decimal(pid as nat) + " ("@ + name@ + ") - "@
            + state_text(state),
{
    let mut line = String::from_str("Najm Kernel: process ");
    push_decimal(&mut line, pid);
    line.append(" (");
    line.append(name);
    line.append(") - ");
    let ghost head = line@;
    match state {
        ProcessState::Ready => {
            line.append("Ready");
        },
        ProcessState::Running => {
            line.append("Running");
        },
        ProcessState::Exited(exit) => {
            line.append("Exited(");
            line.append(exit.describe().as_str());
            line.append(")");
        },
    }
    assert(line@ =~= head + state_text(state));
    line
}

// ---------------------------------------------------------------------
// Before user mode
// ---------------------------------------------------------------------

/// Whether the clock has moved on by `ticks`.
pub fn has_elapsed(start: u64, now: u64, ticks: u64) -> (r: bool)
    ensures
        r == (now >= start + ticks),
{
    now >= start && now - start >= ticks
}

/// The timer interrupt arrives: the tick counter has moved.
pub fn check_timer(tally: &mut Tally, start: u64, now: u64) -> (line: String)
    ensures
        recorded(
            *old(tally),
            *final(tally),
            line@,
            "timer IRQ"@,
            now > start,
            "tick counter advanced from "@ + text::decimal(start as nat) + " to "@ + text::decimal(
                now as nat,
            ),
        ),
{
    let mut detail = String::from_str("tick counter advanced from ");
    push_decimal(&mut detail, start);
    detail.append(" to ");
    push_decimal(&mut detail, now);
    check(tally, "timer IRQ", now > start, detail.as_str())
}

/// Whether the numbers are the squares from zero on.
pub open spec fn are_squares(values: Seq<u32>) -> bool {
    values == seq![0u32, 1, 4, 9, 16, 25, 36, 49, 64, 81]
}

/// The heap works: what was allocated reads back.
pub fn check_heap(tally: &mut Tally, values: &Vec<u32>) -> (line: String)
    ensures
        recorded(
            *old(tally),
            *final(tally),
            line@,
            "kernel heap"@,
            are_squares(values@),
            "allocated and read back "@ + number_list(values@),
        ),
{
    let mut detail = String::from_str("allocated and read back ");
    push_list(&mut detail, values);
    let good: bool = values.len() == 10 && values[0] == 0 && values[1] == 1 && values[2] == 4
        && values[3] == 9 && values[4] == 16 && values[5] == 25 && values[6] == 36 && values[7]
        == 49 && values[8] == 64 && values[9] == 81;
    proof {
        if good {
            assert(values@ =~= seq![0u32, 1, 4, 9, 16, 25, 36, 49, 64, 81]);
        }
    }
    check(tally, "kernel heap", good, detail.as_str())
}

/// The two halves of the address space are apart: nothing of the kernel is
/// in the lower one.
pub fn check_address_split(tally: &mut Tally, lower: usize, higher: usize) -> (line: String)
    ensures
        recorded(
            *old(tally),
            *final(tally),
            line@,
            "address space split"@,
            lower == 0 && higher > 0,
            text::decimal(lower as nat)
                + " lower-half PML4 entries in use (must be 0 - the lower half belongs to user processes), "@
                + text::decimal(higher as nat) + " higher-half entries (the kernel)"@,
        ),
{
    let mut detail = String::new();
    push_decimal(&mut detail, lower as u64);
    detail.append(
        " lower-half PML4 entries in use (must be 0 - the lower half belongs to user processes), ",
    );
    push_decimal(&mut detail, higher as u64);
    detail.append(" higher-half entries (the kernel)");
    assert(detail@ =~= text::decimal(lower as nat)
        + " lower-half PML4 entries in use (must be 0 - the lower half belongs to user processes), "@
        + text::decimal(higher as nat) + " higher-half entries (the kernel)"@);
    check(tally, "address space split", lower == 0 && higher > 0, detail.as_str())
}

/// A truth value as text.
pub open spec fn truth(b: bool) -> Seq<char> {
    if b {
        "true"@
    } else {
        "false"@
    }
}

fn push_truth(out: &mut String, b: bool)
    ensures
        final(out)@ == old(out)@ + truth(b),
{
    if b {
        out.append("true");
    } else {
        out.append("false");
    }
}

/// What the processor has is reported; only execute-disable is required,
/// since without it a page cannot even be marked so.
pub fn check_nx(tally: &mut Tally, features: &Features) -> (line: String)
    ensures
        recorded(
            *old(tally),
            *final(tally),
            line@,
            "NX support"@,
            features.nx,
            "execute-disable is "@ + (if features.nx {
                "enabled"@
            } else {
                "MISSING"@
            }) + " - SMEP "@ + truth(features.smep) + ", SMAP "@ + truth(features.smap)
                + ", UMIP "@ + truth(features.umip),
        ),
{
    let mut detail = String::from_str("execute-disable is ");
    if features.nx {
        detail.append("enabled");
    } else {
        detail.append("MISSING");
    }
    detail.append(" - SMEP ");
    push_truth(&mut detail, features.smep);
    detail.append(", SMAP ");
    push_truth(&mut detail, features.smap);
    detail.append(", UMIP ");
    push_truth(&mut detail, features.umip);
    check(tally, "NX support", features.nx, detail.as_str())
}

/// The page below a kernel stack is not mapped.
pub fn check_guard_page(tally: &mut Tally, unmapped: bool, guard: u64) -> (line: String)
    ensures
        recorded(
            *old(tally),
            *final(tally),
            line@,
            "kernel stack guard page"@,
            unmapped,
            "the page below a kernel stack (0x"@ + text::hexadecimal(guard as nat)
                + ") is unmapped, so overflow faults instead of corrupting the next allocation"@,
        ),
{
    let mut detail = String::from_str("the page below a kernel stack (0x");
    push_hexadecimal(&mut detail, guard);
    detail.append(") is unmapped, so overflow faults instead of corrupting the next allocation");
    check(tally, "kernel stack guard page", unmapped, detail.as_str())
}

/// What the capability self-test writes and reports.
#[derive(Debug)]
pub struct CapabilityTest {
    /// What a fresh capability let through to the console.
    pub written: Option<Vec<u8>>,
    /// What a revoked one let through: nothing.
    pub leaked: Option<Vec<u8>>,
    pub lines: Vec<String>,
}

/// Issues capabilities, uses them, revokes them, and tries again with
/// copies that were derived before. Every one of the checks passes: a
/// fresh capability works, and no copy of a revoked one does.
pub fn check_capabilities(tally: &mut Tally, registry: &mut Registry, clock: &Clock) -> (r:
    CapabilityTest)
    requires
        old(registry).next() < u64::MAX - 1,
        forall|id: u64| #[trigger] old(registry).revoked().contains(id) ==> id < old(registry).next(),
    ensures
        r.written matches Some(bytes) && bytes@ == vstd::utf8::encode_utf8(
            "Najm Kernel: capability-gated write succeeded\n"@,
        ),
        r.leaked is None,
        *final(tally) == selftest::counted(
            selftest::counted(selftest::counted(*old(tally), true), true),
            true,
        ),
        final(registry).next() == old(registry).next() + 2,
        final(registry).revoked() == old(registry).revoked().insert(old(registry).next()).insert(
            (old(registry).next() + 1) as u64,
        ),
        text::texts(r.lines@) == seq![
            selftest::check_line(
                "capability revocation (SerialWrite)"@,
                true,
                "a derived copy of a revoked capability was correctly refused"@,
            ),
            selftest::check_line(
                "capability grant (TimerRead)"@,
                true,
                "a freshly issued token read the tick counter: Some("@ + text::decimal(
                    clock.ticks as nat,
                ) + ")"@,
            ),
            selftest::check_line(
                "capability revocation (TimerRead)"@,
                true,
                "reading through a revoked token was correctly refused"@,
            ),
        ],
{
    let mut lines: Vec<String> = Vec::new();
    let cap: Capability<SerialWrite> = Capability::issue(registry);
    let copy: Capability<SerialWrite> = cap.derive();
    let written: Option<Vec<u8>> = match write_with_capability(
        &cap,
        registry,
        "Najm Kernel: capability-gated write succeeded\n",
    ) {
        Ok(bytes) => Some(bytes),
        Err(_) => None,
    };
    cap.revoke(registry);
    let leaked: Option<Vec<u8>> = match write_with_capability(
        &copy,
        registry,
        "Najm Kernel: BUG - this write should have been blocked\n",
    ) {
        Ok(bytes) => Some(bytes),
        Err(_) => None,
    };
    let blocked: bool = leaked.is_none();
    lines.push(
        check(
            tally,
            "capability revocation (SerialWrite)",
            blocked,
            if blocked {
                "a derived copy of a revoked capability was correctly refused"
            } else {
                "a derived copy of a revoked capability was still accepted - revocation does not propagate to derived copies"
            },
        ),
    );
    let timer: Capability<TimerRead> = Capability::issue(registry);
    let timer_copy: Capability<TimerRead> = timer.derive();
    let mut detail = String::from_str("a freshly issued token read the tick counter: ");
    let granted: bool = match ticks_with_capability(&timer, registry, clock) {
        Ok(ticks) => {
            detail.append("Some(");
            push_decimal(&mut detail, ticks);
            detail.append(")");
            true
        },
        Err(_) => {
            detail.append("None");
            false
        },
    };
    proof {
        let a = "a freshly issued token read the tick counter: "@;
        let b = "Some("@;
        let c = "a freshly issued token read the tick counter: Some("@;
        reveal_strlit("a freshly issued token read the tick counter: ");
        reveal_strlit("Some(");
        reveal_strlit("a freshly issued token read the tick counter: Some(");
        assert(a + b =~= c);
    }
    lines.push(check(tally, "capability grant (TimerRead)", granted, detail.as_str()));
    timer.revoke(registry);
    let refused: bool = ticks_with_capability(&timer_copy, registry, clock).is_err();
    lines.push(
        check(
            tally,
            "capability revocation (TimerRead)",
            refused,
            if refused {
                "reading through a revoked token was correctly refused"
            } else {
                "reading through a revoked token still succeeded"
            },
        ),
    );
    assert(text::texts(lines@) =~= seq![lines@[0]@, lines@[1]@, lines@[2]@]);
    CapabilityTest { written, leaked, lines }
}

/// The bus was walked and something was found.
pub fn check_pci(tally: &mut Tally, devices: usize) -> (line: String)
    ensures
        recorded(
            *old(tally),
            *final(tally),
            line@,
            "PCI enumeration"@,
            devices > 0,
            text::decimal(devices as nat)
                + " device(s) found by walking configuration space - the bus is being discovered, not assumed"@,
        ),
{
    let mut detail = String::new();
    push_decimal(&mut detail, devices as u64);
    detail.append(
        " device(s) found by walking configuration space - the bus is being discovered, not assumed",
    );
    assert(detail@ =~= text::decimal(devices as nat)
        + " device(s) found by walking configuration space - the bus is being discovered, not assumed"@);
    check(tally, "PCI enumeration", devices > 0, detail.as_str())
}

/// Seconds since the epoch, or zero without a clock.
pub open spec fn clock_seconds(t: Option<DateTime>) -> int {
    match t {
        Some(t) => if rtc::seconds_since_epoch(t) >= 0 {
            rtc::seconds_since_epoch(t)
        } else {
            0
        },
        None => 0,
    }
}

/// There is a wall clock.
pub fn check_wall_clock(tally: &mut Tally, now: Option<DateTime>) -> (line: String)
    ensures
        recorded(
            *old(tally),
            *final(tally),
            line@,
            "wall clock"@,
            now is Some,
            "the RTC reports "@ + text::decimal(clock_seconds(now) as nat)
                + " seconds since the Unix epoch"@,
        ),
{
    let seconds: u64 = match now {
        Some(t) => t.to_unix_seconds(),
        None => 0,
    };
    let mut detail = String::from_str("the RTC reports ");
    push_decimal(&mut detail, seconds);
    detail.append(" seconds since the Unix epoch");
    check(tally, "wall clock", now.is_some(), detail.as_str())
}

/// Where a theme is looked for.
pub const THEME_PATH: &'static str = "/etc/theme.conf";

/// The theme to start with: the one in the archive, if there is one, and
/// what is reported about it.
pub fn load_theme(fs: &FileSystem) -> (r: (Theme, String))
    requires
        fs.wf(),
    ensures
        if fs.nodes().dom().contains(THEME_PATH@) && !fs.nodes()[THEME_PATH@].is_directory {
            let data = fs::contents(fs.archive(), fs.nodes()[THEME_PATH@]);
            let reading = theme::reading_of(text::utf8_lossy(data));
            &&& r.0 == reading.theme
            &&& r.1@ == "Najm Kernel: theme loaded from /etc/theme.conf - "@ + text::decimal(
                reading.applied as nat,
            ) + " setting(s) applied, "@ + text::decimal(reading.rejected as nat)
                + " line(s) rejected"@
        } else {
            &&& r.0 == theme::built_in()
            &&& r.1@ == "Najm Kernel: no /etc/theme.conf, using the built-in theme"@
        },
{
    match fs::read_all(fs, THEME_PATH) {
        Some(data) => {
            let text: String = from_utf8_lossy(data.as_slice());
            let (theme, applied, rejected) = Theme::parse(text.as_str());
            let mut line = String::from_str("Najm Kernel: theme loaded from /etc/theme.conf - ");
            push_decimal(&mut line, applied as u64);
            line.append(" setting(s) applied, ");
            push_decimal(&mut line, rejected as u64);
            line.append(" line(s) rejected");
            (theme, line)
        },
        None => (
            Theme::default(),
            String::from_str("Najm Kernel: no /etc/theme.conf, using the built-in theme"),
        ),
    }
}

// ---------------------------------------------------------------------
// Programs and files
// ---------------------------------------------------------------------

/// What is reported when a supervisor gets control back.
pub open spec fn resumed_line(what: Seq<char>, exit: ProgramExit) -> Seq<char> {
    "Najm Kernel: SUPERVISOR RESUMED - the "@ + what + " ended with "@ + exit.text()
        + ", and the kernel is still running"@
}

/// Reports how a program ended, and checks it against the outcome that it
/// was made to produce.
pub fn report_program_exit(
    tally: &mut Tally,
    what: &str,
    exit: ProgramExit,
    expected: ProgramExit,
) -> (r: (String, String))
    ensures
        r.0@ == resumed_line(what@, exit),
        recorded(
            *old(tally),
            *final(tally),
            r.1@,
            what@,
            exit == expected,
            "ended with "@ + exit.text() + " ("@ + expected.text()
                + " is the outcome this payload exists to prove)"@,
        ),
{
    let mut line = String::from_str("Najm Kernel: SUPERVISOR RESUMED - the ");
    line.append(what);
    line.append(" ended with ");
    line.append(exit.describe().as_str());
    line.append(", and the kernel is still running");
    let mut detail = String::from_str("ended with ");
    detail.append(exit.describe().as_str());
    detail.append(" (");
    detail.append(expected.describe().as_str());
    detail.append(" is the outcome this payload exists to prove)");
    let verdict = check(tally, what, exit == expected, detail.as_str());
    (line, verdict)
}

/// The archive was mounted, with at least the paths that belong in it.
pub fn check_mounted(tally: &mut Tally, paths: usize) -> (line: String)
    ensures
        recorded(
            *old(tally),
            *final(tally),
            line@,
            "boot archive mounted"@,
            paths >= 4,
            text::decimal(paths as nat)
                + " paths in the namespace, including directories synthesized from their children"@,
        ),
{
    let mut detail = String::new();
    push_decimal(&mut detail, paths as u64);
    detail.append(
        " paths in the namespace, including directories synthesized from their children",
    );
    assert(detail@ =~= text::decimal(paths as nat)
        + " paths in the namespace, including directories synthesized from their children"@);
    check(tally, "boot archive mounted", paths >= 4, detail.as_str())
}

/// Whether a text file begins as it should.
pub open spec fn begins_with_greeting(data: Seq<u8>) -> bool {
    data.len() >= 8 && data.subrange(0, 8) == seq![0x4Eu8, 0x61, 0x6A, 0x6D, 0x20, 0x4F, 0x53, 0x3A]
}

/// The greeting can be read, and is what it should be. The contents are
/// checked, not merely that something was read.
pub fn check_greeting(tally: &mut Tally, motd: &Vec<u8>) -> (line: String)
    ensures
        recorded(
            *old(tally),
            *final(tally),
            line@,
            "filesystem read"@,
            begins_with_greeting(motd@),
            "/etc/motd is "@ + text::decimal(motd@.len())
                + " bytes and begins with the expected text"@,
        ),
{
    let good: bool = motd.len() >= 8 && motd[0] == 0x4E && motd[1] == 0x61 && motd[2] == 0x6A
        && motd[3] == 0x6D && motd[4] == 0x20 && motd[5] == 0x4F && motd[6] == 0x53 && motd[7]
        == 0x3A;
    proof {
        if good {
            assert(motd@.subrange(0, 8) =~= seq![0x4Eu8, 0x61, 0x6A, 0x6D, 0x20, 0x4F, 0x53, 0x3A]);
        } else if motd.len() >= 8 {
            assert(motd@.subrange(0, 8)[0] == motd@[0] && motd@.subrange(0, 8)[1] == motd@[1]
                && motd@.subrange(0, 8)[2] == motd@[2] && motd@.subrange(0, 8)[3] == motd@[3]
                && motd@.subrange(0, 8)[4] == motd@[4] && motd@.subrange(0, 8)[5] == motd@[5]
                && motd@.subrange(0, 8)[6] == motd@[6] && motd@.subrange(0, 8)[7] == motd@[7]);
        }
    }
    let mut detail = String::from_str("/etc/motd is ");
    push_decimal(&mut detail, motd.len() as u64);
    detail.append(" bytes and begins with the expected text");
    check(tally, "filesystem read", good, detail.as_str())
}

/// A path that climbs, and one that names nothing, resolve to nothing.
pub fn check_traversal(tally: &mut Tally, fs: &FileSystem) -> (line: String)
    requires
        fs.wf(),
    ensures
        recorded(
            *old(tally),
            *final(tally),
            line@,
            "path traversal refused"@,
            !fs.nodes().dom().contains("/etc/../etc/motd"@) && !fs.nodes().dom().contains(
                "/nonexistent"@,
            ),
            "'/etc/../etc/motd' and '/nonexistent' both resolve to nothing"@,
        ),
{
    let refused: bool = fs::lookup(fs, "/etc/../etc/motd").is_none() && fs::lookup(
        fs,
        "/nonexistent",
    ).is_none();
    check(
        tally,
        "path traversal refused",
        refused,
        "'/etc/../etc/motd' and '/nonexistent' both resolve to nothing",
    )
}

/// The kernel is healthy after programs ran and died: the timer ticks and
/// the heap works.
pub fn check_alive(tally: &mut Tally, before: u64, now: u64, values: &Vec<u32>) -> (line: String)
    ensures
        recorded(
            *old(tally),
            *final(tally),
            line@,
            "kernel alive after Ring 3"@,
            now >= before + 3 && values@ == seq![100u32, 101, 102, 103, 104],
            "timer still ticking ("@ + text::decimal(now as nat) + ") and heap still working ("@
                + number_list(values@) + ") after two user programs ran and died"@,
        ),
{
    let intact: bool = values.len() == 5 && values[0] == 100 && values[1] == 101 && values[2] == 102
        && values[3] == 103 && values[4] == 104;
    proof {
        if intact {
            assert(values@ =~= seq![100u32, 101, 102, 103, 104]);
        }
    }
    let mut detail = String::from_str("timer still ticking (");
    push_decimal(&mut detail, now);
    detail.append(") and heap still working (");
    push_list(&mut detail, values);
    detail.append(") after two user programs ran and died");
    check(
        tally,
        "kernel alive after Ring 3",
        has_elapsed(before, now, 3) && intact,
        detail.as_str(),
    )
}

/// Both instances of a program ended as they should.
pub fn check_concurrent_processes(
    tally: &mut Tally,
    base: u64,
    first: Option<ProgramExit>,
    second: Option<ProgramExit>,
) -> (line: String)
    ensures
        recorded(
            *old(tally),
            *final(tally),
            line@,
            "concurrent processes"@,
            first == Some(ProgramExit::Exited(7)) && second == Some(ProgramExit::Exited(7)),
            "two processes both loaded at 0x"@ + text::hexadecimal(base as nat)
                + " in separate address spaces exited "@ + outcome_text(first) + " and "@
                + outcome_text(second) + " (expected "@ + outcome_text(
                Some(ProgramExit::Exited(7)),
            ) + " each)"@,
        ),
{
    let mut detail = String::from_str("two processes both loaded at 0x");
    push_hexadecimal(&mut detail, base);
    detail.append(" in separate address spaces exited ");
    push_outcome(&mut detail, first);
    detail.append(" and ");
    push_outcome(&mut detail, second);
    detail.append(" (expected ");
    push_outcome(&mut detail, Some(ProgramExit::Exited(7)));
    detail.append(" each)");
    let passed: bool = exited_with(first, 7) && exited_with(second, 7);
    check(tally, "concurrent processes", passed, detail.as_str())
}

/// Whether a process exited with a status.
pub fn exited_with(exit: Option<ProgramExit>, status: u32) -> (r: bool)
    ensures
        r == (exit == Some(ProgramExit::Exited(status))),
{
    match exit {
        Some(exit) => exit == ProgramExit::Exited(status),
        None => false,
    }
}

/// The program that draws ended as it should.
pub fn check_surfaces(tally: &mut Tally, exit: Option<ProgramExit>) -> (line: String)
    ensures
        recorded(
            *old(tally),
            *final(tally),
            line@,
            "compositor surfaces"@,
            exit == Some(ProgramExit::Exited(23)),
            "a Gaming Realm process created a fullscreen surface, drew a frame, had a wrong-sized frame and a surface it does not own both refused, and exited "@
                + outcome_text(exit),
        ),
{
    let mut detail = String::from_str(
        "a Gaming Realm process created a fullscreen surface, drew a frame, had a wrong-sized frame and a surface it does not own both refused, and exited ",
    );
    push_outcome(&mut detail, exit);
    check(tally, "compositor surfaces", exited_with(exit, 23), detail.as_str())
}

/// The program that uses files ended as it should.
pub fn check_file_calls(tally: &mut Tally, exit: Option<ProgramExit>) -> (line: String)
    ensures
        recorded(
            *old(tally),
            *final(tally),
            line@,
            "filesystem syscalls"@,
            exit == Some(ProgramExit::Exited(11)),
            "a second, different binary loaded by path exercised open/read/seek/readdir/stat and every refusal check, exiting "@
                + outcome_text(exit),
        ),
{
    let mut detail = String::from_str(
        "a second, different binary loaded by path exercised open/read/seek/readdir/stat and every refusal check, exiting ",
    );
    push_outcome(&mut detail, exit);
    check(tally, "filesystem syscalls", exited_with(exit, 11), detail.as_str())
}

// ---------------------------------------------------------------------
// Scheduling
// ---------------------------------------------------------------------

/// How long the latency probe runs: longer than it takes for a starving
/// task to be rescued, so that a rescue is part of what is measured.
pub const LATENCY_PROBE_TICKS: u64 = STARVATION_LIMIT_TICKS + 20;

/// How long the spinner holds on to the CPU.
pub const SPIN_TICKS: u64 = 10;

/// What the latency probe has seen: when it last ran, and the longest it
/// was kept from running.
#[derive(Debug, Clone, Copy, PartialEq, Eq, Structural)]
pub struct Probe {
    pub last_seen: u64,
    pub worst_gap: u64,
}

/// The probe looks at the clock.
pub fn observe(probe: &mut Probe, now: u64)
    ensures
        *final(probe) == (if now > old(probe).last_seen {
            Probe {
                last_seen: now,
                worst_gap: if now - old(probe).last_seen > old(probe).worst_gap {
                    (now - old(probe).last_seen) as u64
                } else {
                    old(probe).worst_gap
                },
            }
        } else {
            *old(probe)
        }),
{
    if now > probe.last_seen {
        let gap: u64 = now - probe.last_seen;
        if gap > probe.worst_gap {
            probe.worst_gap = gap;
        }
        probe.last_seen = now;
    }
}

/// Whether a background task goes on: until the probe is done, or for
/// three times as long as it should take.
pub fn hog_goes_on(probe_done: bool, started: u64, now: u64) -> (r: bool)
    ensures
        r == (!probe_done && now < started + LATENCY_PROBE_TICKS * 3),
{
    !probe_done && !has_elapsed(started, now, LATENCY_PROBE_TICKS * 3)
}

/// The realtime task was never kept waiting for longer than allowed.
pub fn check_latency(tally: &mut Tally, worst_gap: u64) -> (line: String)
    requires
        worst_gap * 1000 <= u64::MAX,
    ensures
        recorded(
            *old(tally),
            *final(tally),
            line@,
            "realtime latency budget"@,
            worst_gap <= REALTIME_LATENCY_BUDGET_TICKS,
            "the realtime task's worst wait between turns was "@ + text::decimal(worst_gap as nat)
                + " tick(s) ("@ + text::decimal((worst_gap * 1000 / TIMER_HZ as int) as nat)
                + " ms) against a budget of "@ + text::decimal(
                REALTIME_LATENCY_BUDGET_TICKS as nat,
            ) + " ("@ + text::decimal(
                (REALTIME_LATENCY_BUDGET_TICKS * 1000 / TIMER_HZ as int) as nat,
            )
                + " ms), while three background tasks spun without yielding and a Gaming Realm process shared the realtime class"@,
        ),
{
    let mut detail = String::from_str("the realtime task's worst wait between turns was ");
    push_decimal(&mut detail, worst_gap);
    detail.append(" tick(s) (");
    push_decimal(&mut detail, worst_gap * 1000 / TIMER_HZ);
    detail.append(" ms) against a budget of ");
    push_decimal(&mut detail, REALTIME_LATENCY_BUDGET_TICKS);
    detail.append(" (");
    push_decimal(&mut detail, REALTIME_LATENCY_BUDGET_TICKS * 1000 / TIMER_HZ);
    detail.append(
        " ms), while three background tasks spun without yielding and a Gaming Realm process shared the realtime class",
    );
    check(
        tally,
        "realtime latency budget",
        worst_gap <= REALTIME_LATENCY_BUDGET_TICKS,
        detail.as_str(),
    )
}

/// A name set to the right in a field of ten characters.
pub open spec fn aligned(name: Seq<char>) -> Seq<char> {
    if name.len() >= 10 {
        name
    } else {
        Seq::new((10 - name.len()) as nat, |i: int| ' ') + name
    }
}

fn push_aligned(out: &mut String, name: &str)
    ensures
        final(out)@ == old(out)@ + aligned(name@),
{
    let n: usize = name.unicode_len();
    let ghost before = out@;
    let mut i: usize = n;
    assert(out@ =~= before + Seq::new(0, |k: int| ' '));
    while i < 10
        invariant
            n <= i,
            i <= 10 || i == n,
            out@ == before + Seq::new((i - n) as nat, |k: int| ' '),
        decreases 10 - i,
    {
        out.push(' ');
        i += 1;
        assert(out@ =~= before + Seq::new((i - n) as nat, |k: int| ' '));
    }
    out.append(name);
    assert(out@ =~= before + aligned(name@));
}

/// The line about a scheduling class.
pub fn class_line(class: SchedClass, stats: &ClassStats) -> (line: String)
    ensures
        line@ == "Najm Kernel: scheduler class "@ + aligned(class.spec_name()@) + " - "@
            + text::decimal(stats.dispatches as nat) + " dispatches, worst wait "@ + text::decimal(
            stats.max_wait_ticks as nat,
        ) + " tick(s), "@ + text::decimal(stats.promotions as nat)
            + " anti-starvation promotions"@,
{
    let mut line = String::from_str("Najm Kernel: scheduler class ");
    push_aligned(&mut line, class.name());
    line.append(" - ");
    push_decimal(&mut line, stats.dispatches);
    line.append(" dispatches, worst wait ");
    push_decimal(&mut line, stats.max_wait_ticks);
    line.append(" tick(s), ");
    push_decimal(&mut line, stats.promotions);
    line.append(" anti-starvation promotions");
    line
}

/// Background work was rescued, not frozen out.
pub fn check_starvation(tally: &mut Tally, background: &ClassStats) -> (line: String)
    ensures
        recorded(
            *old(tally),
            *final(tally),
            line@,
            "background work is not starved"@,
            background.promotions > 0 && background.dispatches > 0,
            "background tasks were promoted past the realtime task "@ + text::decimal(
                background.promotions as nat,
            ) + " time(s) after waiting, and ran "@ + text::decimal(background.dispatches as nat)
                + " time(s) in total - deprioritized without being frozen"@,
        ),
{
    let mut detail = String::from_str("background tasks were promoted past the realtime task ");
    push_decimal(&mut detail, background.promotions);
    detail.append(" time(s) after waiting, and ran ");
    push_decimal(&mut detail, background.dispatches);
    detail.append(" time(s) in total - deprioritized without being frozen");
    check(
        tally,
        "background work is not starved",
        background.promotions > 0 && background.dispatches > 0,
        detail.as_str(),
    )
}

/// The timer took the CPU away from user programs.
pub fn check_ring3_preemption(tally: &mut Tally, preemptions: u64) -> (line: String)
    ensures
        recorded(
            *old(tally),
            *final(tally),
            line@,
            "Ring 3 preemption"@,
            preemptions > 0,
            "the timer took the CPU away from a program executing at Ring 3 "@ + text::decimal(
                preemptions as nat,
            ) + " times"@,
        ),
{
    let mut detail = String::from_str(
        "the timer took the CPU away from a program executing at Ring 3 ",
    );
    push_decimal(&mut detail, preemptions);
    detail.append(" times");
    check(tally, "Ring 3 preemption", preemptions > 0, detail.as_str())
}

/// The memory of processes that ended came back.
pub fn check_reclaimed(tally: &mut Tally, before: usize, after: usize) -> (line: String)
    ensures
        recorded(
            *old(tally),
            *final(tally),
            line@,
            "process memory reclaimed"@,
            after > before,
            "the frame pool went from "@ + text::decimal(before as nat) + " free frames to "@
                + text::decimal(after as nat)
                + " after both processes exited - their pages, stacks and page tables were all returned"@,
        ),
{
    let mut detail = String::from_str("the frame pool went from ");
    push_decimal(&mut detail, before as u64);
    detail.append(" free frames to ");
    push_decimal(&mut detail, after as u64);
    detail.append(
        " after both processes exited - their pages, stacks and page tables were all returned",
    );
    check(tally, "process memory reclaimed", after > before, detail.as_str())
}

/// What a test task says each time it runs, and how often a task has now
/// been seen running while one that never yields held the CPU.
pub fn note_scheduled(who: &str, iteration: u32, spinner_active: bool, observed: u32) -> (r: (
    String,
    u32,
))
    ensures
        r.0@ == "["@ + who@ + "] iteration "@ + text::decimal(iteration as nat) + (
        if spinner_active {
            " (running while the spinner never yielded - this line is preemption)"@
        } else {
            Seq::empty()
        }),
        r.1 == (if spinner_active {
            selftest::one_more(observed)
        } else {
            observed
        }),
{
    let mut line = String::from_str("[");
    line.append(who);
    line.append("] iteration ");
    push_decimal(&mut line, iteration as u64);
    let ghost head = line@;
    assert(head + Seq::<char>::empty() =~= head);
    if spinner_active {
        line.append(" (running while the spinner never yielded - this line is preemption)");
        (line, observed.wrapping_add(1))
    } else {
        (line, observed)
    }
}

/// A task that never yields was preempted.
pub fn check_preemption(tally: &mut Tally, observed: u32) -> (line: String)
    ensures
        recorded(
            *old(tally),
            *final(tally),
            line@,
            "preemption"@,
            observed > 0,
            text::decimal(observed as nat)
                + " task iterations ran while a task that never calls yield_now() held the CPU"@,
        ),
{
    let mut detail = String::new();
    push_decimal(&mut detail, observed as u64);
    detail.append(" task iterations ran while a task that never calls yield_now() held the CPU");
    assert(detail@ =~= text::decimal(observed as nat)
        + " task iterations ran while a task that never calls yield_now() held the CPU"@);
    check(tally, "preemption", observed > 0, detail.as_str())
}

/// Every task ran to its end.
pub fn check_drained(tally: &mut Tally, tasks: usize) -> (line: String)
    ensures
        recorded(
            *old(tally),
            *final(tally),
            line@,
            "scheduler drained"@,
            tasks == 0,
            "every spawned task ran to completion and exited; "@ + text::decimal(tasks as nat)
                + " remain queued"@,
        ),
{
    let mut detail = String::from_str("every spawned task ran to completion and exited; ");
    push_decimal(&mut detail, tasks as u64);
    detail.append(" remain queued");
    check(tally, "scheduler drained", tasks == 0, detail.as_str())
}

// ---------------------------------------------------------------------
// The trusted path
// ---------------------------------------------------------------------

/// No surface reaches into the strip.
pub fn check_strip(tally: &mut Tally, overlaps: bool, height: usize) -> (line: String)
    ensures
        recorded(
            *old(tally),
            *final(tally),
            line@,
            "trust bar is unreachable by any surface"@,
            !overlaps,
            "no surface's placement intersects the top "@ + text::decimal(height as nat)
                + " pixels, which the compositor reserves for the Core-drawn trust indicator"@,
        ),
{
    let mut detail = String::from_str("no surface's placement intersects the top ");
    push_decimal(&mut detail, height as u64);
    detail.append(" pixels, which the compositor reserves for the Core-drawn trust indicator");
    check(tally, "trust bar is unreachable by any surface", !overlaps, detail.as_str())
}

/// Two channels are the same, as far as hardware with fewer bits can tell.
pub open spec fn channels_are_close(a: u8, b: u8) -> bool {
    -8 <= a - b <= 8
}

/// A pixel that was read back is the colour that was drawn.
pub open spec fn pixel_matches(pixel: Option<(u8, u8, u8)>, expected: Colour) -> bool {
    match pixel {
        Some((r, g, b)) => channels_are_close(r, expected.r) && channels_are_close(g, expected.g)
            && channels_are_close(b, expected.b),
        None => false,
    }
}

fn close(a: u8, b: u8) -> (r: bool)
    ensures
        r == channels_are_close(a, b),
{
    if a >= b {
        a - b <= 8
    } else {
        b - a <= 8
    }
}

/// The first block from `i` on whose pixel does not match, or the number
/// of blocks.
pub open spec fn first_mismatch(
    pixels: Seq<Option<(u8, u8, u8)>>,
    expected: Seq<Colour>,
    i: int,
) -> int
    decreases expected.len() - i,
{
    if 0 <= i < expected.len() && pixel_matches(pixels[i], expected[i]) {
        first_mismatch(pixels, expected, i + 1)
    } else {
        i
    }
}

/// The block that is reported as not matching: one that was read, or zero.
pub open spec fn reported_mismatch(
    pixels: Seq<Option<(u8, u8, u8)>>,
    expected: Seq<Colour>,
) -> int {
    let i = first_mismatch(pixels, expected, 0);
    if i < expected.len() && pixels[i] is Some {
        i
    } else {
        0
    }
}

/// Every block of the signature is on the screen as the kernel made it.
/// What is compared is what was read back from the framebuffer.
pub fn check_signature(
    tally: &mut Tally,
    pixels: &Vec<Option<(u8, u8, u8)>>,
    signature: &[Colour; 6],
) -> (line: String)
    requires
        pixels@.len() == 6,
    ensures
        recorded(
            *old(tally),
            *final(tally),
            line@,
            "trust bar signature is drawn from Core state"@,
            first_mismatch(pixels@, signature@, 0) == 6,
            "all "@ + text::decimal(6)
                + " per-boot signature blocks read back from the framebuffer match the values the kernel generated (first mismatch at block "@
                + text::decimal(reported_mismatch(pixels@, signature@) as nat) + ")"@,
        ),
{
    let mut i: usize = 0;
    let mut matches: bool = true;
    let mut mismatch: u64 = 0;
    while matches && i < 6
        invariant
            i <= 6,
            pixels@.len() == 6,
            matches ==> mismatch == 0 && first_mismatch(pixels@, signature@, 0) == first_mismatch(
                pixels@,
                signature@,
                i as int,
            ),
            !matches ==> first_mismatch(pixels@, signature@, 0) < 6 && mismatch
                == reported_mismatch(pixels@, signature@),
        decreases
                (if matches {
                    7 - i
                } else {
                    0
                }),
    {
        let expected: Colour = signature[i];
        match pixels[i] {
            Some((r, g, b)) => {
                if close(r, expected.r) && close(g, expected.g) && close(b, expected.b) {
                    i += 1;
                } else {
                    matches = false;
                    mismatch = i as u64;
                }
            },
            None => {
                matches = false;
            },
        }
    }
    let mut detail = String::from_str("all ");
    push_decimal(&mut detail, 6);
    detail.append(
        " per-boot signature blocks read back from the framebuffer match the values the kernel generated (first mismatch at block ",
    );
    push_decimal(&mut detail, mismatch);
    detail.append(")");
    check(tally, "trust bar signature is drawn from Core state", matches, detail.as_str())
}

// ---------------------------------------------------------------------
// The end of a boot
// ---------------------------------------------------------------------

/// What is reported at the end, and the verdict for whoever launched the
/// machine.
#[derive(Debug)]
pub struct Epilogue {
    pub compositor: String,
    pub input: String,
    pub calls: String,
    pub memory: String,
    pub summary: String,
    pub code: ExitCode,
}

/// What was counted during a boot.
#[derive(Debug, Clone, Copy)]
pub struct Totals {
    /// Surfaces, frames and refused commits.
    pub graphics: (usize, u64, u64),
    /// Queued and dropped events.
    pub events: (usize, u64),
    pub pointer: (u64, u64),
    pub calls: u64,
    pub ticks: u64,
    /// Bytes of heap in use and free.
    pub heap: (usize, usize),
    /// Kernel stacks live, ever used, and in all.
    pub stacks: (u64, u64, u64),
}

/// Reports the totals and the verdict.
pub fn epilogue(totals: &Totals, tally: &Tally) -> (r: Epilogue)
    requires
        totals.ticks * 1000 <= u64::MAX,
    ensures
        r.compositor@ == "Najm Kernel: compositor - "@ + text::decimal(totals.graphics.0 as nat)
            + " surface(s) live, "@ + text::decimal(totals.graphics.1 as nat)
            + " frame(s) presented, "@ + text::decimal(totals.graphics.2 as nat)
            + " commit(s) rejected"@,
        r.input@ == "Najm Kernel: input - "@ + text::decimal(totals.events.0 as nat)
            + " event(s) queued, "@ + text::decimal(totals.events.1 as nat)
            + " dropped, pointer at ("@ + text::decimal(totals.pointer.0 as nat) + ", "@
            + text::decimal(totals.pointer.1 as nat) + ")"@,
        r.calls@ == "Najm Kernel: "@ + text::decimal(totals.calls as nat)
            + " syscalls dispatched, "@ + text::decimal(totals.ticks as nat) + " timer ticks ("@
            + text::decimal((totals.ticks * 1000 / TIMER_HZ as int) as nat) + " ms of uptime)"@,
        r.memory@ == "Najm Kernel: heap at end of boot - "@ + text::decimal(
            (totals.heap.0 / 1024) as nat,
        ) + " KiB used, "@ + text::decimal((totals.heap.1 / 1024) as nat)
            + " KiB free; kernel stacks - "@ + text::decimal(totals.stacks.0 as nat) + " live, "@
            + text::decimal(totals.stacks.1 as nat) + " slots ever used of "@ + text::decimal(
            totals.stacks.2 as nat,
        ),
        r.summary@ == selftest::summary(*tally),
        r.code == (if tally.failed == 0 {
            ExitCode::Success
        } else {
            ExitCode::Failed
        }),
{
    let mut compositor = String::from_str("Najm Kernel: compositor - ");
    push_decimal(&mut compositor, totals.graphics.0 as u64);
    compositor.append(" surface(s) live, ");
    push_decimal(&mut compositor, totals.graphics.1);
    compositor.append(" frame(s) presented, ");
    push_decimal(&mut compositor, totals.graphics.2);
    compositor.append(" commit(s) rejected");
    let mut input = String::from_str("Najm Kernel: input - ");
    push_decimal(&mut input, totals.events.0 as u64);
    input.append(" event(s) queued, ");
    push_decimal(&mut input, totals.events.1);
    input.append(" dropped, pointer at (");
    push_decimal(&mut input, totals.pointer.0);
    input.append(", ");
    push_decimal(&mut input, totals.pointer.1);
    input.append(")");
    let mut calls = String::from_str("Najm Kernel: ");
    push_decimal(&mut calls, totals.calls);
    calls.append(" syscalls dispatched, ");
    push_decimal(&mut calls, totals.ticks);
    calls.append(" timer ticks (");
    push_decimal(&mut calls, totals.ticks * 1000 / TIMER_HZ);
    calls.append(" ms of uptime)");
    let mut memory = String::from_str("Najm Kernel: heap at end of boot - ");
    push_decimal(&mut memory, (totals.heap.0 / 1024) as u64);
    memory.append(" KiB used, ");
    push_decimal(&mut memory, (totals.heap.1 / 1024) as u64);
    memory.append(" KiB free; kernel stacks - ");
    push_decimal(&mut memory, totals.stacks.0);
    memory.append(" live, ");
    push_decimal(&mut memory, totals.stacks.1);
    memory.append(" slots ever used of ");
    push_decimal(&mut memory, totals.stacks.2);
    let (summary, all_passed) = selftest::report(tally);
    Epilogue {
        compositor,
        input,
        calls,
        memory,
        summary,
        code: if all_passed {
            ExitCode::Success
        } else {
            ExitCode::Failed
        },
    }
}

// ---------------------------------------------------------------------
// Laws
// ---------------------------------------------------------------------

/// A check is recorded exactly as it came out: one more of the kind that it
/// was, and a line that says so.
pub proof fn law_checks_are_recorded(
    before: Tally,
    after: Tally,
    line: Seq<char>,
    name: Seq<char>,
    passed: bool,
    detail: Seq<char>,
)
    requires
        recorded(before, after, line, name, passed, detail),
        before.passed < u32::MAX,
        before.failed < u32::MAX,
    ensures
        passed ==> after.passed == before.passed + 1 && after.failed == before.failed,
        !passed ==> after.failed == before.failed + 1 && after.passed == before.passed,
        line == selftest::check_line(name, passed, detail),
{
}

/// The heap's check passes on the first ten squares and on nothing else.
pub proof fn law_heap_check_wants_the_squares(values: Seq<u32>)
    ensures
        are_squares(values) <==> values.len() == 10 && (forall|i: int|
            0 <= i < 10 ==> #[trigger] values[i] == i * i),
{
    let squares = seq![0u32, 1, 4, 9, 16, 25, 36, 49, 64, 81];
    assert forall|i: int| 0 <= i < 10 implies #[trigger] squares[i] == i * i by {
        assert(i == 0 || i == 1 || i == 2 || i == 3 || i == 4 || i == 5 || i == 6 || i == 7 || i
            == 8 || i == 9);
    }
    if values.len() == 10 && (forall|i: int| 0 <= i < 10 ==> #[trigger] values[i] == i * i) {
        assert(values =~= squares);
    }
}

/// A greeting is what begins with the letters `Najm OS:`.
pub proof fn law_greetings_begin_with_the_name(data: Seq<u8>, rest: Seq<u8>)
    ensures
        begins_with_greeting(
            seq!['N' as u8, 'a' as u8, 'j' as u8, 'm' as u8, ' ' as u8, 'O' as u8, 'S' as u8, ':' as u8]
                + rest,
        ),
        begins_with_greeting(data) ==> data.len() >= 8 && data[0] == 'N' as u8 && data[1]
            == 'a' as u8 && data[2] == 'j' as u8 && data[3] == 'm' as u8 && data[4] == ' ' as u8
            && data[5] == 'O' as u8 && data[6] == 'S' as u8 && data[7] == ':' as u8,
{
    let name = seq![
        'N' as u8,
        'a' as u8,
        'j' as u8,
        'm' as u8,
        ' ' as u8,
        'O' as u8,
        'S' as u8,
        ':' as u8,
    ];
    assert((name + rest).subrange(0, 8) =~= seq![
        0x4Eu8,
        0x61,
        0x6A,
        0x6D,
        0x20,
        0x4F,
        0x53,
        0x3A,
    ]);
    if begins_with_greeting(data) {
        let s = data.subrange(0, 8);
        assert(s[0] == data[0] && s[1] == data[1] && s[2] == data[2] && s[3] == data[3] && s[4]
            == data[4] && s[5] == data[5] && s[6] == data[6] && s[7] == data[7]);
    }
}

/// The signature's check passes exactly where every block that was read back
/// has its colour, each channel no more than eight off.
pub proof fn law_signature_check_looks_at_every_block(
    pixels: Seq<Option<(u8, u8, u8)>>,
    expected: Seq<Colour>,
    i: int,
)
    requires
        0 <= i <= expected.len(),
    ensures
        i <= first_mismatch(pixels, expected, i) <= expected.len(),
        first_mismatch(pixels, expected, i) == expected.len() <==> (forall|k: int|
            i <= k < expected.len() ==> ((#[trigger] pixels[k]) matches Some(p) && {
                &&& -8 <= p.0 - expected[k].r <= 8
                &&& -8 <= p.1 - expected[k].g <= 8
                &&& -8 <= p.2 - expected[k].b <= 8
            })),
    decreases expected.len() - i,
{
    if i < expected.len() {
        if pixel_matches(pixels[i], expected[i]) {
            law_signature_check_looks_at_every_block(pixels, expected, i + 1);
        }
    }
}

/// The line about a program that ended says which it was, and how it ended.
pub proof fn law_program_ends_are_told(what: Seq<char>, exit: ProgramExit)
    ensures
        text::says(
            resumed_line(what, exit),
            seq![
                what,
                exit.text(),
            ],
        ),
{
    let none = Seq::<Seq<char>>::empty();
    let start = "Najm Kernel: SUPERVISOR RESUMED - the "@;
    text::lemma_says(start, none, what, " ended with "@);
    let line1 = start + what + " ended with "@;
    let parts1 = none.push(what);
    text::lemma_says(line1, parts1, exit.text(), ", and the kernel is still running"@);
    let line2 = line1 + exit.text() + ", and the kernel is still running"@;
    let parts2 = parts1.push(exit.text());
    assert(parts2 =~= seq![what, exit.text()]);
    assert(resumed_line(what, exit) =~= line2);
}

/// A list of numbers says each of them, in order, between brackets.
pub proof fn law_lists_are_written(values: Seq<u32>, n: int)
    requires
        0 <= n <= values.len(),
    ensures
        number_list(values).len() >= 2,
        number_list(values)[0] == '[',
        number_list(values)[number_list(values).len() - 1] == ']',
        list_from(values, n) == (if n == values.len() {
            seq![']']
        } else {
            (if n == 0 {
                Seq::<char>::empty()
            } else {
                seq![',', ' ']
            }) + text::decimal(values[n] as nat) + list_from(values, n + 1)
        }),
{
    reveal_strlit("[");
    reveal_strlit("]");
    reveal_strlit(", ");
    assert("]"@ =~= seq![']']);
    assert(", "@ =~= seq![',', ' ']);
    lemma_list_ends(values, 0);
    if n == 0 && values.len() > 0 {
        let empty = Seq::<char>::empty();
        let first = text::decimal(values[0] as nat);
        assert(empty + first + list_from(values, 1) =~= first + list_from(values, 1));
    }
}

proof fn lemma_list_ends(values: Seq<u32>, i: int)
    requires
        0 <= i <= values.len(),
    ensures
        list_from(values, i).len() > 0,
        list_from(values, i).last() == ']',
    decreases values.len() - i,
{
    reveal_strlit("]");
    if i < values.len() {
        lemma_list_ends(values, i + 1);
    }
}

/// A name is written to the right of a column of ten characters, with spaces
/// before it, or as it is where it is longer.
pub proof fn law_names_are_aligned(name: Seq<char>, i: int)
    ensures
        name.len() >= 10 ==> aligned(name) == name,
        name.len() < 10 ==> {
            &&& aligned(name).len() == 10
            &&& aligned(name).subrange(10 - name.len(), 10) == name
            &&& 0 <= i < 10 - name.len() ==> aligned(name)[i] == ' '
        },
{
    if name.len() < 10 {
        assert(aligned(name).subrange(10 - name.len(), 10) =~= name);
    }
}

/// The seconds of a clock are those since the epoch, and none for a time
/// before it or where there is no time.
pub proof fn law_clock_seconds(t: DateTime)
    ensures
        clock_seconds(None) == 0,
        rtc::seconds_since_epoch(t) >= 0 ==> clock_seconds(Some(t)) == rtc::seconds_since_epoch(t),
        rtc::seconds_since_epoch(t) < 0 ==> clock_seconds(Some(t)) == 0,
{
}

/// The block that is named is the first that does not have its colour, if it
/// could be read at all.
pub proof fn law_first_wrong_block_is_named(
    pixels: Seq<Option<(u8, u8, u8)>>,
    expected: Seq<Colour>,
    k: int,
)
    requires
        0 <= k < expected.len(),
        pixels[k] is Some,
        !pixel_matches(pixels[k], expected[k]),
        forall|i: int| 0 <= i < k ==> pixel_matches(#[trigger] pixels[i], expected[i]),
    ensures
        reported_mismatch(pixels, expected) == k,
{
    lemma_first_mismatch(pixels, expected, 0, k);
}

proof fn lemma_first_mismatch(
    pixels: Seq<Option<(u8, u8, u8)>>,
    expected: Seq<Colour>,
    i: int,
    k: int,
)
    requires
        0 <= i <= k < expected.len(),
        !pixel_matches(pixels[k], expected[k]),
        forall|j: int| 0 <= j < k ==> pixel_matches(#[trigger] pixels[j], expected[j]),
    ensures
        first_mismatch(pixels, expected, i) == k,
    decreases k - i,
{
    if i < k {
        assert(pixel_matches(pixels[i], expected[i]));
        lemma_first_mismatch(pixels, expected, i + 1, k);
    }
}

} // verus!
