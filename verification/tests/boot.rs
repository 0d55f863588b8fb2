use najm_kernel::arch::x86_64::cpu::Features;
use najm_kernel::arch::x86_64::interrupts::Clock;
use najm_kernel::arch::x86_64::usermode::ProgramExit;
use najm_kernel::boot::{
    check_address_split, check_alive, check_capabilities, check_concurrent_processes,
    check_drained, check_file_calls, check_greeting, check_guard_page, check_heap, check_latency,
    check_mounted, check_nx, check_pci, check_preemption, check_reclaimed, check_ring3_preemption,
    check_signature, check_starvation, check_strip, check_surfaces, check_timer, check_traversal,
    check_wall_clock, class_line, epilogue, exited_with, has_elapsed, hog_goes_on, load_theme,
    note_scheduled, observe, process_line, report_program_exit, Probe, Totals,
    LATENCY_PROBE_TICKS,
};
use najm_kernel::drivers::qemu::ExitCode;
use najm_kernel::drivers::rtc::DateTime;
use najm_kernel::fs::{FileSystem, Node};
use najm_kernel::graphics::framebuffer::Colour;
use najm_kernel::graphics::theme::Theme;
use najm_kernel::process::ProcessState;
use najm_kernel::sched::class::{ClassStats, SchedClass};
use najm_kernel::security::capability::Registry;
use najm_kernel::selftest::{check, check_eq, failures, report, Tally};

/// Whether a check passes, and what it reports.
fn outcome(run: impl Fn(&mut Tally) -> String) -> (bool, String) {
    let mut tally = Tally::new();
    let line = run(&mut tally);
    assert_eq!(tally.passed + tally.failed, 1);
    assert_eq!(line.starts_with("[ ok ] "), tally.passed == 1);
    assert_eq!(line.contains("FAILURE"), tally.failed == 1);
    (tally.passed == 1, line)
}

#[test]
fn checks_are_counted_and_reported() {
    let mut tally = Tally::new();
    assert_eq!(check(&mut tally, "a", true, "fine"), "[ ok ] a - fine");
    assert_eq!(check_eq(&mut tally, "b", 4, 4), "[ ok ] b - 4 as expected");
    assert_eq!(report(&tally).1, true);
    assert_eq!(check(&mut tally, "c", false, "odd"), "[FAIL] c - FAILURE: odd");
    assert_eq!(check_eq(&mut tally, "d", 4, 5), "[FAIL] d - FAILURE: expected 5, got 4");
    assert_eq!(failures(&tally), 2);
    for _ in 0..10 {
        check(&mut tally, "e", true, "");
    }
    let (line, passed) = report(&tally);
    assert!(!passed);
    assert_eq!(line, "Najm Kernel: SELF-TEST SUMMARY - 12 passed, 2 failed, 14 total");
}

#[test]
fn the_clock_has_to_move() {
    assert!(has_elapsed(5, 8, 3));
    assert!(!has_elapsed(5, 7, 3));
    assert!(!has_elapsed(5, 2, 0));
    assert!(!has_elapsed(u64::MAX, u64::MAX, 1));
    assert_eq!(
        outcome(|t| check_timer(t, 3, 4)),
        (true, String::from("[ ok ] timer IRQ - tick counter advanced from 3 to 4"))
    );
    assert!(!outcome(|t| check_timer(t, 4, 4)).0);
}

#[test]
fn the_heap_has_to_read_back() {
    let squares: Vec<u32> = (0..10).map(|i| i * i).collect();
    assert_eq!(
        outcome(|t| check_heap(t, &squares)),
        (
            true,
            String::from(
                "[ ok ] kernel heap - allocated and read back [0, 1, 4, 9, 16, 25, 36, 49, 64, 81]"
            )
        )
    );
    assert!(!outcome(|t| check_heap(t, &vec![])).0);
    let mut wrong = squares.clone();
    wrong[9] = 80;
    assert!(!outcome(|t| check_heap(t, &wrong)).0);
}

#[test]
fn the_machine_has_to_be_set_up() {
    assert!(outcome(|t| check_address_split(t, 0, 3)).0);
    assert!(!outcome(|t| check_address_split(t, 1, 3)).0);
    assert!(!outcome(|t| check_address_split(t, 0, 0)).0);
    let features = Features { nx: true, smep: false, smap: true, umip: false };
    let (passed, line) = outcome(|t| check_nx(t, &features));
    assert!(passed);
    assert_eq!(
        line,
        "[ ok ] NX support - execute-disable is enabled - SMEP false, SMAP true, UMIP false"
    );
    assert!(!outcome(|t| check_nx(t, &Features::default())).0);
    assert!(outcome(|t| check_guard_page(t, true, 0xabc000)).1.contains("(0xabc000)"));
    assert!(!outcome(|t| check_guard_page(t, false, 0)).0);
    assert!(outcome(|t| check_pci(t, 1)).0);
    assert!(!outcome(|t| check_pci(t, 0)).0);
    let t0 = DateTime { year: 1970, month: 1, day: 1, hour: 0, minute: 1, second: 1 };
    assert_eq!(
        outcome(|t| check_wall_clock(t, Some(t0))).1,
        "[ ok ] wall clock - the RTC reports 61 seconds since the Unix epoch"
    );
    assert!(!outcome(|t| check_wall_clock(t, None)).0);
}

#[test]
fn capabilities_are_issued_used_and_revoked() {
    let mut tally = Tally::new();
    let mut registry = Registry::new();
    let clock = Clock { ticks: 12, ring3_preemptions: 0 };
    let test = check_capabilities(&mut tally, &mut registry, &clock);
    assert_eq!((tally.passed, tally.failed), (3, 0));
    assert_eq!(test.written.unwrap(), b"Najm Kernel: capability-gated write succeeded\n");
    assert!(test.leaked.is_none());
    assert_eq!(
        test.lines[1],
        "[ ok ] capability grant (TimerRead) - a freshly issued token read the tick counter: Some(12)"
    );
}

#[test]
fn a_theme_comes_from_the_archive() {
    let data = b"desktop = #010203\nbad\n";
    let mut fs = FileSystem::unmounted(data);
    assert_eq!(
        load_theme(&fs),
        (
            Theme::default(),
            String::from("Najm Kernel: no /etc/theme.conf, using the built-in theme")
        )
    );
    let node = Node { offset: 0, len: data.len(), is_directory: false };
    assert!(fs.insert(String::from("/etc/theme.conf"), node));
    let (theme, line) = load_theme(&fs);
    assert_eq!(theme.desktop, Colour::rgb(1, 2, 3));
    assert_eq!(
        line,
        "Najm Kernel: theme loaded from /etc/theme.conf - 1 setting(s) applied, 1 line(s) rejected"
    );
}

#[test]
fn programs_have_to_end_as_expected() {
    let mut tally = Tally::new();
    let (line, verdict) =
        report_program_exit(&mut tally, "probe", ProgramExit::PageFault, ProgramExit::PageFault);
    assert_eq!(
        line,
        "Najm Kernel: SUPERVISOR RESUMED - the probe ended with PageFault, and the kernel is still running"
    );
    assert_eq!(
        verdict,
        "[ ok ] probe - ended with PageFault (PageFault is the outcome this payload exists to prove)"
    );
    report_program_exit(&mut tally, "probe", ProgramExit::Exited(0), ProgramExit::PageFault);
    assert_eq!((tally.passed, tally.failed), (1, 1));
    let seven = Some(ProgramExit::Exited(7));
    assert!(exited_with(seven, 7));
    assert!(!exited_with(seven, 8));
    assert!(!exited_with(None, 7));
    let (passed, line) = outcome(|t| check_concurrent_processes(t, 0x40_0000, seven, seven));
    assert!(passed);
    assert!(line.ends_with("exited Some(Exited(7)) and Some(Exited(7)) (expected Some(Exited(7)) each)"));
    assert!(!outcome(|t| check_concurrent_processes(t, 0, seven, None)).0);
    assert!(outcome(|t| check_surfaces(t, Some(ProgramExit::Exited(23)))).0);
    assert!(!outcome(|t| check_surfaces(t, seven)).0);
    assert!(outcome(|t| check_file_calls(t, Some(ProgramExit::Exited(11)))).0);
    assert!(outcome(|t| check_file_calls(t, None)).1.ends_with("exiting None"));
    assert_eq!(
        process_line(3, "gui", ProcessState::Exited(ProgramExit::PageFault)),
        "Najm Kernel: process 3 (gui) - Exited(PageFault)"
    );
    assert_eq!(process_line(1, "a", ProcessState::Running), "Najm Kernel: process 1 (a) - Running");
}

#[test]
fn the_archive_has_to_be_usable() {
    assert!(outcome(|t| check_mounted(t, 4)).0);
    assert!(!outcome(|t| check_mounted(t, 3)).0);
    assert!(outcome(|t| check_greeting(t, &b"Najm OS: hi".to_vec())).0);
    assert!(!outcome(|t| check_greeting(t, &b"Najm OS".to_vec())).0);
    assert!(!outcome(|t| check_greeting(t, &b"najm OS: hi".to_vec())).0);
    let mut fs = FileSystem::unmounted(b"");
    assert!(outcome(|t| check_traversal(t, &fs)).0);
    let node = Node { offset: 0, len: 0, is_directory: false };
    fs.insert(String::from("/nonexistent"), node);
    assert!(!outcome(|t| check_traversal(t, &fs)).0);
    let values = vec![100, 101, 102, 103, 104];
    assert!(outcome(|t| check_alive(t, 10, 13, &values)).0);
    assert!(!outcome(|t| check_alive(t, 10, 12, &values)).0);
    assert!(!outcome(|t| check_alive(t, 10, 13, &vec![100])).0);
}

#[test]
fn scheduling_is_measured() {
    let mut probe = Probe { last_seen: 10, worst_gap: 0 };
    for now in [11, 11, 14, 15] {
        observe(&mut probe, now);
    }
    assert_eq!(probe, Probe { last_seen: 15, worst_gap: 3 });
    assert!(hog_goes_on(false, 0, LATENCY_PROBE_TICKS * 3 - 1));
    assert!(!hog_goes_on(false, 0, LATENCY_PROBE_TICKS * 3));
    assert!(!hog_goes_on(true, 0, 0));
    let (passed, line) = outcome(|t| check_latency(t, 3));
    assert!(passed);
    assert!(line.contains("was 3 tick(s) (30 ms) against a budget of 3 (30 ms)"));
    assert!(!outcome(|t| check_latency(t, 4)).0);
    let stats = ClassStats { dispatches: 5, max_wait_ticks: 7, promotions: 2 };
    assert_eq!(
        class_line(SchedClass::Normal, &stats),
        "Najm Kernel: scheduler class     normal - 5 dispatches, worst wait 7 tick(s), 2 anti-starvation promotions"
    );
    assert_eq!(
        class_line(SchedClass::Background, &stats),
        "Najm Kernel: scheduler class background - 5 dispatches, worst wait 7 tick(s), 2 anti-starvation promotions"
    );
    assert!(outcome(|t| check_starvation(t, &stats)).0);
    let frozen = ClassStats { promotions: 0, ..stats };
    assert!(!outcome(|t| check_starvation(t, &frozen)).0);
    assert!(outcome(|t| check_ring3_preemption(t, 1)).0);
    assert!(!outcome(|t| check_ring3_preemption(t, 0)).0);
    assert!(outcome(|t| check_reclaimed(t, 4, 5)).0);
    assert!(!outcome(|t| check_reclaimed(t, 5, 5)).0);
    assert!(outcome(|t| check_preemption(t, 1)).0);
    assert!(!outcome(|t| check_preemption(t, 0)).0);
    assert!(outcome(|t| check_drained(t, 0)).0);
    assert!(!outcome(|t| check_drained(t, 2)).0);
    assert_eq!(note_scheduled("task A", 2, false, 3), (String::from("[task A] iteration 2"), 3));
    assert_eq!(
        note_scheduled("task B", 0, true, 3),
        (
            String::from(
                "[task B] iteration 0 (running while the spinner never yielded - this line is preemption)"
            ),
            4
        )
    );
}

#[test]
fn the_strip_has_to_be_the_kernels() {
    assert!(outcome(|t| check_strip(t, false, 20)).1.contains("the top 20 pixels"));
    assert!(!outcome(|t| check_strip(t, true, 20)).0);
    let signature = [Colour::rgb(100, 0, 255); 6];
    let mut pixels = vec![Some((108, 8, 247)); 6];
    assert!(outcome(|t| check_signature(t, &pixels, &signature)).0);
    pixels[4] = Some((109, 0, 255));
    let (passed, line) = outcome(|t| check_signature(t, &pixels, &signature));
    assert!(!passed);
    assert!(line.ends_with("(first mismatch at block 4)"));
    pixels[4] = None;
    let (passed, line) = outcome(|t| check_signature(t, &pixels, &signature));
    assert!(!passed);
    assert!(line.ends_with("(first mismatch at block 0)"));
}

#[test]
fn a_boot_ends_with_a_verdict() {
    let totals = Totals {
        graphics: (1, 2, 3),
        events: (4, 5),
        pointer: (6, 7),
        calls: 8,
        ticks: 9,
        heap: (10 * 1024 + 1, 11 * 1024),
        stacks: (12, 13, 14),
    };
    let end = epilogue(&totals, &Tally { passed: 15, failed: 0 });
    assert_eq!(
        end.compositor,
        "Najm Kernel: compositor - 1 surface(s) live, 2 frame(s) presented, 3 commit(s) rejected"
    );
    assert_eq!(
        end.input,
        "Najm Kernel: input - 4 event(s) queued, 5 dropped, pointer at (6, 7)"
    );
    assert_eq!(
        end.calls,
        "Najm Kernel: 8 syscalls dispatched, 9 timer ticks (90 ms of uptime)"
    );
    assert_eq!(
        end.memory,
        "Najm Kernel: heap at end of boot - 10 KiB used, 11 KiB free; kernel stacks - 12 live, 13 slots ever used of 14"
    );
    assert_eq!(end.summary, "Najm Kernel: SELF-TEST SUMMARY - 15 passed, 0 failed, 15 total");
    assert_eq!(end.code, ExitCode::Success);
    assert_eq!(epilogue(&totals, &Tally { passed: 15, failed: 1 }).code, ExitCode::Failed);
}
