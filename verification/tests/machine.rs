use najm_kernel::abi::layout;
use najm_kernel::arch::x86_64::cpu::{self, detect, smap_enabled, Features, Identification};
use najm_kernel::arch::x86_64::gdt::{
    self, stack_size_is_aligned, user_code_selector, user_data_selector, STACK_SIZE,
};
use najm_kernel::arch::x86_64::interrupts::{
    end_or_halt_after_fault, init_pit, on_timer, ring3_preemptions, timer_ticks, uptime_ms, Clock,
    FaultAction, InterruptIndex,
};
use najm_kernel::arch::x86_64::usermode::{
    program_is_running, run_nx_test, run_test, ProgramExit, NX_TEST_DATA, NX_TEST_STACK,
    TEST_PAYLOAD,
};
use najm_kernel::image::Step;
use najm_kernel::mm::paging::PageFlags;
use x86_64::registers::segmentation::SegmentSelector;
use x86_64::PrivilegeLevel;

#[test]
fn features_are_read_from_the_leaves_that_exist() {
    let all = Identification {
        max_extended: 0x8000_0008,
        extended_edx: 1 << 20,
        max_basic: 7,
        leaf7_ebx: 1 << 7 | 1 << 20,
        leaf7_ecx: 1 << 2,
    };
    assert_eq!(detect(&all), Features { nx: true, smep: true, smap: true, umip: true });
    let old = Identification { max_extended: 0x8000_0000, max_basic: 6, ..all };
    assert_eq!(detect(&old), Features::default());
    let some = Identification { leaf7_ebx: 1 << 7, leaf7_ecx: !(1 << 2), ..all };
    assert_eq!(detect(&some), Features { nx: true, smep: true, smap: false, umip: false });
}

#[test]
fn only_what_exists_is_switched_on() {
    let (on, lines) = cpu::init(&Features { nx: true, smep: true, smap: true, umip: false });
    assert!(on.no_execute_enable && on.write_protect && on.smep && on.smap && !on.umip);
    assert!(smap_enabled(&on));
    assert_eq!(
        lines,
        ["Najm Kernel: CPU protections - NX on, SMEP on, SMAP on, UMIP unavailable, CR0.WP on"]
    );
    let (on, lines) = cpu::init(&Features::default());
    assert!(on.write_protect && !on.no_execute_enable && !on.smep && !smap_enabled(&on));
    assert_eq!(lines.len(), 2);
    assert_eq!(
        lines[1],
        "Najm Kernel: NOTE - this CPU does not expose SMEP SMAP. That is a property of the CPU model, not of this kernel; QEMU's default `qemu64` model omits both. Boot with `-cpu host` (KVM) or `-cpu max` (TCG) to exercise them."
    );
}

#[test]
fn selectors_are_those_of_the_descriptor_table() {
    assert_eq!(
        user_code_selector(),
        SegmentSelector::new(gdt::USER_CODE_INDEX, PrivilegeLevel::Ring3).0
    );
    assert_eq!(
        user_data_selector(),
        SegmentSelector::new(gdt::USER_DATA_INDEX, PrivilegeLevel::Ring3).0
    );
    assert!(stack_size_is_aligned(STACK_SIZE));
    assert!(!stack_size_is_aligned(STACK_SIZE + 8));
}

#[test]
fn the_timer_is_programmed_and_counted() {
    let pit = init_pit();
    assert_eq!((pit.command, pit.low, pit.high), (0x36, (11931 % 256) as u8, (11931 / 256) as u8));
    assert_eq!(InterruptIndex::Timer.as_u8(), 32);
    assert_eq!(InterruptIndex::Keyboard.as_u8(), 33);
    assert_eq!(InterruptIndex::Mouse.as_u8(), 44);
    let mut clock = Clock::new();
    assert!(on_timer(&mut clock, false, false));
    assert!(on_timer(&mut clock, true, true));
    assert!(!on_timer(&mut clock, true, false));
    assert_eq!(timer_ticks(&clock), 3);
    assert_eq!(ring3_preemptions(&clock), 1);
    assert_eq!(uptime_ms(&clock), 30);
}

#[test]
fn a_fault_ends_the_program_that_caused_it() {
    let exit = ProgramExit::PageFault;
    assert_eq!(end_or_halt_after_fault(true, true, exit), FaultAction::EndProgram(exit));
    assert_eq!(end_or_halt_after_fault(true, false, exit), FaultAction::Halt);
    assert_eq!(end_or_halt_after_fault(false, true, exit), FaultAction::Halt);
    assert!(program_is_running(0x1000));
    assert!(!program_is_running(0));
}

#[test]
fn exits_survive_the_crossing() {
    for exit in [
        ProgramExit::Exited(0),
        ProgramExit::Exited(u32::MAX),
        ProgramExit::PageFault,
        ProgramExit::GeneralProtectionFault,
    ] {
        assert_eq!(ProgramExit::decode(exit.encode()), exit);
    }
    assert_eq!(ProgramExit::PageFault.encode(), 1 << 32);
    assert_eq!(ProgramExit::Exited(42).describe(), "Exited(42)");
    assert_eq!(ProgramExit::GeneralProtectionFault.describe(), "GeneralProtectionFault");
}

#[test]
fn the_test_program_is_put_in_place() {
    let run = run_test(true);
    assert_eq!(run.ready.entry, layout::USERMODE_TEST_CODE);
    assert_eq!(run.ready.stack_top, layout::USERMODE_TEST_STACK + 4096);
    assert_eq!(run.steps.len(), 5);
    assert!(matches!(&run.steps[2], Step::Write { addr: layout::USERMODE_TEST_CODE, data }
        if *data == TEST_PAYLOAD));
    let code = PageFlags { writable: false, user_accessible: true, no_execute: false };
    assert!(matches!(&run.steps[3], Step::Protect { first: layout::USERMODE_TEST_CODE, pages: 1, flags }
        if *flags == code));
    let stack = PageFlags { writable: true, user_accessible: true, no_execute: true };
    assert!(matches!(&run.steps[4], Step::Protect { first: layout::USERMODE_TEST_STACK, pages: 1, flags }
        if *flags == stack));
}

#[test]
fn execution_is_only_tested_where_it_can_be_forbidden() {
    assert!(run_nx_test(false).is_none());
    let run = run_nx_test(true).unwrap();
    assert_eq!((run.ready.entry, run.ready.stack_top), (NX_TEST_DATA, NX_TEST_STACK + 4096));
    assert!(matches!(&run.steps[2], Step::Write { addr: NX_TEST_DATA, data } if *data == [0xc3]));
    assert!(matches!(&run.steps[3], Step::Write { addr, data }
        if *addr == NX_TEST_STACK + 0xff8 && *data == (NX_TEST_DATA + 0x800).to_le_bytes()));
    let flags = PageFlags { writable: true, user_accessible: true, no_execute: true };
    assert!(matches!(&run.steps[4], Step::Protect { first: NX_TEST_DATA, pages: 1, flags: f } if *f == flags));
}
