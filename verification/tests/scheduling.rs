use najm_kernel::mm::kstack::KernelStack;
use najm_kernel::sched::class::{ClassStats, SchedClass};
use najm_kernel::sched::task::{
    class_stats, current_pid, current_task_owns_kernel_stack, exit_task, preempt, reap_zombie,
    run_until_idle, set_current_class, set_supervisor_slot, spawn, spawn_in_class, spawn_process,
    spawn_with_context, start, supervisor_slot, task_count, task_is_running, yield_from_syscall,
    yield_now, AfterExit, Scheduler,
};

fn stack(slot: u64) -> KernelStack {
    let bottom = 0x10_0000 + slot * 0x8000;
    KernelStack { slot, bottom, top: bottom + 0x4000 }
}

#[test]
fn classes_have_quanta_names_and_waits() {
    assert_eq!(SchedClass::Realtime.quantum_ticks(), 1);
    assert_eq!(SchedClass::Normal.quantum_ticks(), 3);
    assert_eq!(SchedClass::Background.quantum_ticks(), 6);
    assert_eq!(SchedClass::Normal.worst_case_wait_ms(), 30);
    assert_eq!(SchedClass::Realtime.name(), "realtime");
    assert_eq!(SchedClass::for_realm(1), SchedClass::Realtime);
    assert_eq!(SchedClass::for_realm(0), SchedClass::Normal);
    assert_eq!(SchedClass::for_realm(2), SchedClass::Normal);
    assert_eq!(SchedClass::for_realm(3), SchedClass::Realtime);
    assert!(SchedClass::Realtime.rank() > SchedClass::Normal.rank());
    assert_eq!(
        ClassStats::default(),
        ClassStats { dispatches: 0, max_wait_ticks: 0, promotions: 0 }
    );
}

#[test]
fn a_new_task_starts_at_its_entry_with_interrupts_on() {
    let mut s = Scheduler::new();
    let frame = spawn(&mut s, stack(1), 0xE000, 0);
    assert_eq!(frame.stack_pointer, stack(1).top - 64);
    assert_eq!(frame.words, [0, 0, 0, 0, 0, 0, 0x202, 0xE000]);
    let frame = spawn_with_context(&mut s, stack(2), 0x7000, 0xE000, 0xC0DE, 0);
    assert_eq!(frame.words, [0, 0, 0xE000, 0xC0DE, 0, 0, 0x202, 0x7000]);
    assert_eq!(task_count(&s), 2);
}

#[test]
fn one_class_takes_turns_in_order() {
    let mut s = Scheduler::new();
    for slot in 1..=3 {
        spawn(&mut s, stack(slot), 0xE000, 0);
    }
    assert_eq!(start(&mut s, 1).to, 1);
    let mut order = vec![1];
    for now in 2..8 {
        let switch = yield_now(&mut s, now).unwrap();
        assert_eq!(switch.from, order.last().copied());
        order.push(switch.to);
    }
    assert_eq!(order, [1, 2, 3, 1, 2, 3, 1]);
    assert_eq!(task_count(&s), 3);
}

#[test]
fn the_quantum_bounds_a_turn() {
    let mut s = Scheduler::new();
    spawn(&mut s, stack(1), 0, 0);
    spawn(&mut s, stack(2), 0, 0);
    run_until_idle(&mut s, 0);
    assert_eq!(preempt(&mut s, 1), None);
    assert_eq!(preempt(&mut s, 2), None);
    assert_eq!(preempt(&mut s, 3).unwrap().to, 2);
}

#[test]
fn a_more_urgent_task_runs_at_the_next_tick() {
    let mut s = Scheduler::new();
    spawn_in_class(&mut s, stack(1), 0, SchedClass::Background, 0);
    run_until_idle(&mut s, 0);
    spawn_in_class(&mut s, stack(2), 0, SchedClass::Realtime, 0);
    assert_eq!(preempt(&mut s, 1).unwrap().to, 2);
    // And the less urgent one does not take it back.
    assert_eq!(preempt(&mut s, 2), None);
    assert_eq!(preempt(&mut s, 3), None);
}

#[test]
fn a_starving_task_is_rescued_for_one_tick() {
    let mut s = Scheduler::new();
    spawn_in_class(&mut s, stack(1), 0, SchedClass::Background, 0);
    spawn_in_class(&mut s, stack(2), 0, SchedClass::Background, 0);
    spawn_in_class(&mut s, stack(3), 0, SchedClass::Realtime, 0);
    spawn_in_class(&mut s, stack(4), 0, SchedClass::Realtime, 0);
    assert_eq!(run_until_idle(&mut s, 0).unwrap().to, 3);
    let mut ran = Vec::new();
    for now in 1..=60 {
        if let Some(switch) = preempt(&mut s, now) {
            ran.push((now, switch.to));
        }
    }
    let rescues: Vec<_> = ran.iter().filter(|(_, slot)| *slot <= 2).copied().collect();
    assert_eq!(rescues, [(50, 1), (55, 2)]);
    // A rescue lasts one tick.
    assert!(ran.contains(&(51, 4)) || ran.contains(&(51, 3)));
    let stats = class_stats(&s);
    assert_eq!(stats[0].0, SchedClass::Background);
    assert_eq!((stats[0].1.dispatches, stats[0].1.promotions), (2, 2));
    assert_eq!(stats[0].1.max_wait_ticks, 55);
    assert!(stats[2].1.max_wait_ticks <= 3);
}

#[test]
fn a_single_urgent_task_that_never_yields_starves_no_one() {
    let mut s = Scheduler::new();
    spawn_in_class(&mut s, stack(1), 0, SchedClass::Realtime, 0);
    spawn_in_class(&mut s, stack(2), 0, SchedClass::Normal, 0);
    spawn_in_class(&mut s, stack(3), 0, SchedClass::Background, 0);
    assert_eq!(run_until_idle(&mut s, 0).unwrap().to, 1);
    let mut ran = Vec::new();
    for now in 1..=60 {
        if let Some(switch) = preempt(&mut s, now) {
            ran.push((now, switch.to));
        }
    }
    assert_eq!(ran, [(50, 2), (51, 1), (55, 3), (56, 1)]);
}

#[test]
fn exit_frees_the_task_that_exited_before() {
    let mut s = Scheduler::new();
    spawn(&mut s, stack(1), 0, 0);
    spawn(&mut s, stack(2), 0, 0);
    run_until_idle(&mut s, 0);
    let (reaped, next) = exit_task(&mut s, true, 1);
    assert!(reaped.is_none());
    assert!(matches!(next, AfterExit::Task(switch) if switch.to == 2 && switch.from.is_none()));
    let (reaped, next) = exit_task(&mut s, true, 2);
    assert_eq!(reaped.unwrap().stack.slot, 1);
    assert_eq!(next, AfterExit::Boot);
    assert_eq!(task_count(&s), 0);
    assert_eq!(reap_zombie(&mut s).unwrap().stack.slot, 2);
    assert!(reap_zombie(&mut s).is_none());
    spawn(&mut s, stack(3), 0, 0);
    run_until_idle(&mut s, 3);
    assert_eq!(exit_task(&mut s, false, 4).1, AfterExit::Halt);
}

#[test]
fn without_a_task_there_is_nothing_to_switch() {
    let mut s = Scheduler::new();
    assert_eq!(run_until_idle(&mut s, 0), None);
    assert_eq!(preempt(&mut s, 1), None);
    assert_eq!(yield_from_syscall(&mut s, 1), None);
    assert_eq!(yield_now(&mut s, 1), None);
    assert_eq!(current_pid(&s), 0);
    assert!(!current_task_owns_kernel_stack(&s));
    assert!(!task_is_running(&s));
}

#[test]
fn a_kernel_task_has_no_stack_for_entering_from_a_program() {
    let mut s = Scheduler::new();
    spawn(&mut s, stack(1), 0, 0);
    run_until_idle(&mut s, 0);
    assert!(task_is_running(&s));
    assert!(!current_task_owns_kernel_stack(&s));
}

#[test]
fn a_process_brings_its_space_and_identity() {
    let mut s = Scheduler::new();
    spawn_process(&mut s, stack(1), (1, 2, 3), 0x5000, 7, SchedClass::Normal, 0);
    let switch = run_until_idle(&mut s, 0).unwrap();
    assert_eq!(switch.next_address_space, Some(0x5000));
    assert_eq!(switch.next_kernel_stack_top, stack(1).top);
    assert_eq!(current_pid(&s), 7);
    assert!(current_task_owns_kernel_stack(&s));
}

#[test]
fn the_resume_point_belongs_to_the_running_context() {
    let mut s = Scheduler::new();
    set_supervisor_slot(&mut s, 0x900);
    assert_eq!(supervisor_slot(&s), 0x900);
    spawn(&mut s, stack(1), 0, 0);
    spawn(&mut s, stack(2), 0, 0);
    run_until_idle(&mut s, 0);
    assert_eq!(supervisor_slot(&s), 0);
    set_supervisor_slot(&mut s, 0x800);
    yield_now(&mut s, 1).unwrap();
    assert_eq!(supervisor_slot(&s), 0);
    // While a program runs, its frames above the resume point are kept.
    let back = yield_now(&mut s, 2).unwrap();
    assert_eq!(back.next_kernel_stack_top, 0x800 - 8);
    assert_eq!(supervisor_slot(&s), 0x800);
}

#[test]
fn a_task_can_change_its_class() {
    let mut s = Scheduler::new();
    set_current_class(&mut s, SchedClass::Realtime);
    spawn(&mut s, stack(1), 0, 0);
    spawn(&mut s, stack(2), 0, 0);
    run_until_idle(&mut s, 0);
    set_current_class(&mut s, SchedClass::Background);
    assert_eq!(preempt(&mut s, 1).unwrap().to, 2);
}
