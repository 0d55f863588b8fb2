//! Interrupts: vectors, the timer, and what a fault does to whom.
use vstd::prelude::*;
use crate::arch::x86_64::usermode::ProgramExit;
use crate::security::capability::{Capability, CapabilityError, Registry, TimerRead};

verus! {

/// Where the primary interrupt controller's vectors start: right after the
/// processor's exceptions.
pub const PIC_1_OFFSET: u8 = 32;

/// Where the secondary interrupt controller's vectors start.
pub const PIC_2_OFFSET: u8 = 40;

/// The hardware interrupts that are handled.
#[derive(Debug, Clone, Copy, PartialEq, Eq, Structural)]
pub enum InterruptIndex {
    Timer,
    Keyboard,
    /// The PS/2 auxiliary device, on the secondary controller.
    Mouse,
}

impl InterruptIndex {
    /// The vector of this interrupt.
    pub fn as_u8(self) -> (vector: u8)
        ensures
            vector == (match self {
                InterruptIndex::Timer => 32u8,
                InterruptIndex::Keyboard => 33u8,
                InterruptIndex::Mouse => 44u8,
            }),
    {
        match self {
            InterruptIndex::Timer => PIC_1_OFFSET,
            InterruptIndex::Keyboard => PIC_1_OFFSET + 1,
            InterruptIndex::Mouse => PIC_2_OFFSET + 4,
        }
    }
}

/// How many times per second the timer fires.
pub const TIMER_HZ: u64 = 100;

/// The timer's fixed input frequency.
pub const PIT_INPUT_HZ: u64 = 1_193_182;

/// What programs the timer: the command byte, then the divisor's low and
/// high byte.
#[derive(Debug, Clone, Copy, PartialEq, Eq, Structural)]
pub struct PitProgram {
    /// Channel 0, low byte then high byte, square wave, binary.
    pub command: u8,
    pub low: u8,
    pub high: u8,
}

/// The bytes that make the timer fire at `TIMER_HZ`.
pub fn init_pit() -> (program: PitProgram)
    ensures
        program.command == 0x36,
        program.low + 256 * program.high == PIT_INPUT_HZ / TIMER_HZ,
{
    let divisor: u64 = PIT_INPUT_HZ / TIMER_HZ;
    PitProgram { command: 0x36, low: (divisor % 256) as u8, high: (divisor / 256) as u8 }
}

/// The timer's counters.
#[derive(Debug, Clone, Copy, PartialEq, Eq, Structural)]
pub struct Clock {
    /// Ticks since the timer was enabled.
    pub ticks: u64,
    /// How many times the timer took the CPU away from a user program.
    pub ring3_preemptions: u64,
}

impl Clock {
    /// Nothing counted yet.
    pub fn new() -> (clock: Clock)
        ensures
            clock == (Clock { ticks: 0, ring3_preemptions: 0 }),
    {
        Clock { ticks: 0, ring3_preemptions: 0 }
    }
}

/// Current tick count.
pub fn timer_ticks(clock: &Clock) -> (ticks: u64)
    ensures
        ticks == clock.ticks,
{
    clock.ticks
}

/// How many user programs have been preempted since boot.
pub fn ring3_preemptions(clock: &Clock) -> (n: u64)
    ensures
        n == clock.ring3_preemptions,
{
    clock.ring3_preemptions
}

/// Milliseconds since the timer started. Exact, because the rate divides
/// a thousand evenly.
pub fn uptime_ms(clock: &Clock) -> (ms: u64)
    requires
        clock.ticks * 1000 <= u64::MAX,
    ensures
        ms == clock.ticks * 1000 / TIMER_HZ as int,
        ms == clock.ticks * 10,
{
    clock.ticks * 1000 / TIMER_HZ
}

/// The tick count, if the capability that is presented has not been
/// revoked.
pub fn ticks_with_capability(cap: &Capability<TimerRead>, registry: &Registry, clock: &Clock) -> (r:
    Result<u64, CapabilityError>)
    ensures
        r == (if registry.revoked().contains(cap.id()) {
            Err::<u64, CapabilityError>(CapabilityError::Revoked)
        } else {
            Ok(clock.ticks)
        }),
{
    if cap.is_revoked(registry) {
        return Err(CapabilityError::Revoked);
    }
    Ok(clock.ticks)
}

/// Counts a tick and decides whether the interrupted code may be switched
/// away from. Kernel code always may. A user program may only where it is
/// that of the running task: its interrupt frame is then on that task's own
/// kernel stack, and otherwise on the shared boot stack.
pub fn on_timer(clock: &mut Clock, interrupted_ring3: bool, task_owns_kernel_stack: bool) -> (preempt:
    bool)
    requires
        old(clock).ticks < u64::MAX,
        old(clock).ring3_preemptions < u64::MAX,
    ensures
        preempt == (!interrupted_ring3 || task_owns_kernel_stack),
        final(clock).ticks == old(clock).ticks + 1,
        final(clock).ring3_preemptions == old(clock).ring3_preemptions + (if interrupted_ring3
            && task_owns_kernel_stack {
            1int
        } else {
            0
        }),
{
    clock.ticks += 1;
    if !interrupted_ring3 || task_owns_kernel_stack {
        if interrupted_ring3 {
            clock.ring3_preemptions += 1;
        }
        true
    } else {
        false
    }
}

/// What a processor fault does.
#[derive(Debug, Clone, Copy, PartialEq, Eq, Structural)]
pub enum FaultAction {
    /// Only the faulting program ends; the kernel keeps running.
    EndProgram(ProgramExit),
    /// The machine halts: the kernel itself faulted, or user code that it
    /// never launched.
    Halt,
}

/// Decides whether a fault ends one program or the whole machine, by the
/// privilege level it came from and whether there is a supervisor to
/// return to.
pub fn end_or_halt_after_fault(in_ring3: bool, program_is_running: bool, exit: ProgramExit) -> (r:
    FaultAction)
    ensures
        r == (if in_ring3 && program_is_running {
            FaultAction::EndProgram(exit)
        } else {
            FaultAction::Halt
        }),
{
    if in_ring3 && program_is_running {
        FaultAction::EndProgram(exit)
    } else {
        FaultAction::Halt
    }
}

} // verus!
