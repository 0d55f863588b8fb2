//! Scheduling classes: what a Realm means to the scheduler.
//!
//! A class carries two numbers. One says who goes first; the other, the
//! quantum, bounds how long a peer can be made to wait:
//!
//! | Class | Runs before | Quantum | Worst-case wait behind one peer |
//! |---|---|---|---|
//! | Realtime | everything | 1 tick | 10 ms |
//! | Normal | Background | 3 ticks | 30 ms |
//! | Background | nothing | 6 ticks | 60 ms |
//!
//! Preemption is immediate across classes: a more urgent task takes the
//! CPU at the next tick. Strict priority would starve what is less
//! urgent, so a task that has been ready for long enough is promoted
//! ahead of higher classes for one dispatch, at a limited rate.
use vstd::prelude::*;
use crate::abi::realm_kind;
use crate::arch::x86_64::interrupts::TIMER_HZ;

verus! {

/// How a task's CPU time is governed.
#[derive(Debug, Clone, Copy, PartialEq, Eq, Structural)]
pub enum SchedClass {
    /// Work that should happen when nothing else wants the CPU.
    Background,
    /// The default.
    Normal,
    /// Bounded-latency work.
    Realtime,
}

impl SchedClass {
    /// Larger means more urgent.
    pub open spec fn spec_rank(self) -> int {
        match self {
            SchedClass::Background => 0,
            SchedClass::Normal => 1,
            SchedClass::Realtime => 2,
        }
    }

    /// Larger means more urgent.
    pub fn rank(self) -> (r: u8)
        ensures
            r == self.spec_rank(),
    {
        match self {
            SchedClass::Background => 0,
            SchedClass::Normal => 1,
            SchedClass::Realtime => 2,
        }
    }

    /// Ticks a task of this class may hold the CPU.
    pub open spec fn quantum(self) -> int {
        match self {
            SchedClass::Realtime => 1,
            SchedClass::Normal => 3,
            SchedClass::Background => 6,
        }
    }

    /// How many timer ticks a task of this class may hold the CPU before
    /// being preempted, absent anything more urgent becoming ready.
    pub fn quantum_ticks(self) -> (ticks: u64)
        ensures
            ticks == self.quantum(),
    {
        match self {
            SchedClass::Realtime => 1,
            SchedClass::Normal => 3,
            SchedClass::Background => 6,
        }
    }

    /// The worst-case time, in milliseconds, that a task of this class can
    /// be kept waiting by a single peer. Derived from the quantum, so the
    /// two cannot drift apart.
    pub fn worst_case_wait_ms(self) -> (ms: u64)
        ensures
            ms == self.quantum() * 1000 / TIMER_HZ as int,
    {
        self.quantum_ticks() * 1000 / TIMER_HZ
    }

    /// The class's name.
    pub open spec fn spec_name(self) -> &'static str {
        match self {
            SchedClass::Realtime => "realtime",
            SchedClass::Normal => "normal",
            SchedClass::Background => "background",
        }
    }

    /// The class's name.
    pub fn name(self) -> (name: &'static str)
        ensures
            name == self.spec_name(),
    {
        match self {
            SchedClass::Realtime => "realtime",
            SchedClass::Normal => "normal",
            SchedClass::Background => "background",
        }
    }

    /// The scheduling class a Realm's processes run in. Vault is normal:
    /// not privileged, and not penalized either.
    pub fn for_realm(kind: u64) -> (class: SchedClass)
        ensures
            class == class_of_realm(kind),
    {
        if kind == realm_kind::GAMING || kind == realm_kind::SYSTEM {
            SchedClass::Realtime
        } else {
            SchedClass::Normal
        }
    }
}

/// The class of a Realm's processes.
pub open spec fn class_of_realm(kind: u64) -> SchedClass {
    if kind == realm_kind::GAMING || kind == realm_kind::SYSTEM {
        SchedClass::Realtime
    } else {
        SchedClass::Normal
    }
}

/// How long a ready task may go unscheduled before it is promoted ahead of
/// higher classes for one dispatch.
pub const STARVATION_LIMIT_TICKS: u64 = 50;

/// The minimum gap between two promotions, so that several tasks that
/// starve together cannot take the CPU tick after tick.
pub const PROMOTION_INTERVAL_TICKS: u64 = 5;

/// The worst wait a realtime task is allowed to suffer under the boot
/// self-test's load, in ticks.
pub const REALTIME_LATENCY_BUDGET_TICKS: u64 = 3;

/// Per-class scheduling statistics.
#[derive(Debug, Clone, Copy, PartialEq, Eq, Structural)]
pub struct ClassStats {
    /// How many times a task of this class was dispatched.
    pub dispatches: u64,
    /// The longest any task of this class waited between becoming ready
    /// and being given the CPU, in ticks.
    pub max_wait_ticks: u64,
    /// How many times a task of this class was promoted past a higher
    /// class because it had waited too long.
    pub promotions: u64,
}

impl Default for ClassStats {
    fn default() -> (r: Self)
        ensures
            r == (ClassStats { dispatches: 0, max_wait_ticks: 0, promotions: 0 }),
    {
        ClassStats { dispatches: 0, max_wait_ticks: 0, promotions: 0 }
    }
}

/// The more urgent the class, the shorter a peer of it is kept waiting.
pub proof fn law_urgency_shortens_waits(a: SchedClass, b: SchedClass)
    requires
        a.spec_rank() > b.spec_rank(),
    ensures
        a.quantum() < b.quantum(),
        a.quantum() * 1000 / TIMER_HZ as int <= b.quantum() * 1000 / TIMER_HZ as int,
{
}

/// Realtime goes before normal, and normal before background.
pub proof fn law_classes_are_ordered(a: SchedClass, b: SchedClass)
    ensures
        a.spec_rank() < b.spec_rank() <==> (a is Background && !(b is Background)) || (a is Normal
            && b is Realtime),
        a.spec_rank() == b.spec_rank() <==> a == b,
{
}

/// A peer keeps a task waiting no longer than ten milliseconds in the
/// realtime class, thirty in the normal one and sixty in the background: the
/// quantum is a whole number of ticks that comes to that.
pub proof fn law_waits_are_as_promised(class: SchedClass)
    ensures
        class.quantum() * 1000 == TIMER_HZ * (match class {
            SchedClass::Realtime => 10int,
            SchedClass::Normal => 30,
            SchedClass::Background => 60,
        }),
{
}

/// Exactly the Realms that need bounded latency get it: games, and the
/// system itself. No Realm is put into the background.
pub proof fn law_realtime_is_for_games_and_the_system(kind: u64)
    ensures
        class_of_realm(kind) is Realtime <==> kind == realm_kind::GAMING || kind
            == realm_kind::SYSTEM,
        !(class_of_realm(kind) is Background),
{
}

} // verus!
