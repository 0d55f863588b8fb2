//! The task scheduler: what runs next, and when the running task has to
//! give way.
//!
//! Tasks wait in the order they became ready. The most urgent class goes
//! first, in that order; see the class module for the rules that keep a
//! busy class from starving the others. Saving one stack pointer and
//! loading another is the mechanism of a switch and happens elsewhere:
//! here a switch is which task stops and which one continues.
use vstd::prelude::*;
use crate::mm::kstack::KernelStack;
use crate::sched::class::{
    ClassStats, SchedClass, PROMOTION_INTERVAL_TICKS, STARVATION_LIMIT_TICKS,
};

verus! {

/// The flags a new task starts with: interrupts enabled, so that it can be
/// preempted from its very first instruction.
pub const INITIAL_RFLAGS: u64 = 0x202;

/// One task.
#[derive(Debug, Clone, Copy, PartialEq, Eq, Structural)]
pub struct Task {
    /// The stack the task owns. Its slot identifies the task.
    pub stack: KernelStack,
    /// The root to load when it is scheduled, or `None` for a task
    /// that only runs kernel code, which every address space maps alike.
    pub address_space_root: Option<u64>,
    /// Where to resume in the kernel when the task's user program ends,
    /// or 0 if it is not running one.
    pub supervisor_rsp: u64,
    /// The process it runs, or 0.
    pub pid: u64,
    pub class: SchedClass,
    /// The tick at which it last became ready.
    pub ready_since: u64,
    /// Whether it was dispatched ahead of a higher class.
    pub promoted: bool,
}

/// What a new task's stack has to hold before it is first resumed.
#[derive(Debug, Clone, Copy)]
pub struct Frame {
    /// The stack pointer to resume with, and the address of the first word.
    pub stack_pointer: u64,
    /// The registers and the return address, lowest address first: R15,
    /// R14, R13, R12, RBX, RBP, the flags, and where to go.
    pub words: [u64; 8],
}

impl Task {
    /// What the privilege stack pointer must hold while the task is
    /// scheduled. Inside a user program the frames above the resume point
    /// are live and must survive, so it is right below that point.
    pub open spec fn rsp0(self) -> int {
        if self.supervisor_rsp != 0 {
            self.supervisor_rsp - 8
        } else {
            self.stack.top as int
        }
    }

    /// A resume point is never in the first bytes of the address space.
    pub open spec fn wf(self) -> bool {
        self.supervisor_rsp == 0 || self.supervisor_rsp >= 8
    }

    fn kernel_rsp0(&self) -> (rsp: u64)
        requires
            self.wf(),
        ensures
            rsp == self.rsp0(),
    {
        if self.supervisor_rsp != 0 {
            self.supervisor_rsp - 8
        } else {
            self.stack.top
        }
    }

    /// A kernel task that will start at `entry`.
    pub fn new(stack: KernelStack, entry: u64) -> (r: (Task, Frame))
        requires
            stack.top >= 64,
        ensures
            r.0 == fresh_task(stack),
            r.1.stack_pointer == stack.top - 64,
            r.1.words@ == seq![0u64, 0, 0, 0, 0, 0, INITIAL_RFLAGS, entry],
    {
        let frame = Frame {
            stack_pointer: stack.top - 64,
            words: [0, 0, 0, 0, 0, 0, INITIAL_RFLAGS, entry],
        };
        assert(frame.words@ =~= seq![0u64, 0, 0, 0, 0, 0, INITIAL_RFLAGS, entry]);
        (new_task(stack), frame)
    }

    /// A task whose entry point receives a context pointer: it starts at
    /// the trampoline, which takes both out of registers.
    pub fn new_with_context(
        stack: KernelStack,
        trampoline: u64,
        entry: u64,
        context: u64,
    ) -> (r: (Task, Frame))
        requires
            stack.top >= 64,
        ensures
            r.0 == fresh_task(stack),
            r.1.stack_pointer == stack.top - 64,
            r.1.words@ == seq![0u64, 0, entry, context, 0, 0, INITIAL_RFLAGS, trampoline],
    {
        let frame = Frame {
            stack_pointer: stack.top - 64,
            words: [0, 0, entry, context, 0, 0, INITIAL_RFLAGS, trampoline],
        };
        assert(frame.words@ =~= seq![0u64, 0, entry, context, 0, 0, INITIAL_RFLAGS, trampoline]);
        (new_task(stack), frame)
    }
}

/// A task that has not run yet, with nothing special about it.
pub open spec fn fresh_task(stack: KernelStack) -> Task {
    Task {
        stack,
        address_space_root: None,
        supervisor_rsp: 0,
        pid: 0,
        class: SchedClass::Normal,
        ready_since: 0,
        promoted: false,
    }
}

fn new_task(stack: KernelStack) -> (task: Task)
    ensures
        task == fresh_task(stack),
{
    Task {
        stack,
        address_space_root: None,
        supervisor_rsp: 0,
        pid: 0,
        class: SchedClass::Normal,
        ready_since: 0,
        promoted: false,
    }
}

// ---------------------------------------------------------------------
// Who runs next
// ---------------------------------------------------------------------

/// How long a task has been waiting.
pub open spec fn wait(task: Task, now: u64) -> int {
    if now >= task.ready_since {
        now - task.ready_since
    } else {
        0
    }
}

/// The position of the task that has been ready longest among those of the
/// most urgent class.
pub open spec fn most_urgent(ready: Seq<Task>) -> int
    decreases ready.len(),
{
    if ready.len() <= 1 {
        0
    } else {
        let b = most_urgent(ready.drop_last());
        if ready.last().class.spec_rank() > ready[b].class.spec_rank() {
            ready.len() - 1
        } else {
            b
        }
    }
}

/// Whether a task has waited too long behind tasks of a class above
/// `rank`.
pub open spec fn is_starved(task: Task, now: u64, rank: int) -> bool {
    task.class.spec_rank() < rank && wait(task, now) >= STARVATION_LIMIT_TICKS
}

/// The first starved task from position `i` on.
pub open spec fn first_starved(ready: Seq<Task>, now: u64, rank: int, i: int) -> Option<int>
    decreases ready.len() - i,
{
    if i < 0 || i >= ready.len() {
        None
    } else if is_starved(ready[i], now, rank) {
        Some(i)
    } else {
        first_starved(ready, now, rank, i + 1)
    }
}

/// Whether another promotion is due, given when the last one was.
pub open spec fn may_promote(last_promotion: Option<u64>, now: u64) -> bool {
    match last_promotion {
        None => true,
        Some(t) => now >= t && now - t >= PROMOTION_INTERVAL_TICKS,
    }
}

/// Which task to dispatch, and whether that is a promotion.
#[derive(Debug, Clone, Copy, PartialEq, Eq, Structural)]
pub struct Pick {
    pub index: usize,
    pub promoted: bool,
}

/// The rank of the most urgent class that wants the CPU: of the tasks that
/// are ready, and of the running one where it would rather keep it.
pub open spec fn contested_rank(ready: Seq<Task>, running: Option<SchedClass>) -> int {
    let best = ready[most_urgent(ready)].class.spec_rank();
    match running {
        Some(class) if class.spec_rank() > best => class.spec_rank(),
        _ => best,
    }
}

/// The task to dispatch next from a queue that is not empty: a starved one
/// where a promotion is due, and the most urgent one otherwise.
pub open spec fn choice(
    ready: Seq<Task>,
    running: Option<SchedClass>,
    now: u64,
    last_promotion: Option<u64>,
) -> Pick {
    let best = most_urgent(ready);
    match first_starved(ready, now, contested_rank(ready, running), 0) {
        Some(i) if may_promote(last_promotion, now) => Pick { index: i as usize, promoted: true },
        _ => Pick { index: best as usize, promoted: false },
    }
}

proof fn lemma_most_urgent(ready: Seq<Task>)
    requires
        ready.len() > 0,
    ensures
        0 <= most_urgent(ready) < ready.len(),
        forall|i: int|
            0 <= i < ready.len() ==> (#[trigger] ready[i]).class.spec_rank()
                <= ready[most_urgent(ready)].class.spec_rank(),
        forall|i: int|
            0 <= i < most_urgent(ready) ==> (#[trigger] ready[i]).class.spec_rank()
                < ready[most_urgent(ready)].class.spec_rank(),
    decreases ready.len(),
{
    if ready.len() > 1 {
        let rest = ready.drop_last();
        lemma_most_urgent(rest);
        let b = most_urgent(rest);
        assert forall|i: int| 0 <= i < ready.len() implies (#[trigger] ready[i]).class.spec_rank()
            <= ready[most_urgent(ready)].class.spec_rank() by {
            if i < rest.len() {
                assert(rest[i] == ready[i]);
            }
        }
        assert forall|i: int| 0 <= i < most_urgent(ready) implies (
        #[trigger] ready[i]).class.spec_rank() < ready[most_urgent(
            ready,
        )].class.spec_rank() by {
            assert(rest[i] == ready[i]);
        }
    }
}

proof fn lemma_first_starved(ready: Seq<Task>, now: u64, rank: int, i: int)
    requires
        0 <= i,
    ensures
        match first_starved(ready, now, rank, i) {
            Some(k) => i <= k < ready.len() && is_starved(ready[k], now, rank) && forall|j: int|
                i <= j < k ==> !is_starved(#[trigger] ready[j], now, rank),
            None => forall|j: int|
                i <= j < ready.len() ==> !is_starved(#[trigger] ready[j], now, rank),
        },
    decreases ready.len() - i,
{
    if i < ready.len() && !is_starved(ready[i], now, rank) {
        lemma_first_starved(ready, now, rank, i + 1);
    }
}

fn waited(task: &Task, now: u64) -> (ticks: u64)
    ensures
        ticks == wait(*task, now),
{
    now.saturating_sub(task.ready_since)
}

/// Chooses the task to dispatch next. `running` is the class of a task
/// that the CPU would have to be taken from.
pub fn pick(
    ready: &Vec<Task>,
    running: Option<SchedClass>,
    now: u64,
    last_promotion: Option<u64>,
) -> (r: Option<Pick>)
    ensures
        match r {
            Some(p) => ready@.len() > 0 && p == choice(ready@, running, now, last_promotion)
                && p.index < ready@.len(),
            None => ready@.len() == 0,
        },
{
    if ready.len() == 0 {
        return None;
    }
    let mut best: usize = 0;
    let mut n: usize = 1;
    assert(most_urgent(ready@.subrange(0, 1)) == 0);
    while n < ready.len()
        invariant
            1 <= n <= ready.len(),
            best < n,
            best == most_urgent(ready@.subrange(0, n as int)),
        decreases ready.len() - n,
    {
        let ghost more = ready@.subrange(0, n + 1);
        assert(more.drop_last() =~= ready@.subrange(0, n as int));
        assert(ready@.subrange(0, n as int)[best as int] == ready@[best as int]);
        if ready[n].class.rank() > ready[best].class.rank() {
            best = n;
        }
        n += 1;
    }
    assert(ready@.subrange(0, n as int) =~= ready@);
    proof {
        lemma_most_urgent(ready@);
    }
    let top: u8 = ready[best].class.rank();
    let rank: u8 = match running {
        Some(class) => if class.rank() > top {
            class.rank()
        } else {
            top
        },
        None => top,
    };
    let due: bool = match last_promotion {
        None => true,
        Some(t) => now >= t && now - t >= PROMOTION_INTERVAL_TICKS,
    };
    if due {
        let mut i: usize = 0;
        while i < ready.len()
            invariant
                i <= ready.len(),
                ready@.len() > 0,
                best == most_urgent(ready@),
                best < ready.len(),
                rank == contested_rank(ready@, running),
                may_promote(last_promotion, now),
                first_starved(ready@, now, rank as int, 0) == first_starved(
                    ready@,
                    now,
                    rank as int,
                    i as int,
                ),
            decreases ready.len() - i,
        {
            if ready[i].class.rank() < rank && waited(&ready[i], now) >= STARVATION_LIMIT_TICKS {
                return Some(Pick { index: i, promoted: true });
            }
            i += 1;
        }
    }
    Some(Pick { index: best, promoted: false })
}

// ---------------------------------------------------------------------
// The scheduler
// ---------------------------------------------------------------------

/// Statistics of the three classes.
#[derive(Debug, Clone, Copy, PartialEq, Eq, Structural)]
pub struct Stats {
    pub background: ClassStats,
    pub normal: ClassStats,
    pub realtime: ClassStats,
}

/// One more than `n`, or as many as can be counted.
pub open spec fn counted(n: u64) -> u64 {
    if n < u64::MAX {
        (n + 1) as u64
    } else {
        n
    }
}

/// A class's statistics after a dispatch.
pub open spec fn class_after(s: ClassStats, ticks: int, promoted: bool) -> ClassStats {
    ClassStats {
        dispatches: counted(s.dispatches),
        max_wait_ticks: if ticks > s.max_wait_ticks {
            ticks as u64
        } else {
            s.max_wait_ticks
        },
        promotions: if promoted {
            counted(s.promotions)
        } else {
            s.promotions
        },
    }
}

/// The statistics after a task of `class` was dispatched.
pub open spec fn stats_after(s: Stats, class: SchedClass, ticks: int, promoted: bool) -> Stats {
    match class {
        SchedClass::Background => Stats {
            background: class_after(s.background, ticks, promoted),
            ..s
        },
        SchedClass::Normal => Stats { normal: class_after(s.normal, ticks, promoted), ..s },
        SchedClass::Realtime => Stats { realtime: class_after(s.realtime, ticks, promoted), ..s },
    }
}

fn count_class(s: &ClassStats, ticks: u64, promoted: bool) -> (r: ClassStats)
    ensures
        r == class_after(*s, ticks as int, promoted),
{
    ClassStats {
        dispatches: s.dispatches.saturating_add(1),
        max_wait_ticks: if ticks > s.max_wait_ticks {
            ticks
        } else {
            s.max_wait_ticks
        },
        promotions: if promoted {
            s.promotions.saturating_add(1)
        } else {
            s.promotions
        },
    }
}

/// The tasks and what has happened to them.
#[derive(Debug)]
pub struct Scheduler {
    /// Tasks that could run, in the order they became ready.
    ready: Vec<Task>,
    current: Option<Task>,
    /// The task that exited last. Its stack may still be in use until the
    /// switch away from it is done, so it is freed one exit later.
    zombie: Option<Task>,
    /// Ticks the current task has held the CPU.
    held: u64,
    last_promotion: Option<u64>,
    stats: Stats,
    /// The resume point of a program that runs before any task does.
    boot_supervisor_rsp: u64,
}

/// The scheduler's state.
pub struct SchedulerView {
    pub ready: Seq<Task>,
    pub current: Option<Task>,
    pub zombie: Option<Task>,
    pub held: u64,
    pub last_promotion: Option<u64>,
    pub stats: Stats,
    pub boot_supervisor_rsp: u64,
}

impl View for Scheduler {
    type V = SchedulerView;

    closed spec fn view(&self) -> SchedulerView {
        SchedulerView {
            ready: self.ready@,
            current: self.current,
            zombie: self.zombie,
            held: self.held,
            last_promotion: self.last_promotion,
            stats: self.stats,
            boot_supervisor_rsp: self.boot_supervisor_rsp,
        }
    }
}

/// What to do to switch tasks.
#[derive(Debug, Clone, Copy, PartialEq, Eq, Structural)]
pub struct Switch {
    /// The slot of the task that stops, if one was running.
    pub from: Option<u64>,
    /// The slot of the task that continues.
    pub to: u64,
    /// What the privilege stack pointer must hold from now on.
    pub next_kernel_stack_top: u64,
    /// The root to load; `None` means the kernel's own.
    pub next_address_space: Option<u64>,
}

/// Why a switch is asked for.
#[derive(Debug, Clone, Copy, PartialEq, Eq, Structural)]
pub enum SwitchKind {
    /// A task gives the CPU up.
    Voluntary,
    /// A user program asked to give it up; there may be no task.
    VoluntaryFromUser,
    /// The timer fired.
    Preemptive,
}

/// The switch from `from` to `to`.
pub open spec fn switch_to(from: Option<Task>, to: Task) -> Switch {
    Switch {
        from: match from {
            Some(task) => Some(task.stack.slot),
            None => None,
        },
        to: to.stack.slot,
        next_kernel_stack_top: to.rsp0() as u64,
        next_address_space: to.address_space_root,
    }
}

/// A task that goes back to waiting at tick `now`.
pub open spec fn requeued(task: Task, now: u64) -> Task {
    Task { ready_since: now, promoted: false, ..task }
}

/// The state after `p` was dispatched. The task that was running, if any,
/// waits at the back of the queue.
pub open spec fn dispatched(v: SchedulerView, p: Pick, now: u64) -> SchedulerView {
    let next = v.ready[p.index as int];
    let rest = v.ready.remove(p.index as int);
    SchedulerView {
        ready: match v.current {
            Some(task) => rest.push(requeued(task, now)),
            None => rest,
        },
        current: Some(Task { promoted: p.promoted, ..next }),
        held: 0,
        last_promotion: if p.promoted {
            Some(now)
        } else {
            v.last_promotion
        },
        stats: stats_after(v.stats, next.class, wait(next, now), p.promoted),
        ..v
    }
}

/// How long the current task may hold the CPU: one tick where it was
/// promoted, and its class's quantum otherwise.
pub open spec fn allowance(task: Task) -> int {
    if task.promoted {
        1
    } else {
        task.class.quantum()
    }
}

/// Whether a running task that has now held the CPU for `held` ticks gives
/// way to the task that would be dispatched: to a promotion or a more
/// urgent class at once, and to a peer when its time is up.
pub open spec fn gives_way(current: Task, held: int, next: Task, promoted: bool) -> bool {
    ||| promoted
    ||| next.class.spec_rank() > current.class.spec_rank()
    ||| (held >= allowance(current) && next.class.spec_rank() == current.class.spec_rank())
}

/// Every task's resume point is sound.
pub open spec fn tasks_are_sound(v: SchedulerView) -> bool {
    &&& forall|i: int| 0 <= i < v.ready.len() ==> (#[trigger] v.ready[i]).wf()
    &&& v.current matches Some(task) ==> task.wf()
}

impl Scheduler {
    pub open spec fn wf(&self) -> bool {
        tasks_are_sound(self@)
    }

    /// No tasks yet.
    pub fn new() -> (r: Scheduler)
        ensures
            r.wf(),
            r@.ready == Seq::<Task>::empty(),
            r@.current is None,
            r@.zombie is None,
            r@.held == 0,
            r@.last_promotion is None,
            r@.boot_supervisor_rsp == 0,
            r@.stats == no_stats(),
    {
        let none = ClassStats { dispatches: 0, max_wait_ticks: 0, promotions: 0 };
        Scheduler {
            ready: Vec::new(),
            current: None,
            zombie: None,
            held: 0,
            last_promotion: None,
            stats: Stats { background: none, normal: none, realtime: none },
            boot_supervisor_rsp: 0,
        }
    }

    fn enqueue(&mut self, task: Task)
        requires
            old(self).wf(),
            task.wf(),
        ensures
            final(self).wf(),
            final(self)@ == (SchedulerView { ready: old(self)@.ready.push(task), ..old(self)@ }),
    {
        self.ready.push(task);
    }

    /// Carries `p` out on the queue.
    fn dispatch(&mut self, p: Pick, now: u64) -> (switch: Switch)
        requires
            old(self).wf(),
            p.index < old(self)@.ready.len(),
        ensures
            final(self).wf(),
            final(self)@ == dispatched(old(self)@, p, now),
            switch == switch_to(old(self)@.current, old(self)@.ready[p.index as int]),
    {
        let ghost before = self@;
        let next: Task = self.ready.remove(p.index);
        assert(next.wf());
        let top: u64 = next.kernel_rsp0();
        let ticks: u64 = waited(&next, now);
        let from: Option<u64> = match self.current {
            Some(task) => {
                let mut waiting: Task = task;
                waiting.ready_since = now;
                waiting.promoted = false;
                self.ready.push(waiting);
                Some(task.stack.slot)
            },
            None => None,
        };
        let mut running: Task = next;
        running.promoted = p.promoted;
        self.current = Some(running);
        self.held = 0;
        if p.promoted {
            self.last_promotion = Some(now);
        }
        match next.class {
            SchedClass::Background => {
                self.stats.background = count_class(&self.stats.background, ticks, p.promoted);
            },
            SchedClass::Normal => {
                self.stats.normal = count_class(&self.stats.normal, ticks, p.promoted);
            },
            SchedClass::Realtime => {
                self.stats.realtime = count_class(&self.stats.realtime, ticks, p.promoted);
            },
        }
        proof {
            let after = dispatched(before, p, now);
            assert(self@.ready =~= after.ready);
            assert forall|i: int| 0 <= i < after.ready.len() implies (
            #[trigger] after.ready[i]).wf() by {
                let rest = before.ready.remove(p.index as int);
                if i < rest.len() {
                    if i < p.index {
                        assert(rest[i] == before.ready[i]);
                    } else {
                        assert(rest[i] == before.ready[i + 1]);
                    }
                }
            }
        }
        Switch {
            from,
            to: next.stack.slot,
            next_kernel_stack_top: top,
            next_address_space: next.address_space_root,
        }
    }
}

/// Nothing counted yet.
pub open spec fn no_stats() -> Stats {
    let none = ClassStats { dispatches: 0, max_wait_ticks: 0, promotions: 0 };
    Stats { background: none, normal: none, realtime: none }
}

/// Adds a task at the back of the queue, and returns what its stack has to
/// hold.
pub fn spawn(scheduler: &mut Scheduler, stack: KernelStack, entry: u64, now: u64) -> (frame: Frame)
    requires
        old(scheduler).wf(),
        stack.top >= 64,
    ensures
        final(scheduler).wf(),
        final(scheduler)@ == (SchedulerView {
            ready: old(scheduler)@.ready.push(Task { ready_since: now, ..fresh_task(stack) }),
            ..old(scheduler)@
        }),
        frame.stack_pointer == stack.top - 64,
        frame.words@ == seq![0u64, 0, 0, 0, 0, 0, INITIAL_RFLAGS, entry],
{
    let (mut task, frame) = Task::new(stack, entry);
    task.ready_since = now;
    scheduler.enqueue(task);
    frame
}

/// Adds a task of the given class.
pub fn spawn_in_class(
    scheduler: &mut Scheduler,
    stack: KernelStack,
    entry: u64,
    class: SchedClass,
    now: u64,
) -> (frame: Frame)
    requires
        old(scheduler).wf(),
        stack.top >= 64,
    ensures
        final(scheduler).wf(),
        final(scheduler)@ == (SchedulerView {
            ready: old(scheduler)@.ready.push(
                Task { ready_since: now, class, ..fresh_task(stack) },
            ),
            ..old(scheduler)@
        }),
        frame.stack_pointer == stack.top - 64,
        frame.words@ == seq![0u64, 0, 0, 0, 0, 0, INITIAL_RFLAGS, entry],
{
    let (mut task, frame) = Task::new(stack, entry);
    task.ready_since = now;
    task.class = class;
    scheduler.enqueue(task);
    frame
}

/// Adds a task whose entry point receives a context pointer.
pub fn spawn_with_context(
    scheduler: &mut Scheduler,
    stack: KernelStack,
    trampoline: u64,
    entry: u64,
    context: u64,
    now: u64,
) -> (frame: Frame)
    requires
        old(scheduler).wf(),
        stack.top >= 64,
    ensures
        final(scheduler).wf(),
        final(scheduler)@ == (SchedulerView {
            ready: old(scheduler)@.ready.push(Task { ready_since: now, ..fresh_task(stack) }),
            ..old(scheduler)@
        }),
        frame.stack_pointer == stack.top - 64,
        frame.words@ == seq![0u64, 0, entry, context, 0, 0, INITIAL_RFLAGS, trampoline],
{
    let (mut task, frame) = Task::new_with_context(stack, trampoline, entry, context);
    task.ready_since = now;
    scheduler.enqueue(task);
    frame
}

/// Adds the task of a process: it has its own address space, its identity,
/// and the class of its Realm.
pub fn spawn_process(
    scheduler: &mut Scheduler,
    stack: KernelStack,
    start: (u64, u64, u64),
    address_space_root: u64,
    pid: u64,
    class: SchedClass,
    now: u64,
) -> (frame: Frame)
    requires
        old(scheduler).wf(),
        stack.top >= 64,
    ensures
        final(scheduler).wf(),
        final(scheduler)@ == (SchedulerView {
            ready: old(scheduler)@.ready.push(
                Task {
                    ready_since: now,
                    address_space_root: Some(address_space_root),
                    pid,
                    class,
                    ..fresh_task(stack)
                },
            ),
            ..old(scheduler)@
        }),
        frame.stack_pointer == stack.top - 64,
        frame.words@ == seq![0u64, 0, start.1, start.2, 0, 0, INITIAL_RFLAGS, start.0],
{
    let (mut task, frame) = Task::new_with_context(stack, start.0, start.1, start.2);
    task.ready_since = now;
    task.address_space_root = Some(address_space_root);
    task.pid = pid;
    task.class = class;
    scheduler.enqueue(task);
    frame
}

/// What a request to switch comes to.
pub open spec fn switch_plan(v: SchedulerView, kind: SwitchKind, now: u64) -> (
    SchedulerView,
    Option<Switch>,
) {
    match v.current {
        None => (v, None),
        Some(current) => {
            let held = counted(v.held);
            let aged = if kind == SwitchKind::Preemptive {
                SchedulerView { held, ..v }
            } else {
                v
            };
            if v.ready.len() == 0 {
                (aged, None)
            } else {
                let contender = if kind == SwitchKind::Preemptive {
                    Some(current.class)
                } else {
                    None
                };
                let p = choice(v.ready, contender, now, v.last_promotion);
                let next = v.ready[p.index as int];
                if kind == SwitchKind::Preemptive && !gives_way(
                    current,
                    held as int,
                    next,
                    p.promoted,
                ) {
                    (aged, None)
                } else {
                    (dispatched(v, p, now), Some(switch_to(v.current, next)))
                }
            }
        },
    }
}

/// Decides on a switch and carries it out on the queue. Giving the CPU up
/// always goes to whoever is next; the timer takes it away only where the
/// running task has to give way. A task that gives the CPU up voluntarily
/// has to be running.
pub fn plan_switch(scheduler: &mut Scheduler, kind: SwitchKind, now: u64) -> (r: Option<Switch>)
    requires
        old(scheduler).wf(),
        kind == SwitchKind::Voluntary && old(scheduler)@.ready.len() > 0
            ==> old(scheduler)@.current is Some,
    ensures
        final(scheduler).wf(),
        (final(scheduler)@, r) == switch_plan(old(scheduler)@, kind, now),
{
    let current: Task = match scheduler.current {
        Some(task) => task,
        None => {
            return None;
        },
    };
    let held: u64 = scheduler.held.saturating_add(1);
    let contender: Option<SchedClass> = if kind == SwitchKind::Preemptive {
        Some(current.class)
    } else {
        None
    };
    match pick(&scheduler.ready, contender, now, scheduler.last_promotion) {
        None => {
            if kind == SwitchKind::Preemptive {
                scheduler.held = held;
            }
            None
        },
        Some(p) => {
            let next: Task = scheduler.ready[p.index];
            if kind == SwitchKind::Preemptive {
                let allowed: u64 = if current.promoted {
                    1
                } else {
                    current.class.quantum_ticks()
                };
                let urgent: bool = next.class.rank() > current.class.rank();
                let peer: bool = next.class.rank() == current.class.rank();
                if !(p.promoted || urgent || (held >= allowed && peer)) {
                    scheduler.held = held;
                    return None;
                }
            }
            Some(scheduler.dispatch(p, now))
        },
    }
}

/// Gives the rest of the running task's turn up.
pub fn yield_now(scheduler: &mut Scheduler, now: u64) -> (r: Option<Switch>)
    requires
        old(scheduler).wf(),
        old(scheduler)@.ready.len() > 0 ==> old(scheduler)@.current is Some,
    ensures
        final(scheduler).wf(),
        (final(scheduler)@, r) == switch_plan(old(scheduler)@, SwitchKind::Voluntary, now),
{
    plan_switch(scheduler, SwitchKind::Voluntary, now)
}

/// Gives the rest of the turn up on behalf of a user program. Without a
/// task that is nothing to do, not a failure.
pub fn yield_from_syscall(scheduler: &mut Scheduler, now: u64) -> (r: Option<Switch>)
    requires
        old(scheduler).wf(),
    ensures
        final(scheduler).wf(),
        (final(scheduler)@, r) == switch_plan(old(scheduler)@, SwitchKind::VoluntaryFromUser, now),
{
    plan_switch(scheduler, SwitchKind::VoluntaryFromUser, now)
}

/// The timer fired: takes the CPU away where the running task has to give
/// way.
pub fn preempt(scheduler: &mut Scheduler, now: u64) -> (r: Option<Switch>)
    requires
        old(scheduler).wf(),
    ensures
        final(scheduler).wf(),
        (final(scheduler)@, r) == switch_plan(old(scheduler)@, SwitchKind::Preemptive, now),
{
    plan_switch(scheduler, SwitchKind::Preemptive, now)
}

/// Where control goes when a task exits.
#[derive(Debug, Clone, Copy, PartialEq, Eq, Structural)]
pub enum AfterExit {
    /// Another task continues.
    Task(Switch),
    /// The context that started the scheduler continues.
    Boot,
    /// There is nothing left to run and nowhere to return to.
    Halt,
}

/// The state after the running task exited, without what runs next.
pub open spec fn buried(v: SchedulerView) -> SchedulerView {
    SchedulerView { current: None, zombie: v.current, ..v }
}

/// Ends the running task. Returns the task that exited before it, whose
/// stack is free now, and where control goes.
pub fn exit_task(scheduler: &mut Scheduler, boot_context_saved: bool, now: u64) -> (r: (
    Option<Task>,
    AfterExit,
))
    requires
        old(scheduler).wf(),
        old(scheduler)@.current is Some,
    ensures
        final(scheduler).wf(),
        r.0 == old(scheduler)@.zombie,
        if old(scheduler)@.ready.len() == 0 {
            &&& final(scheduler)@ == buried(old(scheduler)@)
            &&& r.1 == (if boot_context_saved {
                AfterExit::Boot
            } else {
                AfterExit::Halt
            })
        } else {
            let v = buried(old(scheduler)@);
            let p = choice(v.ready, None, now, v.last_promotion);
            &&& final(scheduler)@ == dispatched(v, p, now)
            &&& r.1 == AfterExit::Task(switch_to(None, v.ready[p.index as int]))
        },
{
    let reaped: Option<Task> = scheduler.zombie;
    scheduler.zombie = scheduler.current;
    scheduler.current = None;
    match pick(&scheduler.ready, None, now, scheduler.last_promotion) {
        Some(p) => {
            let switch = scheduler.dispatch(p, now);
            (reaped, AfterExit::Task(switch))
        },
        None => {
            if boot_context_saved {
                (reaped, AfterExit::Boot)
            } else {
                (reaped, AfterExit::Halt)
            }
        },
    }
}

/// Frees the task that exited last, if any.
pub fn reap_zombie(scheduler: &mut Scheduler) -> (reaped: Option<Task>)
    requires
        old(scheduler).wf(),
    ensures
        final(scheduler).wf(),
        reaped == old(scheduler)@.zombie,
        final(scheduler)@ == (SchedulerView { zombie: None, ..old(scheduler)@ }),
{
    let reaped: Option<Task> = scheduler.zombie;
    scheduler.zombie = None;
    reaped
}

/// How many tasks are queued or running.
pub fn task_count(scheduler: &Scheduler) -> (n: usize)
    requires
        scheduler@.ready.len() < usize::MAX,
    ensures
        n == scheduler@.ready.len() + (if scheduler@.current is Some {
            1int
        } else {
            0
        }),
{
    if scheduler.current.is_some() {
        scheduler.ready.len() + 1
    } else {
        scheduler.ready.len()
    }
}

/// Hands the CPU from the boot context to the first task. With nothing to
/// run there is nothing to do.
pub fn run_until_idle(scheduler: &mut Scheduler, now: u64) -> (r: Option<Switch>)
    requires
        old(scheduler).wf(),
        old(scheduler)@.current is None,
    ensures
        final(scheduler).wf(),
        if old(scheduler)@.ready.len() == 0 {
            r is None && final(scheduler)@ == old(scheduler)@
        } else {
            let p = choice(
                old(scheduler)@.ready,
                None,
                now,
                old(scheduler)@.last_promotion,
            );
            &&& r == Some(switch_to(None, old(scheduler)@.ready[p.index as int]))
            &&& final(scheduler)@ == dispatched(old(scheduler)@, p, now)
        },
{
    match pick(&scheduler.ready, None, now, scheduler.last_promotion) {
        Some(p) => Some(scheduler.dispatch(p, now)),
        None => None,
    }
}

/// Hands the CPU to the first task for good. There has to be one.
pub fn start(scheduler: &mut Scheduler, now: u64) -> (r: Switch)
    requires
        old(scheduler).wf(),
        old(scheduler)@.current is None,
        old(scheduler)@.ready.len() > 0,
    ensures
        final(scheduler).wf(),
        ({
            let p = choice(
                old(scheduler)@.ready,
                None,
                now,
                old(scheduler)@.last_promotion,
            );
            &&& r == switch_to(None, old(scheduler)@.ready[p.index as int])
            &&& final(scheduler)@ == dispatched(old(scheduler)@, p, now)
        }),
{
    let p: Pick = match pick(&scheduler.ready, None, now, scheduler.last_promotion) {
        Some(p) => p,
        None => Pick { index: 0, promoted: false },
    };
    scheduler.dispatch(p, now)
}

/// The resume point of the current context: the running task's, or the
/// boot context's where there is none.
pub fn supervisor_slot(scheduler: &Scheduler) -> (rsp: u64)
    ensures
        rsp == (match scheduler@.current {
            Some(task) => task.supervisor_rsp,
            None => scheduler@.boot_supervisor_rsp,
        }),
{
    match scheduler.current {
        Some(task) => task.supervisor_rsp,
        None => scheduler.boot_supervisor_rsp,
    }
}

/// Sets the resume point of the current context. Zero says that no user
/// program is running.
pub fn set_supervisor_slot(scheduler: &mut Scheduler, rsp: u64)
    requires
        old(scheduler).wf(),
        rsp == 0 || rsp >= 8,
    ensures
        final(scheduler).wf(),
        final(scheduler)@ == (match old(scheduler)@.current {
            Some(task) => SchedulerView {
                current: Some(Task { supervisor_rsp: rsp, ..task }),
                ..old(scheduler)@
            },
            None => SchedulerView { boot_supervisor_rsp: rsp, ..old(scheduler)@ },
        }),
{
    match scheduler.current {
        Some(task) => {
            let mut changed: Task = task;
            changed.supervisor_rsp = rsp;
            scheduler.current = Some(changed);
        },
        None => {
            scheduler.boot_supervisor_rsp = rsp;
        },
    }
}

/// Whether a task is running.
pub fn task_is_running(scheduler: &Scheduler) -> (r: bool)
    ensures
        r == scheduler@.current.is_some(),
{
    scheduler.current.is_some()
}

/// Whether the running task has an address space of its own, and so whether
/// a user program running on it can be preempted.
pub fn current_task_owns_kernel_stack(scheduler: &Scheduler) -> (r: bool)
    ensures
        r == (scheduler@.current matches Some(task) && task.address_space_root is Some),
{
    match scheduler.current {
        Some(task) => task.address_space_root.is_some(),
        None => false,
    }
}

/// The process on the CPU, or 0 where there is none.
pub fn current_pid(scheduler: &Scheduler) -> (pid: u64)
    ensures
        pid == (match scheduler@.current {
            Some(task) => task.pid,
            None => 0,
        }),
{
    match scheduler.current {
        Some(task) => task.pid,
        None => 0,
    }
}

/// Moves the running task to another class.
pub fn set_current_class(scheduler: &mut Scheduler, class: SchedClass)
    requires
        old(scheduler).wf(),
    ensures
        final(scheduler).wf(),
        final(scheduler)@ == (match old(scheduler)@.current {
            Some(task) => SchedulerView {
                current: Some(Task { class, ..task }),
                ..old(scheduler)@
            },
            None => old(scheduler)@,
        }),
{
    if let Some(task) = scheduler.current {
        let mut changed: Task = task;
        changed.class = class;
        scheduler.current = Some(changed);
    }
}

/// The statistics of every class, the least urgent first.
pub fn class_stats(scheduler: &Scheduler) -> (r: [(SchedClass, ClassStats); 3])
    ensures
        r@ == seq![
            (SchedClass::Background, scheduler@.stats.background),
            (SchedClass::Normal, scheduler@.stats.normal),
            (SchedClass::Realtime, scheduler@.stats.realtime),
        ],
{
    let r: [(SchedClass, ClassStats); 3] = [
        (SchedClass::Background, scheduler.stats.background),
        (SchedClass::Normal, scheduler.stats.normal),
        (SchedClass::Realtime, scheduler.stats.realtime),
    ];
    assert(r@ =~= seq![
        (SchedClass::Background, scheduler@.stats.background),
        (SchedClass::Normal, scheduler@.stats.normal),
        (SchedClass::Realtime, scheduler@.stats.realtime),
    ]);
    r
}

// ---------------------------------------------------------------------
// Laws
// ---------------------------------------------------------------------

/// Among tasks of one class the scheduler is first in, first out, and never
/// promotes anyone.
pub proof fn law_one_class_is_fifo(
    ready: Seq<Task>,
    running: Option<SchedClass>,
    now: u64,
    last: Option<u64>,
)
    requires
        0 < ready.len() <= usize::MAX,
        forall|i: int| 0 <= i < ready.len() ==> (#[trigger] ready[i]).class == ready[0].class,
        running matches Some(class) ==> class == ready[0].class,
    ensures
        choice(ready, running, now, last) == (Pick { index: 0, promoted: false }),
{
    lemma_most_urgent(ready);
    let best = most_urgent(ready);
    assert(ready[best].class == ready[0].class);
    if best > 0 {
        assert(ready[0].class.spec_rank() < ready[best].class.spec_rank());
    }
    lemma_first_starved(ready, now, ready[best].class.spec_rank(), 0);
}

/// A dispatch that is no promotion goes to the most urgent class there is,
/// and within it to the task that has been ready longest.
pub proof fn law_most_urgent_goes_first(
    ready: Seq<Task>,
    running: Option<SchedClass>,
    now: u64,
    last: Option<u64>,
    i: int,
)
    requires
        0 < ready.len() <= usize::MAX,
        !choice(ready, running, now, last).promoted,
        0 <= i < ready.len(),
    ensures
        ({
            let p = choice(ready, running, now, last);
            let next = ready[p.index as int];
            &&& ready[i].class.spec_rank() <= next.class.spec_rank()
            &&& i < p.index ==> ready[i].class.spec_rank() < next.class.spec_rank()
        }),
{
    lemma_most_urgent(ready);
}

/// A task that has waited past the limit behind a more urgent class is
/// rescued as soon as a promotion is due: what is dispatched then is a
/// starved task, and no starved task before it in the queue is passed
/// over.
pub proof fn law_starved_tasks_are_rescued(
    ready: Seq<Task>,
    running: Option<SchedClass>,
    now: u64,
    last: Option<u64>,
    i: int,
)
    requires
        0 < ready.len() <= usize::MAX,
        0 <= i < ready.len(),
        is_starved(ready[i], now, contested_rank(ready, running)),
        may_promote(last, now),
    ensures
        ({
            let p = choice(ready, running, now, last);
            &&& p.promoted
            &&& p.index <= i
            &&& is_starved(ready[p.index as int], now, contested_rank(ready, running))
        }),
{
    lemma_first_starved(ready, now, contested_rank(ready, running), 0);
}

/// Promotions are at least the interval apart: a dispatch is a promotion
/// only where the last one is that long ago, and it is then the last one.
pub proof fn law_promotions_are_rationed(v: SchedulerView, running: Option<SchedClass>, now: u64)
    requires
        0 < v.ready.len() <= usize::MAX,
        choice(v.ready, running, now, v.last_promotion).promoted,
    ensures
        v.last_promotion matches Some(t) ==> now - t >= PROMOTION_INTERVAL_TICKS,
        dispatched(
            v,
            choice(v.ready, running, now, v.last_promotion),
            now,
        ).last_promotion == Some(now),
{
}

/// A more urgent task takes the CPU at the next tick, whatever is left of
/// the running task's time.
pub proof fn law_urgent_tasks_preempt_at_once(v: SchedulerView, now: u64, i: int)
    requires
        v.ready.len() <= usize::MAX,
        v.current is Some,
        0 <= i < v.ready.len(),
        v.ready[i].class.spec_rank() > v.current.unwrap().class.spec_rank(),
    ensures
        switch_plan(v, SwitchKind::Preemptive, now).1 is Some,
{
    let running = Some(v.current.unwrap().class);
    lemma_most_urgent(v.ready);
    lemma_first_starved(v.ready, now, contested_rank(v.ready, running), 0);
}

/// The state after `n` ticks of the timer, the first of them at `now`, with
/// nothing else happening meanwhile.
pub open spec fn after_ticks(v: SchedulerView, now: u64, n: nat) -> SchedulerView
    decreases n,
{
    if n == 0 {
        v
    } else {
        switch_plan(
            after_ticks(v, now, (n - 1) as nat),
            SwitchKind::Preemptive,
            (now + n - 1) as u64,
        ).0
    }
}

/// Whether something more urgent than `rank` is running or ready.
pub open spec fn is_outranked(v: SchedulerView, rank: int) -> bool {
    ||| v.current matches Some(task) && task.class.spec_rank() > rank
    ||| exists|i: int| 0 <= i < v.ready.len() && (#[trigger] v.ready[i]).class.spec_rank() > rank
}

/// How many ticks it is until another promotion is due.
spec fn until_due(last_promotion: Option<u64>, now: int) -> int {
    match last_promotion {
        Some(t) if now - t < PROMOTION_INTERVAL_TICKS => t + PROMOTION_INTERVAL_TICKS - now,
        _ => 0,
    }
}

/// One tick as seen by a starved task at position `i`: it is dispatched, or
/// it has not moved back, and has moved up where a promotion was due.
proof fn lemma_starved_tick(v: SchedulerView, now: u64, i: int)
    requires
        v.ready.len() <= usize::MAX,
        v.current is Some,
        0 <= i < v.ready.len(),
        wait(v.ready[i], now) >= STARVATION_LIMIT_TICKS,
        is_outranked(v, v.ready[i].class.spec_rank()),
        v.last_promotion matches Some(t) ==> t <= now,
    ensures
        ({
            let after = switch_plan(v, SwitchKind::Preemptive, now).0;
            &&& after.current is Some
            &&& after.ready.len() == v.ready.len()
            &&& after.last_promotion matches Some(t) ==> t <= now
            &&& after.current.unwrap().stack == v.ready[i].stack || exists|j: int|
                0 <= j <= i && #[trigger] after.ready[j] == v.ready[i] && until_due(
                    after.last_promotion,
                    now + 1,
                ) + PROMOTION_INTERVAL_TICKS * j < until_due(v.last_promotion, now as int)
                    + PROMOTION_INTERVAL_TICKS * i
        }),
{
    let running = Some(v.current.unwrap().class);
    let p = choice(v.ready, running, now, v.last_promotion);
    let after = switch_plan(v, SwitchKind::Preemptive, now).0;
    let rank = contested_rank(v.ready, running);
    lemma_most_urgent(v.ready);
    lemma_first_starved(v.ready, now, rank, 0);
    assert(is_starved(v.ready[i], now, rank)) by {
        if v.current.unwrap().class.spec_rank() <= v.ready[i].class.spec_rank() {
            let k = choose|k: int|
                0 <= k < v.ready.len() && (#[trigger] v.ready[k]).class.spec_rank()
                    > v.ready[i].class.spec_rank();
            assert(v.ready[k].class.spec_rank() <= v.ready[most_urgent(
                v.ready,
            )].class.spec_rank());
        }
    }
    let at = p.index as int;
    if may_promote(v.last_promotion, now) {
        law_starved_tasks_are_rescued(v.ready, running, now, v.last_promotion, i);
        if at < i {
            assert(after.ready[i - 1] == v.ready[i]);
        }
    } else if at == i && after.held == 0 {
    } else if after.ready == v.ready {
        assert(after.ready[i] == v.ready[i]);
    } else if at < i {
        assert(after.ready[i - 1] == v.ready[i]);
    } else {
        assert(after.ready[i] == v.ready[i]);
    }
}

/// No task starves: one that has waited past the limit, and is kept from
/// the CPU by nothing but more urgent tasks, gets the CPU before long, even
/// if none of them ever gives it up. With `i` tasks before it in the queue
/// it takes at most as many more promotions.
pub proof fn law_no_task_starves(v: SchedulerView, now: u64, i: int)
    requires
        v.ready.len() <= usize::MAX,
        v.current is Some,
        0 <= i < v.ready.len(),
        wait(v.ready[i], now) >= STARVATION_LIMIT_TICKS,
        v.last_promotion matches Some(t) ==> t <= now,
        now + PROMOTION_INTERVAL_TICKS * (i + 2) <= u64::MAX,
        forall|n: nat|
            n <= PROMOTION_INTERVAL_TICKS * (i + 2) ==> is_outranked(
                #[trigger] after_ticks(v, now, n),
                v.ready[i].class.spec_rank(),
            ),
    ensures
        exists|n: nat|
            n <= PROMOTION_INTERVAL_TICKS * (i + 2) && (#[trigger] after_ticks(
                v,
                now,
                n,
            )).current.unwrap().stack == v.ready[i].stack,
{
    assert(after_ticks(v, now, 0) == v);
    lemma_starved_ticks(v, now, v.ready[i], i, 0, PROMOTION_INTERVAL_TICKS * (i + 2));
}

/// From tick `n` on, with the task at position `j`.
proof fn lemma_starved_ticks(v: SchedulerView, now: u64, task: Task, j: int, n: nat, limit: int)
    requires
        after_ticks(v, now, n).ready.len() <= usize::MAX,
        after_ticks(v, now, n).current is Some,
        0 <= j < after_ticks(v, now, n).ready.len(),
        after_ticks(v, now, n).ready[j] == task,
        wait(task, now) >= STARVATION_LIMIT_TICKS,
        now + limit <= u64::MAX,
        after_ticks(v, now, n).last_promotion matches Some(t) ==> t <= now + n,
        n + until_due(after_ticks(v, now, n).last_promotion, now + n) + PROMOTION_INTERVAL_TICKS
            * j < limit,
        forall|k: nat|
            k <= limit ==> is_outranked(
                #[trigger] after_ticks(v, now, k),
                task.class.spec_rank(),
            ),
    ensures
        exists|k: nat|
            k <= limit && (#[trigger] after_ticks(v, now, k)).current.unwrap().stack == task.stack,
    decreases limit - n,
{
    let before = after_ticks(v, now, n);
    let tick = (now + n) as u64;
    lemma_starved_tick(before, tick, j);
    let after = after_ticks(v, now, n + 1);
    assert(after == switch_plan(before, SwitchKind::Preemptive, tick).0);
    if after.current.unwrap().stack != task.stack {
        let next = choose|k: int|
            0 <= k <= j && #[trigger] after.ready[k] == task && until_due(
                after.last_promotion,
                tick + 1,
            ) + PROMOTION_INTERVAL_TICKS * k < until_due(before.last_promotion, tick as int)
                + PROMOTION_INTERVAL_TICKS * j;
        lemma_starved_ticks(v, now, task, next, n + 1, limit);
    }
}

/// A task that waits behind a single peer of its own class waits no longer
/// than that class's quantum, even if the peer never gives the CPU up.
pub proof fn law_peer_waits_at_most_a_quantum(v: SchedulerView, now: u64)
    requires
        v.current is Some,
        v.ready.len() == 1,
        v.ready[0].class == v.current.unwrap().class,
        now + v.ready[0].class.quantum() <= u64::MAX,
    ensures
        exists|n: nat|
            n <= v.ready[0].class.quantum() && (#[trigger] after_ticks(
                v,
                now,
                n,
            )).current.unwrap().stack == v.ready[0].stack,
{
    let allowed = allowance(v.current.unwrap());
    let quiet: nat = if v.held + 1 < allowed {
        (allowed - v.held - 1) as nat
    } else {
        0
    };
    lemma_peer_keeps_waiting(v, now, quiet);
    let before = after_ticks(v, now, quiet);
    let tick = (now + quiet) as u64;
    law_one_class_is_fifo(
        before.ready,
        Some(before.current.unwrap().class),
        tick,
        before.last_promotion,
    );
    assert(after_ticks(v, now, quiet + 1) == switch_plan(before, SwitchKind::Preemptive, tick).0);
}

/// Until the running task's time is up, ticks only count it down.
proof fn lemma_peer_keeps_waiting(v: SchedulerView, now: u64, n: nat)
    requires
        v.current is Some,
        v.ready.len() == 1,
        v.ready[0].class == v.current.unwrap().class,
        n > 0 ==> v.held + n < allowance(v.current.unwrap()),
        now + n <= u64::MAX,
    ensures
        after_ticks(v, now, n) == (SchedulerView { held: (v.held + n) as u64, ..v }),
    decreases n,
{
    if n > 0 {
        let less = (n - 1) as nat;
        lemma_peer_keeps_waiting(v, now, less);
        law_one_class_is_fifo(
            v.ready,
            Some(v.current.unwrap().class),
            (now + n - 1) as u64,
            v.last_promotion,
        );
    }
}

/// No task is lost, duplicated or mixed up with another by a switch: what
/// was running waits at the back of the queue from now on, what is
/// dispatched runs, and everyone else keeps their place in the order. Of no
/// task does anything else change.
pub proof fn law_switching_keeps_every_task(v: SchedulerView, p: Pick, now: u64)
    requires
        p.index < v.ready.len(),
    ensures
        ({
            let after = dispatched(v, p, now);
            let at = p.index as int;
            &&& after.current == Some(Task { promoted: p.promoted, ..v.ready[at] })
            &&& forall|i: int| 0 <= i < at ==> #[trigger] after.ready[i] == v.ready[i]
            &&& forall|i: int|
                at <= i < v.ready.len() - 1 ==> #[trigger] after.ready[i] == v.ready[i + 1]
            &&& match v.current {
                Some(task) => {
                    &&& after.ready.len() == v.ready.len()
                    &&& after.ready.last() == Task { ready_since: now, promoted: false, ..task }
                },
                None => after.ready.len() == v.ready.len() - 1,
            }
            &&& after.held == 0
            &&& after.zombie == v.zombie
            &&& after.boot_supervisor_rsp == v.boot_supervisor_rsp
        }),
{
}

/// What is dispatched continues as itself: the switch names the slot of the
/// very task that runs afterwards, loads that task's page tables and none
/// other, and points the privilege stack at that task's own stack, or below
/// the resume point of the program it is running.
pub proof fn law_dispatch_continues_its_task(v: SchedulerView, p: Pick, now: u64)
    requires
        tasks_are_sound(v),
        p.index < v.ready.len(),
    ensures
        ({
            let s = switch_to(v.current, v.ready[p.index as int]);
            let next = dispatched(v, p, now).current.unwrap();
            &&& dispatched(v, p, now).current is Some
            &&& s.to == next.stack.slot
            &&& s.next_address_space == next.address_space_root
            &&& next.supervisor_rsp == 0 ==> s.next_kernel_stack_top == next.stack.top
            &&& next.supervisor_rsp != 0 ==> s.next_kernel_stack_top + 8 == next.supervisor_rsp
            &&& s.from is Some <==> v.current is Some
            &&& v.current matches Some(task) ==> s.from == Some(task.stack.slot)
        }),
{
    assert(v.ready[p.index as int].wf());
}

/// Whatever asks for a switch, the task that continues gets its own page
/// tables and its own stack, and it is one that was waiting. Where nothing is
/// switched, the same task goes on and the queue stays as it is.
pub proof fn law_switch_continues_its_task(v: SchedulerView, kind: SwitchKind, now: u64)
    requires
        tasks_are_sound(v),
        v.ready.len() <= usize::MAX,
    ensures
        ({
            let after = switch_plan(v, kind, now).0;
            match switch_plan(v, kind, now).1 {
                Some(s) => {
                    let next = after.current.unwrap();
                    &&& after.current is Some
                    &&& v.current is Some
                    &&& s.from == Some(v.current.unwrap().stack.slot)
                    &&& s.to == next.stack.slot
                    &&& s.next_address_space == next.address_space_root
                    &&& next.supervisor_rsp == 0 ==> s.next_kernel_stack_top == next.stack.top
                    &&& next.supervisor_rsp != 0 ==> s.next_kernel_stack_top + 8
                        == next.supervisor_rsp
                    &&& exists|i: int|
                        0 <= i < v.ready.len() && next == (Task {
                            promoted: next.promoted,
                            ..#[trigger] v.ready[i]
                        })
                    &&& after.ready.len() == v.ready.len()
                    &&& after.ready.last().stack == v.current.unwrap().stack
                },
                None => after.current == v.current && after.ready == v.ready,
            }
        }),
{
    if v.current is Some && v.ready.len() > 0 {
        let contender = if kind == SwitchKind::Preemptive {
            Some(v.current.unwrap().class)
        } else {
            None
        };
        let p = choice(v.ready, contender, now, v.last_promotion);
        lemma_most_urgent(v.ready);
        lemma_first_starved(v.ready, now, contested_rank(v.ready, contender), 0);
        law_dispatch_continues_its_task(v, p, now);
        law_switching_keeps_every_task(v, p, now);
        assert(v.ready[p.index as int].wf());
    }
}

/// Whether something more urgent than `rank` is ready, or is running and
/// would have to give way.
pub open spec fn is_behind(ready: Seq<Task>, running: Option<SchedClass>, rank: int) -> bool {
    ||| running matches Some(class) && class.spec_rank() > rank
    ||| exists|k: int| 0 <= k < ready.len() && (#[trigger] ready[k]).class.spec_rank() > rank
}

/// A promotion is earned: the task has been ready for the limit of half a
/// second, something more urgent is in its way, and the last promotion is at
/// least five ticks ago.
pub proof fn law_promotions_are_earned(
    ready: Seq<Task>,
    running: Option<SchedClass>,
    now: u64,
    last: Option<u64>,
)
    requires
        0 < ready.len() <= usize::MAX,
        choice(ready, running, now, last).promoted,
    ensures
        ({
            let task = ready[choice(ready, running, now, last).index as int];
            &&& choice(ready, running, now, last).index < ready.len()
            &&& task.ready_since + 50 <= now
            &&& is_behind(ready, running, task.class.spec_rank())
            &&& last matches Some(t) ==> t + 5 <= now
        }),
{
    lemma_most_urgent(ready);
    let rank = contested_rank(ready, running);
    lemma_first_starved(ready, now, rank, 0);
    let best = most_urgent(ready);
    assert(ready[best].class.spec_rank() <= rank);
}

/// A task that has been ready for half a second behind something more urgent
/// is not passed over once a promotion is due: what is dispatched then is
/// that task, or one before it in the queue that has waited as long.
pub proof fn law_overdue_task_is_promoted(
    ready: Seq<Task>,
    running: Option<SchedClass>,
    now: u64,
    last: Option<u64>,
    i: int,
)
    requires
        0 < ready.len() <= usize::MAX,
        0 <= i < ready.len(),
        ready[i].ready_since + 50 <= now,
        is_behind(ready, running, ready[i].class.spec_rank()),
        last matches Some(t) ==> t + 5 <= now,
    ensures
        choice(ready, running, now, last).promoted,
        choice(ready, running, now, last).index <= i,
{
    lemma_most_urgent(ready);
    let rank = contested_rank(ready, running);
    lemma_first_starved(ready, now, rank, 0);
    assert(is_starved(ready[i], now, rank)) by {
        if !(running matches Some(class) && class.spec_rank() > ready[i].class.spec_rank()) {
            let k = choose|k: int|
                0 <= k < ready.len() && (#[trigger] ready[k]).class.spec_rank()
                    > ready[i].class.spec_rank();
            assert(ready[k].class.spec_rank() <= ready[most_urgent(ready)].class.spec_rank());
        }
    }
}

/// The timer takes the CPU away exactly where it has to: from a task that
/// something more urgent waits for, and from one whose time is up and that a
/// peer waits for. Its time is its class's quantum, or one tick where it was
/// promoted; a less urgent task gets the CPU by a promotion only.
pub proof fn law_timer_takes_the_cpu_only_where_due(v: SchedulerView, now: u64)
    requires
        v.ready.len() <= usize::MAX,
        v.current is Some,
        v.ready.len() > 0 ==> !choice(
            v.ready,
            Some(v.current.unwrap().class),
            now,
            v.last_promotion,
        ).promoted,
    ensures
        ({
            let current = v.current.unwrap();
            let rank = current.class.spec_rank();
            let time = if current.promoted {
                1
            } else {
                current.class.quantum()
            };
            switch_plan(v, SwitchKind::Preemptive, now).1 is Some <==> {
                ||| exists|i: int|
                    0 <= i < v.ready.len() && (#[trigger] v.ready[i]).class.spec_rank() > rank
                ||| v.held + 1 >= time && exists|i: int|
                    0 <= i < v.ready.len() && (#[trigger] v.ready[i]).class.spec_rank() >= rank
            }
        }),
        switch_plan(v, SwitchKind::Preemptive, now).1 is None ==> (v.held < u64::MAX
            ==> switch_plan(v, SwitchKind::Preemptive, now).0.held == v.held + 1),
{
    if v.ready.len() > 0 {
        lemma_most_urgent(v.ready);
        let best = most_urgent(v.ready);
        lemma_first_starved(
            v.ready,
            now,
            contested_rank(v.ready, Some(v.current.unwrap().class)),
            0,
        );
        assert(v.ready[best].class.spec_rank() == v.ready[best].class.spec_rank());
    }
}

/// A task that gives the CPU up loses it exactly where another one is ready,
/// and only its own turn ends: without one it simply goes on.
pub proof fn law_giving_up_hands_over(v: SchedulerView, kind: SwitchKind, now: u64)
    requires
        kind != SwitchKind::Preemptive,
    ensures
        switch_plan(v, kind, now).1 is Some <==> v.current is Some && v.ready.len() > 0,
        switch_plan(v, kind, now).1 is None ==> switch_plan(v, kind, now).0 == v,
{
}

/// The statistics of one class.
pub open spec fn stats_of(s: Stats, class: SchedClass) -> ClassStats {
    match class {
        SchedClass::Background => s.background,
        SchedClass::Normal => s.normal,
        SchedClass::Realtime => s.realtime,
    }
}

/// Every dispatch is counted once, in the class of the task that was
/// dispatched and in no other, and the longest wait of a class is never less
/// than any wait of one of its tasks.
pub proof fn law_dispatches_are_counted(v: SchedulerView, p: Pick, now: u64, other: SchedClass)
    requires
        p.index < v.ready.len(),
        stats_of(v.stats, v.ready[p.index as int].class).dispatches < u64::MAX,
        stats_of(v.stats, v.ready[p.index as int].class).promotions < u64::MAX,
        v.ready[p.index as int].ready_since <= now,
    ensures
        ({
            let task = v.ready[p.index as int];
            let before = stats_of(v.stats, task.class);
            let after = stats_of(dispatched(v, p, now).stats, task.class);
            &&& after.dispatches == before.dispatches + 1
            &&& after.promotions == before.promotions + (if p.promoted {
                1int
            } else {
                0
            })
            &&& after.max_wait_ticks >= before.max_wait_ticks
            &&& after.max_wait_ticks >= now - task.ready_since
            &&& after.max_wait_ticks == before.max_wait_ticks || after.max_wait_ticks == now
                - task.ready_since
            &&& other != task.class ==> stats_of(dispatched(v, p, now).stats, other) == stats_of(
                v.stats,
                other,
            )
        }),
{
}

/// A task that ends is set aside whole until the next one ends, and nothing
/// else is taken out of the scheduler.
pub proof fn law_ended_task_is_set_aside(v: SchedulerView)
    ensures
        buried(v).zombie == v.current,
        buried(v).current is None,
        buried(v).ready == v.ready,
        buried(v).stats == v.stats,
        buried(v).last_promotion == v.last_promotion,
        buried(v).boot_supervisor_rsp == v.boot_supervisor_rsp,
{
}

/// A new task is an ordinary one: it runs kernel code only, is no process's,
/// and nothing has happened to it yet.
pub proof fn law_new_task_is_ordinary(stack: KernelStack)
    ensures
        fresh_task(stack).stack == stack,
        fresh_task(stack).address_space_root is None,
        fresh_task(stack).supervisor_rsp == 0,
        fresh_task(stack).pid == 0,
        fresh_task(stack).class is Normal,
        !fresh_task(stack).promoted,
{
}

/// A switch takes the task that is chosen, and nothing but the choice: the
/// chosen task continues, those in front of it and behind it keep their
/// order, and the one that stops is behind them all. A task that is promoted
/// gets the CPU from whatever the timer interrupts.
pub proof fn law_switch_takes_the_chosen_task(v: SchedulerView, kind: SwitchKind, now: u64)
    requires
        v.ready.len() <= usize::MAX,
        v.current is Some,
        v.ready.len() > 0,
    ensures
        ({
            let running = if kind == SwitchKind::Preemptive {
                Some(v.current.unwrap().class)
            } else {
                None
            };
            let p = choice(v.ready, running, now, v.last_promotion);
            let at = p.index as int;
            let (after, switch) = switch_plan(v, kind, now);
            &&& p.promoted ==> switch is Some
            &&& switch is Some ==> {
                &&& 0 <= at < v.ready.len()
                &&& after.current == Some(Task { promoted: p.promoted, ..v.ready[at] })
                &&& after.ready.len() == v.ready.len()
                &&& forall|i: int| 0 <= i < at ==> #[trigger] after.ready[i] == v.ready[i]
                &&& forall|i: int|
                    at <= i < v.ready.len() - 1 ==> #[trigger] after.ready[i] == v.ready[i + 1]
                &&& after.ready[v.ready.len() - 1] == (Task {
                    ready_since: now,
                    promoted: false,
                    ..v.current.unwrap()
                })
                &&& after.held == 0
                &&& after.zombie == v.zombie
                &&& p.promoted ==> after.last_promotion == Some(now)
                &&& !p.promoted ==> after.last_promotion == v.last_promotion
            }
        }),
{
    let running = if kind == SwitchKind::Preemptive {
        Some(v.current.unwrap().class)
    } else {
        None
    };
    lemma_most_urgent(v.ready);
    lemma_first_starved(v.ready, now, contested_rank(v.ready, running), 0);
}

} // verus!
