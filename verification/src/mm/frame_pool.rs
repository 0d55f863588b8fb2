//! A free list of physical frames, so memory can actually be given back.
//!
//! A frame must be released exactly once, and must not be mapped anywhere
//! when it is. Ownership is the discipline that keeps to that; `release`
//! additionally refuses a frame it already holds.
use vstd::prelude::*;
use crate::text::{self, push_hexadecimal};

verus! {

/// The frames that are free for reuse, and how many were ever released.
#[derive(Debug)]
pub struct FramePool {
    free: Vec<u64>,
    released: u64,
}

impl View for FramePool {
    type V = Seq<u64>;

    /// The free frames, the one to be handed out next last.
    closed spec fn view(&self) -> Seq<u64> {
        self.free@
    }
}

impl FramePool {
    /// How many frames were ever released.
    pub closed spec fn released(&self) -> u64 {
        self.released
    }

    /// No frame is in the pool twice.
    pub open spec fn wf(&self) -> bool {
        self@.no_duplicates()
    }

    /// An empty pool.
    pub fn new() -> (pool: FramePool)
        ensures
            pool.wf(),
            pool@ == Seq::<u64>::empty(),
            pool.released() == 0,
    {
        FramePool { free: Vec::new(), released: 0 }
    }
}

fn holds(free: &Vec<u64>, frame: u64) -> (r: bool)
    ensures
        r == free@.contains(frame),
{
    let mut i: usize = 0;
    while i < free.len()
        invariant
            i <= free.len(),
            forall|j: int| 0 <= j < i ==> free@[j] != frame,
        decreases free.len() - i,
    {
        if free[i] == frame {
            assert(free@.contains(frame));
            return true;
        }
        i += 1;
    }
    false
}

/// The line about a frame that is released while it is free.
pub open spec fn double_release_line(frame: u64) -> Seq<char> {
    "Najm Kernel: FRAME POOL FAILURE - frame 0x"@ + text::hexadecimal(frame as nat)
        + " released twice; ignoring the second release rather than handing the same physical memory to two address spaces"@
}

/// Hands a frame back for reuse. A frame that is already in the list is
/// refused rather than handed to two address spaces, and the line that
/// reports it is returned.
pub fn release(pool: &mut FramePool, frame: u64) -> (failure: Option<String>)
    requires
        old(pool).wf(),
        old(pool).released() < u64::MAX,
    ensures
        final(pool).wf(),
        final(pool)@ == after_release(old(pool)@, frame),
        final(pool).released() == count_after_release(
            old(pool)@,
            old(pool).released() as int,
            frame,
        ),
        match failure {
            Some(line) => old(pool)@.contains(frame) && line@ == double_release_line(frame),
            None => !old(pool)@.contains(frame),
        },
{
    if holds(&pool.free, frame) {
        let mut line = String::from_str("Najm Kernel: FRAME POOL FAILURE - frame 0x");
        push_hexadecimal(&mut line, frame);
        line.append(
            " released twice; ignoring the second release rather than handing the same physical memory to two address spaces",
        );
        return Some(line);
    }
    pool.free.push(frame);
    pool.released += 1;
    None
}

/// Takes the frame released last, if there is one.
pub fn acquire(pool: &mut FramePool) -> (frame: Option<u64>)
    requires
        old(pool).wf(),
    ensures
        final(pool).wf(),
        final(pool).released() == old(pool).released(),
        final(pool)@ == after_acquire(old(pool)@),
        match frame {
            Some(f) => old(pool)@ == final(pool)@.push(f) && !final(pool)@.contains(f),
            None => old(pool)@.len() == 0,
        },
{
    let ghost before = pool@;
    let frame = pool.free.pop();
    proof {
        if frame is Some {
            assert(before =~= pool@.push(frame.unwrap()));
            assert forall|i: int| 0 <= i < pool@.len() implies pool@[i] != frame.unwrap() by {
                assert(pool@[i] == before[i]);
                assert(before[before.len() - 1] == frame.unwrap());
            }
        }
    }
    frame
}

/// How many frames are free for reuse, and how many were ever released.
pub fn stats(pool: &FramePool) -> (r: (usize, u64))
    ensures
        r.0 == pool@.len(),
        r.1 == pool.released(),
{
    (pool.free.len(), pool.released)
}

/// What a pool holds after `release`.
pub open spec fn after_release(free: Seq<u64>, frame: u64) -> Seq<u64> {
    if free.contains(frame) {
        free
    } else {
        free.push(frame)
    }
}

/// How many frames were ever released, after `release`.
pub open spec fn count_after_release(free: Seq<u64>, released: int, frame: u64) -> int {
    if free.contains(frame) {
        released
    } else {
        released + 1
    }
}

/// The frames that `acquire` hands out until a pool is empty, in order.
pub open spec fn drained(free: Seq<u64>) -> Seq<u64>
    decreases free.len(),
{
    if free.len() == 0 {
        Seq::empty()
    } else {
        seq![free.last()] + drained(after_acquire(free))
    }
}

proof fn lemma_drained_is_held(free: Seq<u64>, frame: u64)
    ensures
        drained(free).contains(frame) ==> free.contains(frame),
    decreases free.len(),
{
    if free.len() > 0 && drained(free).contains(frame) {
        let rest = after_acquire(free);
        lemma_drained_is_held(rest, frame);
        let i = drained(free).index_of(frame);
        if i == 0 {
            assert(free[free.len() - 1] == frame);
        } else {
            assert(drained(rest)[i - 1] == frame);
            let k = rest.index_of(frame);
            assert(free[k] == frame);
        }
    }
}

/// Releasing a frame twice leaves one copy of it: the first release adds it
/// and is counted, the second changes nothing, and emptying the pool hands
/// the frame out once.
pub proof fn law_double_release_is_ignored(free: Seq<u64>, released: int, frame: u64)
    requires
        !free.contains(frame),
    ensures
        ({
            let once = after_release(free, frame);
            let count = count_after_release(free, released, frame);
            &&& once.len() == free.len() + 1
            &&& count == released + 1
            &&& after_release(once, frame) == once
            &&& count_after_release(once, count, frame) == count
            &&& drained(once) == seq![frame] + drained(free)
            &&& !drained(free).contains(frame)
        }),
{
    let once = after_release(free, frame);
    assert(once[free.len() as int] == frame);
    assert(after_acquire(once) =~= free);
    lemma_drained_is_held(free, frame);
}

/// What a pool holds after `acquire`.
pub open spec fn after_acquire(free: Seq<u64>) -> Seq<u64> {
    if free.len() == 0 {
        free
    } else {
        free.drop_last()
    }
}

/// Something done to a pool.
pub enum PoolEvent {
    Release(u64),
    Acquire,
}

/// What a pool holds after a run of events.
pub open spec fn pool_after(free: Seq<u64>, events: Seq<PoolEvent>) -> Seq<u64>
    decreases events.len(),
{
    if events.len() == 0 {
        free
    } else {
        let before = pool_after(free, events.drop_last());
        match events.last() {
            PoolEvent::Release(frame) => after_release(before, frame),
            PoolEvent::Acquire => after_acquire(before),
        }
    }
}

/// A frame that was handed out is not handed out again before it is
/// released: whatever else happens meanwhile, the pool does not hold it.
pub proof fn law_acquired_frame_stays_out(free: Seq<u64>, frame: u64, events: Seq<PoolEvent>)
    requires
        !free.contains(frame),
        forall|i: int|
            0 <= i < events.len() ==> #[trigger] events[i] != PoolEvent::Release(frame),
    ensures
        !pool_after(free, events).contains(frame),
    decreases events.len(),
{
    if events.len() > 0 {
        let less = events.drop_last();
        assert forall|i: int| 0 <= i < less.len() implies #[trigger] less[i] != PoolEvent::Release(
            frame,
        ) by {
            assert(less[i] == events[i]);
        }
        law_acquired_frame_stays_out(free, frame, less);
        assert(events.last() == events[events.len() - 1]);
        let before = pool_after(free, less);
        let after = pool_after(free, events);
        assert forall|i: int| 0 <= i < after.len() implies after[i] != frame by {
            if i < before.len() {
                assert(before[i] == after[i]);
                assert(before.contains(before[i]));
            }
        }
    }
}

/// The log says which frame was given back twice.
pub proof fn law_double_release_is_logged(frame: u64)
    ensures
        text::says(
            double_release_line(frame),
            seq![
                text::hexadecimal(frame as nat),
            ],
        ),
{
    let none = Seq::<Seq<char>>::empty();
    let start = "Najm Kernel: FRAME POOL FAILURE - frame 0x"@;
    text::lemma_says(
        start,
        none,
        text::hexadecimal(frame as nat),
        " released twice; ignoring the second release rather than handing the same physical memory to two address spaces"@,
    );
    let line1 = start + text::hexadecimal(frame as nat)
        + " released twice; ignoring the second release rather than handing the same physical memory to two address spaces"@;
    let parts1 = none.push(text::hexadecimal(frame as nat));
    assert(parts1 =~= seq![text::hexadecimal(frame as nat)]);
    assert(double_release_line(frame) =~= line1);
}

} // verus!
