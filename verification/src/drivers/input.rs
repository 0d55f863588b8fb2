//! Input: keyboard and mouse, as a queue of events.
//!
//! Interrupt handlers turn hardware bytes into events and leave them in a
//! ring of fixed size, which needs no allocation. When it is full the
//! oldest event goes: the recent ones say where the pointer is now. What
//! is dropped is counted.
use vstd::prelude::*;
use crate::abi::{input_kind, InputEvent};

verus! {

broadcast use vstd::slice::group_slice_axioms;

/// PS/2 controller ports.
pub const PS2_DATA: u16 = 0x60;

pub const PS2_STATUS: u16 = 0x64;

pub const PS2_COMMAND: u16 = 0x64;

/// How many events the ring holds.
pub const QUEUE_CAPACITY: usize = 256;

/// The scancode of F1, which toggles the window layout.
pub const SCANCODE_F1: u64 = 0x3B;

/// The events, the pointer, and what is known of the mouse.
pub struct Input {
    events: [InputEvent; 256],
    head: usize,
    len: usize,
    dropped: u64,
    pointer: (u64, u64),
    bounds: (u64, u64),
    layout_toggle: bool,
    packet: [u8; 3],
    packet_len: usize,
    buttons: u8,
}

/// What `Input` amounts to.
pub struct InputView {
    /// The events not yet read, oldest first.
    pub queue: Seq<InputEvent>,
    /// How many were dropped.
    pub dropped: u64,
    pub pointer: (u64, u64),
    /// The size of the screen; zero while it is not known.
    pub bounds: (u64, u64),
    pub layout_toggle: bool,
    /// The bytes of a mouse report that has not fully arrived.
    pub packet: Seq<u8>,
    /// The buttons that were down in the last report.
    pub buttons: u8,
}

impl View for Input {
    type V = InputView;

    closed spec fn view(&self) -> InputView {
        InputView {
            queue: Seq::new(
                self.len as nat,
                |i: int| self.events@[(self.head + i) % QUEUE_CAPACITY as int],
            ),
            dropped: self.dropped,
            pointer: self.pointer,
            bounds: self.bounds,
            layout_toggle: self.layout_toggle,
            packet: self.packet@.subrange(0, self.packet_len as int),
            buttons: self.buttons,
        }
    }
}

/// The queue after one more event.
pub open spec fn pushed(queue: Seq<InputEvent>, event: InputEvent) -> Seq<InputEvent> {
    if queue.len() >= QUEUE_CAPACITY {
        queue.drop_first().push(event)
    } else {
        queue.push(event)
    }
}

/// The state after one more event.
pub open spec fn with_event(v: InputView, event: InputEvent) -> InputView {
    InputView {
        queue: pushed(v.queue, event),
        dropped: if v.queue.len() >= QUEUE_CAPACITY {
            (v.dropped + 1) as u64
        } else {
            v.dropped
        },
        ..v
    }
}

impl Input {
    /// The ring's positions are in it, and a report is at most two bytes
    /// short.
    pub closed spec fn wf(&self) -> bool {
        self.head < QUEUE_CAPACITY && self.len <= QUEUE_CAPACITY && self.packet_len < 3
    }

    /// No events, and the screen's size not known.
    pub fn new() -> (r: Input)
        ensures
            r.wf(),
            r@.queue == Seq::<InputEvent>::empty(),
            r@.dropped == 0,
            r@.pointer == (0u64, 0u64),
            r@.bounds == (0u64, 0u64),
            !r@.layout_toggle,
            r@.packet == Seq::<u8>::empty(),
            r@.buttons == 0,
    {
        let none = InputEvent { kind: 0, code: 0, x: 0, y: 0 };
        Input {
            events: [none;256],
            head: 0,
            len: 0,
            dropped: 0,
            pointer: (0, 0),
            bounds: (0, 0),
            layout_toggle: false,
            packet: [0;3],
            packet_len: 0,
            buttons: 0,
        }
    }

    /// Appends an event, dropping the oldest if the ring is full.
    fn push(&mut self, event: InputEvent)
        requires
            old(self).wf(),
            old(self)@.dropped < u64::MAX,
        ensures
            final(self).wf(),
            final(self)@ == with_event(old(self)@, event),
    {
        let ghost before = self@;
        if self.len == QUEUE_CAPACITY {
            self.head = (self.head + 1) % QUEUE_CAPACITY;
            self.len -= 1;
            self.dropped += 1;
            assert(self@.queue =~= before.queue.drop_first());
        }
        let ghost rest = self@.queue;
        let tail: usize = (self.head + self.len) % QUEUE_CAPACITY;
        self.events[tail] = event;
        self.len += 1;
        assert(self@.queue =~= rest.push(event));
        assert(self@.packet =~= before.packet);
    }
}

/// Records the size of the screen and puts the pointer in its middle.
pub fn set_bounds(input: &mut Input, width: u64, height: u64)
    requires
        old(input).wf(),
    ensures
        final(input).wf(),
        final(input)@ == (InputView {
            bounds: (width, height),
            pointer: (width / 2, height / 2),
            ..old(input)@
        }),
{
    let ghost before = input@;
    input.bounds = (width, height);
    input.pointer = (width / 2, height / 2);
    assert(input@.queue =~= before.queue);
    assert(input@.packet =~= before.packet);
}

/// Removes up to `out.len()` events, oldest first, and returns how many.
pub fn poll(input: &mut Input, out: &mut [InputEvent]) -> (count: usize)
    requires
        old(input).wf(),
    ensures
        final(input).wf(),
        count == (if old(out)@.len() < old(input)@.queue.len() {
            old(out)@.len()
        } else {
            old(input)@.queue.len()
        }),
        final(out)@.len() == old(out)@.len(),
        forall|i: int|
            0 <= i < old(out)@.len() ==> #[trigger] final(out)@[i] == (if i < count {
                old(input)@.queue[i]
            } else {
                old(out)@[i]
            }),
        final(input)@ == (InputView {
            queue: old(input)@.queue.skip(count as int),
            ..old(input)@
        }),
{
    let ghost before = input@;
    let count: usize = if out.len() < input.len {
        out.len()
    } else {
        input.len
    };
    let mut i: usize = 0;
    assert(before.queue.skip(0) =~= before.queue);
    while i < count
        invariant
            input.wf(),
            i <= count <= out@.len(),
            count <= before.queue.len(),
            out@.len() == old(out)@.len(),
            out@.len() == out.len(),
            forall|k: int|
                0 <= k < out@.len() ==> #[trigger] out@[k] == (if k < i {
                    before.queue[k]
                } else {
                    old(out)@[k]
                }),
            input@ == (InputView { queue: before.queue.skip(i as int), ..before }),
        decreases count - i,
    {
        let ghost now = input@;
        assert(now.queue.len() == before.queue.len() - i);
        assert(now.queue.len() == input.len);
        assert(now.queue[0] == before.queue[i as int]);
        out[i] = input.events[input.head];
        input.head = (input.head + 1) % QUEUE_CAPACITY;
        input.len -= 1;
        i += 1;
        assert(input@.queue =~= now.queue.drop_first());
        assert(input@.queue =~= before.queue.skip(i as int));
        assert(input@.packet =~= before.packet);
    }
    count
}

/// How many events are queued, and how many were dropped.
pub fn stats(input: &Input) -> (r: (usize, u64))
    ensures
        r.0 == input@.queue.len(),
        r.1 == input@.dropped,
{
    (input.len, input.dropped)
}

/// Where the pointer is.
pub fn pointer_position(input: &Input) -> (r: (u64, u64))
    ensures
        r == input@.pointer,
{
    input.pointer
}

/// Takes a pending request to toggle the window layout.
pub fn take_layout_toggle(input: &mut Input) -> (pending: bool)
    requires
        old(input).wf(),
    ensures
        final(input).wf(),
        pending == old(input)@.layout_toggle,
        final(input)@ == (InputView { layout_toggle: false, ..old(input)@ }),
{
    let ghost before = input@;
    let pending: bool = input.layout_toggle;
    input.layout_toggle = false;
    assert(input@.queue =~= before.queue);
    assert(input@.packet =~= before.packet);
    pending
}

/// The state after a byte from the keyboard. The upper half of the codes
/// are releases. The layout key is the system's own and reaches no
/// program.
pub open spec fn after_scancode(v: InputView, scancode: u8) -> InputView {
    if scancode == SCANCODE_F1 {
        InputView { layout_toggle: true, ..v }
    } else if scancode < 0x80 {
        with_event(v, InputEvent { kind: input_kind::KEY_DOWN, code: scancode as u64, x: 0, y: 0 })
    } else {
        with_event(
            v,
            InputEvent { kind: input_kind::KEY_UP, code: (scancode - 0x80) as u64, x: 0, y: 0 },
        )
    }
}

/// Takes a byte from the keyboard.
pub fn on_scancode(input: &mut Input, scancode: u8)
    requires
        old(input).wf(),
        old(input)@.dropped < u64::MAX,
    ensures
        final(input).wf(),
        final(input)@ == after_scancode(old(input)@, scancode),
{
    let released: bool = scancode >= 0x80;
    let code: u64 = if released {
        (scancode - 0x80) as u64
    } else {
        scancode as u64
    };
    if !released && code == SCANCODE_F1 {
        let ghost before = input@;
        input.layout_toggle = true;
        assert(input@.queue =~= before.queue);
        assert(input@.packet =~= before.packet);
        return;
    }
    input.push(
        InputEvent {
            kind: if released {
                input_kind::KEY_UP
            } else {
                input_kind::KEY_DOWN
            },
            code,
            x: 0,
            y: 0,
        },
    );
}

// ---------------------------------------------------------------------
// The mouse
// ---------------------------------------------------------------------

/// How far a report says the mouse moved along one axis: nine bits, of
/// which the sign is in the first byte.
pub open spec fn movement(magnitude: u8, flags: u8, sign: u8) -> int {
    if flags & sign != 0 {
        magnitude - 256
    } else {
        magnitude as int
    }
}

/// A coordinate after a movement: never negative, and on the screen where
/// its size is known.
pub open spec fn moved(at: u64, by: int, bound: u64) -> u64 {
    let new = if at + by < 0 {
        0
    } else {
        at + by
    };
    if bound > 0 && new > bound - 1 {
        (bound - 1) as u64
    } else {
        new as u64
    }
}

/// The state after a whole report: the buttons that changed come as one
/// event, which has no position. A report whose movement overflowed is dropped; a
/// large wrong movement is worse than a missed one.
pub open spec fn after_report(v: InputView, flags: u8, second: u8, third: u8) -> InputView {
    let dx = movement(second, flags, 0x10);
    let dy = movement(third, flags, 0x20);
    if flags & 0xC0 != 0 {
        v
    } else {
        // The mouse counts upwards, the screen's rows downwards.
        let x = moved(v.pointer.0, dx, v.bounds.0);
        let y = moved(v.pointer.1, -dy, v.bounds.1);
        let at = InputView { pointer: (x, y), ..v };
        let told = if dx != 0 || dy != 0 {
            with_event(at, InputEvent { kind: input_kind::POINTER_MOTION, code: 0, x, y })
        } else {
            at
        };
        let buttons = flags & 0x07;
        let changed = buttons ^ v.buttons;
        let pressed = if changed != 0 {
            with_event(
                told,
                InputEvent {
                    kind: if buttons & changed != 0 {
                        input_kind::POINTER_BUTTON_DOWN
                    } else {
                        input_kind::POINTER_BUTTON_UP
                    },
                    code: changed as u64,
                    x: 0,
                    y: 0,
                },
            )
        } else {
            told
        };
        InputView { buttons, ..pressed }
    }
}

/// The state after a byte from the mouse. A first byte without the bit
/// that is always set is not a first byte, and is skipped.
pub open spec fn after_mouse_byte(v: InputView, byte: u8) -> InputView {
    if v.packet.len() == 0 && byte & 0x08 == 0 {
        v
    } else if v.packet.len() < 2 {
        InputView { packet: v.packet.push(byte), ..v }
    } else {
        after_report(InputView { packet: Seq::empty(), ..v }, v.packet[0], v.packet[1], byte)
    }
}

fn move_by(at: u64, by: i32, bound: u64) -> (new: u64)
    requires
        -511 <= by <= 511,
        at + 511 <= u64::MAX,
    ensures
        new == moved(at, by as int, bound),
{
    let new: u64 = if by >= 0 {
        at + by as u64
    } else {
        at.saturating_sub((-by) as u64)
    };
    if bound > 0 && new > bound - 1 {
        bound - 1
    } else {
        new
    }
}

/// Takes a byte from the mouse.
#[verifier::rlimit(30)]
pub fn on_mouse_byte(input: &mut Input, byte: u8)
    requires
        old(input).wf(),
        old(input)@.dropped + 2 <= u64::MAX,
        old(input)@.pointer.0 + 511 <= u64::MAX,
        old(input)@.pointer.1 + 511 <= u64::MAX,
    ensures
        final(input).wf(),
        final(input)@ == after_mouse_byte(old(input)@, byte),
{
    let ghost before = input@;
    if input.packet_len == 0 && byte & 0x08 == 0 {
        return;
    }
    if input.packet_len < 2 {
        let at: usize = input.packet_len;
        input.packet[at] = byte;
        input.packet_len = at + 1;
        assert(input@.packet =~= before.packet.push(byte));
        assert(input@.queue =~= before.queue);
        return;
    }
    let flags: u8 = input.packet[0];
    let second: u8 = input.packet[1];
    let third: u8 = byte;
    assert(before.packet[0] == flags && before.packet[1] == second);
    input.packet_len = 0;
    assert(input@.packet =~= Seq::<u8>::empty());
    assert(input@.queue =~= before.queue);
    let ghost start = input@;
    assert(start == (InputView { packet: Seq::empty(), ..before }));
    let mut dx: i32 = second as i32;
    let mut dy: i32 = third as i32;
    if flags & 0x10 != 0 {
        dx -= 256;
    }
    if flags & 0x20 != 0 {
        dy -= 256;
    }
    if flags & 0xC0 != 0 {
        return;
    }
    let x: u64 = move_by(input.pointer.0, dx, input.bounds.0);
    let y: u64 = move_by(input.pointer.1, -dy, input.bounds.1);
    input.pointer = (x, y);
    assert(input@.queue =~= start.queue);
    assert(input@.packet =~= start.packet);
    if dx != 0 || dy != 0 {
        input.push(InputEvent { kind: input_kind::POINTER_MOTION, code: 0, x, y });
    }
    let buttons: u8 = flags & 0x07;
    let changed: u8 = buttons ^ input.buttons;
    if changed != 0 {
        input.push(
            InputEvent {
                kind: if buttons & changed != 0 {
                    input_kind::POINTER_BUTTON_DOWN
                } else {
                    input_kind::POINTER_BUTTON_UP
                },
                code: changed as u64,
                x: 0,
                y: 0,
            },
        );
    }
    let ghost last = input@;
    input.buttons = buttons;
    assert(input@.queue =~= last.queue);
    assert(input@.packet =~= last.packet);
}

/// How often the controller is asked whether it takes a byte before it is
/// taken for missing.
pub const WAIT_LIMIT: u32 = 100_000;

/// Whether the controller takes a byte, by its status.
pub fn is_writable(status: u8) -> (r: bool)
    ensures
        r == (status & 0x02 == 0),
{
    status & 0x02 == 0
}

/// A byte for the controller.
#[derive(Debug, Clone, Copy, PartialEq, Eq, Structural)]
pub enum PortWrite {
    Command(u8),
    Data(u8),
}

/// The byte of step `step` of enabling the mouse, given the configuration
/// byte that the controller hands out after the second one. The bits that
/// configure the keyboard are kept.
pub fn init_mouse(step: usize, configuration: u8) -> (r: Option<PortWrite>)
    ensures
        r == (if step == 0 {
            Some(PortWrite::Command(0xA8))
        } else if step == 1 {
            Some(PortWrite::Command(0x20))
        } else if step == 2 {
            Some(PortWrite::Command(0x60))
        } else if step == 3 {
            Some(PortWrite::Data(configuration | 0x02))
        } else if step == 4 {
            Some(PortWrite::Command(0xD4))
        } else if step == 5 {
            Some(PortWrite::Data(0xF4))
        } else {
            None
        }),
{
    if step == 0 {
        Some(PortWrite::Command(0xA8))
    } else if step == 1 {
        Some(PortWrite::Command(0x20))
    } else if step == 2 {
        Some(PortWrite::Command(0x60))
    } else if step == 3 {
        Some(PortWrite::Data(configuration | 0x02))
    } else if step == 4 {
        Some(PortWrite::Command(0xD4))
    } else if step == 5 {
        Some(PortWrite::Data(0xF4))
    } else {
        None
    }
}

// ---------------------------------------------------------------------
// Laws
// ---------------------------------------------------------------------

/// The queue never grows past its capacity, the newest event is always in
/// it, and what is dropped is the oldest.
pub proof fn law_oldest_goes_first(queue: Seq<InputEvent>, event: InputEvent)
    requires
        queue.len() <= QUEUE_CAPACITY,
    ensures
        pushed(queue, event).len() <= QUEUE_CAPACITY,
        pushed(queue, event).last() == event,
        queue.len() < QUEUE_CAPACITY ==> pushed(queue, event).drop_last() == queue,
        queue.len() == QUEUE_CAPACITY ==> pushed(queue, event).drop_last() == queue.drop_first(),
{
    assert(queue.push(event).drop_last() =~= queue);
    if queue.len() > 0 {
        assert(queue.drop_first().push(event).drop_last() =~= queue.drop_first());
    }
}

/// A number kept from 0 to `last`.
pub open spec fn clamped(n: int, last: int) -> int {
    if n < 0 {
        0
    } else if n > last {
        last
    } else {
        n
    }
}

/// A whole report moves the pointer by what it says, and no further than
/// the edges of the screen; one whose movement overflowed leaves the pointer
/// where it is. Either way the next report starts afresh.
pub proof fn law_report_moves_the_pointer(v: InputView, first: u8, second: u8, third: u8)
    requires
        v.bounds.0 > 0,
        v.bounds.1 > 0,
        v.packet.len() == 0,
        first & 0x08 != 0,
    ensures
        ({
            let after = after_mouse_byte(
                after_mouse_byte(after_mouse_byte(v, first), second),
                third,
            );
            let dx = second - (if first & 0x10 != 0 {
                256int
            } else {
                0
            });
            let dy = third - (if first & 0x20 != 0 {
                256int
            } else {
                0
            });
            &&& after.packet.len() == 0
            &&& after.bounds == v.bounds
            &&& if first & 0xC0 != 0 {
                after.pointer == v.pointer
            } else {
                &&& after.pointer.0 == clamped(v.pointer.0 + dx, v.bounds.0 - 1)
                &&& after.pointer.1 == clamped(v.pointer.1 - dy, v.bounds.1 - 1)
            }
        }),
{
    let one = after_mouse_byte(v, first);
    let two = after_mouse_byte(one, second);
    assert(two.packet =~= v.packet.push(first).push(second));
    assert(two.packet[0] == first && two.packet[1] == second);
}

/// What can happen to the state once the size of the screen is known.
pub enum InputUse {
    Scancode(u8),
    MouseByte(u8),
    /// So many events were asked for.
    Poll(nat),
    LayoutTaken,
}

/// The state after one of these.
pub open spec fn after_use(v: InputView, happened: InputUse) -> InputView {
    match happened {
        InputUse::Scancode(scancode) => after_scancode(v, scancode),
        InputUse::MouseByte(byte) => after_mouse_byte(v, byte),
        InputUse::Poll(wanted) => InputView {
            queue: v.queue.skip(
                if wanted < v.queue.len() {
                    wanted as int
                } else {
                    v.queue.len() as int
                },
            ),
            ..v
        },
        InputUse::LayoutTaken => InputView { layout_toggle: false, ..v },
    }
}

/// The state after all of these, in order.
pub open spec fn after_uses(v: InputView, happened: Seq<InputUse>) -> InputView
    decreases happened.len(),
{
    if happened.len() == 0 {
        v
    } else {
        after_use(after_uses(v, happened.drop_last()), happened.last())
    }
}

/// Once the size of the screen is known, the pointer starts in its middle
/// and stays on it, whatever is sent and read.
pub proof fn law_pointer_stays_on_screen(
    v: InputView,
    width: u64,
    height: u64,
    happened: Seq<InputUse>,
)
    requires
        width > 0,
        height > 0,
    ensures
        ({
            let start = InputView {
                bounds: (width, height),
                pointer: (width / 2, height / 2),
                ..v
            };
            let after = after_uses(start, happened);
            &&& happened.len() == 0 ==> after.pointer == (width / 2, height / 2)
            &&& after.bounds == (width, height)
            &&& after.pointer.0 < width
            &&& after.pointer.1 < height
        }),
    decreases happened.len(),
{
    if happened.len() > 0 {
        law_pointer_stays_on_screen(v, width, height, happened.drop_last());
    }
}

/// A lost byte does not desynchronize the mouse for good: between reports,
/// bytes that cannot start one change nothing.
pub proof fn law_mouse_resynchronizes(v: InputView, byte: u8)
    requires
        v.packet.len() == 0,
        byte & 0x08 == 0,
    ensures
        after_mouse_byte(v, byte) == v,
{
}

/// Pressing the layout key asks for another layout, and the press is not
/// delivered to a program.
pub proof fn law_layout_key_is_not_delivered(v: InputView)
    ensures
        after_scancode(v, SCANCODE_F1 as u8).queue == v.queue,
        after_scancode(v, SCANCODE_F1 as u8).layout_toggle,
{
}

/// A key that is pressed or released is one event at the end of the queue,
/// which says which key it was: the code without its highest bit, which is
/// set where the key was released. All else is as it was, but that the
/// oldest event makes room where the queue is full.
pub proof fn law_keys_are_events(v: InputView, scancode: u8)
    requires
        v.queue.len() <= 256,
        v.dropped < u64::MAX,
    ensures
        ({
            let after = after_scancode(v, scancode);
            let count = after.queue.len() as int;
            &&& scancode == 0x3B ==> after == (InputView { layout_toggle: true, ..v })
            &&& scancode != 0x3B ==> {
                let event = after.queue[count - 1];
                &&& event.kind == (if scancode < 128 {
                    1int
                } else {
                    2
                })
                &&& event.code == scancode % 128
                &&& event.x == 0 && event.y == 0
                &&& v.queue.len() < 256 ==> count == v.queue.len() + 1 && after.dropped
                    == v.dropped && (forall|i: int|
                    0 <= i < v.queue.len() ==> #[trigger] after.queue[i] == v.queue[i])
                &&& v.queue.len() == 256 ==> count == 256 && after.dropped == v.dropped + 1 && (
                forall|i: int| 0 <= i < 255 ==> #[trigger] after.queue[i] == v.queue[i + 1])
                &&& after == (InputView { queue: after.queue, dropped: after.dropped, ..v })
            }
        }),
{
}

/// What a whole report is to programs: an event with the pointer's new
/// position where the mouse moved, then one where buttons changed, with the
/// buttons that did. That is a press where any of those is down now, and a
/// release otherwise. The buttons are remembered.
pub proof fn law_reports_are_events(v: InputView, first: u8, second: u8, third: u8)
    requires
        v.packet.len() == 0,
        v.queue.len() <= 254,
        first & 0x08 != 0,
        first & 0xC0 == 0,
    ensures
        ({
            let after = after_mouse_byte(
                after_mouse_byte(after_mouse_byte(v, first), second),
                third,
            );
            let moved = second != 0 || third != 0 || first & 0x10 != 0 || first & 0x20 != 0;
            let buttons = first & 0x07;
            let changed = buttons ^ v.buttons;
            let told = v.queue.len() as int;
            let button_at = if moved {
                told + 1
            } else {
                told
            };
            &&& after.queue.len() == button_at + (if changed != 0 {
                1int
            } else {
                0
            })
            &&& forall|i: int| 0 <= i < told ==> #[trigger] after.queue[i] == v.queue[i]
            &&& moved ==> after.queue[told] == (InputEvent {
                kind: 3,
                code: 0,
                x: after.pointer.0,
                y: after.pointer.1,
            })
            &&& changed != 0 ==> after.queue[button_at] == (InputEvent {
                kind: if buttons & changed != 0 {
                    4
                } else {
                    5
                },
                code: changed as u64,
                x: 0,
                y: 0,
            })
            &&& after.buttons == buttons
            &&& after.dropped == v.dropped
            &&& after.layout_toggle == v.layout_toggle
        }),
{
}

/// The mouse's movements are numbers of nine bits, the sign of which is with
/// the flags: a movement is between -256 and 255, and is the byte itself but
/// for 256 where the sign is set.
pub proof fn law_movements_are_signed(magnitude: u8, flags: u8, sign: u8)
    ensures
        flags & sign == 0 ==> movement(magnitude, flags, sign) == magnitude,
        flags & sign != 0 ==> movement(magnitude, flags, sign) + 256 == magnitude,
{
}

} // verus!
