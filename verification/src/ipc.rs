//! Inter-process communication: named ports carrying messages.
//!
//! A message is copied into the kernel when it is sent and out of it when
//! it is received, so once sent it cannot change. Every queue has a fixed
//! depth and every message a maximum size. A full queue refuses the send
//! rather than blocking or dropping, and only the owner of a port may
//! receive from it.
use std::collections::VecDeque;
use vstd::prelude::*;
use crate::bytes::bytes_eq;
use crate::text::{self, push_decimal};

verus! {

broadcast use vstd::slice::group_slice_axioms;

/// The longest a port name may be.
pub const MAX_NAME: usize = 64;

/// The largest single message.
pub const MAX_MESSAGE: usize = 4096;

/// How many messages a port will hold before `send` starts failing.
pub const QUEUE_DEPTH: usize = 32;

/// How many ports may exist at once, across the whole system.
pub const MAX_PORTS: usize = 128;

/// One message, with who sent it. The sender is recorded by the kernel,
/// not carried in the payload.
#[derive(Debug)]
pub struct Message {
    pub from: u64,
    pub bytes: Vec<u8>,
}

/// What a message says.
pub struct MessageView {
    pub from: u64,
    pub bytes: Seq<u8>,
}

impl View for Message {
    type V = MessageView;

    open spec fn view(&self) -> MessageView {
        MessageView { from: self.from, bytes: self.bytes@ }
    }
}

/// The views of queued messages.
pub open spec fn message_views(queue: Seq<Message>) -> Seq<MessageView> {
    Seq::new(queue.len(), |i: int| queue[i]@)
}

#[derive(Debug)]
struct Port {
    handle: u64,
    name: Vec<u8>,
    /// The process that created it. Only the owner may receive; anyone who
    /// is connected may send.
    owner: u64,
    queue: VecDeque<Message>,
    /// Messages refused because the queue was full.
    dropped: u64,
}

/// What a port is.
pub struct PortView {
    pub handle: u64,
    pub name: Seq<u8>,
    pub owner: u64,
    pub queue: Seq<MessageView>,
    pub dropped: u64,
}

impl Port {
    spec fn view(&self) -> PortView {
        PortView {
            handle: self.handle,
            name: self.name@,
            owner: self.owner,
            queue: message_views(self.queue@),
            dropped: self.dropped,
        }
    }
}

/// Why an operation failed.
#[derive(Debug, Clone, Copy, PartialEq, Eq, Structural)]
pub enum IpcError {
    /// The name is empty, too long, or not printable ASCII.
    BadName,
    /// A port with that name already exists.
    NameTaken,
    /// No port with that name.
    NotFound,
    /// The handle is not one this process may use.
    BadHandle,
    /// The message is larger than `MAX_MESSAGE`.
    TooLarge,
    /// The queue is full or, on receive, empty.
    WouldBlock,
    /// Too many ports exist.
    Exhausted,
}

/// An acceptable port name: not empty, not too long, and printable ASCII
/// without spaces, so that it looks like what it is in any log.
pub open spec fn valid_name(name: Seq<u8>) -> bool {
    &&& 0 < name.len() <= MAX_NAME
    &&& forall|i: int| 0 <= i < name.len() ==> 0x21 <= #[trigger] name[i] <= 0x7e
}

fn name_is_valid(name: &[u8]) -> (r: bool)
    ensures
        r == valid_name(name@),
{
    if name.len() == 0 || name.len() > MAX_NAME {
        return false;
    }
    let mut i: usize = 0;
    while i < name.len()
        invariant
            i <= name.len(),
            forall|j: int| 0 <= j < i ==> 0x21 <= #[trigger] name@[j] <= 0x7e,
        decreases name.len() - i,
    {
        if name[i] < 0x21 || name[i] > 0x7e {
            return false;
        }
        i += 1;
    }
    true
}

/// The live ports, by handle.
#[derive(Debug)]
pub struct Ports {
    ports: Vec<Port>,
    next_handle: u64,
}

/// The position of the port with this handle.
pub open spec fn port_at(ports: Seq<PortView>, handle: u64) -> Option<int>
    decreases ports.len(),
{
    if ports.len() == 0 {
        None
    } else if ports.last().handle == handle {
        Some(ports.len() - 1)
    } else {
        port_at(ports.drop_last(), handle)
    }
}

/// The position of the port with this name.
pub open spec fn port_named(ports: Seq<PortView>, name: Seq<u8>) -> Option<int>
    decreases ports.len(),
{
    if ports.len() == 0 {
        None
    } else if ports.last().name == name {
        Some(ports.len() - 1)
    } else {
        port_named(ports.drop_last(), name)
    }
}

/// The ports that `owner` does not own, in order.
pub open spec fn not_owned_by(ports: Seq<PortView>, owner: u64) -> Seq<PortView>
    decreases ports.len(),
{
    if ports.len() == 0 {
        Seq::empty()
    } else {
        let before = not_owned_by(ports.drop_last(), owner);
        if ports.last().owner == owner {
            before
        } else {
            before.push(ports.last())
        }
    }
}

/// How many messages are queued altogether.
pub open spec fn total_queued(ports: Seq<PortView>) -> nat
    decreases ports.len(),
{
    if ports.len() == 0 {
        0
    } else {
        total_queued(ports.drop_last()) + ports.last().queue.len()
    }
}

/// How many sends were refused altogether.
pub open spec fn total_dropped(ports: Seq<PortView>) -> nat
    decreases ports.len(),
{
    if ports.len() == 0 {
        0
    } else {
        total_dropped(ports.drop_last()) + ports.last().dropped as nat
    }
}

/// What every port keeps to.
pub open spec fn port_is_regular(port: PortView) -> bool {
    &&& valid_name(port.name)
    &&& port.queue.len() <= QUEUE_DEPTH
    &&& forall|i: int|
        0 <= i < port.queue.len() ==> (#[trigger] port.queue[i]).bytes.len() <= MAX_MESSAGE
}

/// Ports in the order of their handles, no name twice, and none of them
/// over a limit.
pub open spec fn ports_are_regular(ports: Seq<PortView>, next_handle: u64) -> bool {
    &&& ports.len() <= MAX_PORTS
    &&& forall|i: int|
        0 <= i < ports.len() ==> (#[trigger] ports[i]).handle < next_handle && port_is_regular(
            ports[i],
        )
    &&& forall|i: int, j: int|
        0 <= i < j < ports.len() ==> (#[trigger] ports[i]).handle < (#[trigger] ports[j]).handle
            && ports[i].name != ports[j].name
}

impl Ports {
    /// The live ports, in the order of their handles.
    pub closed spec fn list(&self) -> Seq<PortView> {
        Seq::new(self.ports@.len(), |i: int| self.ports@[i].view())
    }

    /// The handle the next port will get.
    pub closed spec fn next(&self) -> u64 {
        self.next_handle
    }

    pub open spec fn wf(&self) -> bool {
        ports_are_regular(self.list(), self.next())
    }

    /// No ports yet.
    pub fn new() -> (r: Ports)
        ensures
            r.wf(),
            r.list() == Seq::<PortView>::empty(),
            r.next() == 1,
    {
        let r = Ports { ports: Vec::new(), next_handle: 1 };
        assert(r.list() =~= Seq::<PortView>::empty());
        r
    }

    fn find_handle(&self, handle: u64) -> (r: Option<usize>)
        ensures
            match r {
                Some(i) => port_at(self.list(), handle) == Some(i as int) && i < self.ports.len()
                    && self.list()[i as int].handle == handle,
                None => port_at(self.list(), handle) is None,
            },
    {
        let mut n: usize = self.ports.len();
        assert(self.list().subrange(0, n as int) =~= self.list());
        while n > 0
            invariant
                n <= self.ports.len(),
                self.list().len() == self.ports.len(),
                port_at(self.list(), handle) == port_at(
                    self.list().subrange(0, n as int),
                    handle,
                ),
            decreases n,
        {
            let ghost head = self.list().subrange(0, n as int);
            assert(head.last() == self.list()[n - 1]);
            assert(head.drop_last() =~= self.list().subrange(0, n - 1));
            if self.ports[n - 1].handle == handle {
                return Some(n - 1);
            }
            n -= 1;
        }
        None
    }

    fn find_name(&self, name: &[u8]) -> (r: Option<usize>)
        ensures
            match r {
                Some(i) => port_named(self.list(), name@) == Some(i as int) && i
                    < self.ports.len() && self.list()[i as int].name == name@,
                None => port_named(self.list(), name@) is None,
            },
    {
        let mut n: usize = self.ports.len();
        assert(self.list().subrange(0, n as int) =~= self.list());
        while n > 0
            invariant
                n <= self.ports.len(),
                self.list().len() == self.ports.len(),
                port_named(self.list(), name@) == port_named(
                    self.list().subrange(0, n as int),
                    name@,
                ),
            decreases n,
        {
            let ghost head = self.list().subrange(0, n as int);
            assert(head.last() == self.list()[n - 1]);
            assert(head.drop_last() =~= self.list().subrange(0, n - 1));
            if bytes_eq(self.ports[n - 1].name.as_slice(), name) {
                return Some(n - 1);
            }
            n -= 1;
        }
        None
    }
}

/// A name that no position was found for is no port's name.
pub proof fn lemma_name_is_free(ports: Seq<PortView>, name: Seq<u8>)
    ensures
        port_named(ports, name) is None <==> forall|i: int|
            0 <= i < ports.len() ==> (#[trigger] ports[i]).name != name,
        port_named(ports, name) matches Some(i) ==> 0 <= i < ports.len() && ports[i].name == name,
    decreases ports.len(),
{
    if ports.len() > 0 {
        let rest = ports.drop_last();
        lemma_name_is_free(rest, name);
        assert(ports[ports.len() - 1] == ports.last());
        assert forall|i: int| 0 <= i < rest.len() implies rest[i] == #[trigger] ports[i] by {}
    }
}

/// A handle that no position was found for is no port's handle.
pub proof fn lemma_handle_is_free(ports: Seq<PortView>, handle: u64)
    ensures
        port_at(ports, handle) is None <==> forall|i: int|
            0 <= i < ports.len() ==> (#[trigger] ports[i]).handle != handle,
        port_at(ports, handle) matches Some(i) ==> 0 <= i < ports.len() && ports[i].handle
            == handle,
    decreases ports.len(),
{
    if ports.len() > 0 {
        let rest = ports.drop_last();
        lemma_handle_is_free(rest, handle);
        assert(ports[ports.len() - 1] == ports.last());
        assert forall|i: int| 0 <= i < rest.len() implies rest[i] == #[trigger] ports[i] by {}
    }
}

/// A port with nothing in it.
pub open spec fn fresh_port(handle: u64, name: Seq<u8>, owner: u64) -> PortView {
    PortView { handle, name, owner, queue: Seq::empty(), dropped: 0 }
}

/// Creates a port under `name`, owned by `owner`.
pub fn create(ports: &mut Ports, owner: u64, name: &[u8]) -> (r: Result<u64, IpcError>)
    requires
        old(ports).wf(),
        old(ports).next() < u64::MAX,
    ensures
        final(ports).wf(),
        if !valid_name(name@) {
            r == Err::<u64, IpcError>(IpcError::BadName)
        } else if old(ports).list().len() >= MAX_PORTS {
            r == Err::<u64, IpcError>(IpcError::Exhausted)
        } else if port_named(old(ports).list(), name@) is Some {
            r == Err::<u64, IpcError>(IpcError::NameTaken)
        } else {
            r == Ok::<u64, IpcError>(old(ports).next())
        },
        match r {
            Ok(handle) => final(ports).list() == old(ports).list().push(
                fresh_port(handle, name@, owner),
            ) && final(ports).next() == handle + 1,
            Err(_) => final(ports).list() == old(ports).list() && final(ports).next() == old(ports).next(),
        },
{
    if !name_is_valid(name) {
        return Err(IpcError::BadName);
    }
    if ports.ports.len() >= MAX_PORTS {
        return Err(IpcError::Exhausted);
    }
    if ports.find_name(name).is_some() {
        return Err(IpcError::NameTaken);
    }
    proof {
        lemma_name_is_free(ports.list(), name@);
    }
    let handle: u64 = ports.next_handle;
    ports.next_handle += 1;
    let ghost before = ports.list();
    let port = Port {
        handle,
        name: vstd::slice::slice_to_vec(name),
        owner,
        queue: VecDeque::new(),
        dropped: 0,
    };
    assert(port.view().queue =~= Seq::<MessageView>::empty());
    ports.ports.push(port);
    proof {
        let after = ports.list();
        assert(after =~= before.push(fresh_port(handle, name@, owner)));
        assert forall|i: int| 0 <= i < after.len() implies (#[trigger] after[i]).handle
            < ports.next() && port_is_regular(after[i]) by {
            if i < before.len() {
                assert(after[i] == before[i]);
            }
        }
        assert forall|i: int, j: int| 0 <= i < j < after.len() implies (#[trigger] after[i]).handle
            < (#[trigger] after[j]).handle && after[i].name != after[j].name by {
            assert(after[i] == before[i]);
            if j < before.len() {
                assert(after[j] == before[j]);
            }
        }
    }
    Ok(handle)
}

/// Finds a port by name, for a process that wants to send to it. The
/// handle alone confers nothing: receiving is for the owner.
pub fn connect(ports: &Ports, name: &[u8]) -> (r: Result<u64, IpcError>)
    ensures
        r == (if !valid_name(name@) {
            Err::<u64, IpcError>(IpcError::BadName)
        } else {
            match port_named(ports.list(), name@) {
                Some(i) => Ok(ports.list()[i].handle),
                None => Err(IpcError::NotFound),
            }
        }),
{
    if !name_is_valid(name) {
        return Err(IpcError::BadName);
    }
    match ports.find_name(name) {
        Some(i) => Ok(ports.ports[i].handle),
        None => Err(IpcError::NotFound),
    }
}

/// A port after one more message was queued.
pub open spec fn with_message(port: PortView, message: MessageView) -> PortView {
    PortView { queue: port.queue.push(message), ..port }
}

/// A port after a send was refused.
pub open spec fn with_refusal(port: PortView) -> PortView {
    PortView { dropped: (port.dropped + 1) as u64, ..port }
}

/// A port after its oldest message was taken.
pub open spec fn without_oldest(port: PortView) -> PortView {
    PortView { queue: port.queue.drop_first(), ..port }
}

/// Queues a message. A full queue refuses it: the sender is the only party
/// that knows whether it is worth retrying.
pub fn send(ports: &mut Ports, from: u64, handle: u64, bytes: Vec<u8>) -> (r: Result<
    usize,
    IpcError,
>)
    requires
        old(ports).wf(),
        forall|i: int|
            0 <= i < old(ports).list().len() ==> (#[trigger] old(ports).list()[i]).dropped
                < u64::MAX,
    ensures
        final(ports).wf(),
        final(ports).next() == old(ports).next(),
        if bytes@.len() > MAX_MESSAGE {
            r == Err::<usize, IpcError>(IpcError::TooLarge) && final(ports).list() == old(ports).list()
        } else {
            match port_at(old(ports).list(), handle) {
                None => r == Err::<usize, IpcError>(IpcError::BadHandle) && final(ports).list()
                    == old(ports).list(),
                Some(i) => {
                    let port = old(ports).list()[i];
                    if port.queue.len() >= QUEUE_DEPTH {
                        r == Err::<usize, IpcError>(IpcError::WouldBlock) && final(ports).list()
                            == old(ports).list().update(i, with_refusal(port))
                    } else {
                        r == Ok::<usize, IpcError>(bytes@.len() as usize) && final(ports).list()
                            == old(ports).list().update(
                            i,
                            with_message(port, MessageView { from, bytes: bytes@ }),
                        )
                    }
                },
            }
        },
        total_queued(final(ports).list()) == total_queued(old(ports).list()) + (if r is Ok {
            1int
        } else {
            0
        }),
        total_dropped(final(ports).list()) == total_dropped(old(ports).list()) + (if r
            == Err::<usize, IpcError>(IpcError::WouldBlock) {
            1int
        } else {
            0
        }),
{
    if bytes.len() > MAX_MESSAGE {
        return Err(IpcError::TooLarge);
    }
    let i: usize = match ports.find_handle(handle) {
        Some(i) => i,
        None => {
            return Err(IpcError::BadHandle);
        },
    };
    let ghost before = ports.list();
    let ghost port = before[i as int];
    if ports.ports[i].queue.len() >= QUEUE_DEPTH {
        let n: u64 = ports.ports[i].dropped;
        ports.ports[i].dropped = n + 1;
        proof {
            assert(ports.list() =~= before.update(i as int, with_refusal(port)));
            lemma_update_keeps_regular(before, ports.next(), i as int, with_refusal(port));
            lemma_totals_follow(before, i as int, with_refusal(port));
        }
        return Err(IpcError::WouldBlock);
    }
    let length: usize = bytes.len();
    let message = Message { from, bytes };
    ports.ports[i].queue.push_back(message);
    proof {
        assert(ports.list()[i as int].queue =~= port.queue.push(message@));
        assert(ports.list() =~= before.update(i as int, with_message(port, message@)));
        lemma_update_keeps_regular(before, ports.next(), i as int, with_message(port, message@));
        lemma_totals_follow(before, i as int, with_message(port, message@));
    }
    Ok(length)
}

/// Changing one port's queue keeps the whole table regular.
proof fn lemma_update_keeps_regular(ports: Seq<PortView>, next: u64, i: int, port: PortView)
    requires
        ports_are_regular(ports, next),
        0 <= i < ports.len(),
        port.handle == ports[i].handle,
        port.name == ports[i].name,
        port_is_regular(port),
    ensures
        ports_are_regular(ports.update(i, port), next),
{
    let after = ports.update(i, port);
    assert forall|k: int| 0 <= k < after.len() implies (#[trigger] after[k]).handle < next
        && port_is_regular(after[k]) by {
        if k != i {
            assert(after[k] == ports[k]);
        }
    }
    assert forall|a: int, b: int| 0 <= a < b < after.len() implies (#[trigger] after[a]).handle < (
    #[trigger] after[b]).handle && after[a].name != after[b].name by {
        assert(after[a].handle == ports[a].handle && after[b].handle == ports[b].handle);
        assert(after[a].name == ports[a].name && after[b].name == ports[b].name);
    }
}

/// Takes the oldest message, if the caller owns the port.
pub fn recv(ports: &mut Ports, receiver: u64, handle: u64) -> (r: Result<Message, IpcError>)
    requires
        old(ports).wf(),
    ensures
        final(ports).wf(),
        final(ports).next() == old(ports).next(),
        match port_at(old(ports).list(), handle) {
            Some(i) if old(ports).list()[i].owner == receiver => {
                let port = old(ports).list()[i];
                if port.queue.len() == 0 {
                    r == Err::<Message, IpcError>(IpcError::WouldBlock) && final(ports).list()
                        == old(ports).list()
                } else {
                    &&& r matches Ok(message) && message@ == port.queue[0]
                    &&& final(ports).list() == old(ports).list().update(i, without_oldest(port))
                }
            },
            _ => r == Err::<Message, IpcError>(IpcError::BadHandle) && final(ports).list() == old(
                ports,
            ).list(),
        },
        total_queued(final(ports).list()) == total_queued(old(ports).list()) - (if r is Ok {
            1int
        } else {
            0
        }),
        total_dropped(final(ports).list()) == total_dropped(old(ports).list()),
{
    let i: usize = match ports.find_handle(handle) {
        Some(i) => i,
        None => {
            return Err(IpcError::BadHandle);
        },
    };
    // Otherwise any process that could connect could drain a service's
    // inbox.
    if ports.ports[i].owner != receiver {
        return Err(IpcError::BadHandle);
    }
    let ghost before = ports.list();
    let ghost port = before[i as int];
    let taken: Option<Message> = ports.ports[i].queue.pop_front();
    match taken {
        None => {
            assert(ports.list() =~= before);
            Err(IpcError::WouldBlock)
        },
        Some(message) => {
            proof {
                assert(ports.list()[i as int].queue =~= port.queue.drop_first());
                assert(ports.list() =~= before.update(i as int, without_oldest(port)));
                lemma_update_keeps_regular(before, ports.next(), i as int, without_oldest(port));
                lemma_totals_follow(before, i as int, without_oldest(port));
            }
            Ok(message)
        },
    }
}

/// Destroys a port, if the caller owns it.
pub fn close(ports: &mut Ports, owner: u64, handle: u64) -> (r: Result<(), IpcError>)
    requires
        old(ports).wf(),
    ensures
        final(ports).wf(),
        final(ports).next() == old(ports).next(),
        match port_at(old(ports).list(), handle) {
            Some(i) if old(ports).list()[i].owner == owner => r == Ok::<(), IpcError>(())
                && final(ports).list() == old(ports).list().remove(i),
            _ => r == Err::<(), IpcError>(IpcError::BadHandle) && final(ports).list() == old(ports).list(),
        },
{
    match ports.find_handle(handle) {
        Some(i) => {
            if ports.ports[i].owner != owner {
                return Err(IpcError::BadHandle);
            }
            let ghost before = ports.list();
            ports.ports.remove(i);
            proof {
                let after = ports.list();
                assert(after =~= before.remove(i as int));
                lemma_sub_is_regular(
                    before,
                    after,
                    ports.next(),
                    |k: int|
                        if k < i {
                            k
                        } else {
                            k + 1
                        },
                );
            }
            Ok(())
        },
        None => Err(IpcError::BadHandle),
    }
}

/// Leaving ports out keeps the table regular.
proof fn lemma_sub_is_regular(
    ports: Seq<PortView>,
    some: Seq<PortView>,
    next: u64,
    place: spec_fn(int) -> int,
)
    requires
        ports_are_regular(ports, next),
        some.len() <= ports.len(),
        forall|k: int|
            0 <= k < some.len() ==> 0 <= #[trigger] place(k) < ports.len() && some[k]
                == ports[place(k)],
        forall|a: int, b: int|
            0 <= a < b < some.len() ==> #[trigger] place(a) < #[trigger] place(b),
    ensures
        ports_are_regular(some, next),
{
    assert forall|k: int| 0 <= k < some.len() implies (#[trigger] some[k]).handle < next
        && port_is_regular(some[k]) by {
        assert(some[k] == ports[place(k)]);
    }
    assert forall|a: int, b: int| 0 <= a < b < some.len() implies (#[trigger] some[a]).handle < (
    #[trigger] some[b]).handle && some[a].name != some[b].name by {
        assert(place(a) < place(b));
        assert(some[a] == ports[place(a)] && some[b] == ports[place(b)]);
    }
}

/// Destroys every port a process owned, so that a service can be restarted
/// under its name.
pub fn close_all_for(ports: &mut Ports, owner: u64)
    requires
        old(ports).wf(),
    ensures
        final(ports).wf(),
        final(ports).next() == old(ports).next(),
        final(ports).list() == not_owned_by(old(ports).list(), owner),
{
    let ghost all = ports.list();
    let mut i: usize = ports.ports.len();
    assert(all.subrange(i as int, all.len() as int) =~= Seq::<PortView>::empty());
    assert(ports.list() =~= all.subrange(0, i as int) + not_owned_by(
        all.subrange(i as int, all.len() as int),
        owner,
    ));
    while i > 0
        invariant
            i <= all.len(),
            i <= ports.ports.len(),
            ports.next() == old(ports).next(),
            all == old(ports).list(),
            ports.list() == all.subrange(0, i as int) + not_owned_by(
                all.subrange(i as int, all.len() as int),
                owner,
            ),
        decreases i,
    {
        i -= 1;
        let ghost before = ports.list();
        let ghost tail = all.subrange(i + 1, all.len() as int);
        let ghost next = all.subrange(i as int, all.len() as int);
        proof {
            assert(next =~= seq![all[i as int]] + tail);
            lemma_not_owned_front(all[i as int], tail, owner);
            assert(before[i as int] == all[i as int]);
        }
        if ports.ports[i].owner == owner {
            ports.ports.remove(i);
            assert(ports.list() =~= before.remove(i as int));
        }
        assert(ports.list() =~= all.subrange(0, i as int) + not_owned_by(next, owner));
    }
    proof {
        assert(all.subrange(0, all.len() as int) =~= all);
        assert(ports.list() =~= not_owned_by(all, owner));
        lemma_filter_is_regular(all, ports.next(), owner);
    }
}

proof fn lemma_not_owned_front(first: PortView, rest: Seq<PortView>, owner: u64)
    ensures
        not_owned_by(seq![first] + rest, owner) == (if first.owner == owner {
            Seq::<PortView>::empty()
        } else {
            seq![first]
        }) + not_owned_by(rest, owner),
    decreases rest.len(),
{
    let all = seq![first] + rest;
    if rest.len() == 0 {
        assert(all.drop_last() =~= Seq::<PortView>::empty());
        assert(not_owned_by(all.drop_last(), owner) =~= Seq::<PortView>::empty());
        assert(all.last() == first);
        assert(not_owned_by(all, owner) =~= (if first.owner == owner {
            Seq::<PortView>::empty()
        } else {
            seq![first]
        }) + not_owned_by(rest, owner));
    } else {
        assert(all.drop_last() =~= seq![first] + rest.drop_last());
        assert(all.last() == rest.last());
        lemma_not_owned_front(first, rest.drop_last(), owner);
        assert(not_owned_by(all, owner) =~= (if first.owner == owner {
            Seq::<PortView>::empty()
        } else {
            seq![first]
        }) + not_owned_by(rest, owner));
    }
}

/// Every port that is left was there, and stays in its order.
proof fn lemma_filter_is_regular(ports: Seq<PortView>, next: u64, owner: u64)
    requires
        ports_are_regular(ports, next),
    ensures
        ports_are_regular(not_owned_by(ports, owner), next),
        not_owned_by(ports, owner).len() <= ports.len(),
        forall|k: int|
            0 <= k < not_owned_by(ports, owner).len() ==> exists|i: int|
                0 <= i < ports.len() && #[trigger] ports[i] == #[trigger] not_owned_by(
                    ports,
                    owner,
                )[k],
    decreases ports.len(),
{
    let some = not_owned_by(ports, owner);
    if ports.len() > 0 {
        let rest = ports.drop_last();
        assert(ports_are_regular(rest, next)) by {
            lemma_sub_is_regular(ports, rest, next, |k: int| k);
        }
        lemma_filter_is_regular(rest, next, owner);
        let before = not_owned_by(rest, owner);
        assert forall|k: int| 0 <= k < some.len() implies exists|i: int|
            0 <= i < ports.len() && #[trigger] ports[i] == #[trigger] some[k] by {
            if k < before.len() {
                let i = choose|i: int|
                    0 <= i < rest.len() && #[trigger] rest[i] == before[k];
                assert(ports[i] == some[k]);
            } else {
                assert(ports[ports.len() - 1] == some[k]);
            }
        }
        assert forall|k: int| 0 <= k < some.len() implies (#[trigger] some[k]).handle < next
            && port_is_regular(some[k]) by {
            let i = choose|i: int| 0 <= i < ports.len() && #[trigger] ports[i] == some[k];
            assert(ports[i].handle < next);
        }
        assert forall|a: int, b: int| 0 <= a < b < some.len() implies (#[trigger] some[a]).handle
            < (#[trigger] some[b]).handle && some[a].name != some[b].name by {
            if b < before.len() {
                assert(some[a] == before[a] && some[b] == before[b]);
            } else {
                assert(some[a] == before[a]);
                let i = choose|i: int| 0 <= i < rest.len() && #[trigger] rest[i] == before[a];
                assert(ports[i] == some[a]);
                assert(ports[ports.len() - 1] == some[b]);
            }
        }
    }
}

/// Live ports, queued messages, and refused sends.
pub fn stats(ports: &Ports) -> (r: (usize, usize, u64))
    requires
        ports.wf(),
        total_dropped(ports.list()) <= u64::MAX,
    ensures
        r.0 == ports.list().len(),
        r.1 == total_queued(ports.list()),
        r.2 == total_dropped(ports.list()),
        r.0 <= MAX_PORTS,
        r.1 <= QUEUE_DEPTH * r.0,
{
    let mut queued: usize = 0;
    let mut dropped: u64 = 0;
    let mut i: usize = 0;
    assert(ports.list().subrange(0, 0) =~= Seq::<PortView>::empty());
    while i < ports.ports.len()
        invariant
            i <= ports.ports.len(),
            ports.wf(),
            ports.list().len() == ports.ports.len(),
            total_dropped(ports.list()) <= u64::MAX,
            queued == total_queued(ports.list().subrange(0, i as int)),
            queued <= i * QUEUE_DEPTH,
            dropped == total_dropped(ports.list().subrange(0, i as int)),
        decreases ports.ports.len() - i,
    {
        let ghost next = ports.list().subrange(0, i + 1);
        proof {
            assert(next.drop_last() =~= ports.list().subrange(0, i as int));
            assert(next.last() == ports.list()[i as int]);
            lemma_dropped_monotone(ports.list(), i + 1);
        }
        queued += ports.ports[i].queue.len();
        dropped += ports.ports[i].dropped;
        i += 1;
    }
    assert(ports.list().subrange(0, i as int) =~= ports.list());
    (ports.ports.len(), queued, dropped)
}

proof fn lemma_dropped_monotone(ports: Seq<PortView>, n: int)
    requires
        0 <= n <= ports.len(),
    ensures
        total_dropped(ports.subrange(0, n)) <= total_dropped(ports),
    decreases ports.len() - n,
{
    if n < ports.len() {
        lemma_dropped_monotone(ports, n + 1);
        let more = ports.subrange(0, n + 1);
        assert(more.drop_last() =~= ports.subrange(0, n));
    } else {
        assert(ports.subrange(0, n) =~= ports);
    }
}

/// One line of the report.
pub open spec fn port_line(port: PortView) -> Seq<char> {
    "Najm Kernel:   port "@ + text::decimal(port.handle as nat) + " '"@ + text::ascii_text(
        port.name,
    ) + "' owned by pid "@ + text::decimal(port.owner as nat) + ", "@ + text::decimal(
        port.queue.len(),
    ) + " message(s) queued"@
}

/// The live ports, one line each.
pub fn report(ports: &Ports) -> (lines: Vec<String>)
    requires
        ports.wf(),
    ensures
        lines@.len() == ports.list().len(),
        forall|i: int|
            0 <= i < lines@.len() ==> (#[trigger] lines@[i])@ == port_line(ports.list()[i]),
{
    let mut lines: Vec<String> = Vec::new();
    let mut i: usize = 0;
    while i < ports.ports.len()
        invariant
            i <= ports.ports.len(),
            ports.wf(),
            ports.list().len() == ports.ports.len(),
            lines@.len() == i,
            forall|k: int|
                0 <= k < lines@.len() ==> (#[trigger] lines@[k])@ == port_line(ports.list()[k]),
        decreases ports.ports.len() - i,
    {
        let mut line = String::from_str("Najm Kernel:   port ");
        push_decimal(&mut line, ports.ports[i].handle);
        line.append(" '");
        text::push_ascii(&mut line, ports.ports[i].name.as_slice());
        line.append("' owned by pid ");
        push_decimal(&mut line, ports.ports[i].owner);
        line.append(", ");
        push_decimal(&mut line, ports.ports[i].queue.len() as u64);
        line.append(" message(s) queued");
        assert(line@ =~= port_line(ports.list()[i as int]));
        lines.push(line);
        i += 1;
    }
    lines
}

// ---------------------------------------------------------------------
// Laws
// ---------------------------------------------------------------------

/// Messages come out in the order they went in: after a send, the next
/// receive gives the message that was at the front, or the new one where
/// there was none, and the rest keep their order.
pub proof fn law_first_in_first_out(port: PortView, message: MessageView)
    ensures
        with_message(port, message).queue[0] == (if port.queue.len() > 0 {
            port.queue[0]
        } else {
            message
        }),
        port.queue.len() > 0 ==> without_oldest(with_message(port, message)) == with_message(
            without_oldest(port),
            message,
        ),
        port.queue.len() == 0 ==> without_oldest(with_message(port, message)) == port,
{
    assert(without_oldest(with_message(port, message)).queue =~= if port.queue.len() > 0 {
        with_message(without_oldest(port), message).queue
    } else {
        port.queue
    });
}

/// A process that exits gives its names back: no port of it is left, and a
/// name that it held is free again.
pub proof fn law_exit_frees_names(ports: Seq<PortView>, next: u64, owner: u64, i: int)
    requires
        ports_are_regular(ports, next),
        0 <= i < ports.len(),
        ports[i].owner == owner,
    ensures
        port_named(not_owned_by(ports, owner), ports[i].name) is None,
        forall|k: int|
            0 <= k < not_owned_by(ports, owner).len() ==> (#[trigger] not_owned_by(
                ports,
                owner,
            )[k]).owner != owner,
{
    let some = not_owned_by(ports, owner);
    lemma_filter_is_regular(ports, next, owner);
    lemma_none_owned(ports, owner);
    lemma_name_is_free(some, ports[i].name);
    assert forall|k: int| 0 <= k < some.len() implies (#[trigger] some[k]).name != ports[i].name by {
        let j = choose|j: int| 0 <= j < ports.len() && #[trigger] ports[j] == some[k];
        assert(some[k].owner != owner);
        if j < i {
            assert(ports[j].name != ports[i].name);
        } else if i < j {
            assert(ports[i].name != ports[j].name);
        }
    }
}

proof fn lemma_none_owned(ports: Seq<PortView>, owner: u64)
    ensures
        forall|k: int|
            0 <= k < not_owned_by(ports, owner).len() ==> (#[trigger] not_owned_by(
                ports,
                owner,
            )[k]).owner != owner,
    decreases ports.len(),
{
    if ports.len() > 0 {
        lemma_none_owned(ports.drop_last(), owner);
        let before = not_owned_by(ports.drop_last(), owner);
        let some = not_owned_by(ports, owner);
        assert forall|k: int| 0 <= k < some.len() implies (#[trigger] some[k]).owner != owner by {
            if k < before.len() {
                assert(some[k] == before[k]);
            }
        }
    }
}

/// What others own is left alone when a process exits.
pub proof fn law_exit_keeps_other_ports(ports: Seq<PortView>, owner: u64, i: int)
    requires
        0 <= i < ports.len(),
        ports[i].owner != owner,
    ensures
        not_owned_by(ports, owner).contains(ports[i]),
    decreases ports.len(),
{
    let before = not_owned_by(ports.drop_last(), owner);
    let some = not_owned_by(ports, owner);
    if i == ports.len() - 1 {
        assert(some[before.len() as int] == ports[i]);
    } else {
        law_exit_keeps_other_ports(ports.drop_last(), owner, i);
        let k = before.index_of(ports[i]);
        assert(some[k] == ports[i]);
    }
}

/// What changing one port does to the totals.
proof fn lemma_totals_follow(ports: Seq<PortView>, i: int, port: PortView)
    requires
        0 <= i < ports.len(),
    ensures
        total_queued(ports.update(i, port)) == total_queued(ports) - ports[i].queue.len()
            + port.queue.len(),
        total_dropped(ports.update(i, port)) == total_dropped(ports) - ports[i].dropped
            + port.dropped,
    decreases ports.len(),
{
    let after = ports.update(i, port);
    if i == ports.len() - 1 {
        assert(after.drop_last() =~= ports.drop_last());
    } else {
        lemma_totals_follow(ports.drop_last(), i, port);
        assert(after.drop_last() =~= ports.drop_last().update(i, port));
        assert(after.last() == ports.last());
    }
}

/// What removing one port does to the totals.
proof fn lemma_totals_without(ports: Seq<PortView>, i: int)
    requires
        0 <= i < ports.len(),
    ensures
        total_queued(ports.remove(i)) == total_queued(ports) - ports[i].queue.len(),
        total_dropped(ports.remove(i)) == total_dropped(ports) - ports[i].dropped,
    decreases ports.len(),
{
    let after = ports.remove(i);
    if i == ports.len() - 1 {
        assert(after =~= ports.drop_last());
    } else {
        lemma_totals_without(ports.drop_last(), i);
        assert(after.drop_last() =~= ports.drop_last().remove(i));
        assert(after.last() == ports.last());
    }
}

/// There are never more ports than the limit, and never more messages than
/// their queues hold.
pub proof fn law_totals_are_bounded(ports: Seq<PortView>, next: u64)
    requires
        ports_are_regular(ports, next),
    ensures
        ports.len() <= MAX_PORTS,
        total_queued(ports) <= QUEUE_DEPTH * ports.len() <= QUEUE_DEPTH * MAX_PORTS,
    decreases ports.len(),
{
    if ports.len() > 0 {
        let rest = ports.drop_last();
        lemma_sub_is_regular(ports, rest, next, |k: int| k);
        law_totals_are_bounded(rest, next);
        assert(port_is_regular(ports[ports.len() - 1]));
    }
}

/// What is reported follows every change: a message that is accepted is one
/// more in the queues, one that is taken is one less, a send that is refused
/// counts once and leaves the queues alone, a new port changes neither total,
/// and a port that is destroyed takes its own messages and refusals with it.
pub proof fn law_totals_follow_every_change(
    ports: Seq<PortView>,
    i: int,
    message: MessageView,
    fresh: (u64, Seq<u8>, u64),
)
    requires
        0 <= i < ports.len(),
    ensures
        total_queued(ports.update(i, with_message(ports[i], message))) == total_queued(ports) + 1,
        total_dropped(ports.update(i, with_message(ports[i], message))) == total_dropped(ports),
        ports[i].queue.len() > 0 ==> total_queued(ports.update(i, without_oldest(ports[i])))
            == total_queued(ports) - 1,
        total_dropped(ports.update(i, without_oldest(ports[i]))) == total_dropped(ports),
        total_queued(ports.update(i, with_refusal(ports[i]))) == total_queued(ports),
        ports[i].dropped < u64::MAX ==> total_dropped(ports.update(i, with_refusal(ports[i])))
            == total_dropped(ports) + 1,
        total_queued(ports.push(fresh_port(fresh.0, fresh.1, fresh.2))) == total_queued(ports),
        total_dropped(ports.push(fresh_port(fresh.0, fresh.1, fresh.2))) == total_dropped(ports),
        total_queued(ports.remove(i)) == total_queued(ports) - ports[i].queue.len(),
        total_dropped(ports.remove(i)) == total_dropped(ports) - ports[i].dropped,
{
    lemma_totals_follow(ports, i, with_message(ports[i], message));
    lemma_totals_follow(ports, i, without_oldest(ports[i]));
    lemma_totals_follow(ports, i, with_refusal(ports[i]));
    lemma_totals_without(ports, i);
    let more = ports.push(fresh_port(fresh.0, fresh.1, fresh.2));
    assert(more.drop_last() =~= ports);
}

/// A port is found by its handle and by its name, and neither finds another.
/// What no port has is not found.
pub proof fn law_ports_are_found(
    ports: Seq<PortView>,
    next: u64,
    i: int,
    handle: u64,
    name: Seq<u8>,
)
    requires
        ports_are_regular(ports, next),
    ensures
        0 <= i < ports.len() && ports[i].handle == handle ==> port_at(ports, handle) == Some(i),
        0 <= i < ports.len() && ports[i].name == name ==> port_named(ports, name) == Some(i),
        (forall|k: int| 0 <= k < ports.len() ==> (#[trigger] ports[k]).handle != handle)
            ==> port_at(ports, handle) is None,
        (forall|k: int| 0 <= k < ports.len() ==> (#[trigger] ports[k]).name != name)
            ==> port_named(ports, name) is None,
{
    lemma_handle_is_free(ports, handle);
    lemma_name_is_free(ports, name);
    if 0 <= i < ports.len() && ports[i].handle == handle {
        let k = port_at(ports, handle).unwrap();
        if k < i {
            assert(ports[k].handle < ports[i].handle);
        } else if i < k {
            assert(ports[i].handle < ports[k].handle);
        }
    }
    if 0 <= i < ports.len() && ports[i].name == name {
        let k = port_named(ports, name).unwrap();
        if k < i {
            assert(ports[k].name != ports[i].name);
        } else if i < k {
            assert(ports[i].name != ports[k].name);
        }
    }
}

/// A name is up to 64 printable characters with no space among them.
pub proof fn law_names_are_printable(name: Seq<u8>, i: int)
    ensures
        name.len() == 0 || name.len() > 64 ==> !valid_name(name),
        0 <= i < name.len() && (name[i] <= 0x20 || name[i] >= 0x7f) ==> !valid_name(name),
        0 < name.len() <= 64 && (forall|k: int|
            0 <= k < name.len() ==> 0x20 < #[trigger] name[k] < 0x7f) ==> valid_name(name),
{
}

/// What changes in a port. A message that is sent is the last in the queue,
/// the one that is received was the first, and one that does not fit is
/// counted. Nothing else changes, and a new port is empty.
pub proof fn law_ports_are_queues(port: PortView, message: MessageView, i: int, name: Seq<u8>)
    requires
        port.dropped < u64::MAX,
    ensures
        ({
            let sent = with_message(port, message);
            let count = port.queue.len() as int;
            &&& sent.queue.len() == count + 1
            &&& sent.queue[count] == message
            &&& 0 <= i < count ==> sent.queue[i] == port.queue[i]
            &&& sent == (PortView { queue: sent.queue, ..port })
        }),
        port.queue.len() > 0 ==> {
            let received = without_oldest(port);
            let count = port.queue.len() as int;
            &&& received.queue.len() == count - 1
            &&& 0 <= i < count - 1 ==> received.queue[i] == port.queue[i + 1]
            &&& received == (PortView { queue: received.queue, ..port })
        },
        with_refusal(port).dropped == port.dropped + 1,
        with_refusal(port) == (PortView { dropped: with_refusal(port).dropped, ..port }),
        fresh_port(port.handle, name, port.owner).queue.len() == 0,
        fresh_port(port.handle, name, port.owner).dropped == 0,
        fresh_port(port.handle, name, port.owner).handle == port.handle,
        fresh_port(port.handle, name, port.owner).owner == port.owner,
        fresh_port(port.handle, name, port.owner).name == name,
{
}

/// Ports go one by one when their owner ends: what is left of two rows of
/// ports is what is left of each, in order.
pub proof fn law_ports_are_closed_one_by_one(
    a: Seq<PortView>,
    b: Seq<PortView>,
    port: PortView,
    owner: u64,
)
    ensures
        not_owned_by(a + b, owner) == not_owned_by(a, owner) + not_owned_by(b, owner),
        port.owner == owner ==> not_owned_by(seq![port], owner) == Seq::<PortView>::empty(),
        port.owner != owner ==> not_owned_by(seq![port], owner) == seq![port],
    decreases b.len(),
{
    reveal_with_fuel(not_owned_by, 2);
    assert(seq![port].drop_last() =~= Seq::<PortView>::empty());
    if b.len() == 0 {
        assert(a + b =~= a);
        assert(not_owned_by(b, owner) =~= Seq::<PortView>::empty());
        assert(not_owned_by(a, owner) + not_owned_by(b, owner) =~= not_owned_by(a, owner));
    } else {
        law_ports_are_closed_one_by_one(a, b.drop_last(), port, owner);
        assert((a + b).drop_last() =~= a + b.drop_last());
        assert((a + b).last() == b.last());
        assert(not_owned_by(a + b, owner) =~= not_owned_by(a, owner) + not_owned_by(b, owner));
    }
}

/// The report says of a port its handle, its name, its owner and how many
/// messages wait.
pub proof fn law_ports_are_reported(port: PortView)
    ensures
        text::says(
            port_line(port),
            seq![
                text::decimal(port.handle as nat),
                text::ascii_text(port.name),
                text::decimal(port.owner as nat),
                text::decimal(port.queue.len()),
            ],
        ),
{
    let none = Seq::<Seq<char>>::empty();
    let start = "Najm Kernel:   port "@;
    text::lemma_says(start, none, text::decimal(port.handle as nat), " '"@);
    let line1 = start + text::decimal(port.handle as nat) + " '"@;
    let parts1 = none.push(text::decimal(port.handle as nat));
    text::lemma_says(line1, parts1, text::ascii_text(port.name), "' owned by pid "@);
    let line2 = line1 + text::ascii_text(port.name) + "' owned by pid "@;
    let parts2 = parts1.push(text::ascii_text(port.name));
    text::lemma_says(line2, parts2, text::decimal(port.owner as nat), ", "@);
    let line3 = line2 + text::decimal(port.owner as nat) + ", "@;
    let parts3 = parts2.push(text::decimal(port.owner as nat));
    text::lemma_says(line3, parts3, text::decimal(port.queue.len()), " message(s) queued"@);
    let line4 = line3 + text::decimal(port.queue.len()) + " message(s) queued"@;
    let parts4 = parts3.push(text::decimal(port.queue.len()));
    assert(parts4 =~= seq![
        text::decimal(port.handle as nat),
        text::ascii_text(port.name),
        text::decimal(port.owner as nat),
        text::decimal(port.queue.len()),
    ]);
    assert(port_line(port) =~= line4);
}

} // verus!
