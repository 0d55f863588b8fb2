//! Capabilities: unforgeable, kernel-issued grants of one right each.
//!
//! Nothing can exercise a right without presenting a token of its type.
//! Revocation sits on top of that as an explicit runtime check, by the
//! identity that a capability shares with every copy derived from it.
use core::marker::PhantomData;
use std::collections::BTreeSet;
use vstd::prelude::*;

verus! {

/// The right to write to the serial console. Nothing makes a value of it: it
/// only tells capabilities apart.
#[derive(Debug)]
pub struct SerialWrite {
    _private: (),
}

/// The right to read the timer tick counter. Nothing makes a value of it
/// either.
#[derive(Debug)]
pub struct TimerRead {
    _private: (),
}

/// A specific grant of the right `R`.
#[derive(Debug)]
pub struct Capability<R> {
    id: u64,
    _right: PhantomData<R>,
}

/// The identities handed out so far and those revoked.
#[derive(Debug)]
pub struct Registry {
    next_id: u64,
    revoked: BTreeSet<u64>,
}

impl Registry {
    /// The identity the next capability will get.
    pub closed spec fn next(&self) -> u64 {
        self.next_id
    }

    /// The identities that have been revoked.
    pub closed spec fn revoked(&self) -> Set<u64> {
        self.revoked@
    }

    /// Nothing issued, nothing revoked.
    pub fn new() -> (r: Registry)
        ensures
            r.next() == 0,
            r.revoked() == Set::<u64>::empty(),
    {
        Registry { next_id: 0, revoked: BTreeSet::new() }
    }
}

impl<R> Capability<R> {
    /// The identity shared by all copies of one grant.
    pub closed spec fn id(&self) -> u64 {
        self.id
    }

    /// Issues a new capability, with an identity no other has.
    pub fn issue(registry: &mut Registry) -> (cap: Capability<R>)
        requires
            old(registry).next() < u64::MAX,
        ensures
            issues(*old(registry), *final(registry), cap),
    {
        let id: u64 = registry.next_id;
        registry.next_id += 1;
        Capability { id, _right: PhantomData }
    }

    /// Delegates a copy of this capability to be held elsewhere. It carries
    /// exactly the same right.
    pub fn derive(&self) -> (copy: Capability<R>)
        ensures
            copy.id() == self.id(),
    {
        Capability { id: self.id, _right: PhantomData }
    }

    /// Permanently revokes this capability and every copy of it.
    pub fn revoke(self, registry: &mut Registry)
        ensures
            revokes(*old(registry), *final(registry), self),
    {
        registry.revoked.insert(self.id);
    }

    /// Whether this grant has been revoked.
    pub fn is_revoked(&self, registry: &Registry) -> (r: bool)
        ensures
            r == is_revoked_in(*registry, *self),
    {
        registry.revoked.contains(&self.id)
    }
}

/// Why an operation was refused.
#[derive(Debug, Clone, Copy, PartialEq, Eq, Structural)]
pub enum CapabilityError {
    Revoked,
}

impl CapabilityError {
    /// A sentence for the log.
    pub fn message(&self) -> (out: String)
        ensures
            out@ == "capability has been revoked"@,
    {
        String::from_str("capability has been revoked")
    }
}

/// Issuing `cap` takes a registry from `before` to `after`.
pub open spec fn issues<R>(before: Registry, after: Registry, cap: Capability<R>) -> bool {
    &&& cap.id() == before.next()
    &&& after.next() == before.next() + 1
    &&& after.revoked() == before.revoked()
}

/// Revoking `cap` takes a registry from `before` to `after`.
pub open spec fn revokes<R>(before: Registry, after: Registry, cap: Capability<R>) -> bool {
    &&& after.revoked() == before.revoked().insert(cap.id())
    &&& after.next() == before.next()
}

/// Whether `cap` is revoked, as far as a registry knows.
pub open spec fn is_revoked_in<R>(registry: Registry, cap: Capability<R>) -> bool {
    registry.revoked().contains(cap.id())
}

/// Two capabilities issued one after the other are separate grants:
/// revoking the first leaves the second as it was.
pub proof fn law_revocation_is_separate<R, Q>(
    issued: (Registry, Registry),
    issued_later: (Registry, Registry),
    revoked: (Registry, Registry),
    first: Capability<R>,
    second: Capability<Q>,
)
    requires
        issues(issued.0, issued.1, first),
        issued.1.next() <= issued_later.0.next(),
        issues(issued_later.0, issued_later.1, second),
        revokes(revoked.0, revoked.1, first),
    ensures
        is_revoked_in(revoked.1, second) == is_revoked_in(revoked.0, second),
{
}

/// Revoking a capability revokes every copy derived from it.
pub proof fn law_revocation_reaches_every_copy<R>(
    before: Registry,
    after: Registry,
    cap: Capability<R>,
    copy: Capability<R>,
)
    requires
        copy.id() == cap.id(),
        revokes(before, after, cap),
    ensures
        is_revoked_in(after, copy),
{
}

/// Once revoked, a grant stays revoked, whatever is issued or revoked
/// later.
pub proof fn law_revocation_is_permanent<R, Q>(
    before: Registry,
    after: Registry,
    cap: Capability<R>,
    other: Capability<Q>,
)
    requires
        is_revoked_in(before, cap),
        revokes(before, after, other) || issues(before, after, other),
    ensures
        is_revoked_in(after, cap),
{
}

} // verus!
