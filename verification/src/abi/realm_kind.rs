//! Which Realm a process runs in.
use vstd::prelude::*;

verus! {

/// The default for anything without a verified publisher credential.
pub const HOME: u64 = 0;

/// Bounded-latency scheduling and exclusive scanout.
pub const GAMING: u64 = 1;

/// Stricter auditing, no introspection by other Realms.
pub const VAULT: u64 = 2;

/// The compositor and other core services. Never assigned to an installed package.
pub const SYSTEM: u64 = 3;

} // verus!
