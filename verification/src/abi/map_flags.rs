//! Flags for `map`. Asking for write and execute together is refused.
use vstd::prelude::*;

verus! {

/// Readable; implied by any mapping.
pub const READ: u64 = 0;

/// Writable.
pub const WRITE: u64 = 1;

/// Executable.
pub const EXEC: u64 = 2;

} // verus!
