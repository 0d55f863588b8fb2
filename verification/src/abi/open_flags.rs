//! Flags for `open`.
use vstd::prelude::*;

verus! {

/// Open for reading.
pub const READ: u64 = 0;

/// Open for writing.
pub const WRITE: u64 = 1;

/// Fail if the path is not a directory.
pub const DIRECTORY: u64 = 2;

} // verus!
