//! Where a `seek` offset is measured from.
use vstd::prelude::*;

verus! {

/// From the start of the file.
pub const SET: u64 = 0;

/// From the current position.
pub const CURRENT: u64 = 1;

/// From the end of the file.
pub const END: u64 = 2;

} // verus!
