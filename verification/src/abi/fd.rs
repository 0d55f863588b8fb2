//! File descriptors that are open in every process from the moment it starts.
use vstd::prelude::*;

verus! {

/// Standard input. Not connected to anything; reads return 0.
pub const STDIN: u64 = 0;

/// Standard output: the kernel console.
pub const STDOUT: u64 = 1;

/// Standard error, currently the same destination as [`STDOUT`].
pub const STDERR: u64 = 2;

/// The first descriptor `open` will hand out.
pub const FIRST_DYNAMIC: u64 = 3;

} // verus!
