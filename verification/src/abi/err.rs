//! Error numbers, returned as the two's-complement negation of the number.
use vstd::prelude::*;

verus! {

/// No such system call.
pub const ENOSYS: u64 = 1;

/// A pointer or length did not name memory the caller may touch.
pub const EFAULT: u64 = 2;

/// No such file or directory.
pub const ENOENT: u64 = 3;

/// An argument was structurally invalid.
pub const EINVAL: u64 = 4;

/// The caller does not hold the capability this needs.
pub const EPERM: u64 = 5;

/// Out of memory, or of some other kernel resource.
pub const ENOMEM: u64 = 6;

/// The named object exists already.
pub const EEXIST: u64 = 7;

/// The operation would block.
pub const EAGAIN: u64 = 8;

/// Not a valid file descriptor or handle.
pub const EBADF: u64 = 9;

/// Not supported on this kind of object.
pub const ENOTSUP: u64 = 10;

/// The target of an IPC operation has gone away.
pub const EPIPE: u64 = 11;

/// The largest error number that may be encoded.
pub const MAX: u64 = 4095;

} // verus!
