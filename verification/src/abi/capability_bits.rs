//! Bit positions in `RealmInfo::capabilities`: a report of rights, not their enforcement.
use vstd::prelude::*;

verus! {

pub const SERIAL_WRITE: u64 = 0x001;

pub const TIMER_READ: u64 = 0x002;

pub const FILE_READ: u64 = 0x004;

pub const FILE_WRITE: u64 = 0x008;

pub const PROCESS_SPAWN: u64 = 0x010;

pub const IPC_CREATE: u64 = 0x020;

pub const IPC_CONNECT: u64 = 0x040;

pub const SURFACE_CREATE: u64 = 0x080;

pub const INPUT_READ: u64 = 0x100;

/// The right to take over the whole framebuffer. Even this does not reach the trust bar.
pub const EXCLUSIVE_SCANOUT: u64 = 0x200;

} // verus!
