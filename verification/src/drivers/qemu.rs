//! Reporting a verdict to the emulator that runs the kernel.
//!
//! The emulator's debug-exit device turns a port write into an exit code.
//! On real hardware nothing claims the port and the write is discarded.
use vstd::prelude::*;

verus! {

/// The I/O port the debug-exit device is bound to.
pub const DEBUG_EXIT_PORT: u16 = 0xf4;

/// What the kernel reports about its own self-tests.
#[derive(Debug, Clone, Copy, PartialEq, Eq, Structural)]
pub enum ExitCode {
    Success,
    Failed,
}

impl ExitCode {
    /// The exit code the host sees: the device shifts what was written and
    /// sets the low bit, so it is never zero.
    pub open spec fn host_code(self) -> int {
        match self {
            ExitCode::Success => 33,
            ExitCode::Failed => 35,
        }
    }
}

/// What to write to the port.
pub fn exit(code: ExitCode) -> (value: u32)
    ensures
        value == (match code {
            ExitCode::Success => 0x10u32,
            ExitCode::Failed => 0x11u32,
        }),
        2 * value + 1 == code.host_code(),
{
    match code {
        ExitCode::Success => 0x10,
        ExitCode::Failed => 0x11,
    }
}

} // verus!
