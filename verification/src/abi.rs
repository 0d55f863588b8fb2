//! What a user program and the kernel have to agree about: system call
//! numbers, error encoding, and the records that cross the boundary.
use vstd::prelude::*;

pub mod archive;
pub mod capability_bits;
pub mod err;
pub mod fd;
pub mod input_kind;
pub mod layout;
pub mod map_flags;
pub mod open_flags;
pub mod realm_kind;
pub mod seek;
pub mod sys;

verus! {

/// The two's-complement negation of a 64-bit number.
pub open spec fn negated(n: u64) -> u64 {
    if n == 0 {
        0
    } else {
        (0x1_0000_0000_0000_0000 - n) as u64
    }
}

/// Encodes an error number the way a system call returns it.
pub fn encode_error(errno: u64) -> (raw: u64)
    ensures
        raw == negated(errno),
{
    0u64.wrapping_sub(errno)
}

/// Whether a raw return value lies in the window kept for errors.
pub open spec fn in_error_window(raw: u64) -> bool {
    raw >= negated(err::MAX)
}

/// Whether a raw system call return value is an error rather than a result.
pub fn is_error(raw: u64) -> (r: bool)
    ensures
        r == in_error_window(raw),
{
    raw >= encode_error(err::MAX)
}

/// What a raw return value means.
pub open spec fn decoded(raw: u64) -> Result<u64, u64> {
    if in_error_window(raw) {
        Err(negated(raw))
    } else {
        Ok(raw)
    }
}

/// Splits a raw system call return into a result or an error number.
pub fn decode(raw: u64) -> (r: Result<u64, u64>)
    ensures
        r == decoded(raw),
{
    if is_error(raw) {
        Err(encode_error(raw))
    } else {
        Ok(raw)
    }
}

/// Every error number survives the trip through a raw return value.
pub proof fn law_error_round_trip(errno: u64)
    requires
        1 <= errno <= err::MAX,
    ensures
        decoded(negated(errno)) == Err::<u64, u64>(errno),
{
}

/// A result below the error window is never mistaken for an error.
pub proof fn law_result_round_trip(value: u64)
    requires
        value < negated(err::MAX),
    ensures
        decoded(value) == Ok::<u64, u64>(value),
{
}

/// What `stat` writes.
#[derive(Debug, Clone, Copy, PartialEq, Eq, Structural)]
pub struct FileInfo {
    /// Size in bytes. Zero for a directory.
    pub size: u64,
    /// Non-zero if this is a directory.
    pub is_directory: u64,
}

/// What `realm_info` writes.
#[derive(Debug, Clone, Copy, PartialEq, Eq, Structural)]
pub struct RealmInfo {
    /// One of the `realm_kind` constants.
    pub kind: u64,
    /// This process's id.
    pub pid: u64,
    /// The rights this Realm holds, as `capability_bits`.
    pub capabilities: u64,
}

/// What `surface_info` writes: the geometry a program should render at.
#[derive(Debug, Clone, Copy, PartialEq, Eq, Structural)]
pub struct SurfaceInfo {
    pub width: u64,
    pub height: u64,
    /// Bytes per row.
    pub stride: u64,
    pub bytes_per_pixel: u64,
}

/// One input event, as delivered by `input_poll`.
#[derive(Debug, Clone, Copy, PartialEq, Eq, Structural)]
pub struct InputEvent {
    /// One of the `input_kind` constants.
    pub kind: u64,
    /// Key code for a key event, button mask for a button event.
    pub code: u64,
    /// Absolute X for a motion event, otherwise 0.
    pub x: u64,
    /// Absolute Y for a motion event, otherwise 0.
    pub y: u64,
}

impl Default for FileInfo {
    fn default() -> (r: Self)
        ensures
            r == (FileInfo { size: 0, is_directory: 0 }),
    {
        FileInfo { size: 0, is_directory: 0 }
    }
}

impl Default for RealmInfo {
    fn default() -> (r: Self)
        ensures
            r == (RealmInfo { kind: 0, pid: 0, capabilities: 0 }),
    {
        RealmInfo { kind: 0, pid: 0, capabilities: 0 }
    }
}

impl Default for SurfaceInfo {
    fn default() -> (r: Self)
        ensures
            r == (SurfaceInfo { width: 0, height: 0, stride: 0, bytes_per_pixel: 0 }),
    {
        SurfaceInfo { width: 0, height: 0, stride: 0, bytes_per_pixel: 0 }
    }
}

impl Default for InputEvent {
    fn default() -> (r: Self)
        ensures
            r == (InputEvent { kind: 0, code: 0, x: 0, y: 0 }),
    {
        InputEvent { kind: 0, code: 0, x: 0, y: 0 }
    }
}

/// An error is returned as its number below zero, which is as much short of
/// two to the power of 64, and the last 4095 values are the errors.
pub proof fn law_errors_are_below_zero(errno: u64, raw: u64)
    ensures
        0 < errno ==> negated(errno) + errno == 0x1_0000_0000_0000_0000,
        in_error_window(raw) <==> raw >= 0xffff_ffff_ffff_f001,
        raw < 0xffff_ffff_ffff_f001 ==> decoded(raw) == Ok::<u64, u64>(raw),
        raw >= 0xffff_ffff_ffff_f001 ==> (decoded(raw) matches Err(e) && e + raw
            == 0x1_0000_0000_0000_0000),
{
}

} // verus!
