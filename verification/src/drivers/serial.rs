//! The serial console.
//!
//! The kernel's own diagnostics go out unconditionally. Everything else
//! has to present a capability.
use vstd::prelude::*;
use crate::security::capability::{Capability, CapabilityError, Registry, SerialWrite};

verus! {

/// The I/O port of the first serial line.
pub const COM1: u16 = 0x3F8;

/// What goes out on the line for `text`, if the capability that is
/// presented has not been revoked.
pub fn write_with_capability(cap: &Capability<SerialWrite>, registry: &Registry, text: &str) -> (r:
    Result<Vec<u8>, CapabilityError>)
    ensures
        match r {
            Ok(bytes) => !registry.revoked().contains(cap.id()) && bytes@
                == vstd::utf8::encode_utf8(text@),
            Err(e) => registry.revoked().contains(cap.id()) && e == CapabilityError::Revoked,
        },
{
    if cap.is_revoked(registry) {
        return Err(CapabilityError::Revoked);
    }
    Ok(text.as_bytes_vec())
}

} // verus!
