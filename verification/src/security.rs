//! Capabilities and integrity.
use vstd::prelude::*;

pub mod capability;
pub mod sha256;

verus! {

} // verus!
