//! Byte constants of the wire grammar.

use vstd::prelude::*;

verus! {

/// The control byte (SOH, 0x01) that terminates each field on the wire.
pub const SOH: u8 = 1;

/// The byte (`'='`) separating a field's tag from its value.
pub const EQUALS: u8 = 61;

} // verus!
