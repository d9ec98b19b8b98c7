//! The error taxonomy of the protocol layer.

use vstd::prelude::*;

verus! {

/// Why a protocol operation failed.  Transport failures and malformed
/// messages are invalid data; missing preconditions such as an absent
/// delta are invalid input; a failure inside the garbled circuit is
/// reported as such.
#[derive(Clone, Copy, Debug, PartialEq, Eq, Structural)]
pub enum MpcError {
    /// A caller-side precondition was not met.
    InvalidInput,
    /// A received or decoded value was malformed or out of range.
    InvalidData,
    /// The garbled-circuit machinery failed.
    GarbledCircuit,
}

} // verus!
