//! What reading a payload can fail with.

use vstd::prelude::*;

verus! {

/// Why a payload was not read.
#[derive(PartialEq, Eq, Debug, Structural)]
pub enum MamError {
    /// The payload carries no proof of work: its hash has no part that sums to zero.
    InvalidHash,
    /// The signature and the hashes beside it do not lead to the expected root.
    InvalidSignature,
    /// The payload is shorter than its own framing says.
    ArrayOutOfBounds,
}

} // verus!
