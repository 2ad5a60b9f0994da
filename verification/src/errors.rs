//! Errors of the aggregation library. Every error is fatal to the call that
//! raised it; no partial result is returned.

use vstd::prelude::*;

verus! {

/// Why an aggregation or verification call was refused.
#[derive(Clone, Copy, Debug, PartialEq, Eq, Structural)]
pub enum Error {
    /// The SRS length is not a power of two, is below the required minimum,
    /// or exceeds the ceremony's capacity.
    InvalidSrs,
    /// The number of proofs differs from the SRS specialization size.
    BatchSizeMismatch,
    /// Vector lengths disagree where aligned vectors are required.
    MalformedInput,
    /// A canonical encoding failed to decode.
    Serialization,
}

} // verus!
