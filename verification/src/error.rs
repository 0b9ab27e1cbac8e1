//! The ways in which decoding fails.

use vstd::prelude::*;

verus! {

/// Why a decode or a transposition was abandoned. No partial output is ever
/// returned together with one of these.
#[derive(Clone, Copy, Debug, PartialEq, Eq, Structural)]
pub enum DecodeError {
    /// A bit or byte was needed from beyond the end of the input.
    MalformedStream,
    /// The buffer handed to the transposer has a length that the table of
    /// grid lengths does not hold, or one of those lengths for which the
    /// grid does not close on itself.
    InvalidShape,
    /// A long-form command header named the long form again as its command.
    InvariantViolation,
    /// A copy command asked for output bytes that have not been written.
    ReferenceOutOfBounds,
}

} // verus!
