//! Error types for decoding and for opening a sealed envelope.

use vstd::prelude::*;

verus! {

/// Why a byte sequence failed to decode as a sequence of score events.
#[derive(PartialEq, Eq, Structural, Clone, Copy, Debug)]
pub enum DecodeError {
    /// The buffer is too short to hold the event-count prefix.
    Truncated,
    /// The buffer's length does not match the event count it declares.
    LengthMismatch,
    /// An event carries a discriminant that names no enemy kind.
    InvalidEnemy,
}

/// Why a submission failed to yield its events back.
#[derive(PartialEq, Eq, Structural, Clone, Copy, Debug)]
pub enum Error {
    /// The decrypted buffer was empty, or its padding count exceeds its length.
    InvalidPadding,
    /// The decrypted, unpadded bytes do not decode as score events.
    SerializationError(DecodeError),
}

impl From<DecodeError> for Error {
    fn from(err: DecodeError) -> (r: Error) {
        Error::SerializationError(err)
    }
}

impl vstd::std_specs::convert::FromSpecImpl<DecodeError> for Error {
    open spec fn obeys_from_spec() -> bool {
        true
    }

    open spec fn from_spec(err: DecodeError) -> Error {
        Error::SerializationError(err)
    }
}

} // verus!
