//! Why an argument could not be made or read.

use ark_serialize::SerializationError;
use vstd::prelude::*;

verus! {

/// The error of ark-serialize.
#[verifier::external_type_specification]
#[verifier::external_body]
pub struct ExSerializationError(SerializationError);

/// Why an argument could not be made or read.
#[derive(Debug)]
pub enum Error {
    /// Bytes could not be read as an element.
    Serialization(SerializationError),
    /// The commitment key has the wrong length.
    InvalidKeyLength,
    /// The vectors of an inner product differ in length.
    InvalidIPVectorLength,
    /// A pairing does not come out as it should.
    InvalidPairing,
    /// The structured reference string is invalid.
    InvalidSRS(String),
    /// The proof is invalid.
    InvalidProof(String),
    /// The verifying key is malformed.
    MalformedVerifyingKey,
    /// The transcript gave the challenge zero, which has no inverse.
    ZeroChallenge,
}

impl From<SerializationError> for Error {
    fn from(error: SerializationError) -> (r: Error) {
        Error::Serialization(error)
    }
}

impl vstd::std_specs::convert::FromSpecImpl<SerializationError> for Error {
    open spec fn obeys_from_spec() -> bool {
        true
    }

    open spec fn from_spec(error: SerializationError) -> Error {
        Error::Serialization(error)
    }
}

} // verus!
