//! Multi inner-pairing-product arguments over BLS12-377.
//!
//! A prover who holds group elements `a`, scalars `y` and commitment keys `h` folds the three
//! vectors in half, round after round, under challenges drawn from a transcript.  What is left is
//! one element of each, from which a verifier checks both the multi-exponentiation of `a` by `y`
//! and the pairing product of `a` with `h`.

pub mod algebra;
pub mod error;
pub mod folding;
pub mod groups;
pub mod laws;
pub mod mipp;
pub mod outcomes;
pub mod polynomial;
pub mod poseidon_transcript;
pub mod protocol;
pub mod proving;
pub mod scalar;
mod tensor;
pub mod transcript;
pub mod verdicts;

pub use crate::error::Error;
pub use crate::folding::{compress, compress_field, multiexponentiation};
pub use crate::groups::{pairing, pairings_product, CurvePoint, Encode, Fqk, G1, G2};
pub use crate::mipp::{CommitmentG2, MippClaim, MippOpening, MippProof, ProofG1};
pub use crate::poseidon_transcript::{
    AppendToPoseidon, CompressedGroup, PoseidonParameters, PoseidonTranscript,
};
pub use crate::scalar::Scalar;
pub use crate::transcript::Transcript;
