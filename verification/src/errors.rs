//! Error domains of the low-degree test.
//!
//! The prover refuses to produce a proof at all on bad parameters; the
//! verifier is total and classifies every rejected proof by one of the
//! `ValidationError` verdicts.

use vstd::prelude::*;

verus! {

/// A verdict of the verifier (or of the proof parser) explaining why a
/// proof was rejected.
#[derive(Debug, Clone, Copy, PartialEq, Eq, Structural)]
pub enum ValidationError {
    /// An authentication path fails against the committed Merkle root.
    BadMerkleProof,
    /// A structural cardinality mismatch, or bytes that do not parse.
    BadSizedProof,
    /// The parameters imply no folding round at all.
    NonPostiveRoundCount,
    /// A sampled triple of points fails the collinearity check.
    NotColinear,
    /// The final Lagrange interpolant exceeds the tolerated degree, or
    /// there are no points to interpolate.
    LastIterationTooHighDegree,
}

/// A reason for the prover to refuse to produce a proof.
#[derive(Debug, Clone, Copy, PartialEq, Eq, Structural)]
pub enum ProveError {
    /// `max_degree + 1` is not a power of two.
    BadMaxDegreeValue,
    /// The parameters exhaust the codeword before a single fold.
    NonPostiveRoundCount,
}

} // verus!
