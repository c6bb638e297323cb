//! A FRI low-degree test: a non-interactive argument that a committed
//! codeword is the evaluation of a polynomial of bounded degree on a
//! multiplicative subgroup of a prime field.
//!
//! The crate exposes a prover, a verifier, and a binary proof codec.
//! Challenges and query positions are derived from an append-only
//! transcript by hashing (Fiat–Shamir); codewords are committed with
//! Merkle trees whose leaves are field elements.

pub mod codec;
pub mod codeword;
pub mod errors;
pub mod field;
pub mod hash;
pub mod laws;
pub mod low_degree_proof;
pub mod merkle;
pub mod params;
pub mod poly;
pub mod prove;
pub mod serialization;
pub mod tree;
pub mod verify;
pub mod wire;

pub use errors::{ProveError, ValidationError};
