//! The 32-byte PRF used for Fiat–Shamir challenges, query sampling and
//! Merkle hashing.
//!
//! The digest itself is opaque to the proofs: `digest_of` names the
//! result, and everything the library states about hashing is phrased
//! over that name.

use vstd::prelude::*;

verus! {

/// The digest that the 32-byte hash assigns to a byte string. The hash
/// is a pure function of its input, so naming its result is sound.
pub uninterp spec fn digest_of(bytes: Seq<u8>) -> Seq<u8>;

/// Relies on `blake3::hash`: a 32-byte digest that depends on the input
/// bytes alone.
#[verifier::external_body]
pub(crate) fn blake3_digest(bytes: &[u8]) -> (r: [u8; 32])
    ensures
        r@ == digest_of(bytes@) && r@.len() == 32,
{
    *blake3::hash(bytes).as_bytes()
}

} // verus!
