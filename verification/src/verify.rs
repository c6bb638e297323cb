//! The verifier: replays parameters, challenges and query indices
//! from the proof, checks the Merkle openings and the collinearity of
//! every sampled triple, and bounds the degree of the final layer.

use vstd::prelude::*;
use crate::errors::ValidationError;
use crate::field::{
    modulus_ok, modulus_bound, in_field, pow_mod, from_be, colinear, mod_pow_raw,
    are_colinear_raw, from_bytes_raw,
};
use crate::hash::{digest_of, blake3_digest};
use crate::merkle::{MerkleTree, PartialAuthenticationPath, multi_proof_ok};
use crate::low_degree_proof::{LowDegreeProof, sample_spec, triples_model};
use crate::poly::{lagrange_spec, degree_spec};

verus! {

/// Every value carried by the proof's authentication paths fits the
/// machine backend.
pub open spec fn paths_bounded(rounds: Seq<Vec<PartialAuthenticationPath>>) -> bool {
    forall|i: int, j: int|
        0 <= i < rounds.len() && 0 <= j < rounds[i]@.len() ==> 0 <= (#[trigger] rounds[i]@[j]).value
            < modulus_bound()
}

/// The proof's field elements fit the machine backend (the parser and
/// the prover both guarantee this).
pub open spec fn proof_bounded(p: LowDegreeProof) -> bool {
    &&& 0 <= p.primitive_root_of_unity < modulus_bound()
    &&& paths_bounded(p.ab_proofs@)
    &&& paths_bounded(p.c_proofs@)
}

/// The structural cardinality check of the proof.
pub open spec fn sizes_ok(p: LowDegreeProof) -> bool {
    &&& p.rounds_count as int == p.ab_proofs@.len()
    &&& p.rounds_count as int == p.c_proofs@.len()
    &&& p.rounds_count as int == p.challenge_hash_preimages@.len()
    &&& p.rounds_count as int + 1 == p.merkle_roots@.len()
}

/// The working root of unity at round `r`: the committed root squared
/// `r` times (reduced to canonical form).
pub open spec fn omega_at(p: LowDegreeProof, q: int, r: int) -> int
    decreases r,
{
    if r <= 0 {
        (p.primitive_root_of_unity as int) % q
    } else {
        (omega_at(p, q, r - 1) * omega_at(p, q, r - 1)) % q
    }
}

/// The Fiat–Shamir challenge of round `i`: the first 16 bytes of the
/// digest of the round's transcript snapshot, read big-endian and
/// reduced mod `q`.
pub open spec fn challenge_at(p: LowDegreeProof, q: int, i: int) -> int {
    from_be(digest_of(p.challenge_hash_preimages@[i]@).subrange(0, 16)) % q
}

/// The `c` positions of a sampled round.
pub open spec fn c_indices_of(m: Seq<(int, int, int)>) -> Seq<usize> {
    Seq::new(m.len(), |j: int| m[j].2 as usize)
}

/// The interleaved `a, b` positions of a sampled round.
pub open spec fn ab_indices_of(m: Seq<(int, int, int)>) -> Seq<usize> {
    Seq::new(
        2 * m.len(),
        |j: int|
            if j % 2 == 0 {
                m[j / 2].0 as usize
            } else {
                m[j / 2].1 as usize
            },
    )
}

/// The collinearity condition of query `j` in round `i`.
pub open spec fn colinear_ok(
    p: LowDegreeProof,
    q: int,
    i: int,
    m: Seq<(int, int, int)>,
    j: int,
) -> bool {
    let w = omega_at(p, q, i);
    let a_x = pow_mod(w, m[j].0 as nat, q);
    let b_x = pow_mod(w, m[j].1 as nat, q);
    let a_y = (p.ab_proofs@[i]@[2 * j].value as int) % q;
    let b_y = (p.ab_proofs@[i]@[2 * j + 1].value as int) % q;
    let c_y = (p.c_proofs@[i]@[j].value as int) % q;
    colinear((a_x, a_y), (b_x, b_y), (challenge_at(p, q, i), c_y), q)
}

/// The outcome of the checks of round `i` alone.
pub open spec fn round_check(p: LowDegreeProof, q: int, i: int) -> Result<(), ValidationError> {
    match sample_spec(
        p.index_picker_preimage@,
        i as u8,
        p.s as int,
        p.codeword_size as int,
    ) {
        None => Err(ValidationError::BadSizedProof),
        Some(m) => if !(multi_proof_ok(p.merkle_roots@[i + 1]@, c_indices_of(m), p.c_proofs@[i]@)
            && multi_proof_ok(p.merkle_roots@[i]@, ab_indices_of(m), p.ab_proofs@[i]@)) {
            Err(ValidationError::BadMerkleProof)
        } else if exists|j: int| 0 <= j < p.s as int && !colinear_ok(p, q, i, m, j) {
            Err(ValidationError::NotColinear)
        } else {
            Ok(())
        },
    }
}

/// The first failure among rounds `i, i + 1, ...`, if any.
pub open spec fn rounds_ok(p: LowDegreeProof, q: int, i: int) -> Result<(), ValidationError>
    decreases p.rounds_count as int - i,
{
    if i >= p.rounds_count as int {
        Ok(())
    } else {
        match round_check(p, q, i) {
            Err(e) => Err(e),
            Ok(()) => rounds_ok(p, q, i + 1),
        }
    }
}

/// If every round from `i` on passes, each individual round check
/// passes.
pub proof fn lemma_rounds_all_ok(p: LowDegreeProof, q: int, i: int, k: int)
    requires
        rounds_ok(p, q, i) == Ok::<(), ValidationError>(()),
        i <= k < p.rounds_count as int,
    ensures
        round_check(p, q, k) == Ok::<(), ValidationError>(()),
    decreases k - i,
{
    if i < k {
        lemma_rounds_all_ok(p, q, i + 1, k);
    }
}

/// The points interpolated in the final check: for each query of the
/// last round, the squared `a` x-coordinate paired with the opened
/// `c` value.
pub open spec fn last_points(p: LowDegreeProof, q: int) -> Seq<(i128, i128)> {
    let r = p.rounds_count as int - 1;
    match sample_spec(
        p.index_picker_preimage@,
        r as u8,
        p.s as int,
        p.codeword_size as int,
    ) {
        None => Seq::empty(),
        Some(m) => Seq::new(
            p.s as nat,
            |j: int|
                (
                    pow_mod(pow_mod(omega_at(p, q, r), m[j].0 as nat, q), 2, q) as i128,
                    ((p.c_proofs@[r]@[j].value as int) % q) as i128,
                ),
        ),
    }
}

/// The final low-degree check on the last committed layer.
pub open spec fn final_check(p: LowDegreeProof, q: int) -> Result<(), ValidationError> {
    if p.rounds_count == 0 || p.s == 0 {
        Err(ValidationError::LastIterationTooHighDegree)
    } else if degree_spec(lagrange_spec(last_points(p, q), q)) > p.max_degree_of_last_round as int {
        Err(ValidationError::LastIterationTooHighDegree)
    } else {
        Ok(())
    }
}

/// The verifier's verdict on `p` over the field of modulus `q`.
pub open spec fn verify_spec(p: LowDegreeProof, q: int) -> Result<(), ValidationError> {
    if !sizes_ok(p) {
        Err(ValidationError::BadSizedProof)
    } else {
        match rounds_ok(p, q, 0) {
            Err(e) => Err(e),
            Ok(()) => final_check(p, q),
        }
    }
}

/// Reduces a backend value to canonical form.
fn mod_reduce(v: i128, q: i128) -> (r: i128)
    requires
        modulus_ok(q as int),
        0 <= v < modulus_bound(),
    ensures
        r as int == (v as int) % (q as int),
        in_field(r as int, q as int),
{
    proof {
        vstd::arithmetic::div_mod::lemma_mod_bound(v as int, q as int);
    }
    ((v as u128) % (q as u128)) as i128
}

/// Copies the first 16 bytes of a digest.
fn first16(d: &[u8; 32]) -> (r: Vec<u8>)
    ensures
        r@ == d@.subrange(0, 16),
{
    let mut r: Vec<u8> = Vec::new();
    let mut i: usize = 0;
    while i < 16
        invariant
            i <= 16,
            r@.len() == i,
            forall|k: int| 0 <= k < i ==> r@[k] == d@[k],
        decreases 16 - i,
    {
        r.push(d[i]);
        i = i + 1;
    }
    proof {
        assert(r@ =~= d@.subrange(0, 16));
    }
    r
}

/// Verifies a low-degree proof against the field of the given
/// modulus. Total: every proof object yields a verdict.
pub fn verify_i128(proof: LowDegreeProof, modulus: i128) -> (r: Result<(), ValidationError>)
    requires
        modulus_ok(modulus as int),
        proof_bounded(proof),
    ensures
        r == verify_spec(proof, modulus as int),
{
    let q: i128 = modulus;
    let ghost qi = modulus as int;
    let rc: usize = proof.rounds_count as usize;
    if rc != proof.ab_proofs.len() || rc != proof.c_proofs.len() || rc
        != proof.challenge_hash_preimages.len() || rc + 1 != proof.merkle_roots.len() {
        return Err(ValidationError::BadSizedProof);
    }
    let mut primitive_root_of_unity: i128 = mod_reduce(proof.primitive_root_of_unity, q);
    let mut last_a_xs: Vec<i128> = Vec::new();
    let mut c_values: Vec<i128> = Vec::new();
    let mut i: usize = 0;
    while i < rc
        invariant
            i <= rc,
            rc == proof.rounds_count as int,
            q == modulus,
            modulus_ok(qi),
            qi == q as int,
            proof_bounded(proof),
            sizes_ok(proof),
            primitive_root_of_unity as int == omega_at(proof, qi, i as int),
            in_field(primitive_root_of_unity as int, qi),
            rounds_ok(proof, qi, i as int) == rounds_ok(proof, qi, 0),
            (i as int) < (rc as int) ==> c_values@.len() == 0 && last_a_xs@.len() == 0,
            rc > 0 && i as int == rc as int ==> ({
                match sample_spec(
                    proof.index_picker_preimage@,
                    (rc - 1) as u8,
                    proof.s as int,
                    proof.codeword_size as int,
                ) {
                    None => false,
                    Some(m) => {
                        &&& last_a_xs@.len() == proof.s as int
                        &&& c_values@.len() == proof.s as int
                        &&& forall|j: int|
                            0 <= j < proof.s as int ==> (#[trigger] last_a_xs@[j]) as int
                                == pow_mod(omega_at(proof, qi, rc - 1 as int), m[j].0 as nat, qi)
                                && c_values@[j] as int == (proof.c_proofs@[rc - 1 as int]@[j].value
                                as int) % qi
                        &&& forall|j: int|
                            0 <= j < proof.s as int ==> in_field(
                                (#[trigger] last_a_xs@[j]) as int,
                                qi,
                            ) && in_field(c_values@[j] as int, qi)
                    },
                }
            }),
        decreases rc - i,
    {
        let abc_indices_option: Option<Vec<(usize, usize, usize)>> = proof.get_abc_indices(
            i as u8,
        );
        let abc_indices = match abc_indices_option {
            None => {
                proof {
                    assert(round_check(proof, qi, i as int) == Err::<(), ValidationError>(
                        ValidationError::BadSizedProof,
                    ));
                }
                return Err(ValidationError::BadSizedProof);
            },
            Some(v) => v,
        };
        let ghost m = triples_model(abc_indices@);
        let s_round: usize = abc_indices.len();
        proof {
            assert(proof.s <= 0xFF) by {
                if proof.s > 0xFF {
                    assert(sample_spec(
                        proof.index_picker_preimage@,
                        i as u8,
                        proof.s as int,
                        proof.codeword_size as int,
                    ) is None);
                }
            }
        }
        let mut c_indices: Vec<usize> = Vec::new();
        let mut ab_indices: Vec<usize> = Vec::new();
        let mut t: usize = 0;
        while t < s_round
            invariant
                t <= s_round,
                s_round == abc_indices@.len(),
                m == triples_model(abc_indices@),
                forall|j: int|
                    0 <= j < abc_indices@.len() ==> 0 <= (#[trigger] abc_indices@[j]).0 && (
                    abc_indices@[j].0 as int) + (abc_indices@[j].1 as int) < 0x2_0000_0000,
                c_indices@.len() == t,
                ab_indices@.len() == 2 * t,
                forall|j: int| 0 <= j < t ==> (#[trigger] c_indices@[j]) == c_indices_of(m)[j],
                forall|j: int|
                    0 <= j < 2 * t ==> (#[trigger] ab_indices@[j]) == ab_indices_of(m)[j],
            decreases s_round - t,
        {
            let (a, b, c) = abc_indices[t];
            ab_indices.push(a);
            ab_indices.push(b);
            c_indices.push(c);
            proof {
                assert forall|j: int| 0 <= j < 2 * (t + 1) implies (#[trigger] ab_indices@[j])
                    == ab_indices_of(m)[j] by {
                    if j == 2 * t {
                        assert(ab_indices@[j] == a);
                    } else if j == 2 * t + 1 {
                        assert(ab_indices@[j] == b);
                    }
                }
            }
            t = t + 1;
        }
        proof {
            assert(c_indices@ =~= c_indices_of(m));
            assert(ab_indices@ =~= ab_indices_of(m));
        }
        let valid_cs: bool = MerkleTree::verify_multi_proof(
            proof.merkle_roots[i + 1],
            &c_indices,
            &proof.c_proofs[i],
        );
        let valid_abs: bool = MerkleTree::verify_multi_proof(
            proof.merkle_roots[i],
            &ab_indices,
            &proof.ab_proofs[i],
        );
        if !valid_cs || !valid_abs {
            proof {
                assert(round_check(proof, qi, i as int) == Err::<(), ValidationError>(
                    ValidationError::BadMerkleProof,
                ));
            }
            return Err(ValidationError::BadMerkleProof);
        }
        // The Merkle check pins the path counts to the index counts.
        proof {
            assert(proof.c_proofs@[i as int]@.len() == proof.s as int);
            assert(proof.ab_proofs@[i as int]@.len() == 2 * proof.s as int);
        }
        let hash: [u8; 32] = blake3_digest(proof.challenge_hash_preimages[i].as_slice());
        let head: Vec<u8> = first16(&hash);
        let challenge: i128 = from_bytes_raw(&q, head.as_slice());
        proof {
            assert(challenge as int == challenge_at(proof, qi, i as int));
        }
        let is_last: bool = i + 1 == rc;
        if is_last {
            let mut j: usize = 0;
            while j < s_round
                invariant
                    j <= s_round,
                    s_round == proof.s as int,
                    s_round <= 0xFF,
                    q == modulus,
                    modulus_ok(qi),
                    qi == q as int,
                    proof_bounded(proof),
                    sizes_ok(proof),
                    i as int == proof.rounds_count as int - 1,
                    sample_spec(
                        proof.index_picker_preimage@,
                        i as u8,
                        proof.s as int,
                        proof.codeword_size as int,
                    ) == Some(m),
                    m == triples_model(abc_indices@),
                    s_round == abc_indices@.len(),
                    forall|k: int|
                        0 <= k < abc_indices@.len() ==> 0 <= (#[trigger] abc_indices@[k]).0 && (
                        abc_indices@[k].0 as int) + (abc_indices@[k].1 as int) < 0x2_0000_0000,
                    primitive_root_of_unity as int == omega_at(proof, qi, i as int),
                    in_field(primitive_root_of_unity as int, qi),
                    proof.c_proofs@[i as int]@.len() == proof.s as int,
                    c_values@.len() == j,
                    last_a_xs@.len() == j,
                    forall|k: int|
                        0 <= k < j ==> (#[trigger] last_a_xs@[k]) as int == pow_mod(
                            omega_at(proof, qi, i as int),
                            m[k].0 as nat,
                            qi,
                        ) && c_values@[k] as int == (proof.c_proofs@[i as int]@[k].value as int)
                            % qi,
                    forall|k: int|
                        0 <= k < j ==> in_field((#[trigger] last_a_xs@[k]) as int, qi) && in_field(
                            c_values@[k] as int,
                            qi,
                        ),
                decreases s_round - j,
            {
                let (a_idx, _b_idx, _c_idx) = abc_indices[j];
                let a_x: i128 = mod_pow_raw(primitive_root_of_unity, a_idx as u64, q);
                last_a_xs.push(a_x);
                let c_y: i128 = mod_reduce(proof.c_proofs[i][j].get_value(), q);
                c_values.push(c_y);
                j = j + 1;
            }
        }
        let mut j: usize = 0;
        while j < s_round
            invariant
                j <= s_round,
                s_round == proof.s as int,
                s_round <= 0xFF,
                q == modulus,
                modulus_ok(qi),
                qi == q as int,
                proof_bounded(proof),
                sizes_ok(proof),
                i < proof.rounds_count as int,
                rounds_ok(proof, qi, i as int) == rounds_ok(proof, qi, 0),
                sample_spec(
                    proof.index_picker_preimage@,
                    i as u8,
                    proof.s as int,
                    proof.codeword_size as int,
                ) == Some(m),
                multi_proof_ok(
                    proof.merkle_roots@[i as int + 1]@,
                    c_indices_of(m),
                    proof.c_proofs@[i as int]@,
                ),
                multi_proof_ok(
                    proof.merkle_roots@[i as int]@,
                    ab_indices_of(m),
                    proof.ab_proofs@[i as int]@,
                ),
                m == triples_model(abc_indices@),
                s_round == abc_indices@.len(),
                forall|k: int|
                    0 <= k < abc_indices@.len() ==> 0 <= (#[trigger] abc_indices@[k]).0 && (
                    abc_indices@[k].0 as int) + (abc_indices@[k].1 as int) < 0x2_0000_0000,
                primitive_root_of_unity as int == omega_at(proof, qi, i as int),
                in_field(primitive_root_of_unity as int, qi),
                challenge as int == challenge_at(proof, qi, i as int),
                in_field(challenge as int, qi),
                proof.c_proofs@[i as int]@.len() == proof.s as int,
                proof.ab_proofs@[i as int]@.len() == 2 * proof.s as int,
                forall|k: int| 0 <= k < j ==> colinear_ok(proof, qi, i as int, m, k),
            decreases s_round - j,
        {
            let (a_idx, b_idx, _c_idx) = abc_indices[j];
            let a_x: i128 = mod_pow_raw(primitive_root_of_unity, a_idx as u64, q);
            let a_y: i128 = mod_reduce(proof.ab_proofs[i][2 * j].get_value(), q);
            let b_x: i128 = mod_pow_raw(primitive_root_of_unity, b_idx as u64, q);
            let b_y: i128 = mod_reduce(proof.ab_proofs[i][2 * j + 1].get_value(), q);
            let c_y: i128 = mod_reduce(proof.c_proofs[i][j].get_value(), q);
            let pts: [(i128, i128); 3] = [(a_x, a_y), (b_x, b_y), (challenge, c_y)];
            let ok: bool = are_colinear_raw(pts.as_slice(), q);
            if !ok {
                proof {
                    assert(!colinear_ok(proof, qi, i as int, m, j as int));
                    assert(round_check(proof, qi, i as int) == Err::<(), ValidationError>(
                        ValidationError::NotColinear,
                    ));
                }
                return Err(ValidationError::NotColinear);
            }
            j = j + 1;
        }
        proof {
            assert(round_check(proof, qi, i as int) == Ok::<(), ValidationError>(()));
        }
        primitive_root_of_unity = crate::field::mul_mod(
            primitive_root_of_unity,
            primitive_root_of_unity,
            q,
        );
        i = i + 1;
    }
    // Final check: the values of the last layer lie on a polynomial of
    // tolerated degree.
    proof {
        assert(rounds_ok(proof, qi, rc as int) == Ok::<(), ValidationError>(()));
        assert(rounds_ok(proof, qi, 0) == Ok::<(), ValidationError>(()));
    }
    if rc == 0 {
        proof {
            assert(final_check(proof, qi) == Err::<(), ValidationError>(
                ValidationError::LastIterationTooHighDegree,
            ));
        }
        return Err(ValidationError::LastIterationTooHighDegree);
    }
    let s: usize = c_values.len();
    if s == 0 {
        proof {
            assert(proof.s == 0);
            assert(final_check(proof, qi) == Err::<(), ValidationError>(
                ValidationError::LastIterationTooHighDegree,
            ));
        }
        return Err(ValidationError::LastIterationTooHighDegree);
    }
    let mut c_points: Vec<(i128, i128)> = Vec::new();
    let mut j: usize = 0;
    while j < s
        invariant
            j <= s,
            s == proof.s as int,
            q == modulus,
            modulus_ok(qi),
            qi == q as int,
            last_a_xs@.len() == s,
            c_values@.len() == s,
            forall|k: int|
                0 <= k < s ==> in_field((#[trigger] last_a_xs@[k]) as int, qi) && in_field(
                    c_values@[k] as int,
                    qi,
                ),
            c_points@.len() == j,
            forall|k: int|
                0 <= k < j ==> (#[trigger] c_points@[k]).0 as int == pow_mod(
                    last_a_xs@[k] as int,
                    2,
                    qi,
                ) && c_points@[k].1 == c_values@[k],
            forall|k: int|
                0 <= k < j ==> in_field((#[trigger] c_points@[k]).0 as int, qi) && in_field(
                    c_points@[k].1 as int,
                    qi,
                ),
        decreases s - j,
    {
        let sq: i128 = mod_pow_raw(last_a_xs[j], 2, q);
        c_points.push((sq, c_values[j]));
        j = j + 1;
    }
    proof {
        let r = proof.rounds_count as int - 1;
        match sample_spec(
            proof.index_picker_preimage@,
            r as u8,
            proof.s as int,
            proof.codeword_size as int,
        ) {
            None => {
                assert(false);
            },
            Some(m) => {
                assert(c_points@ =~= last_points(proof, qi));
            },
        }
        assert(proof.s <= 0xFF) by {
            if proof.s > 0xFF {
                assert(sample_spec(
                    proof.index_picker_preimage@,
                    r as u8,
                    proof.s as int,
                    proof.codeword_size as int,
                ) is None);
            }
        }
        crate::poly::lemma_lagrange_len(c_points@, qi);
    }
    let last_polynomial: Vec<i128> = crate::poly::slow_lagrange_interpolation(&c_points, q);
    let deg: isize = crate::poly::degree(&last_polynomial);
    if (deg as i64) > (proof.max_degree_of_last_round as i64) {
        return Err(ValidationError::LastIterationTooHighDegree);
    }
    Ok(())
}

} // verus!
