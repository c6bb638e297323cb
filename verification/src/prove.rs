//! The prover: commits the codeword, folds it round by round under
//! Fiat–Shamir challenges, and opens the committed layers at the
//! sampled query positions.

use vstd::prelude::*;
use vstd::arithmetic::div_mod::{
    lemma_add_mod_noop, lemma_mul_mod_noop_left, lemma_mul_mod_noop_right, lemma_small_mod,
    lemma_sub_mod_noop,
};
use crate::field::{
    modulus_ok, modulus_bound, in_field, pow_mod, inv_mod, mul_mod, add_mod, sub_mod,
    inverse_mod, from_be, from_bytes_raw,
};
use crate::codec::{le_bytes, append_le};
use crate::errors::ProveError;
use crate::hash::{digest_of, blake3_digest};
use crate::merkle::{MerkleTree, PartialAuthenticationPath, root_spec, path_spec};
use crate::low_degree_proof::{LowDegreeProof, sample_spec, triples_model, half_size};
use crate::params::{
    is_power_of_two, log2_ceil, rounds_total_spec, try_rounds_count, log_2_ceil, pow2_u64,
    lemma_log2_ceil_le,
};
use crate::verify::{proof_bounded, sizes_ok};
use crate::wire::{
    header_bytes, digests_bytes, paths_bytes, block_bytes, rounds_bytes, encode_proof,
    append_digest, append_paths, append_bytes, lemma_paths_bytes_len, lemma_digests_bytes_len,
};
use vstd::arithmetic::power2::{pow2, lemma2_to64, lemma_pow2_pos, lemma_pow2_adds};

verus! {

/// One folding step of the codeword: entry `i` of the half-length
/// codeword combines positions `i` and `i + M` of the previous layer,
/// weighted by the challenge over the inverse power of the working
/// root.
pub open spec fn fold_spec(c: Seq<i128>, beta: int, w: int, inv2: int, q: int) -> Seq<i128> {
    Seq::new(
        (c.len() / 2) as nat,
        |i: int|
            ((((1 + beta * inv_mod(pow_mod(w, i as nat, q), q)) * c[i] + (1 - beta * inv_mod(
                pow_mod(w, i as nat, q),
                q,
            )) * c[i + c.len() / 2]) * inv2) % q) as i128,
    )
}

/// The canonical chain of modular operations computes the folding
/// formula.
proof fn lemma_fold_value(beta: int, xinv: int, a: int, b: int, inv2: int, q: int)
    requires
        2 <= q,
        0 <= beta < q,
        0 <= xinv < q,
        0 <= a < q,
        0 <= b < q,
        0 <= inv2 < q,
    ensures
        ((((1int % q + (beta * xinv) % q) % q) * a % q + (((1int % q - (beta * xinv) % q) % q) * b)
            % q) % q * inv2) % q == (((1 + beta * xinv) * a + (1 - beta * xinv) * b) * inv2) % q,
{
    let u = beta * xinv;
    let p1 = 1 + u;
    let p2 = 1 - u;
    // (1 % q + u % q) % q == p1 % q
    assert((1int % q + u % q) % q == p1 % q) by {
        lemma_add_mod_noop(1, u, q);
    }
    // (1 % q - u % q) % q == p2 % q
    assert((1int % q - u % q) % q == p2 % q) by {
        lemma_sub_mod_noop(1, u, q);
    }
    // (p1 % q) * a % q == p1 * a % q, and the same for p2, b.
    assert((p1 % q) * a % q == (p1 * a) % q) by {
        lemma_mul_mod_noop_left(p1, a, q);
    }
    assert((p2 % q) * b % q == (p2 * b) % q) by {
        lemma_mul_mod_noop_left(p2, b, q);
    }
    // Sum of the two residues.
    assert(((p1 * a) % q + (p2 * b) % q) % q == (p1 * a + p2 * b) % q) by {
        lemma_add_mod_noop(p1 * a, p2 * b, q);
    }
    // Multiply by inv2.
    assert(((p1 * a + p2 * b) % q) * inv2 % q == ((p1 * a + p2 * b) * inv2) % q) by {
        lemma_mul_mod_noop_left(p1 * a + p2 * b, inv2, q);
    }
}

/// Folds a codeword of even length in half under `challenge`, exactly
/// as the verifier's collinearity checks expect.
pub fn fri_prover_iteration_i128(
    codeword: &[i128],
    challenge: &i128,
    modulus: &i128,
    inv_two: &i128,
    primitive_root_of_unity: &i128,
) -> (r: Vec<i128>)
    requires
        modulus_ok(*modulus as int),
        in_field(*challenge as int, *modulus as int),
        in_field(*inv_two as int, *modulus as int),
        in_field(*primitive_root_of_unity as int, *modulus as int),
        forall|i: int|
            0 <= i < codeword@.len() ==> in_field(#[trigger] codeword@[i] as int, *modulus as int),
        codeword@.len() < 0x8000_0000,
    ensures
        r@ == fold_spec(
            codeword@,
            *challenge as int,
            *primitive_root_of_unity as int,
            *inv_two as int,
            *modulus as int,
        ),
        forall|i: int| 0 <= i < r@.len() ==> in_field(#[trigger] r@[i] as int, *modulus as int),
{
    let q: i128 = *modulus;
    let ghost qi = q as int;
    let m: usize = codeword.len() / 2;
    let one: i128 = 1 % q;
    let mut new_codeword: Vec<i128> = Vec::new();
    let mut x: i128 = one;
    let mut i: usize = 0;
    proof {
        assert(pow_mod(*primitive_root_of_unity as int, 0, qi) == 1int % qi);
    }
    while i < m
        invariant
            i <= m,
            m == codeword@.len() / 2,
            codeword@.len() < 0x8000_0000,
            q == *modulus,
            qi == q as int,
            modulus_ok(qi),
            one == 1int % qi,
            in_field(*challenge as int, qi),
            in_field(*inv_two as int, qi),
            in_field(*primitive_root_of_unity as int, qi),
            forall|k: int| 0 <= k < codeword@.len() ==> in_field(#[trigger] codeword@[k] as int, qi),
            x as int == pow_mod(*primitive_root_of_unity as int, i as nat, qi),
            in_field(x as int, qi),
            new_codeword@.len() == i,
            forall|k: int|
                0 <= k < i ==> (#[trigger] new_codeword@[k]) == fold_spec(
                    codeword@,
                    *challenge as int,
                    *primitive_root_of_unity as int,
                    *inv_two as int,
                    qi,
                )[k],
            forall|k: int|
                0 <= k < i ==> in_field((#[trigger] new_codeword@[k]) as int, qi),
        decreases m - i,
    {
        let x_inv: i128 = inverse_mod(x, q);
        let u: i128 = mul_mod(*challenge, x_inv, q);
        let p1: i128 = add_mod(one, u, q);
        let p2: i128 = sub_mod(one, u, q);
        let t: i128 = add_mod(
            mul_mod(p1, codeword[i], q),
            mul_mod(p2, codeword[i + m], q),
            q,
        );
        let v: i128 = mul_mod(t, *inv_two, q);
        proof {
            lemma_fold_value(
                *challenge as int,
                x_inv as int,
                codeword@[i as int] as int,
                codeword@[i as int + m as int] as int,
                *inv_two as int,
                qi,
            );
        }
        new_codeword.push(v);
        let x_next: i128 = mul_mod(x, *primitive_root_of_unity, q);
        proof {
            assert(pow_mod(*primitive_root_of_unity as int, (i + 1) as nat, qi)
                == (*primitive_root_of_unity as int * pow_mod(
                *primitive_root_of_unity as int,
                i as nat,
                qi,
            )) % qi);
        }
        x = x_next;
        i = i + 1;
    }
    proof {
        assert(new_codeword@ =~= fold_spec(
            codeword@,
            *challenge as int,
            *primitive_root_of_unity as int,
            *inv_two as int,
            qi,
        ));
    }
    new_codeword
}


/// The working root of unity of layer `r`: the input root squared `r`
/// times.
pub open spec fn w_chain(w0: int, q: int, r: int) -> int
    decreases r,
{
    if r <= 0 {
        w0 % q
    } else {
        (w_chain(w0, q, r - 1) * w_chain(w0, q, r - 1)) % q
    }
}

/// The codeword at round `r`: the input codeword folded `r` times
/// under the Fiat-Shamir challenges.
pub open spec fn cw(c0: Seq<i128>, q: int, w0: int, base: Seq<u8>, r: int) -> Seq<i128>
    decreases r, 0int,
{
    if r <= 0 {
        c0
    } else {
        fold_spec(
            cw(c0, q, w0, base, r - 1),
            beta(c0, q, w0, base, r - 1),
            w_chain(w0, q, r - 1),
            inv_mod(2int % q, q),
            q,
        )
    }
}

/// The committed roots of layers `0 ..= r`, concatenated.
pub open spec fn roots_cat(c0: Seq<i128>, q: int, w0: int, base: Seq<u8>, r: int) -> Seq<u8>
    decreases r, 1int,
{
    if r <= 0 {
        root_spec(cw(c0, q, w0, base, r))
    } else {
        roots_cat(c0, q, w0, base, r - 1) + root_spec(cw(c0, q, w0, base, r))
    }
}

/// The transcript snapshot taken at the start of round `r` (after the
/// root of layer `r` was appended): the caller's transcript, the
/// header, and the roots so far.
pub open spec fn pre(c0: Seq<i128>, q: int, w0: int, base: Seq<u8>, r: int) -> Seq<u8>
    decreases r, 2int,
{
    base + roots_cat(c0, q, w0, base, r)
}

/// The challenge of round `r`: the first 16 bytes of the digest of
/// the round's snapshot, big-endian, reduced mod `q`.
pub open spec fn beta(c0: Seq<i128>, q: int, w0: int, base: Seq<u8>, r: int) -> int
    decreases r, 3int,
{
    from_be(digest_of(pre(c0, q, w0, base, r)).subrange(0, 16)) % q
}

/// The parameters admit at least one folding round.
pub open spec fn prove_params_ok(n: int, d: int, s: int) -> bool {
    match rounds_total_spec(n, d, s) {
        Some(p) => p.0 >= 1,
        None => false,
    }
}

/// Every round's query sampling succeeds on the index-picker
/// snapshot (true whenever the parameters are not degenerate).
pub open spec fn samples_ok(
    c0: Seq<i128>,
    q: int,
    omega: i128,
    d: int,
    s: int,
    prefix: Seq<u8>,
) -> bool {
    let n = c0.len() as int;
    let base = prefix + header_bytes(n, d, s, omega);
    match rounds_total_spec(n, d, s) {
        None => true,
        Some((rc, _)) => forall|r: int|
            0 <= r < rc ==> (#[trigger] sample_spec(
                pre(c0, q, omega as int, base, rc),
                r as u8,
                s,
                n,
            )) is Some,
    }
}

/// The given path vectors are exactly the Merkle openings of layers
/// `r` and `r + 1` at the positions sampled for round `r`.
pub open spec fn qround_ok(
    cps: Seq<PartialAuthenticationPath>,
    abps: Seq<PartialAuthenticationPath>,
    c0: Seq<i128>,
    q: int,
    w0: int,
    base: Seq<u8>,
    rc: int,
    s: int,
    r: int,
) -> bool {
    let n = c0.len() as int;
    match sample_spec(pre(c0, q, w0, base, rc), r as u8, s, n) {
        None => false,
        Some(m) => {
            let up = cw(c0, q, w0, base, r);
            let down = cw(c0, q, w0, base, r + 1);
            &&& cps.len() == s
            &&& forall|t: int|
                0 <= t < s ==> (#[trigger] cps[t]).value == down[m[t].2]
                    && cps[t].siblings.deep_view() == path_spec(down, m[t].2)
            &&& abps.len() == 2 * s
            &&& forall|t: int|
                0 <= t < s ==> (#[trigger] abps[2 * t]).value == up[m[t].0] && abps[2
                    * t].siblings.deep_view() == path_spec(up, m[t].0) && abps[2 * t + 1].value
                    == up[m[t].1] && abps[2 * t + 1].siblings.deep_view() == path_spec(up, m[t].1)
        },
    }
}

/// The opened paths of round `r` are exactly the Merkle openings of
/// layers `r` and `r + 1` at the sampled positions.
pub open spec fn round_paths_ok(
    p: LowDegreeProof,
    c0: Seq<i128>,
    q: int,
    w0: int,
    base: Seq<u8>,
    r: int,
) -> bool {
    qround_ok(
        p.c_proofs@[r]@,
        p.ab_proofs@[r]@,
        c0,
        q,
        w0,
        base,
        p.rounds_count as int,
        p.s as int,
        r,
    )
}

/// Every path block of the proof fits its 16-bit length prefix.
pub open spec fn wire_fits(p: LowDegreeProof) -> bool {
    forall|r: int|
        0 <= r < p.rounds_count as int ==> paths_bytes((#[trigger] p.c_proofs@[r])@).len() <= 0xFFFF
            && paths_bytes(p.ab_proofs@[r]@).len() <= 0xFFFF
}

/// The complete relation between a produced proof and the prover's
/// inputs: every field of the proof is the mathematical function of
/// the codeword, the field, the parameters, and the caller's
/// transcript prefix that the protocol prescribes.
pub open spec fn prove_model_ok(
    p: LowDegreeProof,
    c0: Seq<i128>,
    q: int,
    omega: i128,
    d: int,
    s: int,
    prefix: Seq<u8>,
) -> bool {
    let n = c0.len() as int;
    let base = prefix + header_bytes(n, d, s, omega);
    let w0 = omega as int;
    let rc = p.rounds_count as int;
    &&& rounds_total_spec(n, d, s) == Some((rc, p.max_degree_of_last_round as int))
    &&& rc >= 1
    &&& p.codeword_size as int == n
    &&& p.max_degree as int == d
    &&& p.s as int == s
    &&& p.primitive_root_of_unity == omega
    &&& p.merkle_roots@.len() == rc + 1
    &&& forall|r: int|
        0 <= r <= rc ==> (#[trigger] p.merkle_roots@[r])@ == root_spec(cw(c0, q, w0, base, r))
    &&& p.challenge_hash_preimages@.len() == rc
    &&& forall|r: int|
        0 <= r < rc ==> (#[trigger] p.challenge_hash_preimages@[r])@ == pre(c0, q, w0, base, r)
    &&& p.index_picker_preimage@ == pre(c0, q, w0, base, rc)
    &&& p.c_proofs@.len() == rc
    &&& p.ab_proofs@.len() == rc
    &&& forall|r: int| 0 <= r < rc ==> round_paths_ok(p, c0, q, w0, base, r)
    &&& wire_fits(p)
}

/// A table of roots that matches the root chain concatenates to it.
pub proof fn lemma_digests_eq_roots_cat(
    roots: Seq<[u8; 32]>,
    c0: Seq<i128>,
    q: int,
    w0: int,
    base: Seq<u8>,
    rc: int,
)
    requires
        0 <= rc,
        roots.len() == rc + 1,
        forall|r: int| 0 <= r <= rc ==> (#[trigger] roots[r])@ == root_spec(cw(c0, q, w0, base, r)),
    ensures
        digests_bytes(roots) == roots_cat(c0, q, w0, base, rc),
    decreases rc,
{
    if rc == 0 {
        assert(roots.drop_last().len() == 0);
        assert(roots.last() == roots[0]);
        assert(roots[0]@ == root_spec(cw(c0, q, w0, base, 0)));
        assert(digests_bytes(roots.drop_last()) =~= Seq::<u8>::empty());
        assert(digests_bytes(roots) =~= Seq::<u8>::empty() + roots[0]@);
        assert(Seq::<u8>::empty() + roots[0]@ =~= roots[0]@);
    } else {
        assert forall|r: int| 0 <= r <= rc - 1 implies (#[trigger] roots.drop_last()[r])@
            == root_spec(cw(c0, q, w0, base, r)) by {
            assert(roots.drop_last()[r] == roots[r]);
        }
        lemma_digests_eq_roots_cat(roots.drop_last(), c0, q, w0, base, rc - 1);
        assert(roots.last() == roots[rc]);
        assert(roots[rc]@ == root_spec(cw(c0, q, w0, base, rc)));
    }
}

/// Clones a byte buffer.
fn clone_bytes(v: &Vec<u8>) -> (r: Vec<u8>)
    ensures
        r@ == v@,
{
    let mut r: Vec<u8> = Vec::new();
    let mut i: usize = 0;
    while i < v.len()
        invariant
            i <= v@.len(),
            r@.len() == i,
            forall|k: int| 0 <= k < i ==> r@[k] == v@[k],
        decreases v@.len() - i,
    {
        r.push(v[i]);
        i = i + 1;
    }
    proof {
        assert(r@ =~= v@);
    }
    r
}

/// Copies the first 16 bytes of a digest.
fn head16(d: &[u8; 32]) -> (r: Vec<u8>)
    ensures
        r@ == d@.subrange(0, 16),
{
    let mut r: Vec<u8> = Vec::new();
    let mut i: usize = 0;
    while i < 16
        invariant
            i <= 16,
            r@.len() == i,
            forall|k: int| 0 <= k < i ==> r@[k] == d@[k],
        decreases 16 - i,
    {
        r.push(d[i]);
        i = i + 1;
    }
    proof {
        assert(r@ =~= d@.subrange(0, 16));
    }
    r
}

/// Appends the header and commits the initial codeword: the part of
/// the prover shared by every backend.
fn prover_shared(
    max_degree: u32,
    output: &mut Vec<u8>,
    codeword: &[i128],
    s: usize,
    primitive_root_of_unity: i128,
) -> (r: Result<(usize, Vec<MerkleTree>, u32), ProveError>)
    requires
        is_power_of_two(codeword@.len() as int),
        2 <= codeword@.len() <= 0x4000_0000,
        forall|i: int|
            0 <= i < codeword@.len() ==> 0 <= #[trigger] codeword@[i] < modulus_bound(),
        0 <= primitive_root_of_unity < modulus_bound(),
        max_degree < 0xFFFF_FFFF,
        s <= 0xFF,
    ensures
        match r {
            Err(ProveError::BadMaxDegreeValue) => !is_power_of_two(max_degree as int + 1)
                && final(output)@ == old(output)@,
            Err(ProveError::NonPostiveRoundCount) => is_power_of_two(max_degree as int + 1)
                && !prove_params_ok(codeword@.len() as int, max_degree as int, s as int)
                && final(output)@ == old(output)@ + header_bytes(
                codeword@.len() as int,
                max_degree as int,
                s as int,
                primitive_root_of_unity,
            ) + root_spec(codeword@),
            Ok((rc, mts, last)) => ({
                &&& is_power_of_two(max_degree as int + 1)
                &&& prove_params_ok(codeword@.len() as int, max_degree as int, s as int)
                &&& rounds_total_spec(codeword@.len() as int, max_degree as int, s as int)
                    == Some((rc as int, last as int))
                &&& 1 <= rc <= 255
                &&& mts@.len() == 1
                &&& mts@[0].wf()
                &&& mts@[0].leaves@ == codeword@
                &&& final(output)@ == old(output)@ + header_bytes(
                    codeword@.len() as int,
                    max_degree as int,
                    s as int,
                    primitive_root_of_unity,
                ) + root_spec(codeword@)
            }),
        },
{
    let max_degree_plus_one: u32 = max_degree + 1;
    let lg: u64 = log_2_ceil(max_degree_plus_one as u64);
    let pw: u64 = pow2_u64(lg);
    if pw != max_degree_plus_one as u64 {
        return Err(ProveError::BadMaxDegreeValue);
    }
    append_le(output, codeword.len() as u64, 4);
    append_le(output, max_degree as u64, 4);
    append_le(output, s as u64, 4);
    append_le(output, 16u64, 2);
    append_le(output, primitive_root_of_unity as u64, 16);
    proof {
        assert(output@ =~= old(output)@ + header_bytes(
            codeword@.len() as int,
            max_degree as int,
            s as int,
            primitive_root_of_unity,
        ));
    }
    let mt: MerkleTree = MerkleTree::from_vec(codeword);
    let mut mts: Vec<MerkleTree> = Vec::new();
    let root: [u8; 32] = mt.get_root();
    mts.push(mt);
    append_digest(output, &root);
    proof {
        assert(output@ =~= old(output)@ + header_bytes(
            codeword@.len() as int,
            max_degree as int,
            s as int,
            primitive_root_of_unity,
        ) + root_spec(codeword@));
    }
    let rounds = try_rounds_count(codeword.len() as u32, max_degree, s as u32);
    match rounds {
        None => Err(ProveError::NonPostiveRoundCount),
        Some((rc, last)) => {
            if rc < 1 {
                return Err(ProveError::NonPostiveRoundCount);
            }
            Ok((rc as usize, mts, last))
        },
    }
}


/// Produces a low-degree proof for `codeword` over the field of
/// `modulus`, appending the proof bytes to `output` (which may
/// already hold an outer transcript).
#[verifier::rlimit(100)]
pub fn prover_i128(
    codeword: &[i128],
    modulus: i128,
    max_degree: u32,
    s: usize,
    output: &mut Vec<u8>,
    primitive_root_of_unity: i128,
) -> (r: Result<LowDegreeProof, ProveError>)
    requires
        modulus_ok(modulus as int),
        in_field(primitive_root_of_unity as int, modulus as int),
        forall|i: int|
            0 <= i < codeword@.len() ==> in_field(#[trigger] codeword@[i] as int, modulus as int),
        is_power_of_two(codeword@.len() as int),
        2 <= codeword@.len() <= 0x4000_0000,
        max_degree < 0xFFFF_FFFF,
        s <= 0xFF,
        2 * s * (16 + 32 * log2_ceil(codeword@.len() as int)) <= 0xFFFF,
    ensures
        match r {
            Ok(p) => ({
                &&& prove_model_ok(
                    p,
                    codeword@,
                    modulus as int,
                    primitive_root_of_unity,
                    max_degree as int,
                    s as int,
                    old(output)@,
                )
                &&& final(output)@ == old(output)@ + encode_proof(p)
                &&& is_power_of_two(max_degree as int + 1)
                &&& proof_bounded(p)
                &&& sizes_ok(p)
            }),
            Err(ProveError::BadMaxDegreeValue) => !is_power_of_two(max_degree as int + 1)
                && final(output)@ == old(output)@,
            Err(ProveError::NonPostiveRoundCount) => ({
                &&& is_power_of_two(max_degree as int + 1)
                &&& !(prove_params_ok(codeword@.len() as int, max_degree as int, s as int)
                    && samples_ok(
                    codeword@,
                    modulus as int,
                    primitive_root_of_unity,
                    max_degree as int,
                    s as int,
                    old(output)@,
                ))
                &&& final(output)@.len() >= old(output)@.len()
                &&& final(output)@.subrange(0, old(output)@.len() as int) == old(output)@
            }),
        },
{
    let ghost c0 = codeword@;
    let ghost qi = modulus as int;
    let ghost w0 = primitive_root_of_unity as int;
    let ghost prefix = old(output)@;
    let ghost nn = c0.len() as int;
    let ghost dd = max_degree as int;
    let ghost ss = s as int;
    let ghost base = prefix + header_bytes(nn, dd, ss, primitive_root_of_unity);
    let ghost k0 = log2_ceil(nn);
    let shared = prover_shared(max_degree, output, codeword, s, primitive_root_of_unity);
    let (rc, mut mts, max_degree_of_last_round): (usize, Vec<MerkleTree>, u32) = match shared {
        Err(e) => {
            proof {
                if e is NonPostiveRoundCount {
                    assert(output@.subrange(0, prefix.len() as int) =~= prefix);
                }
            }
            return Err(e);
        },
        Ok(triple) => triple,
    };
    proof {
        assert(cw(c0, qi, w0, base, 0) == c0);
        assert(roots_cat(c0, qi, w0, base, 0) == root_spec(c0));
        assert(output@ =~= base + roots_cat(c0, qi, w0, base, 0));
        assert(pow2(k0) == nn);
        // The expansion factor is at least 1, so d + 1 <= n and the
        // round count is bounded by the height of the codeword.
        assert(nn >= dd + 1) by {
            if nn < dd + 1 {
                vstd::arithmetic::div_mod::lemma_basic_div(nn, dd + 1);
            }
        }
        lemma_log2_ceil_le(dd + 1, k0);
        assert(rc as int <= log2_ceil(dd + 1));
        assert(rc as int <= k0);
    }
    let mut mut_codeword: Vec<i128> = vstd::slice::slice_to_vec(codeword);
    let mut c_proofs: Vec<Vec<PartialAuthenticationPath>> = Vec::new();
    let mut ab_proofs: Vec<Vec<PartialAuthenticationPath>> = Vec::new();
    let two: i128 = 2 % modulus;
    proof {
        vstd::arithmetic::div_mod::lemma_mod_bound(2int, qi);
    }
    let inv2: i128 = inverse_mod(two, modulus);
    let mut primitive_root_of_unity_temp: i128 = primitive_root_of_unity;
    proof {
        lemma_small_mod(primitive_root_of_unity as nat, modulus as nat);
        assert(primitive_root_of_unity_temp as int == w_chain(w0, qi, 0));
    }
    let mut challenge_hash_preimages: Vec<Vec<u8>> = Vec::new();
    let mut merkle_roots: Vec<[u8; 32]> = Vec::new();
    let root0: [u8; 32] = mts[0].get_root();
    merkle_roots.push(root0);
    let mut r: usize = 0;
    while r < rc
        invariant
            r <= rc,
            1 <= rc <= 255,
            rc as int <= k0,
            q_inv_facts(modulus, qi, inv2),
            modulus_ok(qi),
            qi == modulus as int,
            c0 == codeword@,
            nn == c0.len() as int,
            pow2(k0) == nn,
            2 <= nn <= 0x4000_0000,
            w0 == primitive_root_of_unity as int,
            in_field(w0, qi),
            base == prefix + header_bytes(nn, dd, ss, primitive_root_of_unity),
            output@ == pre(c0, qi, w0, base, r as int),
            mut_codeword@ == cw(c0, qi, w0, base, r as int),
            mut_codeword@.len() == pow2((k0 - r) as nat),
            forall|k: int|
                0 <= k <= r ==> cw(c0, qi, w0, base, k).len() == pow2((k0 - k) as nat),
            forall|i: int|
                0 <= i < mut_codeword@.len() ==> in_field(#[trigger] mut_codeword@[i] as int, qi),
            primitive_root_of_unity_temp as int == w_chain(w0, qi, r as int),
            in_field(primitive_root_of_unity_temp as int, qi),
            mts@.len() == r + 1,
            forall|k: int|
                0 <= k <= r ==> (#[trigger] mts@[k]).wf() && mts@[k].leaves@ == cw(
                    c0,
                    qi,
                    w0,
                    base,
                    k,
                ),
            challenge_hash_preimages@.len() == r,
            forall|k: int|
                0 <= k < r ==> (#[trigger] challenge_hash_preimages@[k])@ == pre(
                    c0,
                    qi,
                    w0,
                    base,
                    k,
                ),
            merkle_roots@.len() == r + 1,
            forall|k: int|
                0 <= k <= r ==> (#[trigger] merkle_roots@[k])@ == root_spec(
                    cw(c0, qi, w0, base, k),
                ),
        decreases rc - r,
    {
        let snapshot: Vec<u8> = clone_bytes(output);
        challenge_hash_preimages.push(snapshot);
        let hash: [u8; 32] = blake3_digest(output.as_slice());
        let head: Vec<u8> = head16(&hash);
        let challenge: i128 = from_bytes_raw(&modulus, head.as_slice());
        proof {
            assert(challenge as int == beta(c0, qi, w0, base, r as int));
        }
        proof {
            if ((k0 - r) as nat) < k0 {
                vstd::arithmetic::power2::lemma_pow2_strictly_increases((k0 - r) as nat, k0);
            }
        }
        let folded: Vec<i128> = fri_prover_iteration_i128(
            mut_codeword.as_slice(),
            &challenge,
            &modulus,
            &inv2,
            &primitive_root_of_unity_temp,
        );
        proof {
            assert(folded@ == cw(c0, qi, w0, base, r as int + 1));
            assert(pow2((k0 - r) as nat) == 2 * pow2((k0 - r - 1) as nat)) by {
                lemma_pow2_adds((k0 - r - 1) as nat, 1);
                lemma2_to64();
            }
            assert(folded@.len() == pow2((k0 - r - 1) as nat));
            crate::params::lemma_log2_ceil_pow2((k0 - r - 1) as nat);
            lemma_pow2_pos((k0 - r - 1) as nat);
            if ((k0 - r - 1) as nat) < k0 {
                vstd::arithmetic::power2::lemma_pow2_strictly_increases((k0 - r - 1) as nat, k0);
            }
        }
        mut_codeword = folded;
        let mt: MerkleTree = MerkleTree::from_vec(mut_codeword.as_slice());
        let root: [u8; 32] = mt.get_root();
        append_digest(output, &root);
        merkle_roots.push(root);
        mts.push(mt);
        proof {
            assert(output@ =~= base + (roots_cat(c0, qi, w0, base, r as int) + root_spec(
                cw(c0, qi, w0, base, r as int + 1),
            )));
        }
        primitive_root_of_unity_temp = mul_mod(
            primitive_root_of_unity_temp,
            primitive_root_of_unity_temp,
            modulus,
        );
        r = r + 1;
    }
    let index_picker_preimage: Vec<u8> = clone_bytes(output);
    let ghost ipp = pre(c0, qi, w0, base, rc as int);
    let mut r: usize = 0;
    while r < rc
        invariant
            r <= rc,
            1 <= rc <= 255,
            rc as int <= k0,
            s <= 0xFF,
            2 * s * (16 + 32 * k0) <= 0xFFFF,
            k0 == log2_ceil(nn),
            modulus_ok(qi),
            qi == modulus as int,
            c0 == codeword@,
            nn == c0.len() as int,
            pow2(k0) == nn,
            2 <= nn <= 0x4000_0000,
            w0 == primitive_root_of_unity as int,
            base == prefix + header_bytes(nn, dd, ss, primitive_root_of_unity),
            index_picker_preimage@ == ipp,
            ipp == pre(c0, qi, w0, base, rc as int),
            rounds_total_spec(nn, dd, ss) == Some(
                (rc as int, max_degree_of_last_round as int),
            ),
            is_power_of_two(dd + 1),
            crate::verify::paths_bounded(c_proofs@),
            crate::verify::paths_bounded(ab_proofs@),
            prefix == old(output)@,
            in_field(w0, qi),
            forall|k: int|
                0 <= k <= rc ==> cw(c0, qi, w0, base, k).len() == pow2((k0 - k) as nat),
            output@ == pre(c0, qi, w0, base, rc as int) + rounds_bytes(
                c_proofs@,
                ab_proofs@,
                r as int,
            ),
            mts@.len() == rc + 1,
            forall|k: int|
                0 <= k <= rc ==> (#[trigger] mts@[k]).wf() && mts@[k].leaves@ == cw(
                    c0,
                    qi,
                    w0,
                    base,
                    k,
                ) && mts@[k].leaves@.len() == pow2((k0 - k) as nat),
            c_proofs@.len() == r,
            ab_proofs@.len() == r,
            forall|k: int|
                0 <= k < r ==> qround_ok(
                    (#[trigger] c_proofs@[k])@,
                    ab_proofs@[k]@,
                    c0,
                    qi,
                    w0,
                    base,
                    rc as int,
                    ss,
                    k,
                ),
            forall|k: int|
                0 <= k < r ==> paths_bytes((#[trigger] c_proofs@[k])@).len() <= 0xFFFF
                    && paths_bytes(ab_proofs@[k]@).len() <= 0xFFFF,
            ss == s as int,
            dd == max_degree as int,
        decreases rc - r,
    {
        let abc_indices_option: Option<Vec<(usize, usize, usize)>> = crate::low_degree_proof::get_abc_indices_internal(
            index_picker_preimage.as_slice(),
            r as u8,
            s as u32,
            codeword.len() as u32,
        );
        let abc_indices = match abc_indices_option {
            None => {
                proof {
                    assert(((r as int) as u8) == r as u8);
                    assert(sample_spec(
                        pre(c0, qi, w0, base, rc as int),
                        (r as int) as u8,
                        ss,
                        nn,
                    ) is None);
                    assert(!samples_ok(c0, qi, primitive_root_of_unity, dd, ss, prefix));
                    assert(output@.subrange(0, prefix.len() as int) =~= prefix);
                }
                return Err(ProveError::NonPostiveRoundCount);
            },
            Some(v) => v,
        };
        let ghost m = triples_model(abc_indices@);
        // This round's layers and the sampled half size agree.
        let ghost half = half_size(nn, r as int);
        proof {
            assert(half == pow2((k0 - r - 1) as nat)) by {
                vstd::arithmetic::power2::lemma_pow2_subtracts((r + 1) as nat, k0);
                lemma_pow2_pos((r + 1) as nat);
            }
            assert(cw(c0, qi, w0, base, r as int + 1).len() == pow2((k0 - r - 1) as nat));
            assert(cw(c0, qi, w0, base, r as int).len() == pow2((k0 - r) as nat));
            assert(pow2((k0 - r) as nat) == 2 * pow2((k0 - r - 1) as nat)) by {
                lemma_pow2_adds((k0 - r - 1) as nat, 1);
                lemma2_to64();
            }
            assert(2 * half == cw(c0, qi, w0, base, r as int).len());
        }
        let mut c_indices: Vec<usize> = Vec::new();
        let mut ab_indices: Vec<usize> = Vec::new();
        let mut t: usize = 0;
        while t < abc_indices.len()
            invariant
                t <= abc_indices@.len(),
                m == triples_model(abc_indices@),
                forall|j: int|
                    0 <= j < abc_indices@.len() ==> ((#[trigger] abc_indices@[j]).0 as int) < half
                        && (abc_indices@[j].1 as int) == (abc_indices@[j].0 as int) + half
                        && abc_indices@[j].2 == abc_indices@[j].0,
                half == half_size(nn, r as int),
                c_indices@.len() == t,
                ab_indices@.len() == 2 * t,
                forall|j: int|
                    0 <= j < t ==> ((#[trigger] c_indices@[j]) as int) == m[j].2 && (c_indices@[j]
                        as int) < half,
                forall|j: int|
                    0 <= j < t ==> ((#[trigger] ab_indices@[2 * j]) as int) == m[j].0 && (
                    ab_indices@[2 * j] as int) < half && (ab_indices@[2 * j + 1] as int) == m[j].1
                        && (ab_indices@[2 * j + 1] as int) < 2 * half,
            decreases abc_indices@.len() - t,
        {
            let ghost old_ab = ab_indices@;
            let (a, b, c) = abc_indices[t];
            ab_indices.push(a);
            ab_indices.push(b);
            c_indices.push(c);
            proof {
                assert(ab_indices@ =~= old_ab.push(a).push(b));
                assert(m[t as int] == (abc_indices@[t as int].0 as int, abc_indices@[t as int].1
                    as int, abc_indices@[t as int].2 as int));
                assert forall|j: int| 0 <= j < t + 1 implies ((#[trigger] ab_indices@[2 * j])
                    as int) == m[j].0 && (ab_indices@[2 * j] as int) < half && (ab_indices@[2 * j
                    + 1] as int) == m[j].1 && (ab_indices@[2 * j + 1] as int) < 2 * half by {
                    if j == t as int {
                        assert(ab_indices@[2 * j] == a);
                        assert(ab_indices@[2 * j + 1] == b);
                    } else {
                        assert(ab_indices@[2 * j] == old_ab[2 * j]);
                        assert(ab_indices@[2 * j + 1] == old_ab[2 * j + 1]);
                    }
                }
            }
            t = t + 1;
        }
        proof {
            vstd::arithmetic::power2::lemma_pow2_pos((k0 - r - 1) as nat);
            assert forall|j: int| 0 <= j < ab_indices@.len() implies (#[trigger] ab_indices@[j]
                as int) < 2 * half by {
                if j % 2 == 0 {
                    assert(ab_indices@[2 * (j / 2)] as int == m[j / 2].0);
                    assert((ab_indices@[2 * (j / 2)] as int) < half);
                } else {
                    assert(ab_indices@[2 * (j / 2)] as int == m[j / 2].0);
                    assert((ab_indices@[2 * (j / 2) + 1] as int) < 2 * half);
                }
            }
        }
        let authentication_paths_c: Vec<PartialAuthenticationPath> = mts[r + 1].get_multi_proof(
            &c_indices,
        );
        let authentication_paths_ab: Vec<PartialAuthenticationPath> = mts[r].get_multi_proof(
            &ab_indices,
        );
        let ghost up = cw(c0, qi, w0, base, r as int);
        let ghost down = cw(c0, qi, w0, base, r as int + 1);
        proof {
            // The opened values are canonical field elements, and all
            // paths of one tree have the height of that tree.
            assert forall|j: int| 0 <= j < authentication_paths_c@.len() implies 0 <= (
            #[trigger] authentication_paths_c@[j]).value < modulus_bound() by {
                assert(authentication_paths_c@[j].value == mts@[r as int + 1].leaves@[c_indices@[j]
                    as int]);
            }
            assert forall|j: int| 0 <= j < authentication_paths_ab@.len() implies 0 <= (
            #[trigger] authentication_paths_ab@[j]).value < modulus_bound() by {
                assert(authentication_paths_ab@[j].value == mts@[r as int].leaves@[ab_indices@[j]
                    as int]);
            }
            crate::params::lemma_log2_ceil_pow2((k0 - r - 1) as nat);
            crate::params::lemma_log2_ceil_pow2((k0 - r) as nat);
            assert forall|j: int| 0 <= j < authentication_paths_c@.len() implies (
            #[trigger] authentication_paths_c@[j]).siblings@.len() == k0 - r - 1 by {
                assert(authentication_paths_c@[j].siblings.deep_view() == path_spec(
                    down,
                    c_indices@[j] as int,
                ));
                assert(authentication_paths_c@[j].siblings.deep_view().len()
                    == authentication_paths_c@[j].siblings@.len());
            }
            assert forall|j: int| 0 <= j < authentication_paths_ab@.len() implies (
            #[trigger] authentication_paths_ab@[j]).siblings@.len() == k0 - r by {
                assert(authentication_paths_ab@[j].siblings.deep_view() == path_spec(
                    up,
                    ab_indices@[j] as int,
                ));
                assert(authentication_paths_ab@[j].siblings.deep_view().len()
                    == authentication_paths_ab@[j].siblings@.len());
            }
            lemma_paths_bytes_len(authentication_paths_c@, k0 - r as int - 1);
            lemma_paths_bytes_len(authentication_paths_ab@, k0 - r as int);
            assert(authentication_paths_c@.len() * (16 + 32 * (k0 - r as int - 1)) <= 2 * ss * (16
                + 32 * k0)) by (nonlinear_arith)
                requires
                    authentication_paths_c@.len() == ss,
                    0 <= ss,
                    0 <= r as int,
                    r as int + 1 <= k0;
            assert(authentication_paths_ab@.len() * (16 + 32 * (k0 - r as int)) <= 2 * ss * (16
                + 32 * k0)) by (nonlinear_arith)
                requires
                    authentication_paths_ab@.len() == 2 * ss,
                    0 <= ss,
                    0 <= r as int,
                    r as int + 1 <= k0;
        }
        let mut c_paths_encoded: Vec<u8> = Vec::new();
        append_paths(&mut c_paths_encoded, &authentication_paths_c);
        append_le(output, c_paths_encoded.len() as u64, 2);
        append_bytes(output, &c_paths_encoded);
        let mut ab_paths_encoded: Vec<u8> = Vec::new();
        append_paths(&mut ab_paths_encoded, &authentication_paths_ab);
        append_le(output, ab_paths_encoded.len() as u64, 2);
        append_bytes(output, &ab_paths_encoded);
        let ghost old_c = c_proofs@;
        let ghost old_ab = ab_proofs@;
        c_proofs.push(authentication_paths_c);
        ab_proofs.push(authentication_paths_ab);
        proof {
            crate::wire::lemma_rounds_bytes_prefix(c_proofs@, ab_proofs@, old_c, old_ab, r as int);
            assert(rounds_bytes(c_proofs@, ab_proofs@, r as int + 1) == rounds_bytes(
                old_c,
                old_ab,
                r as int,
            ) + block_bytes(c_proofs@[r as int]@) + block_bytes(ab_proofs@[r as int]@));
            assert(output@ =~= pre(c0, qi, w0, base, rc as int) + rounds_bytes(
                c_proofs@,
                ab_proofs@,
                r as int + 1,
            ));
            assert(qround_ok(
                c_proofs@[r as int]@,
                ab_proofs@[r as int]@,
                c0,
                qi,
                w0,
                base,
                rc as int,
                ss,
                r as int,
            ));
            assert(crate::verify::paths_bounded(c_proofs@)) by {
                assert forall|i: int, j: int|
                    0 <= i < c_proofs@.len() && 0 <= j < c_proofs@[i]@.len() implies 0 <= (
                #[trigger] c_proofs@[i]@[j]).value < modulus_bound() by {
                    if i < r as int {
                        assert(c_proofs@[i] == old_c[i]);
                    } else {
                        assert(c_proofs@[i]@[j] == authentication_paths_c@[j]);
                    }
                }
            }
            assert(crate::verify::paths_bounded(ab_proofs@)) by {
                assert forall|i: int, j: int|
                    0 <= i < ab_proofs@.len() && 0 <= j < ab_proofs@[i]@.len() implies 0 <= (
                #[trigger] ab_proofs@[i]@[j]).value < modulus_bound() by {
                    if i < r as int {
                        assert(ab_proofs@[i] == old_ab[i]);
                    } else {
                        assert(ab_proofs@[i]@[j] == authentication_paths_ab@[j]);
                    }
                }
            }
        }
        r = r + 1;
    }
    let p = LowDegreeProof {
        ab_proofs,
        challenge_hash_preimages,
        codeword_size: codeword.len() as u32,
        c_proofs,
        index_picker_preimage,
        max_degree,
        max_degree_of_last_round,
        merkle_roots,
        primitive_root_of_unity,
        rounds_count: rc as u8,
        s: s as u32,
    };
    proof {
        lemma_digests_eq_roots_cat(p.merkle_roots@, c0, qi, w0, base, rc as int);
        assert(output@ =~= prefix + encode_proof(p)) by {
            assert(pre(c0, qi, w0, base, rc as int) =~= prefix + (header_bytes(
                nn,
                dd,
                ss,
                primitive_root_of_unity,
            ) + digests_bytes(p.merkle_roots@)));
            assert(output@ =~= prefix + (header_bytes(nn, dd, ss, primitive_root_of_unity)
                + digests_bytes(p.merkle_roots@) + rounds_bytes(
                p.c_proofs@,
                p.ab_proofs@,
                rc as int,
            )));
        }
        assert(crate::verify::paths_bounded(p.c_proofs@));
        assert(crate::verify::paths_bounded(p.ab_proofs@));
    }
    Ok(p)
}

/// Bundled facts about the inverse of two carried through the commit
/// loop.
pub open spec fn q_inv_facts(modulus: i128, qi: int, inv2: i128) -> bool {
    &&& qi == modulus as int
    &&& inv2 as int == inv_mod(2int % qi, qi)
    &&& in_field(inv2 as int, qi)
}

/// Determinism of the prover: two proofs produced from the same
/// codeword, field, parameters, and initial transcript are equal, and
/// so are their appended transcript bytes.
pub proof fn lemma_prove_deterministic(
    p1: LowDegreeProof,
    p2: LowDegreeProof,
    c0: Seq<i128>,
    q: int,
    omega: i128,
    d: int,
    s: int,
    prefix: Seq<u8>,
)
    requires
        prove_model_ok(p1, c0, q, omega, d, s, prefix),
        prove_model_ok(p2, c0, q, omega, d, s, prefix),
    ensures
        crate::low_degree_proof::proofs_equal(p1, p2),
        encode_proof(p1) == encode_proof(p2),
{
    let n = c0.len() as int;
    let base = prefix + header_bytes(n, d, s, omega);
    let w0 = omega as int;
    let rc = p1.rounds_count as int;
    assert(p2.rounds_count as int == rc);
    assert forall|r: int| 0 <= r < p1.c_proofs@.len() implies crate::low_degree_proof::paths_equal(
        (#[trigger] p1.c_proofs@[r])@,
        p2.c_proofs@[r]@,
    ) && crate::low_degree_proof::paths_equal(p1.ab_proofs@[r]@, p2.ab_proofs@[r]@) by {
        assert(round_paths_ok(p1, c0, q, w0, base, r));
        assert(round_paths_ok(p2, c0, q, w0, base, r));
        let ss = p1.s as int;
        match sample_spec(pre(c0, q, w0, base, rc), r as u8, ss, n) {
            None => {
                assert(false);
            },
            Some(m) => {
                let up = cw(c0, q, w0, base, r);
                let down = cw(c0, q, w0, base, r + 1);
                assert forall|t: int| 0 <= t < p1.c_proofs@[r]@.len() implies (
                #[trigger] p1.c_proofs@[r]@[t]).value == p2.c_proofs@[r]@[t].value
                    && p1.c_proofs@[r]@[t].siblings.deep_view()
                    == p2.c_proofs@[r]@[t].siblings.deep_view() by {
                    assert(p1.c_proofs@[r]@[t].value == down[m[t].2]);
                    assert(p2.c_proofs@[r]@[t].value == down[m[t].2]);
                }
                assert forall|t: int| 0 <= t < p1.ab_proofs@[r]@.len() implies (
                #[trigger] p1.ab_proofs@[r]@[t]).value == p2.ab_proofs@[r]@[t].value
                    && p1.ab_proofs@[r]@[t].siblings.deep_view()
                    == p2.ab_proofs@[r]@[t].siblings.deep_view() by {
                    if t % 2 == 0 {
                        assert(p1.ab_proofs@[r]@[2 * (t / 2)].value == up[m[t / 2].0]);
                        assert(p2.ab_proofs@[r]@[2 * (t / 2)].value == up[m[t / 2].0]);
                    } else {
                        assert(p1.ab_proofs@[r]@[2 * (t / 2)].value == up[m[t / 2].0]);
                        assert(p2.ab_proofs@[r]@[2 * (t / 2)].value == up[m[t / 2].0]);
                        assert(p1.ab_proofs@[r]@[2 * (t / 2) + 1].value == up[m[t / 2].1]);
                        assert(p2.ab_proofs@[r]@[2 * (t / 2) + 1].value == up[m[t / 2].1]);
                    }
                }
            },
        }
    }
    assert forall|r: int| 0 <= r < p1.merkle_roots@.len() implies (
    #[trigger] p1.merkle_roots@[r])@ == p2.merkle_roots@[r]@ by {
        assert(p1.merkle_roots@[r]@ == root_spec(cw(c0, q, w0, base, r)));
        assert(p2.merkle_roots@[r]@ == root_spec(cw(c0, q, w0, base, r)));
    }
    assert forall|i: int| 0 <= i < p1.challenge_hash_preimages@.len() implies (
    #[trigger] p1.challenge_hash_preimages@[i])@ == p2.challenge_hash_preimages@[i]@ by {
        assert(p1.challenge_hash_preimages@[i]@ == pre(c0, q, w0, base, i));
        assert(p2.challenge_hash_preimages@[i]@ == pre(c0, q, w0, base, i));
    }
    assert forall|r: int| 0 <= r < p1.ab_proofs@.len() implies crate::low_degree_proof::paths_equal(
        (#[trigger] p1.ab_proofs@[r])@,
        p2.ab_proofs@[r]@,
    ) by {
        assert(crate::low_degree_proof::paths_equal(p1.c_proofs@[r]@, p2.c_proofs@[r]@)
            && crate::low_degree_proof::paths_equal(p1.ab_proofs@[r]@, p2.ab_proofs@[r]@));
    }
    assert(crate::low_degree_proof::proofs_equal(p1, p2));
    crate::wire::lemma_digests_bytes_congruence(p1.merkle_roots@, p2.merkle_roots@);
    crate::wire::lemma_rounds_bytes_congruence(
        p1.c_proofs@,
        p1.ab_proofs@,
        p2.c_proofs@,
        p2.ab_proofs@,
        rc,
    );
}

} // verus!
