//! The codec round-trip law: a proof emitted by the prover parses
//! back out of the transcript, at the caller's start offset, as an
//! equal proof.

use vstd::prelude::*;
use vstd::arithmetic::power::pow;
use vstd::arithmetic::power2::{pow2, lemma_pow2_pos, lemma_pow2_adds, lemma2_to64};
use crate::codec::{from_le, le_bytes, lemma_from_le_le_bytes, lemma_le_bytes_len};
use crate::field::modulus_bound;
use crate::low_degree_proof::{LowDegreeProof, proofs_equal, paths_equal};
use crate::merkle::PartialAuthenticationPath;
use crate::prove::{prove_model_ok, pre, cw, roots_cat, round_paths_ok};
use crate::serialization::{
    parse_spec, parse_rounds_spec, parse_block_spec, proof_matches, block_matches, path_matches,
    block_end, round_off, block_values_ok,
};
use crate::wire::{
    header_bytes, digests_bytes, path_bytes, paths_bytes, block_bytes, rounds_bytes, encode_proof,
    lemma_paths_bytes_len, lemma_paths_bytes_index, lemma_digests_bytes_len,
    lemma_digests_bytes_index, lemma_digests_bytes_take,
};
use vstd::arithmetic::div_mod::{lemma_mod_multiples_basic, lemma_div_by_multiple};

verus! {

/// All paths of a block open at the same height.
pub open spec fn uniform_paths(ps: Seq<PartialAuthenticationPath>) -> bool {
    forall|j: int|
        0 <= j < ps.len() ==> (#[trigger] ps[j]).siblings@.len() == first_height(ps)
}

/// The height of the first path of a block (0 for an empty block).
pub open spec fn first_height(ps: Seq<PartialAuthenticationPath>) -> int {
    if ps.len() == 0 {
        0
    } else {
        ps[0].siblings@.len() as int
    }
}

/// All leaf values of a block are canonical backend values.
pub open spec fn values_bounded(ps: Seq<PartialAuthenticationPath>) -> bool {
    forall|j: int| 0 <= j < ps.len() ==> 0 <= (#[trigger] ps[j]).value < modulus_bound()
}

/// The per-round blocks from round `r` to round `rc`, in parse order.
pub open spec fn rounds_bytes_from(
    c: Seq<Vec<PartialAuthenticationPath>>,
    ab: Seq<Vec<PartialAuthenticationPath>>,
    r: int,
    rc: int,
) -> Seq<u8>
    decreases rc - r,
{
    if r >= rc {
        Seq::empty()
    } else {
        block_bytes(c[r]@) + block_bytes(ab[r]@) + rounds_bytes_from(c, ab, r + 1, rc)
    }
}

/// The tail decomposition of the round blocks.
pub proof fn lemma_rounds_bytes_split(
    c: Seq<Vec<PartialAuthenticationPath>>,
    ab: Seq<Vec<PartialAuthenticationPath>>,
    k: int,
    rc: int,
)
    requires
        0 <= k <= rc,
    ensures
        rounds_bytes(c, ab, rc) == rounds_bytes(c, ab, k) + rounds_bytes_from(c, ab, k, rc),
    decreases rc - k,
{
    if k == rc {
        assert(rounds_bytes(c, ab, rc) + rounds_bytes_from(c, ab, rc, rc) =~= rounds_bytes(
            c,
            ab,
            rc,
        ));
    } else {
        lemma_rounds_bytes_split(c, ab, k + 1, rc);
        assert(rounds_bytes(c, ab, k + 1) == rounds_bytes(c, ab, k) + block_bytes(c[k]@)
            + block_bytes(ab[k]@));
        assert((rounds_bytes(c, ab, k) + block_bytes(c[k]@) + block_bytes(ab[k]@))
            + rounds_bytes_from(c, ab, k + 1, rc) =~= rounds_bytes(c, ab, k) + (block_bytes(c[k]@)
            + block_bytes(ab[k]@) + rounds_bytes_from(c, ab, k + 1, rc)));
    }
}

/// Walking one round forward commutes with the offset recursion.
pub proof fn lemma_round_off_shift(bytes: Seq<u8>, o: int, j: int)
    requires
        1 <= j,
    ensures
        round_off(bytes, o, j) == round_off(bytes, block_end(bytes, block_end(bytes, o)), j - 1),
    decreases j,
{
    let o2 = block_end(bytes, block_end(bytes, o));
    if j == 1 {
        assert(round_off(bytes, o, 0) == o);
        assert(round_off(bytes, o2, 0) == o2);
        assert(round_off(bytes, o, 1) == block_end(bytes, block_end(bytes, round_off(bytes, o, 0))));
    } else {
        lemma_round_off_shift(bytes, o, j - 1);
        assert(round_off(bytes, o, j) == block_end(
            bytes,
            block_end(bytes, round_off(bytes, o, j - 1)),
        ));
        assert(round_off(bytes, o2, j - 1) == block_end(
            bytes,
            block_end(bytes, round_off(bytes, o2, j - 2)),
        ));
    }
}

/// A serialized block at offset `o` parses back to its paths.
pub proof fn lemma_block_layout(
    ps: Seq<PartialAuthenticationPath>,
    bytes: Seq<u8>,
    o: int,
    count: int,
)
    requires
        ps.len() == count,
        0 <= count,
        0 <= o,
        uniform_paths(ps),
        values_bounded(ps),
        paths_bytes(ps).len() <= 0xFFFF,
        o + 2 + paths_bytes(ps).len() <= bytes.len(),
        bytes.subrange(o, o + 2 + paths_bytes(ps).len() as int) == block_bytes(ps),
    ensures
        parse_block_spec(bytes, o, count) == Ok::<int, crate::errors::ValidationError>(
            o + 2 + paths_bytes(ps).len() as int,
        ),
        block_matches(ps, bytes, o, count),
        block_end(bytes, o) == o + 2 + paths_bytes(ps).len(),
{
    let blob = paths_bytes(ps);
    let h = first_height(ps);
    let per = 16 + 32 * h;
    lemma_le_bytes_len(blob.len() as int, 2);
    assert(bytes.subrange(o, o + 2) =~= block_bytes(ps).subrange(0, 2));
    assert(block_bytes(ps).subrange(0, 2) =~= le_bytes(blob.len() as int, 2));
    assert(from_le(bytes.subrange(o, o + 2)) == blob.len()) by {
        assert(pow(256, 2) == 0x1_0000) by {
            reveal_with_fuel(pow, 3);
        }
        lemma_from_le_le_bytes(blob.len() as int, 2);
    }
    assert forall|i: int| 0 <= i < blob.len() implies #[trigger] bytes.subrange(
        o + 2,
        o + 2 + blob.len() as int,
    )[i] == blob[i] by {
        assert(bytes.subrange(o + 2, o + 2 + blob.len() as int)[i] == bytes.subrange(
            o,
            o + 2 + blob.len() as int,
        )[2 + i]);
        assert(block_bytes(ps)[2 + i] == blob[i]);
    }
    assert(bytes.subrange(o + 2, o + 2 + blob.len() as int) =~= blob);
    if count == 0 {
        assert(blob.len() == 0);
        return ;
    }
    lemma_paths_bytes_len(ps, h);
    assert(blob.len() == count * per);
    assert((count * per) % count == 0) by {
        lemma_mod_multiples_basic(per, count);
        assert(per * count == count * per) by (nonlinear_arith);
    }
    assert((count * per) / count == per) by {
        lemma_div_by_multiple(per, count);
        assert(per * count == count * per) by (nonlinear_arith);
    }
    assert((per - 16) % 32 == 0 && (per - 16) / 32 == h) by {
        lemma_mod_multiples_basic(h, 32);
        lemma_div_by_multiple(h, 32);
        assert(h * 32 == 32 * h) by (nonlinear_arith);
    }
    assert forall|t: int| 0 <= t < count implies bytes.subrange(
        o + 2 + t * per,
        o + 2 + t * per + per,
    ) == path_bytes(ps[t]) by {
        lemma_paths_bytes_index(ps, h, t);
        assert(t * per >= 0 && t * per + per <= count * per) by (nonlinear_arith)
            requires
                0 <= t < count,
                per >= 16;
        assert((t + 1) * per == t * per + per) by (nonlinear_arith);
        assert(bytes.subrange(o + 2 + t * per, o + 2 + t * per + per) =~= blob.subrange(
            t * per,
            t * per + per,
        ));
    }
    assert forall|t: int| 0 <= t < count implies path_matches(
        #[trigger] ps[t],
        bytes,
        o + 2 + t * per,
        h,
    ) && from_le(bytes.subrange(o + 2 + t * per, o + 2 + t * per + 16)) < modulus_bound() by {
        let po = o + 2 + t * per;
        let pb = path_bytes(ps[t]);
        assert(t * per >= 0 && t * per + per <= count * per) by (nonlinear_arith)
            requires
                0 <= t < count,
                per >= 16;
        assert((t + 1) * per == t * per + per) by (nonlinear_arith);
        lemma_paths_bytes_index(ps, h, t);
        assert(bytes.subrange(po, po + per) =~= blob.subrange(t * per, t * per + per));
        assert(bytes.subrange(po, po + per) == pb);
        lemma_le_bytes_len(ps[t].value as int, 16);
        lemma_digests_bytes_len(ps[t].siblings@);
        assert(ps[t].siblings@.len() == h);
        assert(bytes.subrange(po, po + 16) =~= le_bytes(ps[t].value as int, 16)) by {
            assert forall|i: int| 0 <= i < 16 implies bytes.subrange(po, po + 16)[i] == le_bytes(
                ps[t].value as int,
                16,
            )[i] by {
                assert(bytes.subrange(po, po + 16)[i] == bytes.subrange(po, po + per)[i]);
            }
        }
        assert(from_le(bytes.subrange(po, po + 16)) == ps[t].value) by {
            assert(pow(256, 16) > 0x4000_0000_0000_0000) by {
                reveal_with_fuel(pow, 17);
            }
            lemma_from_le_le_bytes(ps[t].value as int, 16);
        }
        assert forall|l: int| 0 <= l < h implies (#[trigger] ps[t].siblings@[l])@
            == bytes.subrange(po + 16 + 32 * l, po + 16 + 32 * l + 32) by {
            lemma_digests_bytes_index(ps[t].siblings@, l);
            assert(32 * l >= 0 && 32 * l + 32 <= 32 * h) by (nonlinear_arith)
                requires
                    0 <= l < h;
            assert(bytes.subrange(po + 16 + 32 * l, po + 16 + 32 * l + 32) =~= digests_bytes(
                ps[t].siblings@,
            ).subrange(32 * l, 32 * l + 32)) by {
                assert forall|i: int| 0 <= i < 32 implies #[trigger] bytes.subrange(
                    po + 16 + 32 * l,
                    po + 16 + 32 * l + 32,
                )[i] == digests_bytes(ps[t].siblings@).subrange(32 * l, 32 * l + 32)[i] by {
                    assert(bytes.subrange(po + 16 + 32 * l, po + 16 + 32 * l + 32)[i]
                        == bytes.subrange(po, po + per)[16 + 32 * l + i]);
                }
            }
        }
    }
    assert forall|t: int| 0 <= t < count implies from_le(
        #[trigger] bytes.subrange(o + 2 + t * per, o + 2 + t * per + 16),
    ) < modulus_bound() by {
        assert(path_matches(ps[t], bytes, o + 2 + t * per, h) && from_le(
            bytes.subrange(o + 2 + t * per, o + 2 + t * per + 16),
        ) < modulus_bound());
    }
    assert(block_values_ok(bytes, o, count, per));
    assert(block_matches(ps, bytes, o, count));
}


/// Serialized rounds parse back, block by block, to their paths.
pub proof fn lemma_parse_rounds_of_encode(
    c: Seq<Vec<PartialAuthenticationPath>>,
    ab: Seq<Vec<PartialAuthenticationPath>>,
    bytes: Seq<u8>,
    o: int,
    r: int,
    rc: int,
    s: int,
)
    requires
        0 <= r <= rc,
        0 <= s,
        0 <= o,
        c.len() == rc,
        ab.len() == rc,
        forall|k: int|
            r <= k < rc ==> uniform_paths((#[trigger] c[k])@) && values_bounded(c[k]@) && c[k]@.len()
                == s && paths_bytes(c[k]@).len() <= 0xFFFF,
        forall|k: int|
            r <= k < rc ==> uniform_paths((#[trigger] ab[k])@) && values_bounded(ab[k]@)
                && ab[k]@.len() == 2 * s && paths_bytes(ab[k]@).len() <= 0xFFFF,
        o + rounds_bytes_from(c, ab, r, rc).len() == bytes.len(),
        bytes.subrange(o, bytes.len() as int) == rounds_bytes_from(c, ab, r, rc),
    ensures
        parse_rounds_spec(bytes, o, rc - r, s) == Ok::<int, crate::errors::ValidationError>(
            bytes.len() as int,
        ),
        forall|k: int|
            r <= k < rc ==> block_matches((#[trigger] c[k])@, bytes, round_off(bytes, o, k - r), s)
                && block_matches(ab[k]@, bytes, block_end(bytes, round_off(bytes, o, k - r)), 2 * s),
    decreases rc - r,
{
    if r == rc {
        assert(rounds_bytes_from(c, ab, r, rc).len() == 0);
        assert(parse_rounds_spec(bytes, o, 0, s) == Ok::<int, crate::errors::ValidationError>(o));
    } else {
        let cb = block_bytes(c[r]@);
        let abb = block_bytes(ab[r]@);
        let rest = rounds_bytes_from(c, ab, r + 1, rc);
        let region = rounds_bytes_from(c, ab, r, rc);
        assert(region == cb + abb + rest);
        lemma_le_bytes_len(paths_bytes(c[r]@).len() as int, 2);
        lemma_le_bytes_len(paths_bytes(ab[r]@).len() as int, 2);
        let cl = 2 + paths_bytes(c[r]@).len() as int;
        let al = 2 + paths_bytes(ab[r]@).len() as int;
        assert(cb.len() == cl);
        assert(abb.len() == al);
        // The c block occupies the first cl bytes of the region.
        assert forall|i: int| 0 <= i < cl implies #[trigger] bytes.subrange(o, o + cl)[i]
            == cb[i] by {
            assert(bytes.subrange(o, o + cl)[i] == bytes.subrange(o, bytes.len() as int)[i]);
            assert(region[i] == (cb + abb)[i]);
        }
        assert(bytes.subrange(o, o + cl) =~= cb);
        lemma_block_layout(c[r]@, bytes, o, s);
        let o1 = o + cl;
        // The ab block follows.
        assert forall|i: int| 0 <= i < al implies #[trigger] bytes.subrange(o1, o1 + al)[i]
            == abb[i] by {
            assert(bytes.subrange(o1, o1 + al)[i] == bytes.subrange(o, bytes.len() as int)[cl + i]);
            assert(region[cl + i] == (cb + abb)[cl + i]);
        }
        assert(bytes.subrange(o1, o1 + al) =~= abb);
        lemma_block_layout(ab[r]@, bytes, o1, 2 * s);
        let o2 = o1 + al;
        // The remaining rounds follow after both blocks.
        assert forall|i: int| 0 <= i < rest.len() implies #[trigger] bytes.subrange(
            o2,
            bytes.len() as int,
        )[i] == rest[i] by {
            assert(bytes.subrange(o2, bytes.len() as int)[i] == bytes.subrange(
                o,
                bytes.len() as int,
            )[cl + al + i]);
        }
        assert(bytes.subrange(o2, bytes.len() as int) =~= rest);
        lemma_parse_rounds_of_encode(c, ab, bytes, o2, r + 1, rc, s);
        assert(parse_rounds_spec(bytes, o, rc - r, s) == Ok::<int, crate::errors::ValidationError>(
            bytes.len() as int,
        ));
        assert forall|k: int| r <= k < rc implies block_matches(
            (#[trigger] c[k])@,
            bytes,
            round_off(bytes, o, k - r),
            s,
        ) && block_matches(ab[k]@, bytes, block_end(bytes, round_off(bytes, o, k - r)), 2 * s) by {
            if k == r {
                assert(round_off(bytes, o, 0) == o);
            } else {
                lemma_round_off_shift(bytes, o, k - r);
                assert(block_end(bytes, o) == o1);
                assert(block_end(bytes, o1) == o2);
                assert(block_matches(c[k]@, bytes, round_off(bytes, o2, k - r - 1), s));
            }
        }
    }
}

/// Codec round-trip: the bytes the prover appends to a transcript
/// parse back, at the caller's start offset, into a proof that
/// mirrors the one the prover returned, and the parse consumes
/// exactly those bytes.
pub proof fn lemma_codec_round_trip(
    p: LowDegreeProof,
    c0: Seq<i128>,
    q: int,
    omega: i128,
    d: int,
    s: int,
    prefix: Seq<u8>,
)
    requires
        prove_model_ok(p, c0, q, omega, d, s, prefix),
        crate::verify::proof_bounded(p),
    ensures
        parse_spec(prefix + encode_proof(p), prefix.len() as int) == Ok::<
            int,
            crate::errors::ValidationError,
        >((prefix + encode_proof(p)).len() as int),
        proof_matches(p, prefix + encode_proof(p), prefix.len() as int),
{
    let bytes = prefix + encode_proof(p);
    let start = prefix.len() as int;
    let n = c0.len() as int;
    let w0 = omega as int;
    let base = prefix + header_bytes(n, d, s, omega);
    let rc = p.rounds_count as int;
    let hdr = header_bytes(n, d, s, omega);
    let digests = digests_bytes(p.merkle_roots@);
    let rounds = rounds_bytes(p.c_proofs@, p.ab_proofs@, rc);
    lemma_le_bytes_len(n, 4);
    lemma_le_bytes_len(d, 4);
    lemma_le_bytes_len(s, 4);
    lemma_le_bytes_len(16, 2);
    lemma_le_bytes_len(omega as int, 16);
    lemma_digests_bytes_len(p.merkle_roots@);
    assert(hdr.len() == 30);
    assert(digests.len() == 32 * (rc + 1));
    assert(encode_proof(p) == hdr + digests + rounds);
    assert(bytes.len() == start + 30 + 32 * (rc + 1) + rounds.len());
    // Header fields parse back to the proof's parameters.
    assert(pow(256, 4) == 0x1_0000_0000) by {
        reveal_with_fuel(pow, 5);
    }
    assert(pow(256, 2) == 0x1_0000) by {
        reveal_with_fuel(pow, 3);
    }
    assert(pow(256, 16) > 0x4000_0000_0000_0000) by {
        reveal_with_fuel(pow, 17);
    }
    assert(bytes.subrange(start, start + 4) =~= le_bytes(n, 4));
    assert(bytes.subrange(start + 4, start + 8) =~= le_bytes(d, 4));
    assert(bytes.subrange(start + 8, start + 12) =~= le_bytes(s, 4));
    assert(bytes.subrange(start + 12, start + 14) =~= le_bytes(16, 2));
    assert(bytes.subrange(start + 14, start + 30) =~= le_bytes(omega as int, 16));
    lemma_from_le_le_bytes(n, 4);
    lemma_from_le_le_bytes(d, 4);
    lemma_from_le_le_bytes(s, 4);
    lemma_from_le_le_bytes(16, 2);
    lemma_from_le_le_bytes(omega as int, 16);
    let o0 = start + 30 + 32 * (rc + 1);
    // The root table parses back root by root.
    assert forall|r: int| 0 <= r <= rc implies (#[trigger] p.merkle_roots@[r])@ == bytes.subrange(
        start + 30 + 32 * r,
        start + 30 + 32 * r + 32,
    ) by {
        lemma_digests_bytes_index(p.merkle_roots@, r);
        assert(32 * r >= 0 && 32 * r + 32 <= 32 * (rc + 1)) by (nonlinear_arith)
            requires
                0 <= r <= rc;
        assert(bytes.subrange(start + 30 + 32 * r, start + 30 + 32 * r + 32) =~= digests.subrange(
            32 * r,
            32 * r + 32,
        ));
    }
    // The challenge preimages are the transcript prefixes at the
    // successive root offsets.
    assert forall|i: int| 0 <= i <= rc implies #[trigger] bytes.subrange(
        0,
        start + 30 + 32 * (i + 1),
    ) =~~= (prefix + hdr + digests_bytes(p.merkle_roots@.take(i + 1))) by {
        lemma_digests_bytes_take(p.merkle_roots@, i + 1);
        assert(32 * (i + 1) <= 32 * (rc + 1)) by (nonlinear_arith)
            requires
                i <= rc;
        assert(bytes.subrange(0, start + 30 + 32 * (i + 1)) =~= prefix + hdr + digests.subrange(
            0,
            32 * (i + 1),
        ));
    }
    assert forall|i: int| 0 <= i <= rc implies #[trigger] pre(c0, q, w0, base, i) =~~= (prefix
        + hdr + digests_bytes(p.merkle_roots@.take(i + 1))) by {
        assert forall|r: int| 0 <= r <= i implies (#[trigger] p.merkle_roots@.take(i + 1)[r])@
            == crate::merkle::root_spec(cw(c0, q, w0, base, r)) by {
            assert(p.merkle_roots@.take(i + 1)[r] == p.merkle_roots@[r]);
            assert(p.merkle_roots@[r]@ == crate::merkle::root_spec(cw(c0, q, w0, base, r)));
        }
        crate::prove::lemma_digests_eq_roots_cat(p.merkle_roots@.take(i + 1), c0, q, w0, base, i);
        assert(pre(c0, q, w0, base, i) == base + roots_cat(c0, q, w0, base, i));
        assert(base + roots_cat(c0, q, w0, base, i) =~= prefix + hdr + roots_cat(
            c0,
            q,
            w0,
            base,
            i,
        ));
    }
    assert forall|i: int| 0 <= i < rc implies (#[trigger] p.challenge_hash_preimages@[i])@
        == bytes.subrange(0, start + 30 + 32 * (i + 1)) by {
        assert(p.challenge_hash_preimages@[i]@ == pre(c0, q, w0, base, i));
    }
    assert(p.index_picker_preimage@ == bytes.subrange(0, start + 30 + 32 * (rc + 1))) by {
        assert(p.index_picker_preimage@ == pre(c0, q, w0, base, rc));
    }
    // Per-round shape facts for the block layout.
    assert forall|k: int| 0 <= k < rc implies uniform_paths((#[trigger] p.c_proofs@[k])@)
        && values_bounded(p.c_proofs@[k]@) && p.c_proofs@[k]@.len() == s && paths_bytes(
        p.c_proofs@[k]@,
    ).len() <= 0xFFFF by {
        assert(round_paths_ok(p, c0, q, w0, base, k));
        lemma_round_shape(p, c0, q, w0, base, k);
    }
    assert forall|k: int| 0 <= k < rc implies uniform_paths((#[trigger] p.ab_proofs@[k])@)
        && values_bounded(p.ab_proofs@[k]@) && p.ab_proofs@[k]@.len() == 2 * s && paths_bytes(
        p.ab_proofs@[k]@,
    ).len() <= 0xFFFF by {
        assert(round_paths_ok(p, c0, q, w0, base, k));
        lemma_round_shape(p, c0, q, w0, base, k);
        assert(paths_bytes((p.c_proofs@[k])@).len() <= 0xFFFF && paths_bytes(p.ab_proofs@[k]@).len()
            <= 0xFFFF);
    }
    // The rounds region follows the roots and parses back.
    assert forall|i: int| 0 <= i < rounds.len() implies #[trigger] bytes.subrange(
        o0,
        bytes.len() as int,
    )[i] == rounds[i] by {
        assert(bytes.subrange(o0, bytes.len() as int)[i] == encode_proof(p)[30 + 32 * (rc + 1)
            + i]);
    }
    assert(bytes.subrange(o0, bytes.len() as int) =~= rounds);
    lemma_rounds_bytes_split(p.c_proofs@, p.ab_proofs@, 0, rc);
    assert(rounds_bytes(p.c_proofs@, p.ab_proofs@, 0) == Seq::<u8>::empty());
    assert(rounds =~= rounds_bytes_from(p.c_proofs@, p.ab_proofs@, 0, rc));
    lemma_parse_rounds_of_encode(p.c_proofs@, p.ab_proofs@, bytes, o0, 0, rc, s);
    assert forall|r: int| 0 <= r < rc implies block_matches(
        (#[trigger] p.c_proofs@[r])@,
        bytes,
        round_off(bytes, o0, r),
        s,
    ) && block_matches(
        p.ab_proofs@[r]@,
        bytes,
        block_end(bytes, round_off(bytes, o0, r)),
        2 * s,
    ) by {
        assert(block_matches(p.c_proofs@[r]@, bytes, round_off(bytes, o0, r - 0), s));
    }
    assert(proof_matches(p, bytes, start));
    assert(parse_spec(bytes, start) == parse_rounds_spec(bytes, o0, rc, s));
}

/// The sampled positions of round `k` under the proof's own
/// index-picker snapshot.
pub open spec fn sample_of(
    p: LowDegreeProof,
    c0: Seq<i128>,
    q: int,
    w0: int,
    base: Seq<u8>,
    k: int,
) -> Option<Seq<(int, int, int)>> {
    crate::low_degree_proof::sample_spec(
        pre(c0, q, w0, base, p.rounds_count as int),
        k as u8,
        p.s as int,
        c0.len() as int,
    )
}

/// The paths of one round form uniform, bounded blocks of the right
/// cardinality.
proof fn lemma_round_shape(
    p: LowDegreeProof,
    c0: Seq<i128>,
    q: int,
    w0: int,
    base: Seq<u8>,
    k: int,
)
    requires
        0 <= k < p.rounds_count as int,
        round_paths_ok(p, c0, q, w0, base, k),
        crate::verify::proof_bounded(p),
        p.c_proofs@.len() == p.rounds_count as int,
        p.ab_proofs@.len() == p.rounds_count as int,
    ensures
        uniform_paths(p.c_proofs@[k]@),
        values_bounded(p.c_proofs@[k]@),
        p.c_proofs@[k]@.len() == p.s as int,
        uniform_paths(p.ab_proofs@[k]@),
        values_bounded(p.ab_proofs@[k]@),
        p.ab_proofs@[k]@.len() == 2 * p.s as int,
{
    let ss = p.s as int;
    match sample_of(p, c0, q, w0, base, k) {
        None => {
            assert(false);
        },
        Some(m) => {
            let up = cw(c0, q, w0, base, k);
            let down = cw(c0, q, w0, base, k + 1);
            let cps = p.c_proofs@[k]@;
            let abps = p.ab_proofs@[k]@;
            assert forall|j: int| 0 <= j < cps.len() implies (#[trigger] cps[j]).siblings@.len()
                == first_height(cps) by {
                assert(cps[j].siblings.deep_view() == crate::merkle::path_spec(down, m[j].2));
                assert(cps[0].siblings.deep_view() == crate::merkle::path_spec(down, m[0].2));
            }
            assert forall|j: int| 0 <= j < abps.len() implies (#[trigger] abps[j]).siblings@.len()
                == first_height(abps) by {
                let t = j / 2;
                assert(abps[2 * t].siblings.deep_view() == crate::merkle::path_spec(up, m[t].0));
                if j % 2 == 1 {
                    assert(abps[2 * t + 1].siblings.deep_view() == crate::merkle::path_spec(
                        up,
                        m[t].1,
                    ));
                }
                let t0: int = 0;
                assert(abps[2 * t0].siblings.deep_view() == crate::merkle::path_spec(up, m[t0].0));
                assert(abps[j].siblings@.len() == abps[j].siblings.deep_view().len());
                assert(abps[0].siblings@.len() == abps[2 * t0].siblings.deep_view().len());
            }
            assert forall|j: int| 0 <= j < cps.len() implies 0 <= (#[trigger] cps[j]).value
                < modulus_bound() by {
                assert(p.c_proofs@[k]@[j].value == cps[j].value);
            }
            assert forall|j: int| 0 <= j < abps.len() implies 0 <= (#[trigger] abps[j]).value
                < modulus_bound() by {
                assert(p.ab_proofs@[k]@[j].value == abps[j].value);
            }
        },
    }
}

/// Two proofs that mirror the same bytes are equal: the wire form
/// determines the proof.
pub proof fn lemma_proof_matches_unique(
    p1: LowDegreeProof,
    p2: LowDegreeProof,
    bytes: Seq<u8>,
    start: int,
)
    requires
        proof_matches(p1, bytes, start),
        proof_matches(p2, bytes, start),
    ensures
        proofs_equal(p1, p2),
{
    let rc = p1.rounds_count as int;
    assert(p2.rounds_count as int == rc);
    let s = from_le(bytes.subrange(start + 8, start + 12));
    let o0 = start + 30 + 32 * (rc + 1);
    assert forall|r: int| 0 <= r < p1.c_proofs@.len() implies paths_equal(
        (#[trigger] p1.c_proofs@[r])@,
        p2.c_proofs@[r]@,
    ) by {
        lemma_block_matches_unique(p1.c_proofs@[r]@, p2.c_proofs@[r]@, bytes, round_off(
            bytes,
            o0,
            r,
        ), s);
    }
    assert forall|r: int| 0 <= r < p1.ab_proofs@.len() implies paths_equal(
        (#[trigger] p1.ab_proofs@[r])@,
        p2.ab_proofs@[r]@,
    ) by {
        assert(block_matches(p1.c_proofs@[r]@, bytes, round_off(bytes, o0, r), s));
        lemma_block_matches_unique(p1.ab_proofs@[r]@, p2.ab_proofs@[r]@, bytes, block_end(
            bytes,
            round_off(bytes, o0, r),
        ), 2 * s);
    }
}

/// Two path vectors that mirror the same block bytes are equal.
proof fn lemma_block_matches_unique(
    a: Seq<PartialAuthenticationPath>,
    b: Seq<PartialAuthenticationPath>,
    bytes: Seq<u8>,
    o: int,
    count: int,
)
    requires
        block_matches(a, bytes, o, count),
        block_matches(b, bytes, o, count),
    ensures
        paths_equal(a, b),
{
    let ll = from_le(bytes.subrange(o, o + 2));
    let per = if count > 0 {
        ll / count
    } else {
        0
    };
    assert forall|t: int| 0 <= t < a.len() implies (#[trigger] a[t]).value == b[t].value && a[t]
        .siblings.deep_view() == b[t].siblings.deep_view() by {
        assert(path_matches(a[t], bytes, o + 2 + t * per, (per - 16) / 32));
        assert(path_matches(b[t], bytes, o + 2 + t * per, (per - 16) / 32));
        assert(a[t].value as int == b[t].value as int);
        assert(a[t].siblings.deep_view() =~~= b[t].siblings.deep_view()) by {
            assert forall|l: int| 0 <= l < a[t].siblings@.len() implies #[trigger] a[t]
                .siblings.deep_view()[l] =~= b[t].siblings.deep_view()[l] by {
                assert(a[t].siblings@[l].deep_view() =~= a[t].siblings@[l]@);
                assert(b[t].siblings@[l].deep_view() =~= b[t].siblings@[l]@);
                assert(a[t].siblings@[l]@ == bytes.subrange(
                    o + 2 + t * per + 16 + 32 * l,
                    o + 2 + t * per + 16 + 32 * l + 32,
                ));
                assert(b[t].siblings@[l]@ == bytes.subrange(
                    o + 2 + t * per + 16 + 32 * l,
                    o + 2 + t * per + 16 + 32 * l + 32,
                ));
            }
        }
    }
}


/// Each fold halves the codeword, so layer `r` has `n / 2^r` entries.
proof fn lemma_cw_len(c0: Seq<i128>, q: int, w0: int, base: Seq<u8>, r: int)
    requires
        0 <= r,
    ensures
        cw(c0, q, w0, base, r).len() == c0.len() as int / (pow2(r as nat) as int),
    decreases r,
{
    lemma_pow2_pos(r as nat);
    if r == 0 {
        lemma2_to64();
        assert(cw(c0, q, w0, base, 0) == c0);
        assert(c0.len() as int / 1 == c0.len() as int);
    } else {
        lemma_cw_len(c0, q, w0, base, r - 1);
        lemma_pow2_pos((r - 1) as nat);
        assert(cw(c0, q, w0, base, r).len() == cw(c0, q, w0, base, r - 1).len() as int / 2);
        assert(pow2(r as nat) == pow2((r - 1) as nat) * 2) by {
            lemma_pow2_adds((r - 1) as nat, 1);
            lemma2_to64();
        }
        vstd::arithmetic::div_mod::lemma_div_denominator(
            c0.len() as int,
            pow2((r - 1) as nat) as int,
            2,
        );
        assert((c0.len() as int / (pow2((r - 1) as nat) as int)) / 2 == c0.len() as int / ((pow2((
        r - 1) as nat) as int) * 2));
    }
}

/// Round `r`'s Merkle checks, exactly as the verifier re-derives
/// them from the proof's own fields.
pub open spec fn round_merkle_ok(p: LowDegreeProof, r: int) -> bool {
    match crate::low_degree_proof::sample_spec(
        p.index_picker_preimage@,
        r as u8,
        p.s as int,
        p.codeword_size as int,
    ) {
        None => false,
        Some(m) => crate::merkle::multi_proof_ok(
            p.merkle_roots@[r + 1]@,
            crate::verify::c_indices_of(m),
            p.c_proofs@[r]@,
        ) && crate::merkle::multi_proof_ok(
            p.merkle_roots@[r]@,
            crate::verify::ab_indices_of(m),
            p.ab_proofs@[r]@,
        ),
    }
}

/// The Merkle stage of verification accepts every proof the prover
/// produces: each opened block authenticates against the committed
/// root of its layer, at the very positions the verifier re-derives.
pub proof fn lemma_prove_merkle_accepts(
    p: LowDegreeProof,
    c0: Seq<i128>,
    q: int,
    omega: i128,
    d: int,
    s: int,
    prefix: Seq<u8>,
)
    requires
        prove_model_ok(p, c0, q, omega, d, s, prefix),
        crate::params::is_power_of_two(c0.len() as int),
        crate::params::is_power_of_two(d + 1),
        1 <= d,
        c0.len() >= 2,
    ensures
        forall|r: int| 0 <= r < p.rounds_count as int ==> #[trigger] round_merkle_ok(p, r),
{
    let n = c0.len() as int;
    let w0 = omega as int;
    let base = prefix + header_bytes(n, d, s, omega);
    let rc = p.rounds_count as int;
    let k0 = crate::params::log2_ceil(n);
    assert(pow2(k0) == n);
    assert(n >= d + 1) by {
        if n < d + 1 {
            vstd::arithmetic::div_mod::lemma_basic_div(n, d + 1);
        }
    }
    crate::params::lemma_log2_ceil_le(d + 1, k0);
    assert(rc <= crate::params::log2_ceil(d + 1));
    assert(rc <= k0);
    assert forall|r: int| 0 <= r < rc implies #[trigger] round_merkle_ok(p, r) by {
        assert(round_paths_ok(p, c0, q, w0, base, r));
        let half = crate::low_degree_proof::half_size(n, r);
        crate::low_degree_proof::lemma_sample_bounds(
            p.index_picker_preimage@,
            r as u8,
            p.s as int,
            n,
        );
        match crate::low_degree_proof::sample_spec(
            p.index_picker_preimage@,
            r as u8,
            p.s as int,
            p.codeword_size as int,
        ) {
            None => {
                assert(false);
            },
            Some(m) => {
                let up = cw(c0, q, w0, base, r);
                let down = cw(c0, q, w0, base, r + 1);
                lemma_cw_len(c0, q, w0, base, r);
                lemma_cw_len(c0, q, w0, base, r + 1);
                assert(down.len() == half);
                // Layer r is twice the half size or more.
                lemma_pow2_pos(r as nat);
                assert(pow2((r + 1) as nat) == pow2(r as nat) * 2) by {
                    lemma_pow2_adds(r as nat, 1);
                    lemma2_to64();
                }
                vstd::arithmetic::div_mod::lemma_div_denominator(n, pow2(r as nat) as int, 2);
                vstd::arithmetic::div_mod::lemma_fundamental_div_mod(up.len() as int, 2);
                vstd::arithmetic::div_mod::lemma_mod_bound(up.len() as int, 2);
                assert(2 * half <= up.len());
                // Both layers are powers of two.
                assert(up.len() == pow2((k0 - r) as nat) && down.len() == pow2(
                    (k0 - r - 1) as nat,
                )) by {
                    vstd::arithmetic::power2::lemma_pow2_subtracts(r as nat, k0);
                    vstd::arithmetic::power2::lemma_pow2_subtracts((r + 1) as nat, k0);
                    lemma_pow2_pos((r + 1) as nat);
                }
                crate::params::lemma_log2_ceil_pow2((k0 - r) as nat);
                crate::params::lemma_log2_ceil_pow2((k0 - r - 1) as nat);
                lemma_pow2_pos((k0 - r - 1) as nat);
                // The c openings authenticate against the next root.
                let ci = crate::verify::c_indices_of(m);
                assert forall|j: int| 0 <= j < ci.len() implies (#[trigger] ci[j])
                    < down.len() by {
                    assert(m[j].2 == m[j].0);
                }
                assert forall|j: int| 0 <= j < ci.len() implies (#[trigger] p.c_proofs@[r]@[j])
                    .value == down[ci[j] as int] && p.c_proofs@[r]@[j].siblings.deep_view()
                    == crate::merkle::path_spec(down, ci[j] as int) by {
                    assert(p.c_proofs@[r]@[j].value == down[m[j].2]);
                }
                crate::merkle::lemma_multi_proof_completeness(down, ci, p.c_proofs@[r]@);
                assert(p.merkle_roots@[r + 1]@ == crate::merkle::root_spec(down));
                // The ab openings authenticate against this round's root.
                let abi = crate::verify::ab_indices_of(m);
                assert forall|j: int| 0 <= j < abi.len() implies (#[trigger] abi[j])
                    < up.len() by {
                    assert(0 <= m[j / 2].0 < half);
                }
                assert forall|j: int| 0 <= j < abi.len() implies (#[trigger] p.ab_proofs@[r]@[j])
                    .value == up[abi[j] as int] && p.ab_proofs@[r]@[j].siblings.deep_view()
                    == crate::merkle::path_spec(up, abi[j] as int) by {
                    let t = j / 2;
                    assert(p.ab_proofs@[r]@[2 * t].value == up[m[t].0]);
                    if j % 2 == 1 {
                        assert(p.ab_proofs@[r]@[2 * t + 1].value == up[m[t].1]);
                    }
                }
                crate::merkle::lemma_multi_proof_completeness(up, abi, p.ab_proofs@[r]@);
                assert(p.merkle_roots@[r]@ == crate::merkle::root_spec(up));
            },
        }
    }
}

} // verus!
