//! The binary wire form of a proof: little-endian fixed-width header,
//! the Merkle root table, and per round two length-prefixed blocks of
//! authentication paths.

use vstd::prelude::*;
use crate::codec::{le_bytes, append_le, lemma_le_bytes_len};
use crate::field::modulus_bound;
use crate::merkle::PartialAuthenticationPath;
use crate::low_degree_proof::LowDegreeProof;

verus! {

/// The fixed-width header: sizes, the query budget, and the
/// length-prefixed primitive root of unity (always 16 bytes here).
pub open spec fn header_bytes(n: int, d: int, s: int, root: i128) -> Seq<u8> {
    le_bytes(n, 4) + le_bytes(d, 4) + le_bytes(s, 4) + le_bytes(16, 2) + le_bytes(root as int, 16)
}

/// The concatenation of a table of 32-byte digests.
pub open spec fn digests_bytes(ds: Seq<[u8; 32]>) -> Seq<u8>
    decreases ds.len(),
{
    if ds.len() == 0 {
        Seq::empty()
    } else {
        digests_bytes(ds.drop_last()) + ds.last()@
    }
}

/// The wire form of one authentication path: the 16-byte leaf value,
/// then the sibling digests bottom up.
pub open spec fn path_bytes(p: PartialAuthenticationPath) -> Seq<u8> {
    le_bytes(p.value as int, 16) + digests_bytes(p.siblings@)
}

/// The concatenation of the wire forms of a vector of paths.
pub open spec fn paths_bytes(ps: Seq<PartialAuthenticationPath>) -> Seq<u8>
    decreases ps.len(),
{
    if ps.len() == 0 {
        Seq::empty()
    } else {
        paths_bytes(ps.drop_last()) + path_bytes(ps.last())
    }
}

/// One length-prefixed block of paths.
pub open spec fn block_bytes(ps: Seq<PartialAuthenticationPath>) -> Seq<u8> {
    le_bytes(paths_bytes(ps).len() as int, 2) + paths_bytes(ps)
}

/// The per-round blocks of the first `r` rounds: each round emits its
/// `c` block, then its `ab` block.
pub open spec fn rounds_bytes(
    c: Seq<Vec<PartialAuthenticationPath>>,
    ab: Seq<Vec<PartialAuthenticationPath>>,
    r: int,
) -> Seq<u8>
    decreases r,
{
    if r <= 0 {
        Seq::empty()
    } else {
        rounds_bytes(c, ab, r - 1) + block_bytes(c[r - 1]@) + block_bytes(ab[r - 1]@)
    }
}

/// The full wire form of a proof: what the prover appends to the
/// transcript and what the parser reads back.
pub open spec fn encode_proof(p: LowDegreeProof) -> Seq<u8> {
    header_bytes(
        p.codeword_size as int,
        p.max_degree as int,
        p.s as int,
        p.primitive_root_of_unity,
    ) + digests_bytes(p.merkle_roots@) + rounds_bytes(p.c_proofs@, p.ab_proofs@, p.rounds_count as int)
}

/// Appends one digest.
pub(crate) fn append_digest(out: &mut Vec<u8>, d: &[u8; 32])
    ensures
        final(out)@ == old(out)@ + d@,
{
    out.extend_from_slice(d.as_slice());
    proof {
        assert(out@ =~= old(out)@ + d@);
    }
}

/// Appends the wire forms of a vector of paths.
pub(crate) fn append_paths(out: &mut Vec<u8>, ps: &Vec<PartialAuthenticationPath>)
    requires
        forall|j: int| 0 <= j < ps@.len() ==> 0 <= (#[trigger] ps@[j]).value < modulus_bound(),
    ensures
        final(out)@ == old(out)@ + paths_bytes(ps@),
{
    let mut t: usize = 0;
    proof {
        assert(old(out)@ + paths_bytes(ps@.subrange(0, 0)) =~= old(out)@);
    }
    while t < ps.len()
        invariant
            t <= ps@.len(),
            forall|j: int| 0 <= j < ps@.len() ==> 0 <= (#[trigger] ps@[j]).value < modulus_bound(),
            out@ == old(out)@ + paths_bytes(ps@.subrange(0, t as int)),
        decreases ps@.len() - t,
    {
        let p: &PartialAuthenticationPath = &ps[t];
        append_le(out, p.value as u64, 16);
        proof {
            assert(le_bytes(p.value as u64 as int, 16) == le_bytes(p.value as int, 16));
        }
        let mut l: usize = 0;
        proof {
            assert(digests_bytes(p.siblings@.subrange(0, 0)) =~= Seq::<u8>::empty());
            assert(out@ =~= old(out)@ + paths_bytes(ps@.subrange(0, t as int)) + le_bytes(
                p.value as int,
                16,
            ) + digests_bytes(p.siblings@.subrange(0, 0)));
        }
        while l < p.siblings.len()
            invariant
                l <= p.siblings@.len(),
                p == ps@[t as int],
                t < ps@.len(),
                out@ == old(out)@ + paths_bytes(ps@.subrange(0, t as int)) + le_bytes(
                    p.value as int,
                    16,
                ) + digests_bytes(p.siblings@.subrange(0, l as int)),
            decreases p.siblings@.len() - l,
        {
            let d: [u8; 32] = p.siblings[l];
            out.extend_from_slice(d.as_slice());
            proof {
                let sub1 = p.siblings@.subrange(0, l as int + 1);
                assert(sub1.drop_last() =~= p.siblings@.subrange(0, l as int));
                assert(out@ =~= old(out)@ + paths_bytes(ps@.subrange(0, t as int)) + le_bytes(
                    p.value as int,
                    16,
                ) + digests_bytes(sub1));
            }
            l = l + 1;
        }
        proof {
            let sub1 = ps@.subrange(0, t as int + 1);
            assert(sub1.drop_last() =~= ps@.subrange(0, t as int));
            assert(p.siblings@.subrange(0, p.siblings@.len() as int) =~= p.siblings@);
            assert(out@ =~= old(out)@ + paths_bytes(sub1));
        }
        t = t + 1;
    }
    proof {
        assert(ps@.subrange(0, ps@.len() as int) =~= ps@);
    }
}

/// The byte length of the wire form of a vector of paths whose
/// sibling lists all have the same length `h`.
pub proof fn lemma_paths_bytes_len(ps: Seq<PartialAuthenticationPath>, h: int)
    requires
        forall|j: int| 0 <= j < ps.len() ==> (#[trigger] ps[j]).siblings@.len() == h,
        0 <= h,
    ensures
        paths_bytes(ps).len() == ps.len() * (16 + 32 * h),
    decreases ps.len(),
{
    if ps.len() == 0 {
    } else {
        lemma_paths_bytes_len(ps.drop_last(), h);
        lemma_le_bytes_len(ps.last().value as int, 16);
        lemma_digests_bytes_len(ps.last().siblings@);
        assert(ps.last().siblings@.len() == h);
        assert((ps.len() - 1) * (16 + 32 * h) + (16 + 32 * h) == ps.len() * (16 + 32 * h))
            by (nonlinear_arith);
    }
}

/// A table of `k` digests spans `32 * k` bytes.
pub proof fn lemma_digests_bytes_len(ds: Seq<[u8; 32]>)
    ensures
        digests_bytes(ds).len() == 32 * ds.len(),
    decreases ds.len(),
{
    if ds.len() > 0 {
        lemma_digests_bytes_len(ds.drop_last());
    }
}

/// Appends a byte buffer.
pub(crate) fn append_bytes(out: &mut Vec<u8>, v: &Vec<u8>)
    ensures
        final(out)@ == old(out)@ + v@,
{
    out.extend_from_slice(v.as_slice());
    proof {
        assert(out@ =~= old(out)@ + v@);
    }
}

/// The per-round block bytes depend only on the first `r` rounds.
pub proof fn lemma_rounds_bytes_prefix(
    c1: Seq<Vec<PartialAuthenticationPath>>,
    ab1: Seq<Vec<PartialAuthenticationPath>>,
    c2: Seq<Vec<PartialAuthenticationPath>>,
    ab2: Seq<Vec<PartialAuthenticationPath>>,
    r: int,
)
    requires
        forall|k: int| 0 <= k < r ==> #[trigger] c1[k] == c2[k] && ab1[k] == ab2[k],
    ensures
        rounds_bytes(c1, ab1, r) == rounds_bytes(c2, ab2, r),
    decreases r,
{
    if r > 0 {
        lemma_rounds_bytes_prefix(c1, ab1, c2, ab2, r - 1);
        assert(c1[r - 1] == c2[r - 1] && ab1[r - 1] == ab2[r - 1]);
    }
}

/// Equal digest tables serialize to equal bytes.
pub proof fn lemma_digests_bytes_congruence(a: Seq<[u8; 32]>, b: Seq<[u8; 32]>)
    requires
        a.len() == b.len(),
        forall|k: int| 0 <= k < a.len() ==> (#[trigger] a[k])@ == b[k]@,
    ensures
        digests_bytes(a) == digests_bytes(b),
    decreases a.len(),
{
    if a.len() > 0 {
        assert forall|k: int| 0 <= k < a.drop_last().len() implies (#[trigger] a.drop_last()[k])@
            == b.drop_last()[k]@ by {
            assert(a.drop_last()[k] == a[k]);
            assert(b.drop_last()[k] == b[k]);
        }
        lemma_digests_bytes_congruence(a.drop_last(), b.drop_last());
        assert(a.last()@ == b.last()@) by {
            assert(a[a.len() - 1]@ == b[a.len() - 1]@);
        }
    }
}

/// Paths with equal values and equal sibling digests serialize to
/// equal bytes.
pub proof fn lemma_paths_bytes_congruence(
    a: Seq<PartialAuthenticationPath>,
    b: Seq<PartialAuthenticationPath>,
)
    requires
        crate::low_degree_proof::paths_equal(a, b),
    ensures
        paths_bytes(a) == paths_bytes(b),
    decreases a.len(),
{
    if a.len() > 0 {
        assert(crate::low_degree_proof::paths_equal(a.drop_last(), b.drop_last())) by {
            assert forall|t: int| 0 <= t < a.drop_last().len() implies (
            #[trigger] a.drop_last()[t]).value == b.drop_last()[t].value
                && a.drop_last()[t].siblings.deep_view() == b.drop_last()[t].siblings.deep_view()
                by {
                assert(a.drop_last()[t] == a[t]);
                assert(b.drop_last()[t] == b[t]);
            }
        }
        lemma_paths_bytes_congruence(a.drop_last(), b.drop_last());
        let x = a.last();
        let y = b.last();
        assert(x.value == y.value && x.siblings.deep_view() == y.siblings.deep_view()) by {
            assert(a[a.len() - 1].value == b[a.len() - 1].value);
            assert(a[a.len() - 1].siblings.deep_view() == b[a.len() - 1].siblings.deep_view());
        }
        assert(path_bytes(x) == path_bytes(y)) by {
            assert(x.siblings@.len() == x.siblings.deep_view().len());
            assert(y.siblings@.len() == y.siblings.deep_view().len());
            assert forall|k: int| 0 <= k < x.siblings@.len() implies (#[trigger] x.siblings@[k])@
                == y.siblings@[k]@ by {
                assert(x.siblings@[k].deep_view() =~= x.siblings@[k]@);
                assert(y.siblings@[k].deep_view() =~= y.siblings@[k]@);
                assert(x.siblings.deep_view()[k] == y.siblings.deep_view()[k]);
            }
            lemma_digests_bytes_congruence(x.siblings@, y.siblings@);
        }
    }
}

/// Round blocks built from equal path vectors are equal bytes.
pub proof fn lemma_rounds_bytes_congruence(
    c1: Seq<Vec<PartialAuthenticationPath>>,
    ab1: Seq<Vec<PartialAuthenticationPath>>,
    c2: Seq<Vec<PartialAuthenticationPath>>,
    ab2: Seq<Vec<PartialAuthenticationPath>>,
    r: int,
)
    requires
        forall|k: int|
            0 <= k < r ==> crate::low_degree_proof::paths_equal((#[trigger] c1[k])@, c2[k]@)
                && crate::low_degree_proof::paths_equal(ab1[k]@, ab2[k]@),
    ensures
        rounds_bytes(c1, ab1, r) == rounds_bytes(c2, ab2, r),
    decreases r,
{
    if r > 0 {
        lemma_rounds_bytes_congruence(c1, ab1, c2, ab2, r - 1);
        lemma_paths_bytes_congruence(c1[r - 1]@, c2[r - 1]@);
        lemma_paths_bytes_congruence(ab1[r - 1]@, ab2[r - 1]@);
    }
}

/// Digest `r` occupies bytes `32r .. 32r + 32` of its table.
pub proof fn lemma_digests_bytes_index(ds: Seq<[u8; 32]>, r: int)
    requires
        0 <= r < ds.len(),
    ensures
        digests_bytes(ds).len() == 32 * ds.len(),
        digests_bytes(ds).subrange(32 * r, 32 * r + 32) == ds[r]@,
    decreases ds.len(),
{
    lemma_digests_bytes_len(ds);
    if r == ds.len() - 1 {
        lemma_digests_bytes_len(ds.drop_last());
        assert(digests_bytes(ds).subrange(32 * r, 32 * r + 32) =~= ds.last()@);
    } else {
        lemma_digests_bytes_index(ds.drop_last(), r);
        lemma_digests_bytes_len(ds.drop_last());
        assert(ds.drop_last()[r] == ds[r]);
        assert(digests_bytes(ds).subrange(32 * r, 32 * r + 32) =~= digests_bytes(
            ds.drop_last(),
        ).subrange(32 * r, 32 * r + 32));
    }
}

/// The first `32k` bytes of a digest table are the table of its first
/// `k` digests.
pub proof fn lemma_digests_bytes_take(ds: Seq<[u8; 32]>, k: int)
    requires
        0 <= k <= ds.len(),
    ensures
        digests_bytes(ds).subrange(0, 32 * k) == digests_bytes(ds.take(k)),
    decreases ds.len(),
{
    lemma_digests_bytes_len(ds);
    if k == ds.len() {
        assert(ds.take(k) =~= ds);
        assert(digests_bytes(ds).subrange(0, 32 * k) =~= digests_bytes(ds));
    } else {
        lemma_digests_bytes_take(ds.drop_last(), k);
        lemma_digests_bytes_len(ds.drop_last());
        assert(ds.drop_last().take(k) =~= ds.take(k));
        assert(digests_bytes(ds).subrange(0, 32 * k) =~= digests_bytes(ds.drop_last()).subrange(
            0,
            32 * k,
        ));
    }
}

/// Path `t` of a uniform-height block occupies the bytes
/// `t * (16 + 32h) .. (t + 1) * (16 + 32h)`.
pub proof fn lemma_paths_bytes_index(ps: Seq<PartialAuthenticationPath>, h: int, t: int)
    requires
        forall|j: int| 0 <= j < ps.len() ==> (#[trigger] ps[j]).siblings@.len() == h,
        0 <= h,
        0 <= t < ps.len(),
    ensures
        paths_bytes(ps).len() == ps.len() * (16 + 32 * h),
        paths_bytes(ps).subrange(t * (16 + 32 * h), (t + 1) * (16 + 32 * h)) == path_bytes(ps[t]),
    decreases ps.len(),
{
    let per = 16 + 32 * h;
    lemma_paths_bytes_len(ps, h);
    lemma_paths_bytes_len(ps.drop_last(), h);
    assert(forall|j: int|
        0 <= j < ps.drop_last().len() ==> (#[trigger] ps.drop_last()[j]).siblings@.len() == h);
    assert((ps.len() - 1) * per + per == ps.len() * per) by (nonlinear_arith);
    if t == ps.len() - 1 {
        crate::codec::lemma_le_bytes_len(ps.last().value as int, 16);
        lemma_digests_bytes_len(ps.last().siblings@);
        assert(t * per >= 0 && t * per + per == ps.len() * per) by (nonlinear_arith)
            requires
                t == ps.len() - 1,
                (ps.len() - 1) * per + per == ps.len() * per,
                per >= 0,
                t >= 0;
        assert(paths_bytes(ps).subrange(t * per, (t + 1) * per) =~= path_bytes(ps.last()));
    } else {
        lemma_paths_bytes_index(ps.drop_last(), h, t);
        assert(ps.drop_last()[t] == ps[t]);
        assert((t + 1) * per <= (ps.len() - 1) * per) by (nonlinear_arith)
            requires
                t + 1 <= ps.len() - 1,
                per >= 0;
        assert(t * per >= 0) by (nonlinear_arith)
            requires
                t >= 0,
                per >= 0;
        assert(t * per <= (t + 1) * per) by (nonlinear_arith)
            requires
                per >= 0;
        let a = paths_bytes(ps.drop_last());
        let b = path_bytes(ps.last());
        assert(paths_bytes(ps) == a + b);
        assert(a.len() == (ps.len() - 1) * per);
        assert forall|i: int| t * per <= i < (t + 1) * per implies (a + b)[i] == a[i] by {
            assert(i < a.len());
        }
        assert(paths_bytes(ps).subrange(t * per, (t + 1) * per) =~= a.subrange(
            t * per,
            (t + 1) * per,
        ));
    }
}

} // verus!
