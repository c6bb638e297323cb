//! The proof object and the query-index sampler.
//!
//! A proof carries everything the verifier replays: the protocol
//! parameters, the committed Merkle roots, the opened authentication
//! paths, and the transcript snapshots the challenges and query
//! indices are derived from.

use vstd::prelude::*;
use vstd::arithmetic::power2::{pow2, lemma2_to64};
use crate::field::{from_be, get_index_from_bytes, modulus_bound};
use crate::hash::{digest_of, blake3_digest};
use crate::merkle::PartialAuthenticationPath;

verus! {

/// A non-interactive low-degree proof for one codeword.
#[derive(Debug, Clone, PartialEq)]
pub struct LowDegreeProof {
    pub ab_proofs: Vec<Vec<PartialAuthenticationPath>>,
    pub challenge_hash_preimages: Vec<Vec<u8>>,
    pub codeword_size: u32,
    pub c_proofs: Vec<Vec<PartialAuthenticationPath>>,
    pub index_picker_preimage: Vec<u8>,
    pub max_degree: u32,
    pub max_degree_of_last_round: u32,
    pub merkle_roots: Vec<[u8; 32]>,
    pub primitive_root_of_unity: i128,
    pub rounds_count: u8,
    pub s: u32,
}

/// The length of the codeword at round `round + 1`: the full codeword
/// halved `round + 1` times.
pub open spec fn half_size(full: int, round: int) -> int {
    full / (pow2((round + 1) as nat) as int)
}

/// The model of a vector of index triples.
pub open spec fn triples_model(v: Seq<(usize, usize, usize)>) -> Seq<(int, int, int)> {
    Seq::new(v.len(), |j: int| (v[j].0 as int, v[j].1 as int, v[j].2 as int))
}

/// A triple `(a, b, c)` already uses `a` as a first coordinate.
pub open spec fn picked_contains(acc: Seq<(int, int, int)>, idx: int) -> bool {
    exists|j: int| 0 <= j < acc.len() && (#[trigger] acc[j]).0 == idx
}

/// The dense sampling branch: positions drawn without replacement
/// from the remaining pool, one hash per draw.
pub open spec fn dense_rec(
    pre: Seq<u8>,
    i: int,
    s: int,
    remaining: Seq<usize>,
    half: int,
) -> Seq<(int, int, int)>
    decreases s - i,
{
    if i >= s {
        Seq::empty()
    } else {
        let h = digest_of(pre + seq![(i % 256) as u8]);
        let ii = from_be(h) % (remaining.len() as int);
        let idx = remaining[ii] as int;
        seq![(idx, idx + half, idx)] + dense_rec(pre, i + 1, s, remaining.remove(ii), half)
    }
}

/// The sparse sampling branch: rejection sampling with a one-byte
/// nonce, giving up after 256 attempts.
pub open spec fn sparse_rec(
    pre: Seq<u8>,
    counter: int,
    s: int,
    acc: Seq<(int, int, int)>,
    half: int,
) -> Option<Seq<(int, int, int)>>
    decreases 256 - counter,
{
    if acc.len() >= s {
        Some(acc)
    } else if counter >= 256 {
        None
    } else {
        let h = digest_of(pre + seq![counter as u8]);
        let idx = from_be(h) % half;
        if picked_contains(acc, idx) {
            sparse_rec(pre, counter + 1, s, acc, half)
        } else {
            sparse_rec(pre, counter + 1, s, acc.push((idx, idx + half, idx)), half)
        }
    }
}

/// The initial pool of the dense branch: `0, 1, ..., half - 1`.
pub open spec fn initial_pool(half: int) -> Seq<usize> {
    Seq::new(half as nat, |i: int| i as usize)
}

/// The query positions of one round, derived from the transcript
/// snapshot taken after the last committed root. `None` when the
/// layer is smaller than the budget, the budget exceeds the one-byte
/// nonce, or rejection sampling exhausts its 256 attempts.
pub open spec fn sample_spec(preimage: Seq<u8>, round: u8, s: int, full: int) -> Option<
    Seq<(int, int, int)>,
> {
    let half = half_size(full, round as int);
    let pre = preimage + seq![round];
    if s > 0xFF {
        None
    } else if half < s {
        None
    } else if s > half / 2 {
        Some(dense_rec(pre, 0, s, initial_pool(half), half))
    } else {
        sparse_rec(pre, 0, s, Seq::empty(), half)
    }
}

impl LowDegreeProof {
    /// Derives the `(a, b, c)` query positions of `round` from the
    /// index-picker snapshot carried by this proof.
    pub fn get_abc_indices(&self, round: u8) -> (r: Option<Vec<(usize, usize, usize)>>)
        ensures
            match r {
                Some(v) => ({
                    &&& sample_spec(
                        self.index_picker_preimage@,
                        round,
                        self.s as int,
                        self.codeword_size as int,
                    ) == Some(triples_model(v@))
                    &&& v@.len() == self.s as int
                    &&& forall|j: int|
                        0 <= j < v@.len() ==> 0 <= (#[trigger] v@[j]).0 && (v@[j].0 as int)
                            + (v@[j].1 as int) < 0x2_0000_0000
                }),
                None => sample_spec(
                    self.index_picker_preimage@,
                    round,
                    self.s as int,
                    self.codeword_size as int,
                ) is None,
            },
    {
        get_abc_indices_internal(
            self.index_picker_preimage.as_slice(),
            round,
            self.s,
            self.codeword_size,
        )
    }

    /// The `a` and `b` positions of `round`, flattened in order.
    pub fn get_ab_indices(&self, round: u8) -> (r: Option<Vec<usize>>)
        ensures
            match r {
                Some(v) => match sample_spec(
                    self.index_picker_preimage@,
                    round,
                    self.s as int,
                    self.codeword_size as int,
                ) {
                    Some(m) => ({
                        &&& v@.len() == 2 * m.len()
                        &&& forall|j: int|
                            0 <= j < m.len() ==> ((#[trigger] v@[2 * j]) as int) == m[j].0 && (v@[2
                                * j + 1] as int) == m[j].1
                    }),
                    None => false,
                },
                None => sample_spec(
                    self.index_picker_preimage@,
                    round,
                    self.s as int,
                    self.codeword_size as int,
                ) is None,
            },
    {
        let abc_indices_option = self.get_abc_indices(round);
        let abc_indices = match abc_indices_option {
            None => {
                return None;
            },
            Some(indices) => indices,
        };
        let mut ab_indices: Vec<usize> = Vec::new();
        let ghost m = triples_model(abc_indices@);
        let mut i: usize = 0;
        while i < abc_indices.len()
            invariant
                i <= abc_indices@.len(),
                m == triples_model(abc_indices@),
                forall|j: int|
                    0 <= j < abc_indices@.len() ==> 0 <= (#[trigger] abc_indices@[j]).0
                        && (abc_indices@[j].0 as int) + (abc_indices@[j].1 as int) < 0x2_0000_0000,
                ab_indices@.len() == 2 * i,
                forall|j: int|
                    0 <= j < i ==> (#[trigger] ab_indices@[2 * j]) as int == m[j].0 && ab_indices@[2
                        * j + 1] as int == m[j].1,
            decreases abc_indices@.len() - i,
        {
            let (a, b, _c) = abc_indices[i];
            ab_indices.push(a);
            ab_indices.push(b);
            proof {
                assert forall|j: int| 0 <= j < i + 1 implies ((#[trigger] ab_indices@[2 * j])
                    as int) == m[j].0 && (ab_indices@[2 * j + 1] as int) == m[j].1 by {
                    if j == i as int {
                        assert(ab_indices@[2 * j] == a);
                        assert(ab_indices@[2 * j + 1] == b);
                        assert(m[j] == (abc_indices@[j].0 as int, abc_indices@[j].1 as int,
                            abc_indices@[j].2 as int));
                    }
                }
            }
            i = i + 1;
        }
        Some(ab_indices)
    }
}

/// Derives the `(a, b, c)` query positions of one round from an
/// index-picker transcript snapshot.
pub(crate) fn get_abc_indices_internal(
    index_picker_preimage: &[u8],
    round: u8,
    num_locations: u32,
    full_codeword_side: u32,
) -> (r: Option<Vec<(usize, usize, usize)>>)
    ensures
        match r {
            Some(v) => ({
                &&& sample_spec(
                    index_picker_preimage@,
                    round,
                    num_locations as int,
                    full_codeword_side as int,
                ) == Some(triples_model(v@))
                &&& v@.len() == num_locations as int
                &&& forall|j: int|
                    0 <= j < v@.len() ==> 0 <= (#[trigger] v@[j]).0 && (v@[j].0 as int)
                        + (v@[j].1 as int) < 0x2_0000_0000
                &&& forall|j: int|
                    0 <= j < v@.len() ==> ((#[trigger] v@[j]).0 as int) < half_size(
                        full_codeword_side as int,
                        round as int,
                    ) && (v@[j].1 as int) == (v@[j].0 as int) + half_size(
                        full_codeword_side as int,
                        round as int,
                    ) && v@[j].2 == v@[j].0
            }),
            None => sample_spec(
                index_picker_preimage@,
                round,
                num_locations as int,
                full_codeword_side as int,
            ) is None,
        },
{
    if num_locations > 0xFF {
        return None;
    }
    let half_code_word_size: u32 = if round >= 31 {
        proof {
            half_size_vanishes(full_codeword_side as int, round as int);
        }
        0u32
    } else {
        let denom: u64 = crate::params::pow2_u64(round as u64 + 1);
        proof {
            vstd::arithmetic::power2::lemma_pow2_pos((round + 1) as nat);
            if 1 < (round + 1) as nat {
                vstd::arithmetic::power2::lemma_pow2_strictly_increases(1, (round + 1) as nat);
            }
            lemma2_to64();
        }
        let h: u64 = (full_codeword_side as u64) / denom;
        proof {
            vstd::arithmetic::div_mod::lemma_div_nonincreasing(
                full_codeword_side as int,
                denom as int,
            );
            vstd::arithmetic::div_mod::lemma_div_pos_is_pos(full_codeword_side as int, denom as int);
            // Halving at least once keeps the layer within 31 bits.
            assert(h as int <= full_codeword_side as int / 2) by {
                vstd::arithmetic::div_mod::lemma_div_is_ordered_by_denominator(
                    full_codeword_side as int,
                    2,
                    denom as int,
                );
            }
        }
        h as u32
    };
    if half_code_word_size < num_locations {
        return None;
    }
    let mut hash_preimage_clone: Vec<u8> = vstd::slice::slice_to_vec(index_picker_preimage);
    hash_preimage_clone.push(round);
    proof {
        assert(hash_preimage_clone@ =~= index_picker_preimage@ + seq![round]);
    }
    let ghost pre = hash_preimage_clone@;
    let half: usize = half_code_word_size as usize;
    let s: usize = num_locations as usize;
    proof {
        assert(half < 0x8000_0000);
        assert(half as int == half_size(full_codeword_side as int, round as int));
    }
    if num_locations > half_code_word_size / 2 {
        // Dense branch: sample without replacement from the pool.
        let mut remaining: Vec<usize> = Vec::new();
        let mut i: usize = 0;
        while i < half
            invariant
                i <= half,
                remaining@.len() == i,
                forall|k: int| 0 <= k < i ==> (#[trigger] remaining@[k]) == k,
            decreases half - i,
        {
            remaining.push(i);
            i = i + 1;
        }
        proof {
            assert(remaining@ =~= initial_pool(half as int));
        }
        let ghost whole = dense_rec(pre, 0, s as int, initial_pool(half as int), half as int);
        let mut abc_indices: Vec<(usize, usize, usize)> = Vec::new();
        let mut i: usize = 0;
        proof {
            assert(triples_model(abc_indices@) + whole =~= whole);
        }
        while i < s
            invariant
                i <= s,
                s <= half < 0x8000_0000,
                pre == hash_preimage_clone@,
                remaining@.len() == half - i,
                forall|k: int| 0 <= k < remaining@.len() ==> (#[trigger] remaining@[k]) < half,
                abc_indices@.len() == i,
                triples_model(abc_indices@) + dense_rec(
                    pre,
                    i as int,
                    s as int,
                    remaining@,
                    half as int,
                ) == whole,
                forall|j: int|
                    0 <= j < abc_indices@.len() ==> 0 <= (#[trigger] abc_indices@[j]).0
                        && (abc_indices@[j].0 as int) + (abc_indices@[j].1 as int) < 0x2_0000_0000,
                forall|j: int|
                    0 <= j < abc_indices@.len() ==> ((#[trigger] abc_indices@[j]).0 as int) < half
                        as int && (abc_indices@[j].1 as int) == (abc_indices@[j].0 as int) + half
                        as int && abc_indices@[j].2 == abc_indices@[j].0,
            decreases s - i,
        {
            let ghost old_rem = remaining@;
            let ghost old_model = triples_model(abc_indices@);
            let mut index_picker_prehash_temp: Vec<u8> = Vec::new();
            index_picker_prehash_temp.extend_from_slice(hash_preimage_clone.as_slice());
            index_picker_prehash_temp.push((i % 256) as u8);
            proof {
                assert(index_picker_prehash_temp@ =~= pre + seq![(i as int % 256) as u8]);
            }
            let hash: [u8; 32] = blake3_digest(index_picker_prehash_temp.as_slice());
            let index_index: usize = get_index_from_bytes(hash.as_slice(), remaining.len());
            let index: usize = remaining.remove(index_index);
            abc_indices.push((index, index + half, index));
            proof {
                let t = (index as int, index as int + half as int, index as int);
                assert(triples_model(abc_indices@) =~= old_model + seq![t]);
                assert(dense_rec(pre, i as int, s as int, old_rem, half as int) == seq![t]
                    + dense_rec(pre, i as int + 1, s as int, old_rem.remove(index_index as int),
                        half as int));
                assert(remaining@ == old_rem.remove(index_index as int));
                assert forall|k: int| 0 <= k < remaining@.len() implies (#[trigger] remaining@[k])
                    < half by {
                    if k < index_index as int {
                        assert(remaining@[k] == old_rem[k]);
                    } else {
                        assert(remaining@[k] == old_rem[k + 1]);
                    }
                }
                assert((old_model + seq![t]) + dense_rec(pre, i as int + 1, s as int, remaining@,
                    half as int) =~= old_model + (seq![t] + dense_rec(pre, i as int + 1, s as int,
                    remaining@, half as int)));
            }
            i = i + 1;
        }
        proof {
            assert(dense_rec(pre, s as int, s as int, remaining@, half as int) =~= Seq::<
                (int, int, int),
            >::empty());
            assert(triples_model(abc_indices@) + Seq::<(int, int, int)>::empty() =~= triples_model(
                abc_indices@,
            ));
        }
        Some(abc_indices)
    } else {
        // Sparse branch: rejection sampling bounded by the one-byte
        // nonce. The budget is at most half the layer, so exhausting
        // all 256 attempts takes hundreds of digest collisions.
        proof {
            assert(2 * (s as int) <= half as int) by {
                assert(num_locations <= half_code_word_size / 2);
                vstd::arithmetic::div_mod::lemma_fundamental_div_mod(half_code_word_size as int, 2);
                vstd::arithmetic::div_mod::lemma_mod_bound(half_code_word_size as int, 2);
            }
        }
        let mut abc_indices: Vec<(usize, usize, usize)> = Vec::new();
        let mut counter: u32 = 0;
        proof {
            assert(triples_model(abc_indices@) =~= Seq::<(int, int, int)>::empty());
        }
        while counter < 256 && abc_indices.len() < s
            invariant
                counter <= 256,
                s <= half < 0x8000_0000,
                2 * (s as int) <= half as int,
                pre == hash_preimage_clone@,
                abc_indices@.len() <= s,
                sparse_rec(pre, counter as int, s as int, triples_model(abc_indices@), half as int)
                    == sparse_rec(pre, 0, s as int, Seq::empty(), half as int),
                forall|j: int|
                    0 <= j < abc_indices@.len() ==> 0 <= (#[trigger] abc_indices@[j]).0
                        && (abc_indices@[j].0 as int) + (abc_indices@[j].1 as int) < 0x2_0000_0000,
                forall|j: int|
                    0 <= j < abc_indices@.len() ==> ((#[trigger] abc_indices@[j]).0 as int) < half
                        as int && (abc_indices@[j].1 as int) == (abc_indices@[j].0 as int) + half
                        as int && abc_indices@[j].2 == abc_indices@[j].0,
            decreases 256 - counter,
        {
            let ghost old_model = triples_model(abc_indices@);
            let mut index_picker_prehash_temp: Vec<u8> = Vec::new();
            index_picker_prehash_temp.extend_from_slice(hash_preimage_clone.as_slice());
            index_picker_prehash_temp.push(counter as u8);
            proof {
                assert(index_picker_prehash_temp@ =~= pre + seq![(counter as int) as u8]);
            }
            let hash: [u8; 32] = blake3_digest(index_picker_prehash_temp.as_slice());
            let index: usize = get_index_from_bytes(hash.as_slice(), half);
            let already = contains_first(&abc_indices, index);
            if !already {
                abc_indices.push((index, index + half, index));
                proof {
                    let t = (index as int, index as int + half as int, index as int);
                    assert(triples_model(abc_indices@) =~= old_model.push(t));
                }
            }
            proof {
                assert(sparse_rec(pre, counter as int, s as int, old_model, half as int)
                    == sparse_rec(pre, counter as int + 1, s as int, triples_model(abc_indices@),
                    half as int));
            }
            counter = counter + 1;
        }
        if abc_indices.len() < s {
            return None;
        }
        Some(abc_indices)
    }
}

/// Whether `idx` already occurs as a first coordinate.
fn contains_first(v: &Vec<(usize, usize, usize)>, idx: usize) -> (r: bool)
    ensures
        r == picked_contains(triples_model(v@), idx as int),
{
    let mut i: usize = 0;
    while i < v.len()
        invariant
            i <= v@.len(),
            forall|j: int| 0 <= j < i ==> (#[trigger] v@[j]).0 != idx,
        decreases v@.len() - i,
    {
        if v[i].0 == idx {
            proof {
                assert(triples_model(v@)[i as int].0 == idx as int);
            }
            return true;
        }
        i = i + 1;
    }
    proof {
        assert(!picked_contains(triples_model(v@), idx as int)) by {
            if picked_contains(triples_model(v@), idx as int) {
                let j = choose|j: int|
                    0 <= j < triples_model(v@).len() && (#[trigger] triples_model(v@)[j]).0 == idx;
                assert(v@[j].0 != idx);
            }
        }
    }
    false
}

/// Above 31 halvings nothing remains of a 32-bit codeword.
proof fn half_size_vanishes(full: int, round: int)
    requires
        0 <= full < 0x1_0000_0000,
        round >= 31,
    ensures
        half_size(full, round) == 0,
{
    lemma2_to64();
    vstd::arithmetic::power2::lemma2_to64_rest();
    if (round + 1) as nat > 32 {
        vstd::arithmetic::power2::lemma_pow2_strictly_increases(32, (round + 1) as nat);
    }
    vstd::arithmetic::div_mod::lemma_basic_div(full, pow2((round + 1) as nat) as int);
}

/// Deep equality of two proofs: every scalar field agrees and every
/// carried byte string, root, and authentication path agrees.
pub open spec fn proofs_equal(p1: LowDegreeProof, p2: LowDegreeProof) -> bool {
    &&& p1.codeword_size == p2.codeword_size
    &&& p1.max_degree == p2.max_degree
    &&& p1.s == p2.s
    &&& p1.primitive_root_of_unity == p2.primitive_root_of_unity
    &&& p1.rounds_count == p2.rounds_count
    &&& p1.max_degree_of_last_round == p2.max_degree_of_last_round
    &&& p1.merkle_roots@.len() == p2.merkle_roots@.len()
    &&& forall|r: int|
        0 <= r < p1.merkle_roots@.len() ==> (#[trigger] p1.merkle_roots@[r])@
            == p2.merkle_roots@[r]@
    &&& p1.challenge_hash_preimages@.len() == p2.challenge_hash_preimages@.len()
    &&& forall|i: int|
        0 <= i < p1.challenge_hash_preimages@.len() ==> (
        #[trigger] p1.challenge_hash_preimages@[i])@ == p2.challenge_hash_preimages@[i]@
    &&& p1.index_picker_preimage@ == p2.index_picker_preimage@
    &&& p1.c_proofs@.len() == p2.c_proofs@.len()
    &&& forall|r: int|
        0 <= r < p1.c_proofs@.len() ==> paths_equal((#[trigger] p1.c_proofs@[r])@, p2.c_proofs@[r]@)
    &&& p1.ab_proofs@.len() == p2.ab_proofs@.len()
    &&& forall|r: int|
        0 <= r < p1.ab_proofs@.len() ==> paths_equal(
            (#[trigger] p1.ab_proofs@[r])@,
            p2.ab_proofs@[r]@,
        )
}

/// Deep equality of two path vectors.
pub open spec fn paths_equal(
    a: Seq<PartialAuthenticationPath>,
    b: Seq<PartialAuthenticationPath>,
) -> bool {
    &&& a.len() == b.len()
    &&& forall|t: int|
        0 <= t < a.len() ==> (#[trigger] a[t]).value == b[t].value && a[t].siblings.deep_view()
            == b[t].siblings.deep_view()
}


/// The dense branch yields exactly the requested number of positions,
/// all drawn from the pool.
proof fn lemma_dense_bounds(
    pre: Seq<u8>,
    i: int,
    s: int,
    remaining: Seq<usize>,
    half: int,
)
    requires
        0 <= i <= s,
        s - i <= remaining.len(),
        forall|k: int| 0 <= k < remaining.len() ==> (#[trigger] remaining[k]) < half,
    ensures
        dense_rec(pre, i, s, remaining, half).len() == s - i,
        forall|t: int|
            0 <= t < s - i ==> 0 <= (#[trigger] dense_rec(pre, i, s, remaining, half)[t]).0 < half
                && dense_rec(pre, i, s, remaining, half)[t].1 == dense_rec(
                pre,
                i,
                s,
                remaining,
                half,
            )[t].0 + half && dense_rec(pre, i, s, remaining, half)[t].2 == dense_rec(
                pre,
                i,
                s,
                remaining,
                half,
            )[t].0,
    decreases s - i,
{
    if i < s {
        let h = crate::hash::digest_of(pre + seq![(i % 256) as u8]);
        let ii = from_be(h) % (remaining.len() as int);
        vstd::arithmetic::div_mod::lemma_mod_bound(from_be(h), remaining.len() as int);
        let next = remaining.remove(ii);
        assert forall|k: int| 0 <= k < next.len() implies (#[trigger] next[k]) < half by {
            if k < ii {
                assert(next[k] == remaining[k]);
            } else {
                assert(next[k] == remaining[k + 1]);
            }
        }
        lemma_dense_bounds(pre, i + 1, s, next, half);
    }
}

/// The sparse branch, when it succeeds, yields exactly the requested
/// number of positions, all below the layer size.
proof fn lemma_sparse_bounds(
    pre: Seq<u8>,
    counter: int,
    s: int,
    acc: Seq<(int, int, int)>,
    half: int,
)
    requires
        acc.len() <= s,
        s > 0 ==> half >= 1,
        forall|t: int|
            0 <= t < acc.len() ==> 0 <= (#[trigger] acc[t]).0 < half && acc[t].1 == acc[t].0 + half
                && acc[t].2 == acc[t].0,
    ensures
        match sparse_rec(pre, counter, s, acc, half) {
            None => true,
            Some(m) => m.len() == s && forall|t: int|
                0 <= t < m.len() ==> 0 <= (#[trigger] m[t]).0 < half && m[t].1 == m[t].0 + half
                    && m[t].2 == m[t].0,
        },
    decreases 256 - counter,
{
    if acc.len() >= s {
    } else if counter >= 256 {
    } else {
        let h = crate::hash::digest_of(pre + seq![counter as u8]);
        let idx = from_be(h) % half;
        vstd::arithmetic::div_mod::lemma_mod_bound(from_be(h), half);
        if picked_contains(acc, idx) {
            lemma_sparse_bounds(pre, counter + 1, s, acc, half);
        } else {
            lemma_sparse_bounds(pre, counter + 1, s, acc.push((idx, idx + half, idx)), half);
        }
    }
}

/// Whatever round the sampler succeeds on, it yields exactly `s`
/// triples `(a, a + m, a)` with `a` below the half layer size `m`.
pub proof fn lemma_sample_bounds(preimage: Seq<u8>, round: u8, s: int, full: int)
    requires
        0 <= s,
    ensures
        match sample_spec(preimage, round, s, full) {
            None => true,
            Some(m) => m.len() == s && forall|t: int|
                0 <= t < m.len() ==> 0 <= (#[trigger] m[t]).0 < half_size(full, round as int)
                    && m[t].1 == m[t].0 + half_size(full, round as int) && m[t].2 == m[t].0,
        },
{
    let half = half_size(full, round as int);
    let pre = preimage + seq![round];
    if s > 0xFF {
    } else if half < s {
    } else if s > half / 2 {
        assert(forall|k: int|
            0 <= k < initial_pool(half).len() ==> (#[trigger] initial_pool(half)[k]) < half);
        lemma_dense_bounds(pre, 0, s, initial_pool(half), half);
    } else {
        if s > 0 {
            vstd::arithmetic::div_mod::lemma_div_pos_is_pos(half, 2);
            assert(half >= 1) by {
                if half == 0 {
                    assert(half / 2 == 0) by {
                        vstd::arithmetic::div_mod::lemma_basic_div(0, 2);
                    }
                }
            }
        }
        lemma_sparse_bounds(pre, 0, s, Seq::empty(), half);
    }
}

} // verus!
