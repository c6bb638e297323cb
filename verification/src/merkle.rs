//! Merkle commitments over codewords of field elements.
//!
//! A tree over `n` leaves (a power of two) stores every node digest in
//! a heap layout: node 1 is the root, node `n + i` is the digest of
//! leaf `i`, and node `i < n` hashes the concatenation of its two
//! children. An authentication path carries the leaf value and the
//! sibling digests from the leaf to the root.

use vstd::prelude::*;
use vstd::arithmetic::power2::{pow2, lemma2_to64, lemma_pow2_adds, lemma_pow2_pos};
use vstd::arithmetic::div_mod::{
    lemma_div_by_multiple, lemma_div_denominator, lemma_div_is_ordered, lemma_div_pos_is_pos,
};
use crate::codec::{le_bytes, append_le};
use crate::hash::{digest_of, blake3_digest};
use crate::params::{is_power_of_two, log2_ceil};
use crate::field::modulus_bound;

verus! {

/// An opened leaf: its value together with the sibling digests from
/// the leaf up to (but excluding) the root.
#[derive(Debug, Clone, PartialEq, Eq)]
pub struct PartialAuthenticationPath {
    pub value: i128,
    pub siblings: Vec<[u8; 32]>,
}

impl PartialAuthenticationPath {
    /// The leaf value this path authenticates.
    pub fn get_value(&self) -> (r: i128)
        ensures
            r == self.value,
    {
        self.value
    }
}

/// The bytes a leaf value is hashed through (also its wire form).
pub open spec fn leaf_bytes(v: i128) -> Seq<u8> {
    le_bytes(v as int, 16)
}

/// The digest of a leaf.
pub open spec fn leaf_digest(v: i128) -> Seq<u8> {
    digest_of(leaf_bytes(v))
}

/// The digest of heap node `i` of the tree over `leaves`.
pub open spec fn node_digest(leaves: Seq<i128>, i: int) -> Seq<u8>
    recommends
        1 <= i < 2 * leaves.len(),
    decreases 2 * leaves.len() - i,
{
    if i >= leaves.len() {
        leaf_digest(leaves[i - leaves.len()])
    } else if i < 1 {
        Seq::empty()
    } else {
        digest_of(node_digest(leaves, 2 * i) + node_digest(leaves, 2 * i + 1))
    }
}

/// The root digest of the tree over `leaves`.
pub open spec fn root_spec(leaves: Seq<i128>) -> Seq<u8> {
    node_digest(leaves, 1)
}

/// The heap index of the sibling passed at level `j` on the way from
/// leaf `idx` to the root, in a tree of `n` leaves.
pub open spec fn sib_index(n: int, idx: int, j: int) -> int {
    let a = (n + idx) / (pow2(j as nat) as int);
    if a % 2 == 0 {
        a + 1
    } else {
        a - 1
    }
}

/// The sibling digests opened for leaf `idx`, bottom up.
pub open spec fn path_spec(leaves: Seq<i128>, idx: int) -> Seq<Seq<u8>> {
    Seq::new(
        log2_ceil(leaves.len() as int),
        |j: int| node_digest(leaves, sib_index(leaves.len() as int, idx, j)),
    )
}

/// Recomputes a root candidate from a starting digest, sibling
/// digests, and the position parity at each level.
pub open spec fn climb(cur: Seq<u8>, sibs: Seq<Seq<u8>>, pos: int) -> Seq<u8>
    decreases sibs.len(),
{
    if sibs.len() == 0 {
        cur
    } else {
        climb(
            if pos % 2 == 1 {
                digest_of(sibs[0] + cur)
            } else {
                digest_of(cur + sibs[0])
            },
            sibs.subrange(1, sibs.len() as int),
            pos / 2,
        )
    }
}

/// An authentication path opens `value` at `idx` against `root`.
pub open spec fn path_ok(root: Seq<u8>, idx: int, value: i128, sibs: Seq<Seq<u8>>) -> bool {
    climb(leaf_digest(value), sibs, idx) == root
}

/// Every opened leaf authenticates against `root` at its index.
pub open spec fn multi_proof_ok(
    root: Seq<u8>,
    indices: Seq<usize>,
    proofs: Seq<PartialAuthenticationPath>,
) -> bool {
    &&& indices.len() == proofs.len()
    &&& forall|j: int|
        0 <= j < indices.len() ==> path_ok(
            root,
            indices[j] as int,
            (#[trigger] proofs[j]).value,
            proofs[j].siblings.deep_view(),
        )
}

/// A Merkle tree retained by the prover between the commit and the
/// query phase.
#[derive(Debug, Clone)]
pub struct MerkleTree {
    pub leaves: Vec<i128>,
    pub nodes: Vec<[u8; 32]>,
}

impl MerkleTree {
    /// The tree is fully and correctly hashed.
    pub open spec fn wf(&self) -> bool {
        &&& is_power_of_two(self.leaves@.len() as int)
        &&& 1 <= self.leaves@.len() <= 0x4000_0000
        &&& self.nodes@.len() == 2 * self.leaves@.len()
        &&& forall|i: int|
            1 <= i < self.nodes@.len() ==> (#[trigger] self.nodes@[i])@ == node_digest(
                self.leaves@,
                i,
            )
        &&& forall|i: int|
            0 <= i < self.leaves@.len() ==> 0 <= #[trigger] self.leaves@[i] < modulus_bound()
    }

    /// Commits to a codeword. Leaf order is codeword order.
    pub fn from_vec(codeword: &[i128]) -> (r: MerkleTree)
        requires
            is_power_of_two(codeword@.len() as int),
            1 <= codeword@.len() <= 0x4000_0000,
            forall|i: int| 0 <= i < codeword@.len() ==> 0 <= #[trigger] codeword@[i] < modulus_bound(),
        ensures
            r.wf(),
            r.leaves@ == codeword@,
    {
        let n: usize = codeword.len();
        let mut nodes: Vec<[u8; 32]> = vec![[0u8; 32]; 2 * n];
        let mut i: usize = 0;
        while i < n
            invariant
                i <= n,
                n == codeword@.len(),
                n <= 0x4000_0000,
                nodes@.len() == 2 * n,
                forall|k: int| 0 <= k < codeword@.len() ==> 0 <= #[trigger] codeword@[k] < modulus_bound(),
                forall|k: int|
                    n <= k < n + i ==> (#[trigger] nodes@[k])@ == node_digest(codeword@, k),
            decreases n - i,
        {
            let h: [u8; 32] = leaf_hash(codeword[i]);
            nodes[n + i] = h;
            i = i + 1;
        }
        let mut j: usize = n;
        while j > 1
            invariant
                1 <= j <= n || (n == 1 && j == n),
                n == codeword@.len(),
                n <= 0x4000_0000,
                nodes@.len() == 2 * n,
                forall|k: int|
                    j <= k < 2 * n ==> (#[trigger] nodes@[k])@ == node_digest(codeword@, k),
            decreases j,
        {
            j = j - 1;
            let mut cat: Vec<u8> = Vec::new();
            cat.extend_from_slice(nodes[2 * j].as_slice());
            cat.extend_from_slice(nodes[2 * j + 1].as_slice());
            proof {
                assert(cat@ =~= nodes@[2 * j as int]@ + nodes@[2 * j as int + 1]@);
            }
            let h: [u8; 32] = blake3_digest(cat.as_slice());
            nodes[j] = h;
            proof {
                assert(nodes@[j as int]@ == node_digest(codeword@, j as int));
            }
        }
        let leaves: Vec<i128> = vstd::slice::slice_to_vec(codeword);
        MerkleTree { leaves, nodes }
    }

    /// The committed root.
    pub fn get_root(&self) -> (r: [u8; 32])
        requires
            self.wf(),
        ensures
            r@ == root_spec(self.leaves@),
    {
        self.nodes[1]
    }

    /// Opens the tree at each of `indices`.
    pub fn get_multi_proof(&self, indices: &Vec<usize>) -> (r: Vec<PartialAuthenticationPath>)
        requires
            self.wf(),
            forall|j: int| 0 <= j < indices@.len() ==> #[trigger] indices@[j] < self.leaves@.len(),
        ensures
            r@.len() == indices@.len(),
            forall|j: int|
                0 <= j < indices@.len() ==> (#[trigger] r@[j]).value == self.leaves@[indices@[j]
                    as int] && r@[j].siblings.deep_view() == path_spec(
                    self.leaves@,
                    indices@[j] as int,
                ),
    {
        let mut r: Vec<PartialAuthenticationPath> = Vec::new();
        let mut j: usize = 0;
        while j < indices.len()
            invariant
                j <= indices@.len(),
                self.wf(),
                forall|k: int|
                    0 <= k < indices@.len() ==> #[trigger] indices@[k] < self.leaves@.len(),
                r@.len() == j,
                forall|k: int|
                    0 <= k < j ==> (#[trigger] r@[k]).value == self.leaves@[indices@[k] as int]
                        && r@[k].siblings.deep_view() == path_spec(
                        self.leaves@,
                        indices@[k] as int,
                    ),
            decreases indices@.len() - j,
        {
            let p = self.open_one(indices[j]);
            r.push(p);
            j = j + 1;
        }
        r
    }

    /// Opens a single leaf.
    fn open_one(&self, idx: usize) -> (r: PartialAuthenticationPath)
        requires
            self.wf(),
            idx < self.leaves@.len(),
        ensures
            r.value == self.leaves@[idx as int],
            r.siblings.deep_view() == path_spec(self.leaves@, idx as int),
    {
        let n: usize = self.leaves.len();
        let ghost h = log2_ceil(n as int);
        proof {
            assert(pow2(h) == n);
            lemma2_to64();
        }
        let height: u64 = crate::params::log_2_ceil(n as u64);
        let mut sibs: Vec<[u8; 32]> = Vec::new();
        let mut pos: usize = n + idx;
        let mut lvl: u64 = 0;
        proof {
            assert(pos as int == (n + idx as int) / (pow2(0) as int)) by {
                lemma2_to64();
            }
        }
        while lvl < height
            invariant
                lvl <= height,
                height == h,
                pow2(h) == n,
                self.wf(),
                n == self.leaves@.len(),
                idx < n,
                sibs@.len() == lvl,
                pos as int == (n + idx as int) / (pow2(lvl as nat) as int),
                forall|k: int|
                    0 <= k < lvl ==> (#[trigger] sibs@[k])@ == node_digest(
                        self.leaves@,
                        sib_index(n as int, idx as int, k),
                    ),
            decreases height - lvl,
        {
            proof {
                lemma_level_position_bounds(n as int, idx as int, lvl as int, h);
            }
            let sib: usize = if pos % 2 == 0 {
                pos + 1
            } else {
                pos - 1
            };
            sibs.push(self.nodes[sib]);
            proof {
                lemma_pow2_pos(lvl as nat);
                lemma_div_denominator(n + idx as int, pow2(lvl as nat) as int, 2);
                lemma_pow2_adds(lvl as nat, 1);
                lemma2_to64();
            }
            pos = pos / 2;
            lvl = lvl + 1;
        }
        let value: i128 = self.leaves[idx];
        let r = PartialAuthenticationPath { value, siblings: sibs };
        proof {
            assert forall|k: int| 0 <= k < r.siblings@.len() implies r.siblings.deep_view()[k]
                == (#[trigger] r.siblings@[k])@ by {
                assert(r.siblings@[k].deep_view() =~= r.siblings@[k]@);
            }
            assert(r.siblings.deep_view() =~~= path_spec(self.leaves@, idx as int));
        }
        r
    }

    /// Checks every opened leaf against `root` at the given indices.
    pub fn verify_multi_proof(
        root: [u8; 32],
        indices: &Vec<usize>,
        proofs: &Vec<PartialAuthenticationPath>,
    ) -> (r: bool)
        requires
            forall|j: int|
                0 <= j < proofs@.len() ==> 0 <= (#[trigger] proofs@[j]).value < modulus_bound(),
        ensures
            r == multi_proof_ok(root@, indices@, proofs@),
    {
        if indices.len() != proofs.len() {
            return false;
        }
        let mut j: usize = 0;
        while j < proofs.len()
            invariant
                j <= proofs@.len(),
                indices@.len() == proofs@.len(),
                forall|k: int|
                    0 <= k < proofs@.len() ==> 0 <= (#[trigger] proofs@[k]).value < modulus_bound(),
                forall|k: int|
                    0 <= k < j ==> path_ok(
                        root@,
                        indices@[k] as int,
                        (#[trigger] proofs@[k]).value,
                        proofs@[k].siblings.deep_view(),
                    ),
            decreases proofs@.len() - j,
        {
            if !verify_one(&root, indices[j], &proofs[j]) {
                return false;
            }
            j = j + 1;
        }
        true
    }
}

/// Checks a single authentication path.
fn verify_one(root: &[u8; 32], idx: usize, p: &PartialAuthenticationPath) -> (r: bool)
    requires
        0 <= p.value < modulus_bound(),
    ensures
        r == path_ok(root@, idx as int, p.value, p.siblings.deep_view()),
{
    let mut cur: [u8; 32] = leaf_hash(p.value);
    let mut pos: usize = idx;
    let mut lvl: usize = 0;
    let m: usize = p.siblings.len();
    proof {
        assert(p.siblings.deep_view().len() == p.siblings@.len());
        assert(p.siblings.deep_view().subrange(0, m as int) =~= p.siblings.deep_view());
    }
    while lvl < m
        invariant
            lvl <= m,
            m == p.siblings@.len(),
            climb(leaf_digest(p.value), p.siblings.deep_view(), idx as int) == climb(
                cur@,
                p.siblings.deep_view().subrange(lvl as int, m as int),
                pos as int,
            ),
            pos as int == spec_shift_down(idx as int, lvl as int),
        decreases m - lvl,
    {
        let mut cat: Vec<u8> = Vec::new();
        let sib: [u8; 32] = p.siblings[lvl];
        if pos % 2 == 1 {
            cat.extend_from_slice(sib.as_slice());
            cat.extend_from_slice(cur.as_slice());
            proof {
                assert(cat@ =~= sib@ + cur@);
            }
        } else {
            cat.extend_from_slice(cur.as_slice());
            cat.extend_from_slice(sib.as_slice());
            proof {
                assert(cat@ =~= cur@ + sib@);
            }
        }
        let next: [u8; 32] = blake3_digest(cat.as_slice());
        proof {
            let sibs = p.siblings.deep_view();
            let tail = sibs.subrange(lvl as int, m as int);
            assert(tail[0] == sibs[lvl as int]);
            assert(sibs[lvl as int] =~= p.siblings@[lvl as int]@) by {
                assert(p.siblings@[lvl as int].deep_view() =~= p.siblings@[lvl as int]@);
            }
            assert(tail.subrange(1, tail.len() as int) =~= sibs.subrange(lvl as int + 1, m as int));
            assert(climb(cur@, tail, pos as int) == climb(
                next@,
                sibs.subrange(lvl as int + 1, m as int),
                pos as int / 2,
            ));
            lemma_shift_down_step(idx as int, lvl as int);
        }
        cur = next;
        pos = pos / 2;
        lvl = lvl + 1;
    }
    proof {
        assert(p.siblings.deep_view().subrange(m as int, m as int) =~= Seq::<Seq<u8>>::empty());
    }
    compare_digests(&cur, root)
}

/// `x` shifted down by `l` halvings.
pub open spec fn spec_shift_down(x: int, l: int) -> int
    decreases l,
{
    if l <= 0 {
        x
    } else {
        spec_shift_down(x, l - 1) / 2
    }
}

proof fn lemma_shift_down_step(x: int, l: int)
    requires
        0 <= l,
    ensures
        spec_shift_down(x, l) / 2 == spec_shift_down(x, l + 1),
{
}

/// Byte-for-byte equality of two digests.
fn compare_digests(a: &[u8; 32], b: &[u8; 32]) -> (r: bool)
    ensures
        r == (a@ == b@),
{
    let mut i: usize = 0;
    while i < 32
        invariant
            i <= 32,
            forall|k: int| 0 <= k < i ==> a@[k] == b@[k],
        decreases 32 - i,
    {
        if a[i] != b[i] {
            proof {
                assert(a@[i as int] != b@[i as int]);
            }
            return false;
        }
        i = i + 1;
    }
    proof {
        assert(a@ =~= b@);
    }
    true
}

/// Hashes a leaf value through its 16-byte wire form.
pub(crate) fn leaf_hash(v: i128) -> (r: [u8; 32])
    requires
        0 <= v < modulus_bound(),
    ensures
        r@ == leaf_digest(v),
{
    let mut buf: Vec<u8> = Vec::new();
    append_le(&mut buf, v as u64, 16);
    blake3_digest(buf.as_slice())
}

/// On the way from a leaf to the root, the current position stays a
/// proper internal-or-leaf node and its sibling is a valid heap index.
proof fn lemma_level_position_bounds(n: int, idx: int, lvl: int, h: nat)
    requires
        pow2(h) == n,
        0 <= idx < n,
        0 <= lvl < h,
    ensures
        2 <= (n + idx) / (pow2(lvl as nat) as int),
        (n + idx) / (pow2(lvl as nat) as int) < 2 * n,
{
    let p = pow2(lvl as nat) as int;
    lemma_pow2_pos(lvl as nat);
    assert(2 * pow2((h - lvl - 1) as nat) * p <= n) by {
        lemma_pow2_adds((h - lvl - 1) as nat, lvl as nat + 1);
        lemma_pow2_adds(lvl as nat, 1);
        lemma2_to64();
        assert(pow2((h - lvl - 1) as nat) * pow2(lvl as nat + 1) == pow2(h));
        assert(pow2(lvl as nat + 1) == pow2(lvl as nat) * 2);
        assert(2 * pow2((h - lvl - 1) as nat) * p == pow2((h - lvl - 1) as nat) * (p * 2))
            by (nonlinear_arith);
    }
    assert((n + idx) / p >= (2 * pow2((h - lvl - 1) as nat) * p) / p) by {
        lemma_div_is_ordered(2 * pow2((h - lvl - 1) as nat) * p, n + idx, p);
    }
    assert((2 * pow2((h - lvl - 1) as nat) * p) / p == 2 * pow2((h - lvl - 1) as nat)) by {
        lemma_div_by_multiple(2 * (pow2((h - lvl - 1) as nat) as int), p);
    }
    assert(2 * pow2((h - lvl - 1) as nat) >= 2) by {
        lemma_pow2_pos((h - lvl - 1) as nat);
    }
    assert((n + idx) / p <= n + idx) by {
        vstd::arithmetic::div_mod::lemma_div_nonincreasing(n + idx, p);
    }
}


/// Climbing `h - j` levels from the node at heap depth `j` on the
/// path of leaf `idx` reproduces the root.
proof fn lemma_climb_from(leaves: Seq<i128>, idx: int, j: int)
    requires
        is_power_of_two(leaves.len() as int),
        1 <= leaves.len(),
        0 <= idx < leaves.len(),
        0 <= j <= log2_ceil(leaves.len() as int),
    ensures
        climb(
            node_digest(leaves, (leaves.len() + idx) / (pow2(j as nat) as int)),
            path_spec(leaves, idx).skip(j),
            idx / (pow2(j as nat) as int),
        ) == root_spec(leaves),
    decreases log2_ceil(leaves.len() as int) - j,
{
    let n = leaves.len() as int;
    let h = log2_ceil(n) as int;
    assert(pow2(h as nat) == n);
    lemma_pow2_pos(j as nat);
    let pj = pow2(j as nat) as int;
    let cur = (n + idx) / pj;
    if j == h {
        assert(cur == 1) by {
            assert(n + idx < 2 * n);
            assert((n + idx) / n >= n / n) by {
                lemma_div_is_ordered(n, n + idx, n);
            }
            assert(n / n == 1) by (nonlinear_arith)
                requires
                    n >= 1;
            vstd::arithmetic::div_mod::lemma_multiply_divide_lt(n + idx, n, 2);
        }
        assert(path_spec(leaves, idx).skip(h) =~= Seq::<Seq<u8>>::empty());
    } else {
        lemma_climb_from(leaves, idx, j + 1);
        let pj1 = pow2((j + 1) as nat) as int;
        lemma_pow2_pos((j + 1) as nat);
        assert(pj1 == 2 * pj) by {
            lemma_pow2_adds(j as nat, 1);
            lemma2_to64();
        }
        let parent = (n + idx) / pj1;
        let pos = idx / pj;
        // The current node splits off the offset 2^(h-j) exactly.
        assert(cur == pos + pow2((h - j) as nat)) by {
            assert(n == pow2((h - j) as nat) * pj) by {
                lemma_pow2_adds((h - j) as nat, j as nat);
            }
            vstd::arithmetic::div_mod::lemma_hoist_over_denominator(
                idx,
                pow2((h - j) as nat) as int,
                pj as nat,
            );
        }
        // Parity of the heap position agrees with the parity of the
        // in-layer position, because the offset is even.
        assert(cur % 2 == pos % 2) by {
            assert(pow2((h - j) as nat) == 2 * pow2((h - j - 1) as nat)) by {
                lemma_pow2_adds((h - j - 1) as nat, 1);
                lemma2_to64();
            }
            vstd::arithmetic::div_mod::lemma_mod_multiples_vanish(
                pow2((h - j - 1) as nat) as int,
                pos,
                2,
            );
        }
        // One climbing step reaches the parent.
        assert(cur / 2 == parent) by {
            lemma_div_denominator(n + idx, pj, 2);
        }
        assert(idx / pj1 == pos / 2) by {
            lemma_div_denominator(idx, pj, 2);
        }
        // The parent is an internal node whose children are the
        // current node and the recorded sibling.
        assert(1 <= parent < n) by {
            assert(parent == idx / pj1 + pow2((h - j - 1) as nat)) by {
                assert(n == pow2((h - j - 1) as nat) * pj1) by {
                    lemma_pow2_adds((h - j - 1) as nat, (j + 1) as nat);
                }
                vstd::arithmetic::div_mod::lemma_hoist_over_denominator(
                    idx,
                    pow2((h - j - 1) as nat) as int,
                    pj1 as nat,
                );
            }
            lemma_pow2_pos((h - j - 1) as nat);
            assert(idx / pj1 < pow2((h - j - 1) as nat)) by {
                assert(idx < pow2((h - j - 1) as nat) * pj1) by {
                    lemma_pow2_adds((h - j - 1) as nat, (j + 1) as nat);
                }
                assert(pj1 * (pow2((h - j - 1) as nat) as int) == (pow2((h - j - 1) as nat) as int)
                    * pj1) by (nonlinear_arith);
                vstd::arithmetic::div_mod::lemma_multiply_divide_lt(
                    idx,
                    pj1,
                    pow2((h - j - 1) as nat) as int,
                );
            }
            lemma_div_pos_is_pos(idx, pj1);
            assert(pow2((h - j - 1) as nat) < pow2(h as nat)) by {
                vstd::arithmetic::power2::lemma_pow2_strictly_increases(
                    (h - j - 1) as nat,
                    h as nat,
                );
            }
        }
        vstd::arithmetic::div_mod::lemma_fundamental_div_mod(cur, 2);
        assert(node_digest(leaves, parent) == digest_of(
            node_digest(leaves, 2 * parent) + node_digest(leaves, 2 * parent + 1),
        ));
        let sibs = path_spec(leaves, idx);
        assert(sibs.skip(j)[0] == sibs[j]);
        assert(sibs[j] == node_digest(leaves, sib_index(n, idx, j)));
        assert(sibs.skip(j).subrange(1, sibs.skip(j).len() as int) =~= sibs.skip(j + 1));
        if cur % 2 == 0 {
            assert(sib_index(n, idx, j) == cur + 1);
            assert(2 * parent == cur && 2 * parent + 1 == cur + 1);
            assert(climb(node_digest(leaves, cur), sibs.skip(j), pos) == climb(
                digest_of(node_digest(leaves, cur) + node_digest(leaves, cur + 1)),
                sibs.skip(j + 1),
                pos / 2,
            ));
        } else {
            assert(sib_index(n, idx, j) == cur - 1);
            assert(2 * parent == cur - 1 && 2 * parent + 1 == cur);
            assert(climb(node_digest(leaves, cur), sibs.skip(j), pos) == climb(
                digest_of(node_digest(leaves, cur - 1) + node_digest(leaves, cur)),
                sibs.skip(j + 1),
                pos / 2,
            ));
        }
    }
}

/// Completeness of a single opening: the path the tree hands out for
/// a leaf authenticates that leaf against the tree's root.
pub proof fn lemma_path_opens(leaves: Seq<i128>, idx: int)
    requires
        is_power_of_two(leaves.len() as int),
        1 <= leaves.len(),
        0 <= idx < leaves.len(),
    ensures
        path_ok(root_spec(leaves), idx, leaves[idx], path_spec(leaves, idx)),
{
    let n = leaves.len() as int;
    lemma_climb_from(leaves, idx, 0);
    lemma2_to64();
    assert((n + idx) / 1 == n + idx);
    assert(idx / 1 == idx);
    assert(node_digest(leaves, n + idx) == leaf_digest(leaves[idx]));
    assert(path_spec(leaves, idx).skip(0) =~= path_spec(leaves, idx));
}

/// Completeness of a multi-opening: the openings a well-formed tree
/// hands out at any index set always pass the verifier's Merkle
/// check against that tree's root.
pub proof fn lemma_multi_proof_completeness(
    leaves: Seq<i128>,
    indices: Seq<usize>,
    proofs: Seq<PartialAuthenticationPath>,
)
    requires
        is_power_of_two(leaves.len() as int),
        1 <= leaves.len(),
        forall|j: int| 0 <= j < indices.len() ==> (#[trigger] indices[j]) < leaves.len(),
        proofs.len() == indices.len(),
        forall|j: int|
            0 <= j < indices.len() ==> (#[trigger] proofs[j]).value == leaves[indices[j] as int]
                && proofs[j].siblings.deep_view() == path_spec(leaves, indices[j] as int),
    ensures
        multi_proof_ok(root_spec(leaves), indices, proofs),
{
    assert forall|j: int| 0 <= j < indices.len() implies path_ok(
        root_spec(leaves),
        indices[j] as int,
        (#[trigger] proofs[j]).value,
        proofs[j].siblings.deep_view(),
    ) by {
        lemma_path_opens(leaves, indices[j] as int);
    }
}

} // verus!
