//! Parsing a proof back out of a transcript: the exact inverse of the
//! prover's wire form, total on arbitrary bytes.

use vstd::prelude::*;
use crate::codec::{from_le, read_le, read_digest, lemma_from_le_bound, lemma_from_le_split};
use crate::errors::ValidationError;
use crate::field::modulus_bound;
use crate::merkle::PartialAuthenticationPath;
use crate::low_degree_proof::LowDegreeProof;
use crate::params::rounds_total_spec;
use crate::verify::{proof_bounded, sizes_ok};
use vstd::arithmetic::power::pow;

verus! {

/// The end offset of a length-prefixed block starting at `o`.
pub open spec fn block_end(bytes: Seq<u8>, o: int) -> int {
    o + 2 + from_le(bytes.subrange(o, o + 2))
}

/// The offset of round `r`'s `c` block, starting from `o0`.
pub open spec fn round_off(bytes: Seq<u8>, o0: int, r: int) -> int
    decreases r,
{
    if r <= 0 {
        o0
    } else {
        block_end(bytes, block_end(bytes, round_off(bytes, o0, r - 1)))
    }
}

/// All leaf values of a block are canonical backend values.
pub open spec fn block_values_ok(bytes: Seq<u8>, o: int, count: int, per: int) -> bool {
    forall|t: int|
        0 <= t < count ==> from_le(
            #[trigger] bytes.subrange(o + 2 + t * per, o + 2 + t * per + 16),
        ) < modulus_bound()
}

/// The outcome of parsing one length-prefixed block of `count` paths
/// at offset `o`: the end offset, or the verdict on malformed bytes.
pub open spec fn parse_block_spec(bytes: Seq<u8>, o: int, count: int) -> Result<
    int,
    ValidationError,
> {
    if o + 2 > bytes.len() {
        Err(ValidationError::BadSizedProof)
    } else {
        let ll = from_le(bytes.subrange(o, o + 2));
        if o + 2 + ll > bytes.len() {
            Err(ValidationError::BadSizedProof)
        } else if count <= 0 {
            if ll != 0 {
                Err(ValidationError::BadSizedProof)
            } else {
                Ok(o + 2)
            }
        } else if ll % count != 0 {
            Err(ValidationError::BadSizedProof)
        } else {
            let per = ll / count;
            if per < 16 || (per - 16) % 32 != 0 {
                Err(ValidationError::BadSizedProof)
            } else if !block_values_ok(bytes, o, count, per) {
                Err(ValidationError::BadSizedProof)
            } else {
                Ok(o + 2 + ll)
            }
        }
    }
}

/// The outcome of parsing `rounds` pairs of blocks starting at `o`.
pub open spec fn parse_rounds_spec(bytes: Seq<u8>, o: int, rounds: int, s: int) -> Result<
    int,
    ValidationError,
>
    decreases rounds,
{
    if rounds <= 0 {
        Ok(o)
    } else {
        match parse_block_spec(bytes, o, s) {
            Err(e) => Err(e),
            Ok(o1) => match parse_block_spec(bytes, o1, 2 * s) {
                Err(e) => Err(e),
                Ok(o2) => parse_rounds_spec(bytes, o2, rounds - 1, s),
            },
        }
    }
}

/// The outcome of parsing a whole proof at `start`: its end offset,
/// or the verdict on malformed bytes.
pub open spec fn parse_spec(bytes: Seq<u8>, start: int) -> Result<int, ValidationError> {
    if start + 14 > bytes.len() {
        Err(ValidationError::BadSizedProof)
    } else {
        let n = from_le(bytes.subrange(start, start + 4));
        let d = from_le(bytes.subrange(start + 4, start + 8));
        let s = from_le(bytes.subrange(start + 8, start + 12));
        let rl = from_le(bytes.subrange(start + 12, start + 14));
        if rl != 16 {
            Err(ValidationError::BadSizedProof)
        } else if start + 30 > bytes.len() {
            Err(ValidationError::BadSizedProof)
        } else if from_le(bytes.subrange(start + 14, start + 30)) >= modulus_bound() {
            Err(ValidationError::BadSizedProof)
        } else {
            match rounds_total_spec(n, d, s) {
                None => Err(ValidationError::NonPostiveRoundCount),
                Some((rc, _)) => if rc < 1 {
                    Err(ValidationError::NonPostiveRoundCount)
                } else if start + 30 + 32 * (rc + 1) > bytes.len() {
                    Err(ValidationError::BadSizedProof)
                } else {
                    parse_rounds_spec(bytes, start + 30 + 32 * (rc + 1), rc, s)
                },
            }
        }
    }
}

/// One parsed path mirrors the bytes at its offset.
pub open spec fn path_matches(
    p: PartialAuthenticationPath,
    bytes: Seq<u8>,
    po: int,
    sibs: int,
) -> bool {
    &&& p.value as int == from_le(bytes.subrange(po, po + 16))
    &&& p.siblings@.len() == sibs
    &&& forall|l: int|
        0 <= l < sibs ==> (#[trigger] p.siblings@[l])@ == bytes.subrange(
            po + 16 + 32 * l,
            po + 16 + 32 * l + 32,
        )
}

/// A parsed block mirrors the bytes of its region.
pub open spec fn block_matches(
    ps: Seq<PartialAuthenticationPath>,
    bytes: Seq<u8>,
    o: int,
    count: int,
) -> bool {
    let ll = from_le(bytes.subrange(o, o + 2));
    let per = if count > 0 {
        ll / count
    } else {
        0
    };
    &&& ps.len() == count
    &&& forall|t: int|
        0 <= t < count ==> path_matches(#[trigger] ps[t], bytes, o + 2 + t * per, (per - 16) / 32)
}

/// A proof object mirrors the bytes it was parsed from: every field
/// is the prescribed function of the byte string and the start
/// offset.
pub open spec fn proof_matches(p: LowDegreeProof, bytes: Seq<u8>, start: int) -> bool {
    let n = from_le(bytes.subrange(start, start + 4));
    let d = from_le(bytes.subrange(start + 4, start + 8));
    let s = from_le(bytes.subrange(start + 8, start + 12));
    let rc = p.rounds_count as int;
    let o0 = start + 30 + 32 * (rc + 1);
    &&& p.codeword_size as int == n
    &&& p.max_degree as int == d
    &&& p.s as int == s
    &&& p.primitive_root_of_unity as int == from_le(bytes.subrange(start + 14, start + 30))
    &&& rounds_total_spec(n, d, s) == Some((rc, p.max_degree_of_last_round as int))
    &&& rc >= 1
    &&& p.merkle_roots@.len() == rc + 1
    &&& forall|r: int|
        0 <= r <= rc ==> (#[trigger] p.merkle_roots@[r])@ == bytes.subrange(
            start + 30 + 32 * r,
            start + 30 + 32 * r + 32,
        )
    &&& p.challenge_hash_preimages@.len() == rc
    &&& forall|i: int|
        0 <= i < rc ==> (#[trigger] p.challenge_hash_preimages@[i])@ == bytes.subrange(
            0,
            start + 30 + 32 * (i + 1),
        )
    &&& p.index_picker_preimage@ == bytes.subrange(0, start + 30 + 32 * (rc + 1))
    &&& p.c_proofs@.len() == rc
    &&& p.ab_proofs@.len() == rc
    &&& forall|r: int|
        0 <= r < rc ==> block_matches(
            (#[trigger] p.c_proofs@[r])@,
            bytes,
            round_off(bytes, o0, r),
            s,
        ) && block_matches(
            p.ab_proofs@[r]@,
            bytes,
            block_end(bytes, round_off(bytes, o0, r)),
            2 * s,
        )
}

/// Copies `bytes[0 .. k]`.
fn take_prefix(bytes: &Vec<u8>, k: usize) -> (r: Vec<u8>)
    requires
        k <= bytes@.len(),
    ensures
        r@ == bytes@.subrange(0, k as int),
{
    let mut r: Vec<u8> = Vec::new();
    let mut i: usize = 0;
    while i < k
        invariant
            i <= k,
            k <= bytes@.len(),
            r@.len() == i,
            forall|j: int| 0 <= j < i ==> r@[j] == bytes@[j],
        decreases k - i,
    {
        r.push(bytes[i]);
        i = i + 1;
    }
    proof {
        assert(r@ =~= bytes@.subrange(0, k as int));
    }
    r
}

/// Reads a 16-byte little-endian field element at `o`, refusing
/// values outside the machine backend.
fn read_elem(bytes: &Vec<u8>, o: usize) -> (r: Option<i128>)
    requires
        o + 16 <= bytes@.len(),
    ensures
        match r {
            Some(v) => from_le(bytes@.subrange(o as int, o as int + 16)) == v as int && 0 <= v
                < modulus_bound(),
            None => from_le(bytes@.subrange(o as int, o as int + 16)) >= modulus_bound(),
        },
{
    let blen: usize = bytes.len();
    let lo: u64 = read_le(bytes, o, 8);
    let hi: u64 = read_le(bytes, o + 8, 8);
    proof {
        let whole = bytes@.subrange(o as int, o as int + 16);
        lemma_from_le_split(whole, 8);
        assert(whole.subrange(0, 8) =~= bytes@.subrange(o as int, o as int + 8));
        assert(whole.subrange(8, 16) =~= bytes@.subrange(o as int + 8, o as int + 16));
        assert(pow(256, 8) == 0x1_0000_0000_0000_0000) by {
            reveal_with_fuel(pow, 9);
        }
        lemma_from_le_bound(whole.subrange(0, 8));
        lemma_from_le_bound(whole.subrange(8, 16));
        assert(from_le(whole) == lo + 0x1_0000_0000_0000_0000 * (hi as int));
        if hi != 0 {
            assert(from_le(whole) >= 0x1_0000_0000_0000_0000) by (nonlinear_arith)
                requires
                    from_le(whole) == lo + 0x1_0000_0000_0000_0000 * (hi as int),
                    hi >= 1,
                    lo >= 0;
        }
    }
    if hi != 0 {
        return None;
    }
    if lo >= 0x4000_0000_0000_0000u64 {
        return None;
    }
    Some(lo as i128)
}

/// Parses one length-prefixed block of `count` authentication paths.
fn parse_block(bytes: &Vec<u8>, o: usize, count: u64) -> (r: Result<
    (Vec<PartialAuthenticationPath>, usize),
    ValidationError,
>)
    requires
        o <= bytes@.len(),
    ensures
        match r {
            Ok((ps, end)) => ({
                &&& parse_block_spec(bytes@, o as int, count as int) == Ok::<int, ValidationError>(
                    end as int,
                )
                &&& block_matches(ps@, bytes@, o as int, count as int)
                &&& end <= bytes@.len()
                &&& o < end
                &&& forall|j: int|
                    0 <= j < ps@.len() ==> 0 <= (#[trigger] ps@[j]).value < modulus_bound()
            }),
            Err(e) => parse_block_spec(bytes@, o as int, count as int) == Err::<
                int,
                ValidationError,
            >(e),
        },
{
    let blen: usize = bytes.len();
    if blen - o < 2 {
        return Err(ValidationError::BadSizedProof);
    }
    let ll: u64 = read_le(bytes, o, 2);
    proof {
        crate::codec::lemma_from_le_bound(bytes@.subrange(o as int, o as int + 2));
        assert(pow(256, 2) == 0x1_0000) by {
            reveal_with_fuel(pow, 3);
        }
    }
    if ((blen - o - 2) as u64) < ll {
        return Err(ValidationError::BadSizedProof);
    }
    if count == 0 {
        if ll != 0 {
            return Err(ValidationError::BadSizedProof);
        }
        let ps: Vec<PartialAuthenticationPath> = Vec::new();
        proof {
            assert(block_matches(ps@, bytes@, o as int, 0));
        }
        return Ok((ps, o + 2));
    }
    if ll % count != 0 {
        return Err(ValidationError::BadSizedProof);
    }
    let per: u64 = ll / count;
    if per < 16 || (per - 16) % 32 != 0 {
        return Err(ValidationError::BadSizedProof);
    }
    let sibs: u64 = (per - 16) / 32;
    proof {
        // count * per == ll, so every path region lies inside the block.
        vstd::arithmetic::div_mod::lemma_fundamental_div_mod(ll as int, count as int);
        vstd::arithmetic::div_mod::lemma_fundamental_div_mod(per as int - 16, 32);
    }
    let mut ps: Vec<PartialAuthenticationPath> = Vec::new();
    let mut t: u64 = 0;
    while t < count
        invariant
            t <= count,
            1 <= count,
            ll < 0x1_0000,
            ll as int == from_le(bytes@.subrange(o as int, o as int + 2)),
            (ll as int) % (count as int) == 0,
            per as int == (ll as int) / (count as int),
            ll as int == count as int * per as int,
            per >= 16,
            (per as int - 16) % 32 == 0,
            per as int - 16 == 32 * (sibs as int),
            o as int + 2 + ll as int <= bytes@.len(),
            bytes@.len() == blen,
            blen <= usize::MAX,
            ps@.len() == t,
            forall|k: int|
                0 <= k < t ==> path_matches(
                    #[trigger] ps@[k],
                    bytes@,
                    o as int + 2 + k * (per as int),
                    sibs as int,
                ),
            forall|k: int| 0 <= k < t ==> 0 <= (#[trigger] ps@[k]).value < modulus_bound(),
            block_values_ok_upto(bytes@, o as int, t as int, per as int),
        decreases count - t,
    {
        proof {
            assert((t as int) * (per as int) + (per as int) == (t as int + 1) * (per as int))
                by (nonlinear_arith);
            assert((t as int + 1) * (per as int) <= (count as int) * (per as int))
                by (nonlinear_arith)
                requires
                    (t as int) + 1 <= count as int,
                    0 <= per as int;
            assert((t as int) * (per as int) >= 0) by (nonlinear_arith)
                requires
                    0 <= t as int,
                    0 <= per as int;
        }
        let po: usize = o + 2 + (t * per) as usize;
        let value_opt: Option<i128> = read_elem(bytes, po);
        let value: i128 = match value_opt {
            None => {
                proof {
                    assert(!block_values_ok(bytes@, o as int, count as int, per as int));
                }
                return Err(ValidationError::BadSizedProof);
            },
            Some(v) => v,
        };
        let mut siblings: Vec<[u8; 32]> = Vec::new();
        let mut l: u64 = 0;
        while l < sibs
            invariant
                l <= sibs,
                per < 0x1_0000,
                po as int == o as int + 2 + (t as int) * (per as int),
                per as int - 16 == 32 * (sibs as int),
                po as int + per as int <= bytes@.len(),
                bytes@.len() == blen,
                blen <= usize::MAX,
                siblings@.len() == l,
                forall|k: int|
                    0 <= k < l ==> (#[trigger] siblings@[k])@ == bytes@.subrange(
                        po as int + 16 + 32 * k,
                        po as int + 16 + 32 * k + 32,
                    ),
            decreases sibs - l,
        {
            proof {
                assert(32 * (l as int) + 32 <= 32 * (sibs as int)) by (nonlinear_arith)
                    requires
                        l as int + 1 <= sibs as int;
            }
            let d: [u8; 32] = read_digest(bytes, po + 16 + (32 * l) as usize);
            siblings.push(d);
            l = l + 1;
        }
        ps.push(PartialAuthenticationPath { value, siblings });
        t = t + 1;
    }
    proof {
        assert(block_values_ok(bytes@, o as int, count as int, per as int));
        assert(block_matches(ps@, bytes@, o as int, count as int));
    }
    Ok((ps, o + 2 + ll as usize))
}

/// The canonicality of the first `t` leaf values of a block.
pub open spec fn block_values_ok_upto(bytes: Seq<u8>, o: int, t: int, per: int) -> bool {
    forall|k: int|
        0 <= k < t ==> from_le(
            #[trigger] bytes.subrange(o + 2 + k * per, o + 2 + k * per + 16),
        ) < modulus_bound()
}

impl LowDegreeProof {
    /// Parses a proof out of a transcript, starting at `start_index`.
    /// Total: any byte string yields either a well-formed proof and
    /// its end offset, or a verdict.
    pub fn from_serialization(serialization: Vec<u8>, start_index: usize) -> (r: Result<
        (LowDegreeProof, usize),
        ValidationError,
    >)
        ensures
            match r {
                Ok((p, end)) => ({
                    &&& parse_spec(serialization@, start_index as int) == Ok::<
                        int,
                        ValidationError,
                    >(end as int)
                    &&& proof_matches(p, serialization@, start_index as int)
                    &&& proof_bounded(p)
                    &&& sizes_ok(p)
                    &&& end <= serialization@.len()
                }),
                Err(e) => parse_spec(serialization@, start_index as int) == Err::<
                    int,
                    ValidationError,
                >(e),
            },
    {
        let bytes: &Vec<u8> = &serialization;
        let blen: usize = bytes.len();
        let start: usize = start_index;
        if start > blen || blen - start < 14 {
            return Err(ValidationError::BadSizedProof);
        }
        let n64: u64 = read_le(bytes, start, 4);
        let d64: u64 = read_le(bytes, start + 4, 4);
        let s64: u64 = read_le(bytes, start + 8, 4);
        let rl: u64 = read_le(bytes, start + 12, 2);
        proof {
            lemma_from_le_bound(bytes@.subrange(start as int, start as int + 4));
            lemma_from_le_bound(bytes@.subrange(start as int + 4, start as int + 8));
            lemma_from_le_bound(bytes@.subrange(start as int + 8, start as int + 12));
            assert(pow(256, 4) == 0x1_0000_0000) by {
                reveal_with_fuel(pow, 5);
            }
        }
        if rl != 16 {
            return Err(ValidationError::BadSizedProof);
        }
        if blen - start < 30 {
            return Err(ValidationError::BadSizedProof);
        }
        let root_opt: Option<i128> = read_elem(bytes, start + 14);
        let primitive_root_of_unity: i128 = match root_opt {
            None => {
                return Err(ValidationError::BadSizedProof);
            },
            Some(v) => v,
        };
        let codeword_size: u32 = n64 as u32;
        let max_degree: u32 = d64 as u32;
        let number_of_colinearity_checks: u32 = s64 as u32;
        let rounds = crate::params::try_rounds_count(
            codeword_size,
            max_degree,
            number_of_colinearity_checks,
        );
        let (rounds_count, max_degree_of_last_round): (u8, u32) = match rounds {
            None => {
                return Err(ValidationError::NonPostiveRoundCount);
            },
            Some((rc, last)) => {
                if rc < 1 {
                    return Err(ValidationError::NonPostiveRoundCount);
                }
                (rc, last)
            },
        };
        let rc: usize = rounds_count as usize;
        if blen - start < 30 || (blen - start - 30) / 32 < rc + 1 {
            proof {
                assert(start as int + 30 + 32 * (rc as int + 1) > bytes@.len()) by {
                    if start as int + 30 <= bytes@.len() {
                        vstd::arithmetic::div_mod::lemma_fundamental_div_mod(
                            blen as int - start as int - 30,
                            32,
                        );
                        vstd::arithmetic::div_mod::lemma_mod_bound(
                            blen as int - start as int - 30,
                            32,
                        );
                    }
                }
            }
            return Err(ValidationError::BadSizedProof);
        }
        proof {
            assert(start as int + 30 + 32 * (rc as int + 1) <= bytes@.len()) by {
                vstd::arithmetic::div_mod::lemma_fundamental_div_mod(
                    blen as int - start as int - 30,
                    32,
                );
                vstd::arithmetic::div_mod::lemma_mod_bound(blen as int - start as int - 30, 32);
            }
        }
        // Challenge preimages and the index-picker preimage are
        // prefixes of the transcript at the successive root offsets.
        let mut challenge_hash_preimages: Vec<Vec<u8>> = Vec::new();
        let mut i: usize = 0;
        while i < rc
            invariant
                i <= rc,
                start + 30 + 32 * (rc + 1) <= blen,
                blen == bytes@.len(),
                rc <= 255,
                bytes == &serialization,
                challenge_hash_preimages@.len() == i,
                forall|k: int|
                    0 <= k < i ==> (#[trigger] challenge_hash_preimages@[k])@ == bytes@.subrange(
                        0,
                        start as int + 30 + 32 * (k + 1),
                    ),
            decreases rc - i,
        {
            let pfx: Vec<u8> = take_prefix(bytes, start + 30 + 32 * (i + 1));
            challenge_hash_preimages.push(pfx);
            i = i + 1;
        }
        let index_picker_preimage: Vec<u8> = take_prefix(bytes, start + 30 + 32 * (rc + 1));
        let mut merkle_roots: Vec<[u8; 32]> = Vec::new();
        let mut i: usize = 0;
        while i < rc + 1
            invariant
                i <= rc + 1,
                start + 30 + 32 * (rc + 1) <= blen,
                blen == bytes@.len(),
                rc <= 255,
                bytes == &serialization,
                merkle_roots@.len() == i,
                forall|k: int|
                    0 <= k < i ==> (#[trigger] merkle_roots@[k])@ == bytes@.subrange(
                        start as int + 30 + 32 * k,
                        start as int + 30 + 32 * k + 32,
                    ),
            decreases rc + 1 - i,
        {
            proof {
                assert(32 * (i as int) + 32 <= 32 * (rc as int + 1)) by (nonlinear_arith)
                    requires
                        i as int + 1 <= rc as int + 1;
            }
            let root: [u8; 32] = read_digest(bytes, start + 30 + 32 * i);
            merkle_roots.push(root);
            i = i + 1;
        }
        let o0: usize = start + 30 + 32 * (rc + 1);
        let ghost o0g = o0 as int;
        proof {
            assert(n64 as u32 as int == n64 as int);
            assert(d64 as u32 as int == d64 as int);
            assert(s64 as u32 as int == s64 as int);
            assert(parse_spec(serialization@, start_index as int) == parse_rounds_spec(
                serialization@,
                o0g,
                rc as int,
                s64 as int,
            ));
        }
        let mut c_proofs: Vec<Vec<PartialAuthenticationPath>> = Vec::new();
        let mut ab_proofs: Vec<Vec<PartialAuthenticationPath>> = Vec::new();
        let mut o: usize = o0;
        let mut r: usize = 0;
        while r < rc
            invariant
                r <= rc,
                bytes == &serialization,
                parse_spec(serialization@, start_index as int) == parse_rounds_spec(
                    serialization@,
                    o0g,
                    rc as int,
                    s64 as int,
                ),
                o as int == round_off(bytes@, o0g, r as int),
                o <= bytes@.len(),
                o0g == o0 as int,
                parse_rounds_spec(bytes@, o0g, rc as int, s64 as int) == parse_rounds_spec(
                    bytes@,
                    o as int,
                    rc as int - r as int,
                    s64 as int,
                ),
                s64 < 0x1_0000_0000,
                c_proofs@.len() == r,
                ab_proofs@.len() == r,
                forall|k: int|
                    0 <= k < r ==> block_matches(
                        (#[trigger] c_proofs@[k])@,
                        bytes@,
                        round_off(bytes@, o0g, k),
                        s64 as int,
                    ) && block_matches(
                        ab_proofs@[k]@,
                        bytes@,
                        block_end(bytes@, round_off(bytes@, o0g, k)),
                        2 * s64 as int,
                    ),
                forall|k: int, j: int|
                    0 <= k < c_proofs@.len() && 0 <= j < c_proofs@[k]@.len() ==> 0 <= (
                    #[trigger] c_proofs@[k]@[j]).value < modulus_bound(),
                forall|k: int, j: int|
                    0 <= k < ab_proofs@.len() && 0 <= j < ab_proofs@[k]@.len() ==> 0 <= (
                    #[trigger] ab_proofs@[k]@[j]).value < modulus_bound(),
            decreases rc - r,
        {
            let cres = parse_block(bytes, o, s64);
            let (c_block, o1): (Vec<PartialAuthenticationPath>, usize) = match cres {
                Err(e) => {
                    return Err(e);
                },
                Ok(pair) => pair,
            };
            let abres = parse_block(bytes, o1, 2 * s64);
            let (ab_block, o2): (Vec<PartialAuthenticationPath>, usize) = match abres {
                Err(e) => {
                    return Err(e);
                },
                Ok(pair) => pair,
            };
            proof {
                assert(o1 as int == block_end(bytes@, o as int));
                assert(o2 as int == block_end(bytes@, o1 as int));
                assert(round_off(bytes@, o0g, r as int + 1) == o2 as int);
            }
            c_proofs.push(c_block);
            ab_proofs.push(ab_block);
            o = o2;
            r = r + 1;
        }
        let p = LowDegreeProof {
            ab_proofs,
            challenge_hash_preimages,
            codeword_size,
            c_proofs,
            index_picker_preimage,
            max_degree,
            max_degree_of_last_round,
            merkle_roots,
            primitive_root_of_unity,
            rounds_count,
            s: number_of_colinearity_checks,
        };
        Ok((p, o))
    }
}

} // verus!
