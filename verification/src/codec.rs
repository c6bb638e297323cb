//! Little-endian fixed-width integer encoding, shared by the proof
//! serializer and parser.
//!
//! `le_bytes` and `from_le` are the mathematical encoding and decoding;
//! the executable helpers are proved against them.

use vstd::prelude::*;
use vstd::arithmetic::div_mod::{
    lemma_fundamental_div_mod, lemma_mod_bound, lemma_div_pos_is_pos,
};
use vstd::arithmetic::power::{pow, lemma_pow_positive};

verus! {

/// The `n`-byte little-endian encoding of a nonnegative integer `v`
/// (high bytes beyond the value are zero; high bits beyond `n` bytes
/// are dropped).
pub open spec fn le_bytes(v: int, n: nat) -> Seq<u8>
    decreases n,
{
    if n == 0 {
        Seq::empty()
    } else {
        seq![(v % 256) as u8] + le_bytes(v / 256, (n - 1) as nat)
    }
}

/// The integer encoded by a little-endian byte string.
pub open spec fn from_le(b: Seq<u8>) -> int
    decreases b.len(),
{
    if b.len() == 0 {
        0
    } else {
        b[0] + 256 * from_le(b.subrange(1, b.len() as int))
    }
}

pub proof fn lemma_le_bytes_len(v: int, n: nat)
    ensures
        le_bytes(v, n).len() == n,
    decreases n,
{
    if n > 0 {
        lemma_le_bytes_len(v / 256, (n - 1) as nat);
    }
}

pub proof fn lemma_le_bytes_index(v: int, n: nat, i: int)
    requires
        0 <= v,
        0 <= i < n,
    ensures
        le_bytes(v, n).len() == n,
        le_bytes(v, n)[i] == (v / pow(256, i as nat)) % 256,
    decreases n,
{
    lemma_le_bytes_len(v, n);
    if i == 0 {
        assert(pow(256, 0) == 1) by {
            reveal(pow);
        }
    } else {
        lemma_div_pos_is_pos(v, 256);
        lemma_le_bytes_index(v / 256, (n - 1) as nat, i - 1);
        assert(le_bytes(v, n)[i] == le_bytes(v / 256, (n - 1) as nat)[i - 1]);
        assert((v / 256) / pow(256, (i - 1) as nat) == v / pow(256, i as nat)) by {
            lemma_pow_positive(256, (i - 1) as nat);
            vstd::arithmetic::div_mod::lemma_div_denominator(v, 256, pow(256, (i - 1) as nat));
            assert(pow(256, i as nat) == 256 * pow(256, (i - 1) as nat)) by {
                reveal(pow);
            }
        }
    }
}

/// Decoding inverts encoding on values that fit in `n` bytes.
pub proof fn lemma_from_le_le_bytes(v: int, n: nat)
    requires
        0 <= v < pow(256, n),
    ensures
        from_le(le_bytes(v, n)) == v,
    decreases n,
{
    if n == 0 {
        assert(pow(256, 0) == 1) by {
            reveal(pow);
        }
    } else {
        lemma_le_bytes_len(v / 256, (n - 1) as nat);
        let rest = le_bytes(v / 256, (n - 1) as nat);
        assert(le_bytes(v, n).subrange(1, le_bytes(v, n).len() as int) =~= rest);
        assert(v / 256 < pow(256, (n - 1) as nat)) by {
            lemma_pow_positive(256, (n - 1) as nat);
            assert(pow(256, n) == 256 * pow(256, (n - 1) as nat)) by {
                reveal(pow);
            }
            vstd::arithmetic::div_mod::lemma_multiply_divide_lt(v, 256, pow(256, (n - 1) as nat));
        }
        lemma_div_pos_is_pos(v, 256);
        lemma_from_le_le_bytes(v / 256, (n - 1) as nat);
        lemma_fundamental_div_mod(v, 256);
    }
}

/// A little-endian decode is bounded by the byte count.
pub proof fn lemma_from_le_bound(b: Seq<u8>)
    ensures
        0 <= from_le(b) < pow(256, b.len()),
    decreases b.len(),
{
    if b.len() == 0 {
        assert(pow(256, 0) == 1) by {
            reveal(pow);
        }
    } else {
        let rest = b.subrange(1, b.len() as int);
        lemma_from_le_bound(rest);
        assert(pow(256, b.len()) == 256 * pow(256, rest.len())) by {
            reveal(pow);
        }
    }
}

/// A decode splits at any position `k`.
pub proof fn lemma_from_le_split(b: Seq<u8>, k: int)
    requires
        0 <= k <= b.len(),
    ensures
        from_le(b) == from_le(b.subrange(0, k)) + pow(256, k as nat) * from_le(
            b.subrange(k, b.len() as int),
        ),
    decreases k,
{
    if k == 0 {
        assert(b.subrange(0, 0) =~= Seq::<u8>::empty());
        assert(b.subrange(0, b.len() as int) =~= b);
        assert(pow(256, 0) == 1) by {
            reveal(pow);
        }
    } else {
        let rest = b.subrange(1, b.len() as int);
        lemma_from_le_split(rest, k - 1);
        assert(rest.subrange(0, k - 1) =~= b.subrange(0, k).subrange(
            1,
            b.subrange(0, k).len() as int,
        ));
        assert(rest.subrange(k - 1, rest.len() as int) =~= b.subrange(k, b.len() as int));
        assert(from_le(b.subrange(0, k)) == b[0] + 256 * from_le(rest.subrange(0, k - 1)));
        assert(pow(256, k as nat) == 256 * pow(256, (k - 1) as nat)) by {
            reveal(pow);
        }
        let tail = from_le(b.subrange(k, b.len() as int));
        assert(256 * (from_le(rest.subrange(0, k - 1)) + pow(256, (k - 1) as nat) * tail) == 256
            * from_le(rest.subrange(0, k - 1)) + 256 * (pow(256, (k - 1) as nat) * tail))
            by (nonlinear_arith);
        assert(256 * (pow(256, (k - 1) as nat) * tail) == (256 * pow(256, (k - 1) as nat)) * tail)
            by (nonlinear_arith);
    }
}

/// Appends the `n`-byte little-endian encoding of `v` to `out`.
pub(crate) fn append_le(out: &mut Vec<u8>, v: u64, n: usize)
    ensures
        final(out)@ == old(out)@ + le_bytes(v as int, n as nat),
{
    let mut x: u64 = v;
    let mut i: usize = 0;
    proof {
        lemma_le_bytes_len(v as int, n as nat);
        assert(pow(256, 0) == 1) by {
            reveal(pow);
        }
        assert(out@ =~= old(out)@ + le_bytes(v as int, n as nat).subrange(0, 0));
    }
    while i < n
        invariant
            i <= n,
            x == pow_div(v as int, i as nat),
            out@ == old(out)@ + le_bytes(v as int, n as nat).subrange(0, i as int),
        decreases n - i,
    {
        proof {
            lemma_le_bytes_index(v as int, n as nat, i as int);
            lemma_pow_div_unfold(v as int, i as nat);
            lemma_mod_bound(x as int, 256);
        }
        out.push((x % 256) as u8);
        proof {
            assert(out@ =~= old(out)@ + le_bytes(v as int, n as nat).subrange(0, i + 1));
        }
        x = x / 256;
        i = i + 1;
    }
    proof {
        assert(out@ =~= old(out)@ + le_bytes(v as int, n as nat));
    }
}

/// `v` divided by `256^i`.
pub open spec fn pow_div(v: int, i: nat) -> int {
    v / pow(256, i)
}

proof fn lemma_pow_div_unfold(v: int, i: nat)
    requires
        v >= 0,
    ensures
        pow_div(v, i) / 256 == pow_div(v, (i + 1) as nat),
        pow_div(v, i) % 256 == (v / pow(256, i)) % 256,
        pow_div(v, i) >= 0,
{
    lemma_pow_positive(256, i);
    lemma_div_pos_is_pos(v, pow(256, i));
    vstd::arithmetic::div_mod::lemma_div_denominator(v, pow(256, i), 256);
    assert(pow(256, i) * 256 == pow(256, (i + 1) as nat)) by {
        vstd::arithmetic::power::lemma_pow_adds(256, i, 1);
        assert(pow(256, 1) == 256) by {
            reveal_with_fuel(pow, 2);
        }
    }
}

/// Reads the little-endian integer in `bytes[start .. start + n]`.
pub(crate) fn read_le(bytes: &Vec<u8>, start: usize, n: usize) -> (r: u64)
    requires
        start + n <= bytes@.len(),
        n <= 8,
    ensures
        r as int == from_le(bytes@.subrange(start as int, start as int + n as int)),
{
    let blen: usize = bytes.len();
    let mut acc: u64 = 0;
    let mut i: usize = n;
    proof {
        let empty = bytes@.subrange(start as int + n as int, start as int + n as int);
        assert(empty.len() == 0);
        assert(pow(256, 0) == 1) by {
            reveal(pow);
        }
    }
    while i > 0
        invariant
            i <= n,
            n <= 8,
            start + n <= blen,
            blen == bytes@.len(),
            acc as int == from_le(bytes@.subrange(start as int + i as int, start as int + n as int)),
            acc < pow(256, (n - i) as nat),
        decreases i,
    {
        i = i - 1;
        let sub = Ghost(bytes@.subrange(start as int + i as int, start as int + n as int));
        proof {
            assert(sub@.subrange(1, sub@.len() as int) =~= bytes@.subrange(
                start as int + i as int + 1,
                start as int + n as int,
            ));
            lemma_from_le_bound(sub@);
            assert(pow(256, (n - i) as nat) == 256 * pow(256, (n - i - 1) as nat)) by {
                reveal(pow);
            }
            lemma_pow_le_u64((n - i) as nat);
        }
        acc = acc * 256 + (bytes[start + i] as u64);
    }
    proof {
        assert(bytes@.subrange(start as int, start as int + n as int) =~= bytes@.subrange(
            start as int + 0, start as int + n as int));
    }
    acc
}

proof fn lemma_pow_le_u64(n: nat)
    requires
        n <= 8,
    ensures
        pow(256, n) <= 0x1_0000_0000_0000_0000,
{
    reveal_with_fuel(pow, 9);
}

/// Copies `bytes[start .. start + 32]` into a fixed 32-byte array.
pub(crate) fn read_digest(bytes: &Vec<u8>, start: usize) -> (r: [u8; 32])
    requires
        start + 32 <= bytes@.len(),
    ensures
        r@ == bytes@.subrange(start as int, start as int + 32),
{
    let blen: usize = bytes.len();
    let mut r: [u8; 32] = [0u8; 32];
    let mut i: usize = 0;
    while i < 32
        invariant
            i <= 32,
            start + 32 <= blen,
            blen == bytes@.len(),
            forall|j: int| 0 <= j < i ==> r@[j] == bytes@[start + j],
        decreases 32 - i,
    {
        r[i] = bytes[start + i];
        i = i + 1;
    }
    proof {
        assert(r@ =~= bytes@.subrange(start as int, start as int + 32));
    }
    r
}

} // verus!
