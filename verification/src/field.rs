//! Prime-field arithmetic on canonical representatives in `[0, q)`.
//!
//! Elements are machine integers (`i128`), the modulus is supplied by
//! the caller, and every operation is proved against a mathematical
//! spec over `int`.

use vstd::prelude::*;
use vstd::arithmetic::div_mod::{
    lemma_add_mod_noop, lemma_fundamental_div_mod, lemma_mod_add_multiples_vanish,
    lemma_mod_bound, lemma_mod_multiples_vanish,
    lemma_mod_self_0, lemma_mod_twice, lemma_mul_mod_noop_general, lemma_mul_mod_noop_left,
    lemma_mul_mod_noop_right, lemma_small_mod, lemma_sub_mod_noop,
};

verus! {

/// Greatest modulus the backend accepts: products of two canonical
/// representatives must fit in 128-bit intermediates.
pub open spec fn modulus_bound() -> int {
    0x4000_0000_0000_0000
}

/// A usable modulus: at least 2 and within the machine bound.
pub open spec fn modulus_ok(q: int) -> bool {
    2 <= q < modulus_bound()
}

/// A canonical field element for modulus `q`.
pub open spec fn in_field(v: int, q: int) -> bool {
    0 <= v < q
}

/// `b^e mod q`.
pub open spec fn pow_mod(b: int, e: nat, q: int) -> int
    decreases e,
{
    if e == 0 {
        1int % q
    } else {
        (b * pow_mod(b, (e - 1) as nat, q)) % q
    }
}

/// `y` is the canonical multiplicative inverse of `x` modulo `q`.
pub open spec fn is_inverse(x: int, y: int, q: int) -> bool {
    0 <= y < q && (x * y) % q == 1
}

/// The multiplicative inverse of `x` modulo `q` when one exists, and 0
/// otherwise.
pub open spec fn inv_mod(x: int, q: int) -> int {
    if exists|y: int| is_inverse(x, y, q) {
        choose|y: int| is_inverse(x, y, q)
    } else {
        0
    }
}

/// The big-endian unsigned integer spelled by a byte string.
pub open spec fn from_be(b: Seq<u8>) -> int
    decreases b.len(),
{
    if b.len() == 0 {
        0
    } else {
        from_be(b.drop_last()) * 256 + b.last()
    }
}

/// Collinearity of three points over the field, stated without
/// divisions: `(y2 - y1)(x3 - x1) = (y3 - y1)(x2 - x1) (mod q)`.
pub open spec fn colinear(p1: (int, int), p2: (int, int), p3: (int, int), q: int) -> bool {
    ((p2.1 - p1.1) * (p3.0 - p1.0)) % q == ((p3.1 - p1.1) * (p2.0 - p1.0)) % q
}

/// An inverse modulo `q` is unique among canonical representatives.
pub proof fn lemma_inverse_unique(x: int, q: int, y1: int, y2: int)
    requires
        2 <= q,
        0 <= y1 < q,
        0 <= y2 < q,
        (x * y1) % q == 1,
        (x * y2) % q == 1,
    ensures
        y1 == y2,
{
    assert((y1 * ((x * y2) % q)) % q == (y1 * (x * y2)) % q) by {
        lemma_mul_mod_noop_right(y1, x * y2, q);
    }
    assert(y1 * (x * y2) == (x * y1) * y2) by (nonlinear_arith);
    assert(((x * y1) * y2) % q == (((x * y1) % q) * y2) % q) by {
        lemma_mul_mod_noop_left(x * y1, y2, q);
    }
    assert((y1 * 1) % q == y1) by {
        lemma_small_mod(y1 as nat, q as nat);
    }
    assert((1 * y2) % q == y2) by {
        lemma_small_mod(y2 as nat, q as nat);
    }
}

/// `(a * b) % q` on canonical representatives.
pub(crate) fn mul_mod(a: i128, b: i128, q: i128) -> (r: i128)
    requires
        modulus_ok(q as int),
        in_field(a as int, q as int),
        in_field(b as int, q as int),
    ensures
        r == (a as int * b as int) % (q as int),
        in_field(r as int, q as int),
{
    proof {
        assert((a as int) * (b as int) < 0x4000_0000_0000_0000 * 0x4000_0000_0000_0000)
            by (nonlinear_arith)
            requires
                0 <= (a as int) < 0x4000_0000_0000_0000,
                0 <= (b as int) < 0x4000_0000_0000_0000;
        lemma_mod_bound(a as int * b as int, q as int);
    }
    let r: u128 = ((a as u128) * (b as u128)) % (q as u128);
    r as i128
}

/// `(a + b) % q` on canonical representatives.
pub(crate) fn add_mod(a: i128, b: i128, q: i128) -> (r: i128)
    requires
        modulus_ok(q as int),
        in_field(a as int, q as int),
        in_field(b as int, q as int),
    ensures
        r == (a as int + b as int) % (q as int),
        in_field(r as int, q as int),
{
    proof {
        lemma_mod_bound(a as int + b as int, q as int);
    }
    let r: u128 = ((a as u128) + (b as u128)) % (q as u128);
    r as i128
}

/// `(a - b) % q` on canonical representatives.
pub(crate) fn sub_mod(a: i128, b: i128, q: i128) -> (r: i128)
    requires
        modulus_ok(q as int),
        in_field(a as int, q as int),
        in_field(b as int, q as int),
    ensures
        r == (a as int - b as int) % (q as int),
        in_field(r as int, q as int),
{
    proof {
        assert((a as int + q as int - b as int) % (q as int) == (a as int - b as int) % (q as int))
            by {
            lemma_mod_add_multiples_vanish(a as int - b as int, q as int);
        }
        lemma_mod_bound(a as int - b as int, q as int);
    }
    let r: u128 = ((a as u128) + (q as u128) - (b as u128)) % (q as u128);
    r as i128
}

/// `base^exp mod modulus` by iterated multiplication.
pub fn mod_pow_raw(base: i128, exp: u64, modulus: i128) -> (r: i128)
    requires
        modulus_ok(modulus as int),
        in_field(base as int, modulus as int),
    ensures
        r == pow_mod(base as int, exp as nat, modulus as int),
        in_field(r as int, modulus as int),
{
    let mut acc: i128 = 1 % modulus;
    let mut i: u64 = 0;
    while i < exp
        invariant
            i <= exp,
            modulus_ok(modulus as int),
            in_field(base as int, modulus as int),
            in_field(acc as int, modulus as int),
            acc == pow_mod(base as int, i as nat, modulus as int),
        decreases exp - i,
    {
        let next: i128 = mul_mod(base, acc, modulus);
        proof {
            assert(pow_mod(base as int, (i + 1) as nat, modulus as int) == (base as int * pow_mod(
                base as int,
                i as nat,
                modulus as int,
            )) % (modulus as int));
        }
        acc = next;
        i = i + 1;
    }
    acc
}

spec fn divides(d: int, x: int) -> bool {
    x % d == 0
}

proof fn lemma_divides_mul(e: int, k: int, a: int)
    requires
        1 <= e,
        a % e == 0,
    ensures
        (k * a) % e == 0,
{
    lemma_mul_mod_noop_right(k, a, e);
    assert((k * 0) % e == 0) by {
        lemma_mod_self_0(e);
        assert(k * 0 == 0) by (nonlinear_arith);
        assert(0int % e == 0) by {
            lemma_small_mod(0, e as nat);
        }
    }
}

/// The replacement step of the extended Euclid loop preserves the
/// congruence `x * t = r (mod q)`.
proof fn lemma_euclid_t_step(x: int, q: int, t0: int, t1: int, r0: int, r1: int, quot: int)
    requires
        2 <= q,
        0 <= t0 < q,
        0 <= t1 < q,
        (x * t0) % q == r0 % q,
        (x * t1) % q == r1 % q,
    ensures
        (x * ((t0 + q - (quot * t1) % q) % q)) % q == (r0 - quot * r1) % q,
{
    let u = (quot * t1) % q;
    let t2 = (t0 + q - u) % q;
    assert((x * t2) % q == (x * (t0 + q - u)) % q) by {
        lemma_mul_mod_noop_right(x, t0 + q - u, q);
        lemma_mod_twice(x * ((t0 + q - u) % q), q);
        lemma_mul_mod_noop_right(x, (t0 + q - u) % q, q);
    }
    assert(x * (t0 + q - u) == (x * t0 - x * u) + x * q) by (nonlinear_arith);
    assert(((x * t0 - x * u) + x * q) % q == (x * t0 - x * u) % q) by {
        lemma_mod_multiples_vanish(x, x * t0 - x * u, q);
        assert((x * t0 - x * u) + x * q == x * q + (x * t0 - x * u));
    }
    // Reduce x * u to (quot * r1) % q.
    assert((x * u) % q == (quot * (x * t1)) % q) by {
        lemma_mul_mod_noop_right(x, quot * t1, q);
        assert(x * (quot * t1) == quot * (x * t1)) by (nonlinear_arith);
    }
    assert((quot * (x * t1)) % q == (quot * r1) % q) by {
        lemma_mul_mod_noop_right(quot, x * t1, q);
        lemma_mul_mod_noop_right(quot, r1, q);
    }
    assert((x * t0 - x * u) % q == ((x * t0) % q - (x * u) % q) % q) by {
        lemma_sub_mod_noop(x * t0, x * u, q);
    }
    assert((r0 % q - (quot * r1) % q) % q == (r0 - quot * r1) % q) by {
        lemma_sub_mod_noop(r0, quot * r1, q);
    }
}

/// The multiplicative inverse of `x` modulo `modulus`, or 0 when `x`
/// has none. Extended Euclid with coefficients kept in `[0, q)`.
pub fn inverse_mod(x: i128, modulus: i128) -> (r: i128)
    requires
        modulus_ok(modulus as int),
        in_field(x as int, modulus as int),
    ensures
        r == inv_mod(x as int, modulus as int),
        in_field(r as int, modulus as int),
{
    let q: u128 = modulus as u128;
    let mut r0: u128 = q;
    let mut r1: u128 = x as u128;
    let mut t0: u128 = 0;
    let mut t1: u128 = 1 % q;
    let ghost xi = x as int;
    let ghost qi = modulus as int;
    proof {
        lemma_mod_self_0(qi);
        assert(xi * 0 == 0) by (nonlinear_arith);
        assert(0int % qi == 0) by {
            lemma_small_mod(0, qi as nat);
        }
        assert((xi * (1int % qi)) % qi == xi % qi) by {
            lemma_mul_mod_noop_right(xi, 1, qi);
            lemma_small_mod(1, qi as nat);
        }
        lemma_small_mod(xi as nat, qi as nat);
    }
    while r1 != 0
        invariant
            modulus_ok(qi),
            q == qi,
            0 <= xi < qi,
            1 <= r0 <= q,
            r1 < r0,
            t0 < q,
            t1 < q,
            (xi * t0 as int) % qi == r0 as int % qi,
            (xi * t1 as int) % qi == r1 as int % qi,
            forall|e: int|
                1 <= e && #[trigger] divides(e, r0 as int) && divides(e, r1 as int) ==> divides(
                    e,
                    xi,
                ) && divides(e, qi),
        decreases r1,
    {
        let quot: u128 = r0 / r1;
        let rem: u128 = r0 % r1;
        proof {
            lemma_fundamental_div_mod(r0 as int, r1 as int);
            lemma_mod_bound(r0 as int, r1 as int);
            assert((quot as int) * (t1 as int) <= (r0 as int) * (t1 as int)) by (nonlinear_arith)
                requires
                    0 <= (quot as int) <= (r0 as int),
                    0 <= (t1 as int);
            assert((r0 as int) * (t1 as int) < 0x4000_0000_0000_0000 * 0x4000_0000_0000_0000)
                by (nonlinear_arith)
                requires
                    0 <= (r0 as int) < 0x4000_0000_0000_0000,
                    0 <= (t1 as int) < 0x4000_0000_0000_0000;
            lemma_mod_bound(quot as int * t1 as int, qi);
        }
        let t2: u128 = (t0 + q - (quot * t1) % q) % q;
        proof {
            lemma_mod_bound((t0 as int + qi - (quot as int * t1 as int) % qi), qi);
            lemma_euclid_t_step(xi, qi, t0 as int, t1 as int, r0 as int, r1 as int, quot as int);
            assert(rem as int == r0 as int - quot as int * r1 as int);
            // Common divisors are preserved by the Euclid step.
            assert forall|e: int|
                1 <= e && #[trigger] divides(e, r1 as int) && divides(e, rem as int) implies divides(
                e,
                xi,
            ) && divides(e, qi) by {
                lemma_divides_mul(e, quot as int, r1 as int);
                assert(r0 as int == quot as int * r1 as int + rem as int);
                lemma_add_mod_noop(quot as int * r1 as int, rem as int, e);
                assert((quot as int * r1 as int + rem as int) % e == 0) by {
                    lemma_small_mod(0, e as nat);
                }
                assert(divides(e, r0 as int));
            }
        }
        r0 = r1;
        r1 = rem;
        t0 = t1;
        t1 = t2;
    }
    // r0 is now the gcd of x and modulus; t0 is the coefficient of x.
    proof {
        assert(divides(r0 as int, 0)) by {
            lemma_small_mod(0, r0 as nat);
        }
        assert(divides(r0 as int, r0 as int)) by {
            lemma_mod_self_0(r0 as int);
        }
        assert(divides(r0 as int, xi) && divides(r0 as int, qi));
    }
    if r0 == 1 {
        proof {
            assert((xi * t0 as int) % qi == 1) by {
                lemma_small_mod(1, qi as nat);
            }
            assert(is_inverse(xi, t0 as int, qi));
            let w = choose|y: int| is_inverse(xi, y, qi);
            lemma_inverse_unique(xi, qi, t0 as int, w);
        }
        t0 as i128
    } else {
        proof {
            assert(!exists|y: int| is_inverse(xi, y, qi)) by {
                if exists|y: int| is_inverse(xi, y, qi) {
                    let y = choose|y: int| is_inverse(xi, y, qi);
                    lemma_fundamental_div_mod(xi * y, qi);
                    let m = (xi * y) / qi;
                    assert(xi * y == qi * m + 1);
                    assert((y * xi) % (r0 as int) == 0) by {
                        lemma_divides_mul(r0 as int, y, xi);
                    }
                    assert((m * qi) % (r0 as int) == 0) by {
                        lemma_divides_mul(r0 as int, m, qi);
                    }
                    assert(xi * y - qi * m == 1);
                    assert((xi * y - qi * m) % (r0 as int) == 0) by {
                        lemma_sub_mod_noop(y * xi, m * qi, r0 as int);
                        assert(y * xi == xi * y) by (nonlinear_arith);
                        assert(m * qi == qi * m) by (nonlinear_arith);
                        assert((0 - 0) % (r0 as int) == 0) by {
                            lemma_small_mod(0, r0 as nat);
                        }
                    }
                    assert(1int % (r0 as int) == 1) by {
                        lemma_small_mod(1, r0 as nat);
                    }
                    assert(false);
                }
            }
        }
        0
    }
}

/// Reads a big-endian byte string as a field element, reduced modulo
/// `modulus`.
pub fn from_bytes_raw(modulus: &i128, bytes: &[u8]) -> (r: i128)
    requires
        modulus_ok(*modulus as int),
    ensures
        r == from_be(bytes@) % (*modulus as int),
        in_field(r as int, *modulus as int),
{
    let q: u128 = *modulus as u128;
    let n: usize = bytes.len();
    let mut acc: u128 = 0;
    let mut i: usize = 0;
    proof {
        assert(bytes@.subrange(0, 0) =~= Seq::<u8>::empty());
        lemma_small_mod(0, *modulus as nat);
    }
    while i < n
        invariant
            i <= n,
            n == bytes@.len(),
            q == *modulus as u128,
            modulus_ok(*modulus as int),
            acc < q,
            acc as int == from_be(bytes@.subrange(0, i as int)) % (*modulus as int),
        decreases n - i,
    {
        let ghost qi = *modulus as int;
        let ghost prefix = bytes@.subrange(0, i as int);
        let ghost prefix1 = bytes@.subrange(0, i as int + 1);
        proof {
            assert(prefix1.drop_last() =~= prefix);
            assert(from_be(prefix1) == from_be(prefix) * 256 + bytes@[i as int]);
            assert((acc as int * 256 + bytes@[i as int] as int) % qi == from_be(prefix1) % qi) by {
                lemma_mul_mod_noop_left(from_be(prefix), 256, qi);
                lemma_add_mod_noop(from_be(prefix) * 256, bytes@[i as int] as int, qi);
                lemma_mod_twice(from_be(prefix) * 256, qi);
                lemma_add_mod_noop((from_be(prefix) % qi) * 256, bytes@[i as int] as int, qi);
                lemma_mod_twice((from_be(prefix) % qi) * 256, qi);
            }
            lemma_mod_bound(acc as int * 256 + bytes@[i as int] as int, qi);
        }
        acc = (acc * 256 + (bytes[i] as u128)) % q;
        i = i + 1;
    }
    proof {
        assert(bytes@.subrange(0, n as int) =~= bytes@);
    }
    acc as i128
}

/// Reads a big-endian byte string as an index below `range`.
pub fn get_index_from_bytes(bytes: &[u8], range: usize) -> (r: usize)
    requires
        1 <= range,
    ensures
        r == from_be(bytes@) % (range as int),
        r < range,
{
    let m: u128 = range as u128;
    let n: usize = bytes.len();
    let mut acc: u128 = 0;
    let mut i: usize = 0;
    proof {
        assert(bytes@.subrange(0, 0) =~= Seq::<u8>::empty());
        lemma_small_mod(0, range as nat);
    }
    while i < n
        invariant
            i <= n,
            n == bytes@.len(),
            m == range as u128,
            1 <= range,
            acc < m,
            acc as int == from_be(bytes@.subrange(0, i as int)) % (range as int),
        decreases n - i,
    {
        let ghost qi = range as int;
        let ghost prefix = bytes@.subrange(0, i as int);
        let ghost prefix1 = bytes@.subrange(0, i as int + 1);
        proof {
            assert(prefix1.drop_last() =~= prefix);
            assert(from_be(prefix1) == from_be(prefix) * 256 + bytes@[i as int]);
            assert((acc as int * 256 + bytes@[i as int] as int) % qi == from_be(prefix1) % qi) by {
                lemma_mul_mod_noop_left(from_be(prefix), 256, qi);
                lemma_add_mod_noop(from_be(prefix) * 256, bytes@[i as int] as int, qi);
                lemma_mod_twice(from_be(prefix) * 256, qi);
                lemma_add_mod_noop((from_be(prefix) % qi) * 256, bytes@[i as int] as int, qi);
                lemma_mod_twice((from_be(prefix) % qi) * 256, qi);
            }
            assert(acc * 256 + bytes@[i as int] < 0x1_0000_0000_0000_0000_00) by (nonlinear_arith)
                requires
                    acc < 0x1_0000_0000_0000_0000,
                    bytes@[i as int] < 256;
            lemma_mod_bound(acc as int * 256 + bytes@[i as int] as int, qi);
        }
        acc = (acc * 256 + (bytes[i] as u128)) % m;
        i = i + 1;
    }
    proof {
        assert(bytes@.subrange(0, n as int) =~= bytes@);
    }
    acc as usize
}

/// Tests collinearity of three points `(x, y)` with all coordinates in
/// canonical form.
pub fn are_colinear_raw(points: &[(i128, i128)], modulus: i128) -> (r: bool)
    requires
        points@.len() == 3,
        modulus_ok(modulus as int),
        forall|i: int|
            0 <= i < 3 ==> in_field(#[trigger] points@[i].0 as int, modulus as int) && in_field(
                points@[i].1 as int,
                modulus as int,
            ),
    ensures
        r == colinear(
            (points@[0].0 as int, points@[0].1 as int),
            (points@[1].0 as int, points@[1].1 as int),
            (points@[2].0 as int, points@[2].1 as int),
            modulus as int,
        ),
{
    let (x1, y1) = points[0];
    let (x2, y2) = points[1];
    let (x3, y3) = points[2];
    let dy2: i128 = sub_mod(y2, y1, modulus);
    let dx3: i128 = sub_mod(x3, x1, modulus);
    let dy3: i128 = sub_mod(y3, y1, modulus);
    let dx2: i128 = sub_mod(x2, x1, modulus);
    let lhs: i128 = mul_mod(dy2, dx3, modulus);
    let rhs: i128 = mul_mod(dy3, dx2, modulus);
    proof {
        let qi = modulus as int;
        lemma_mul_mod_noop_general(y2 as int - y1 as int, x3 as int - x1 as int, qi);
        lemma_mul_mod_noop_general(y3 as int - y1 as int, x2 as int - x1 as int, qi);
        lemma_mod_bound((y2 as int - y1 as int) * (x3 as int - x1 as int), qi);
        lemma_mod_bound((y3 as int - y1 as int) * (x2 as int - x1 as int), qi);
    }
    lhs == rhs
}

} // verus!
