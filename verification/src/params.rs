//! Derivation of the round count and of the degree tolerated in the
//! final round from `(codeword_size, max_degree, colinearity_checks)`.
//!
//! The prover halves the codeword each round and must stop before the
//! remaining layer is smaller than the query budget; the verifier then
//! tolerates a higher-degree tail and interpolates it explicitly.

use vstd::prelude::*;
use vstd::arithmetic::power2::{pow2, lemma_pow2_strictly_increases, lemma2_to64};
use vstd::arithmetic::div_mod::{lemma_div_is_ordered, lemma_div_pos_is_pos};

verus! {

/// `ceil(log2(n))` for `n >= 1`: the number of halvings needed to
/// bring `n` down to 1.
pub open spec fn log2_ceil(n: int) -> nat
    decreases n,
{
    if n <= 1 {
        0
    } else {
        1 + log2_ceil((n + 1) / 2)
    }
}

/// `x` is a power of two.
pub open spec fn is_power_of_two(x: int) -> bool {
    x >= 1 && pow2(log2_ceil(x)) == x
}

/// `log2_ceil(n)` is the least exponent whose power of two reaches `n`.
pub proof fn lemma_log2_ceil_bounds(n: int)
    requires
        1 <= n,
    ensures
        pow2(log2_ceil(n)) >= n,
        log2_ceil(n) > 0 ==> pow2((log2_ceil(n) - 1) as nat) < n,
    decreases n,
{
    if n <= 1 {
        assert(pow2(0) == 1) by {
            lemma2_to64();
        }
    } else {
        let m = (n + 1) / 2;
        assert(1 <= m < n) by {
            lemma_div_pos_is_pos(n + 1, 2);
            assert((n + 1) / 2 < n) by (nonlinear_arith)
                requires
                    n >= 2;
        }
        lemma_log2_ceil_bounds(m);
        let k = log2_ceil(m);
        assert(log2_ceil(n) == 1 + k);
        assert(pow2(k + 1) == 2 * pow2(k)) by {
            vstd::arithmetic::power2::lemma_pow2_adds(k, 1);
            lemma2_to64();
        }
        assert(2 * pow2(k) >= 2 * m >= n) by {
            assert(2 * m == 2 * ((n + 1) / 2));
            assert(2 * ((n + 1) / 2) >= n) by (nonlinear_arith)
                requires
                    n >= 2;
        }
        if k > 0 {
            assert(pow2(k) == 2 * pow2((k - 1) as nat)) by {
                vstd::arithmetic::power2::lemma_pow2_adds((k - 1) as nat, 1);
                lemma2_to64();
            }
            assert(2 * pow2((k - 1) as nat) < 2 * m) by {
                assert(pow2((k - 1) as nat) < m);
            }
            assert(2 * m <= n + 1);
            assert(pow2(k) < n + 1);
        } else {
            assert(pow2(1) == 2) by {
                lemma2_to64();
            }
            assert(m == 1);
            assert(n <= 2) by (nonlinear_arith)
                requires
                    (n + 1) / 2 == 1,
                    n >= 2;
        }
    }
}

/// Any exponent whose power of two reaches `n` bounds `log2_ceil(n)`.
pub proof fn lemma_log2_ceil_le(n: int, k: nat)
    requires
        1 <= n,
        n <= pow2(k),
    ensures
        log2_ceil(n) <= k,
{
    lemma_log2_ceil_bounds(n);
    let l = log2_ceil(n);
    if l > k {
        lemma_pow2_strictly_increases(k, (l - 1) as nat);
        assert(pow2((l - 1) as nat) < n);
        assert(false);
    }
}

/// The pair `(rounds_count, last_round_max_degree)`, defined when the
/// expansion factor `rho = n / (d + 1)` is at least 1. The first
/// component may be nonpositive; callers refuse those parameters.
pub open spec fn rounds_count_spec(n: int, d: int, s: int) -> (int, int)
    recommends
        d >= 0,
        n / (d + 1) >= 1,
{
    let rho = n / (d + 1);
    let base = log2_ceil(d + 1) as int;
    if rho >= s {
        (base, 0)
    } else {
        let missed = log2_ceil((s + rho - 1) / rho) as int;
        (base - missed, pow2(missed as nat) - 1)
    }
}

/// Total parameter derivation over arbitrary 32-bit inputs: `None`
/// when the parameters are degenerate (no expansion at all, or more
/// missed rounds than base rounds).
pub open spec fn rounds_total_spec(n: int, d: int, s: int) -> Option<(int, int)> {
    if d + 1 > 0xFFFF_FFFF || n / (d + 1) < 1 {
        None
    } else {
        let (rc, last) = rounds_count_spec(n, d, s);
        if rc < 0 {
            None
        } else {
            Some((rc, last))
        }
    }
}

/// `2^k` for small exponents.
pub(crate) fn pow2_u64(k: u64) -> (r: u64)
    requires
        k <= 63,
    ensures
        r == pow2(k as nat),
{
    let mut r: u64 = 1;
    let mut i: u64 = 0;
    proof {
        lemma2_to64();
    }
    while i < k
        invariant
            i <= k,
            k <= 63,
            r == pow2(i as nat),
        decreases k - i,
    {
        proof {
            if (i as nat) < 63 {
                lemma_pow2_strictly_increases(i as nat, 63);
            }
            lemma2_to64();
            vstd::arithmetic::power2::lemma2_to64_rest();
            vstd::arithmetic::power2::lemma_pow2_adds(i as nat, 1);
        }
        r = r * 2;
        i = i + 1;
    }
    r
}

/// `ceil(log2(x))` for `x >= 1`.
pub fn log_2_ceil(x: u64) -> (r: u64)
    requires
        1 <= x,
        x <= 0x1_0000_0000,
    ensures
        r == log2_ceil(x as int),
        r <= 32,
{
    let mut k: u64 = 0;
    let mut p: u64 = 1;
    proof {
        lemma2_to64();
    }
    while p < x
        invariant
            1 <= x <= 0x1_0000_0000,
            p == pow2(k as nat),
            k == 0 || pow2((k - 1) as nat) < x,
            k <= 33,
        decreases 34 - k,
    {
        proof {
            lemma2_to64();
            if k >= 33 {
                lemma_pow2_strictly_increases(33, k as nat);
                assert(false);
            }
            assert(pow2(33) == 0x2_0000_0000) by {
                vstd::arithmetic::power2::lemma_pow2_adds(32, 1);
                lemma2_to64();
            }
            if (k as nat) < 33 {
                lemma_pow2_strictly_increases(k as nat, 33);
            }
            vstd::arithmetic::power2::lemma_pow2_adds(k as nat, 1);
        }
        p = p * 2;
        k = k + 1;
    }
    proof {
        lemma_log2_ceil_bounds(x as int);
        let l = log2_ceil(x as int);
        lemma_log2_ceil_le(x as int, k as nat);
        if (l as int) < k as int {
            // Then pow2(k - 1) >= pow2(l) >= x, contradicting the
            // invariant that pow2(k - 1) < x.
            assert(k >= 1);
            if l < (k - 1) as nat {
                lemma_pow2_strictly_increases(l, (k - 1) as nat);
            }
            assert(pow2((k - 1) as nat) >= pow2(l) >= x);
            assert(false);
        }
        assert(k == log2_ceil(x as int));
        if k > 32 {
            lemma_pow2_strictly_increases(32, (k - 1) as nat);
            lemma2_to64();
            assert(false);
        }
    }
    k
}

/// Total derivation of `(rounds_count, last_round_max_degree)`.
pub(crate) fn try_rounds_count(codeword_size: u32, max_degree: u32, s: u32) -> (r: Option<
    (u8, u32),
>)
    ensures
        match r {
            Some(p) => rounds_total_spec(codeword_size as int, max_degree as int, s as int)
                == Some((p.0 as int, p.1 as int)),
            None => rounds_total_spec(codeword_size as int, max_degree as int, s as int)
                is None,
        },
{
    if max_degree == 0xFFFF_FFFFu32 {
        return None;
    }
    let d1: u32 = max_degree + 1;
    let expansion_factor: u32 = codeword_size / d1;
    if expansion_factor < 1 {
        return None;
    }
    let base: u64 = log_2_ceil(d1 as u64);
    if expansion_factor >= s {
        proof {
            lemma2_to64();
        }
        return Some((base as u8, 0));
    }
    let num: u64 = (s as u64 + expansion_factor as u64 - 1) / (expansion_factor as u64);
    proof {
        let si = s as int;
        let rho = expansion_factor as int;
        assert(num as int >= 1) by {
            lemma_div_is_ordered(rho, si + rho - 1, rho);
            assert(rho / rho == 1) by (nonlinear_arith)
                requires
                    rho >= 1;
        }
        assert(num as int <= si) by {
            assert(si + rho - 1 <= si * rho) by (nonlinear_arith)
                requires
                    si >= 1,
                    rho >= 1;
            lemma_div_is_ordered(si + rho - 1, si * rho, rho);
            assert(si * rho / rho == si) by (nonlinear_arith)
                requires
                    rho >= 1;
        }
    }
    let missed: u64 = log_2_ceil(num);
    if missed > base {
        return None;
    }
    let rc: u64 = base - missed;
    proof {
        vstd::arithmetic::power2::lemma_pow2_pos(missed as nat);
    }
    let last: u64 = pow2_u64(missed) - 1;
    proof {
        lemma2_to64();
        if missed < 32 {
            lemma_pow2_strictly_increases(missed as nat, 32);
        }
    }
    Some((rc as u8, last as u32))
}

/// Computes `(rounds_count, last_round_max_degree)` for parameters
/// that admit at least zero rounds (the callers refuse nonpositive
/// round counts with an error).
pub fn get_rounds_count(codeword_size: u32, max_degree: u32, number_of_colinearity_checks: u32)
    -> (r: (u8, u32))
    requires
        max_degree < 0xFFFF_FFFF,
        codeword_size >= max_degree + 1,
        rounds_count_spec(
            codeword_size as int,
            max_degree as int,
            number_of_colinearity_checks as int,
        ).0 >= 0,
    ensures
        (r.0 as int, r.1 as int) == rounds_count_spec(
            codeword_size as int,
            max_degree as int,
            number_of_colinearity_checks as int,
        ),
{
    proof {
        assert(codeword_size as int / (max_degree as int + 1) >= 1) by {
            lemma_div_is_ordered(
                max_degree as int + 1,
                codeword_size as int,
                max_degree as int + 1,
            );
            assert((max_degree as int + 1) / (max_degree as int + 1) == 1) by (nonlinear_arith)
                requires
                    max_degree as int + 1 >= 1;
        }
    }
    let r = try_rounds_count(codeword_size, max_degree, number_of_colinearity_checks);
    match r {
        Some(p) => p,
        None => {
            proof {
                assert(false);
            }
            (0, 0)
        },
    }
}


/// Soundness of the parameter derivation: for parameters satisfying
/// the data-model invariants (`max_degree + 1` a power of two, the
/// codeword size a multiple of it, and a query budget of at most half
/// the codeword), at least one folding round survives, and the layer
/// reached after `rounds_count` halvings still has room for one point
/// per tolerated degree and for the full query budget.
pub proof fn lemma_parameter_soundness(n: int, d: int, s: int, rho: int)
    requires
        1 <= d < 0xFFFF_FFFF,
        1 <= rho,
        n == rho * (d + 1),
        is_power_of_two(d + 1),
        1 <= s <= n / 2,
    ensures
        rounds_total_spec(n, d, s) == Some(rounds_count_spec(n, d, s)),
        rounds_count_spec(n, d, s).0 >= 1,
        n / (pow2(rounds_count_spec(n, d, s).0 as nat) as int) >= 1,
        n / (pow2(rounds_count_spec(n, d, s).0 as nat) as int) >= rounds_count_spec(n, d, s).1 + 1,
        n / (pow2(rounds_count_spec(n, d, s).0 as nat) as int) >= s,
{
    let base = log2_ceil(d + 1);
    assert(pow2(base) == d + 1);
    assert(base >= 1) by {
        lemma2_to64();
        if base == 0 {
            assert(pow2(0) == 1);
        }
    }
    assert(n / (d + 1) == rho) by {
        vstd::arithmetic::div_mod::lemma_div_by_multiple(rho, d + 1);
    }
    assert(n >= d + 1) by (nonlinear_arith)
        requires
            rho >= 1,
            d + 1 >= 1,
            n == rho * (d + 1);
    assert(n / 2 == rho * pow2((base - 1) as nat)) by {
        assert(pow2(base) == 2 * pow2((base - 1) as nat)) by {
            vstd::arithmetic::power2::lemma_pow2_adds((base - 1) as nat, 1);
            lemma2_to64();
        }
        assert(n == (rho * pow2((base - 1) as nat)) * 2) by (nonlinear_arith)
            requires
                n == rho * (d + 1),
                d + 1 == 2 * pow2((base - 1) as nat);
        vstd::arithmetic::div_mod::lemma_div_by_multiple(rho * pow2((base - 1) as nat), 2);
    }
    if rho >= s {
        // rounds_count is the full base; the last layer has rho points.
        assert(rounds_count_spec(n, d, s) == (base as int, 0int));
        assert(n / (pow2(base) as int) == rho) by {
            vstd::arithmetic::div_mod::lemma_div_by_multiple(rho, pow2(base) as int);
        }
    } else {
        let num = (s + rho - 1) / rho;
        let missed = log2_ceil(num);
        assert(num >= 2) by {
            assert(s >= rho + 1);
            assert((rho + 1 + rho - 1) / rho >= 2) by (nonlinear_arith)
                requires
                    rho >= 1;
            lemma_div_is_ordered(rho + 1 + rho - 1, s + rho - 1, rho);
        }
        assert(missed >= 1) by {
            lemma2_to64();
            if missed == 0 {
                lemma_log2_ceil_bounds(num);
                assert(pow2(0) == 1);
            }
        }
        // The ceiling division reaches s when scaled back by rho.
        assert(rho * num >= s) by {
            vstd::arithmetic::div_mod::lemma_fundamental_div_mod(s + rho - 1, rho);
            assert(s + rho - 1 == rho * num + (s + rho - 1) % rho);
            vstd::arithmetic::div_mod::lemma_mod_bound(s + rho - 1, rho);
        }
        // s <= n / 2 bounds the number of missed rounds by base - 1.
        assert(num <= pow2((base - 1) as nat)) by {
            let h = pow2((base - 1) as nat);
            assert(s <= rho * h);
            assert(s + rho - 1 < rho * (h + 1)) by (nonlinear_arith)
                requires
                    s <= rho * h,
                    rho >= 1;
            assert((s + rho - 1) / rho < h + 1) by {
                vstd::arithmetic::div_mod::lemma_multiply_divide_lt(s + rho - 1, rho, h as int + 1);
            }
        }
        assert(missed <= base - 1) by {
            lemma_log2_ceil_le(num, (base - 1) as nat);
        }
        let rc = base as int - missed as int;
        assert(rounds_count_spec(n, d, s) == (rc, pow2(missed) - 1int));
        assert(rc >= 1);
        // n >> rc equals rho * 2^missed.
        assert(n / (pow2(rc as nat) as int) == rho * pow2(missed)) by {
            assert(pow2(base) == pow2(rc as nat) * pow2(missed)) by {
                vstd::arithmetic::power2::lemma_pow2_adds(rc as nat, missed);
            }
            assert(n == (rho * pow2(missed)) * pow2(rc as nat)) by (nonlinear_arith)
                requires
                    n == rho * (d + 1),
                    d + 1 == pow2(rc as nat) * pow2(missed);
            vstd::arithmetic::power2::lemma_pow2_pos(rc as nat);
            vstd::arithmetic::div_mod::lemma_div_by_multiple(rho * pow2(missed), pow2(rc as nat) as int);
        }
        assert(rho * pow2(missed) >= pow2(missed)) by (nonlinear_arith)
            requires
                rho >= 1,
                pow2(missed) >= 0;
        assert(num <= pow2(missed)) by {
            lemma_log2_ceil_bounds(num);
        }
        assert(rho * pow2(missed) >= rho * num) by (nonlinear_arith)
            requires
                rho >= 1,
                num <= pow2(missed);
    }
}

/// `log2_ceil` inverts `pow2`.
pub proof fn lemma_log2_ceil_pow2(e: nat)
    ensures
        log2_ceil(pow2(e) as int) == e,
        is_power_of_two(pow2(e) as int),
{
    lemma_pow2_pos_local(e);
    lemma_log2_ceil_le(pow2(e) as int, e);
    let l = log2_ceil(pow2(e) as int);
    if l < e {
        lemma_log2_ceil_bounds(pow2(e) as int);
        lemma_pow2_strictly_increases(l, e);
        assert(false);
    }
}

proof fn lemma_pow2_pos_local(e: nat)
    ensures
        pow2(e) >= 1,
{
    vstd::arithmetic::power2::lemma_pow2_pos(e);
}

} // verus!
