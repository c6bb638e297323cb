//! Dense polynomials over the prime field, as coefficient vectors in
//! canonical form, with Lagrange interpolation of a small point set.
//!
//! The verifier interpolates the final-layer points and bounds the
//! degree of the interpolant.

use vstd::prelude::*;
use vstd::arithmetic::div_mod::lemma_mod_bound;
use crate::field::{
    modulus_ok, modulus_bound, in_field, inv_mod, mul_mod, add_mod, sub_mod, inverse_mod,
};

verus! {

/// Coefficient `i` of `a`, reading 0 beyond the end.
pub open spec fn coeff(a: Seq<i128>, i: int) -> int {
    if 0 <= i < a.len() {
        a[i] as int
    } else {
        0
    }
}

/// All coefficients are canonical field elements.
pub open spec fn poly_canonical(a: Seq<i128>, q: int) -> bool {
    forall|i: int| 0 <= i < a.len() ==> in_field(#[trigger] a[i] as int, q)
}

/// The pointwise sum of two coefficient vectors.
pub open spec fn poly_add(a: Seq<i128>, b: Seq<i128>, q: int) -> Seq<i128> {
    Seq::new(
        if a.len() >= b.len() {
            a.len()
        } else {
            b.len()
        },
        |i: int| ((coeff(a, i) + coeff(b, i)) % q) as i128,
    )
}

/// A coefficient vector scaled by a field element.
pub open spec fn poly_scale(c: int, a: Seq<i128>, q: int) -> Seq<i128> {
    Seq::new(a.len(), |i: int| ((c * coeff(a, i)) % q) as i128)
}

/// A coefficient vector multiplied by the linear factor `x + c`.
pub open spec fn poly_mul_linear(a: Seq<i128>, c: int, q: int) -> Seq<i128> {
    Seq::new(a.len() + 1, |i: int| ((coeff(a, i - 1) + c * coeff(a, i)) % q) as i128)
}

/// The degree of a coefficient vector: the index of its highest
/// nonzero coefficient, and -1 for the zero polynomial.
pub open spec fn degree_spec(a: Seq<i128>) -> int
    decreases a.len(),
{
    if a.len() == 0 {
        -1
    } else if a.last() != 0 {
        a.len() - 1
    } else {
        degree_spec(a.drop_last())
    }
}

/// The Lagrange numerator for point `j`: the product of the factors
/// `x - x_k` over `k` in `[0, upto)` with `k != j`.
pub open spec fn numer_poly(points: Seq<(i128, i128)>, j: int, upto: int, q: int) -> Seq<i128>
    decreases upto,
{
    if upto <= 0 {
        seq![(1int % q) as i128]
    } else if upto - 1 == j {
        numer_poly(points, j, upto - 1, q)
    } else {
        poly_mul_linear(numer_poly(points, j, upto - 1, q), (0 - points[upto - 1].0 as int) % q, q)
    }
}

/// The Lagrange denominator for point `j`: the product of
/// `x_j - x_k` over `k` in `[0, upto)` with `k != j`, reduced mod `q`.
pub open spec fn denom_prod(points: Seq<(i128, i128)>, j: int, upto: int, q: int) -> int
    decreases upto,
{
    if upto <= 0 {
        1int % q
    } else if upto - 1 == j {
        denom_prod(points, j, upto - 1, q)
    } else {
        (denom_prod(points, j, upto - 1, q) * ((points[j].0 - points[upto - 1].0) % q)) % q
    }
}

/// The Lagrange basis term for point `j`, scaled by `y_j`.
pub open spec fn lagrange_term(points: Seq<(i128, i128)>, j: int, q: int) -> Seq<i128> {
    poly_scale(
        (points[j].1 as int * inv_mod(denom_prod(points, j, points.len() as int, q), q)) % q,
        numer_poly(points, j, points.len() as int, q),
        q,
    )
}

/// The Lagrange interpolant of `points`: the sum of the scaled basis
/// terms of the first `upto` points.
pub open spec fn lagrange_sum(points: Seq<(i128, i128)>, upto: int, q: int) -> Seq<i128>
    decreases upto,
{
    if upto <= 0 {
        Seq::empty()
    } else {
        poly_add(lagrange_sum(points, upto - 1, q), lagrange_term(points, upto - 1, q), q)
    }
}

/// The Lagrange interpolant of the whole point set.
pub open spec fn lagrange_spec(points: Seq<(i128, i128)>, q: int) -> Seq<i128> {
    lagrange_sum(points, points.len() as int, q)
}

/// Adds two coefficient vectors pointwise.
fn poly_add_exec(a: &Vec<i128>, b: &Vec<i128>, q: i128) -> (r: Vec<i128>)
    requires
        modulus_ok(q as int),
        poly_canonical(a@, q as int),
        poly_canonical(b@, q as int),
    ensures
        r@ == poly_add(a@, b@, q as int),
        poly_canonical(r@, q as int),
{
    let n: usize = if a.len() >= b.len() {
        a.len()
    } else {
        b.len()
    };
    let mut r: Vec<i128> = Vec::new();
    let mut i: usize = 0;
    while i < n
        invariant
            i <= n,
            modulus_ok(q as int),
            poly_canonical(a@, q as int),
            poly_canonical(b@, q as int),
            n == if a@.len() >= b@.len() {
                a@.len()
            } else {
                b@.len()
            },
            r@.len() == i,
            forall|k: int| 0 <= k < i ==> r@[k] == poly_add(a@, b@, q as int)[k],
        decreases n - i,
    {
        let av: i128 = if i < a.len() {
            a[i]
        } else {
            0
        };
        let bv: i128 = if i < b.len() {
            b[i]
        } else {
            0
        };
        let s: i128 = add_mod(av, bv, q);
        r.push(s);
        i = i + 1;
    }
    proof {
        assert(r@ =~= poly_add(a@, b@, q as int));
        assert forall|k: int| 0 <= k < r@.len() implies in_field(#[trigger] r@[k] as int, q as int)
            by {
            lemma_mod_bound(coeff(a@, k) + coeff(b@, k), q as int);
        }
    }
    r
}

/// Scales a coefficient vector by a field element.
fn poly_scale_exec(c: i128, a: &Vec<i128>, q: i128) -> (r: Vec<i128>)
    requires
        modulus_ok(q as int),
        in_field(c as int, q as int),
        poly_canonical(a@, q as int),
    ensures
        r@ == poly_scale(c as int, a@, q as int),
        poly_canonical(r@, q as int),
{
    let mut r: Vec<i128> = Vec::new();
    let mut i: usize = 0;
    while i < a.len()
        invariant
            i <= a@.len(),
            modulus_ok(q as int),
            in_field(c as int, q as int),
            poly_canonical(a@, q as int),
            r@.len() == i,
            forall|k: int| 0 <= k < i ==> r@[k] == poly_scale(c as int, a@, q as int)[k],
        decreases a@.len() - i,
    {
        let s: i128 = mul_mod(c, a[i], q);
        r.push(s);
        i = i + 1;
    }
    proof {
        assert(r@ =~= poly_scale(c as int, a@, q as int));
        assert forall|k: int| 0 <= k < r@.len() implies in_field(#[trigger] r@[k] as int, q as int)
            by {
            lemma_mod_bound(c as int * coeff(a@, k), q as int);
        }
    }
    r
}

/// Multiplies a coefficient vector by the linear factor `x + c`.
fn poly_mul_linear_exec(a: &Vec<i128>, c: i128, q: i128) -> (r: Vec<i128>)
    requires
        modulus_ok(q as int),
        in_field(c as int, q as int),
        poly_canonical(a@, q as int),
        a@.len() < 0x1000,
    ensures
        r@ == poly_mul_linear(a@, c as int, q as int),
        poly_canonical(r@, q as int),
{
    let n: usize = a.len();
    let mut r: Vec<i128> = Vec::new();
    let mut i: usize = 0;
    while i < n + 1
        invariant
            i <= n + 1,
            n == a@.len(),
            n < 0x1000,
            modulus_ok(q as int),
            in_field(c as int, q as int),
            poly_canonical(a@, q as int),
            r@.len() == i,
            forall|k: int| 0 <= k < i ==> r@[k] == poly_mul_linear(a@, c as int, q as int)[k],
        decreases n + 1 - i,
    {
        let prev: i128 = if i >= 1 && i - 1 < n {
            a[i - 1]
        } else {
            0
        };
        let herev: i128 = if i < n {
            a[i]
        } else {
            0
        };
        let s: i128 = add_mod(prev, mul_mod(c, herev, q), q);
        proof {
            let qi = q as int;
            let x = coeff(a@, i as int - 1);
            let y = coeff(a@, i as int);
            assert((x + (c as int * y) % qi) % qi == (x + c as int * y) % qi) by {
                vstd::arithmetic::div_mod::lemma_add_mod_noop_right(x, c as int * y, qi);
                vstd::arithmetic::div_mod::lemma_mod_twice(x + (c as int * y) % qi, qi);
                vstd::arithmetic::div_mod::lemma_add_mod_noop_right(x, (c as int * y) % qi, qi);
            }
        }
        r.push(s);
        i = i + 1;
    }
    proof {
        assert(r@ =~= poly_mul_linear(a@, c as int, q as int));
        assert forall|k: int| 0 <= k < r@.len() implies in_field(#[trigger] r@[k] as int, q as int)
            by {
            lemma_mod_bound(coeff(a@, k - 1) + c as int * coeff(a@, k), q as int);
        }
    }
    r
}

/// The degree of the polynomial with the given coefficients; -1 for
/// the zero polynomial.
pub fn degree(coefficients: &Vec<i128>) -> (r: isize)
    requires
        coefficients@.len() < 0x1000,
    ensures
        r as int == degree_spec(coefficients@),
{
    let mut i: usize = coefficients.len();
    proof {
        assert(coefficients@.subrange(0, coefficients@.len() as int) =~= coefficients@);
    }
    while i > 0
        invariant
            i <= coefficients@.len(),
            coefficients@.len() < 0x1000,
            degree_spec(coefficients@) == degree_spec(coefficients@.subrange(0, i as int)),
        decreases i,
    {
        proof {
            let pre = coefficients@.subrange(0, i as int);
            assert(pre.drop_last() =~= coefficients@.subrange(0, i as int - 1));
        }
        if coefficients[i - 1] != 0 {
            return (i - 1) as isize;
        }
        i = i - 1;
    }
    proof {
        assert(coefficients@.subrange(0, 0) =~= Seq::<i128>::empty());
    }
    -1
}

/// Interpolates the unique polynomial of degree below the point count
/// through `points` (distinct x-coordinates assumed by the caller; a
/// repeated x yields the formal sum with an inverse of zero read as 0).
pub fn slow_lagrange_interpolation(points: &Vec<(i128, i128)>, modulus: i128) -> (r: Vec<i128>)
    requires
        modulus_ok(modulus as int),
        points@.len() < 0x1000,
        forall|i: int|
            0 <= i < points@.len() ==> in_field(#[trigger] points@[i].0 as int, modulus as int)
                && in_field(points@[i].1 as int, modulus as int),
    ensures
        r@ == lagrange_spec(points@, modulus as int),
        poly_canonical(r@, modulus as int),
{
    let q: i128 = modulus;
    let n: usize = points.len();
    let mut acc: Vec<i128> = Vec::new();
    let mut j: usize = 0;
    proof {
        assert(acc@ =~= lagrange_sum(points@, 0, q as int));
    }
    while j < n
        invariant
            j <= n,
            n == points@.len(),
            n < 0x1000,
            q == modulus,
            modulus_ok(q as int),
            forall|i: int|
                0 <= i < points@.len() ==> in_field(#[trigger] points@[i].0 as int, q as int)
                    && in_field(points@[i].1 as int, q as int),
            acc@ == lagrange_sum(points@, j as int, q as int),
            poly_canonical(acc@, q as int),
        decreases n - j,
    {
        // Build the numerator polynomial and the denominator product
        // for point j in one pass over the other points.
        let mut basis: Vec<i128> = Vec::new();
        basis.push(1 % q);
        let mut d: i128 = 1 % q;
        let mut k: usize = 0;
        proof {
            assert(basis@ =~= numer_poly(points@, j as int, 0, q as int));
        }
        while k < n
            invariant
                k <= n,
                j < n,
                n == points@.len(),
                n < 0x1000,
                q == modulus,
                modulus_ok(q as int),
                forall|i: int|
                    0 <= i < points@.len() ==> in_field(#[trigger] points@[i].0 as int, q as int)
                        && in_field(points@[i].1 as int, q as int),
                basis@ == numer_poly(points@, j as int, k as int, q as int),
                poly_canonical(basis@, q as int),
                basis@.len() <= k + 1,
                d as int == denom_prod(points@, j as int, k as int, q as int),
                in_field(d as int, q as int),
            decreases n - k,
        {
            if k != j {
                let (xk, _yk) = points[k];
                let c: i128 = sub_mod(0, xk, q);
                let nb = poly_mul_linear_exec(&basis, c, q);
                basis = nb;
                let diff: i128 = sub_mod(points[j].0, xk, q);
                d = mul_mod(d, diff, q);
            }
            k = k + 1;
        }
        let dinv: i128 = inverse_mod(d, q);
        let scalar: i128 = mul_mod(points[j].1, dinv, q);
        proof {
            let qi = q as int;
            let jm = j as int;
            assert(scalar as int == (points@[jm].1 as int * inv_mod(
                denom_prod(points@, jm, points@.len() as int, qi),
                qi,
            )) % qi) by {
                vstd::arithmetic::div_mod::lemma_mul_mod_noop_right(
                    points@[jm].1 as int,
                    inv_mod(d as int, qi),
                    qi,
                );
                vstd::arithmetic::div_mod::lemma_mod_bound(inv_mod(d as int, qi), qi);
            }
        }
        let term = poly_scale_exec(scalar, &basis, q);
        let next = poly_add_exec(&acc, &term, q);
        acc = next;
        j = j + 1;
    }
    acc
}

/// The numerator polynomial over `upto` points has at most `upto + 1`
/// coefficients.
pub proof fn lemma_numer_len(points: Seq<(i128, i128)>, j: int, upto: int, q: int)
    ensures
        numer_poly(points, j, upto, q).len() <= (if upto >= 0 {
            upto + 1
        } else {
            1
        }),
    decreases upto,
{
    if upto > 0 {
        lemma_numer_len(points, j, upto - 1, q);
    }
}

/// The Lagrange interpolant of `n` points has at most `n + 1`
/// coefficients.
pub proof fn lemma_lagrange_sum_len(points: Seq<(i128, i128)>, upto: int, q: int)
    ensures
        lagrange_sum(points, upto, q).len() <= points.len() + 1,
    decreases upto,
{
    if upto > 0 {
        lemma_lagrange_sum_len(points, upto - 1, q);
        lemma_numer_len(points, upto - 1, points.len() as int, q);
    }
}

/// The Lagrange interpolant has at most one coefficient per point,
/// plus one.
pub proof fn lemma_lagrange_len(points: Seq<(i128, i128)>, q: int)
    ensures
        lagrange_spec(points, q).len() <= points.len() + 1,
{
    lemma_lagrange_sum_len(points, points.len() as int, q);
}

} // verus!
