//! An early, root-free variant of the folding step: it combines the
//! two halves of a codeword with the weights `challenge + 1` and
//! `challenge - 1` and keeps the machine-truncated remainder.

use vstd::prelude::*;
use crate::field::{modulus_ok, in_field};

verus! {

/// Rust's truncated remainder: the sign follows the dividend.
pub open spec fn trunc_mod(x: int, q: int) -> int {
    if x >= 0 {
        x % q
    } else {
        -((-x) % q)
    }
}

/// The root-free folding of a codeword under `challenge`, entrywise:
/// `((challenge + 1) * c[i] + (challenge - 1) * c[i + m]) * inv_two`,
/// truncated modulo `q`.
pub open spec fn half_fold(c: Seq<i128>, beta: int, inv2: int, q: int) -> Seq<i128> {
    Seq::new(
        (c.len() / 2) as nat,
        |i: int| trunc_mod(((beta + 1) * c[i] + (beta - 1) * c[i + c.len() / 2]) * inv2, q) as i128,
    )
}

/// Folds a codeword in half with the root-free weights, exactly as
/// the original machine arithmetic computes it.
pub fn fri_prover_iteration(
    codeword: &[i128],
    challenge: &i128,
    modulus: &i128,
    inv_two: &i128,
) -> (r: Vec<i128>)
    requires
        2 <= *modulus < 0x8000_0000,
        in_field(*challenge as int, *modulus as int),
        in_field(*inv_two as int, *modulus as int),
        forall|i: int|
            0 <= i < codeword@.len() ==> in_field(#[trigger] codeword@[i] as int, *modulus as int),
        codeword@.len() < 0x8000_0000,
    ensures
        r@ == half_fold(codeword@, *challenge as int, *inv_two as int, *modulus as int),
{
    let q: i128 = *modulus;
    let ghost qi = q as int;
    let m: usize = codeword.len() / 2;
    let mut new_codeword: Vec<i128> = Vec::new();
    let mut i: usize = 0;
    while i < m
        invariant
            i <= m,
            m == codeword@.len() / 2,
            codeword@.len() < 0x8000_0000,
            q == *modulus,
            qi == q as int,
            2 <= qi < 0x8000_0000,
            in_field(*challenge as int, qi),
            in_field(*inv_two as int, qi),
            forall|k: int| 0 <= k < codeword@.len() ==> in_field(#[trigger] codeword@[k] as int, qi),
            new_codeword@.len() == i,
            forall|k: int|
                0 <= k < i ==> (#[trigger] new_codeword@[k]) == half_fold(
                    codeword@,
                    *challenge as int,
                    *inv_two as int,
                    qi,
                )[k],
        decreases m - i,
    {
        let a: i128 = codeword[i];
        let b: i128 = codeword[i + m];
        proof {
            assert((*challenge as int + 1) * (a as int) <= 0x8000_0000 * 0x8000_0000)
                by (nonlinear_arith)
                requires
                    0 <= (*challenge as int) + 1 <= 0x8000_0000,
                    0 <= (a as int) < 0x8000_0000;
            assert(0 <= (*challenge as int + 1) * (a as int)) by (nonlinear_arith)
                requires
                    0 <= (*challenge as int) + 1,
                    0 <= (a as int);
            assert(-0x8000_0000 <= (*challenge as int - 1) * (b as int) && (*challenge as int - 1)
                * (b as int) <= 0x8000_0000 * 0x8000_0000) by (nonlinear_arith)
                requires
                    -1 <= (*challenge as int) - 1 < 0x8000_0000,
                    0 <= (b as int) < 0x8000_0000;
        }
        let x: i128 = (*challenge + 1) * a + (*challenge - 1) * b;
        proof {
            assert(-0x8000_0000 * 0x8000_0000 * 0x8000_0000 <= (x as int) * (*inv_two as int) && (x
                as int) * (*inv_two as int) <= 0x8000_0000 * 0x8000_0000 * 0x8000_0000
                * 0x8000_0000) by (nonlinear_arith)
                requires
                    -0x8000_0000 <= (x as int) <= 0x8000_0000 * 0x8000_0000 + 0x8000_0000
                        * 0x8000_0000,
                    0 <= (*inv_two as int) < 0x8000_0000;
        }
        let y: i128 = x * *inv_two;
        let v: i128 = if y >= 0 {
            proof {
                vstd::arithmetic::div_mod::lemma_mod_bound(y as int, qi);
            }
            ((y as u128) % (q as u128)) as i128
        } else {
            proof {
                vstd::arithmetic::div_mod::lemma_mod_bound(-(y as int), qi);
            }
            -((((-y) as u128) % (q as u128)) as i128)
        };
        new_codeword.push(v);
        i = i + 1;
    }
    proof {
        assert(new_codeword@ =~= half_fold(codeword@, *challenge as int, *inv_two as int, qi));
    }
    new_codeword
}

} // verus!
