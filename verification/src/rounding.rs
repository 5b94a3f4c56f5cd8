//! Rounding to single precision, on whole numbers of units.
//!
//! A magnitude is counted in units of two to the power -149. A count below
//! two to the power 24 is a single-precision number as it stands; a larger
//! one has to give up its lowest bits.

use vstd::arithmetic::div_mod::{
    lemma_div_multiples_vanish_quotient, lemma_fundamental_div_mod, lemma_truncate_middle,
};
use vstd::arithmetic::power2::{
    lemma2_to64, lemma_pow2_adds, lemma_pow2_pos, lemma_pow2_strictly_increases, lemma_pow2_unfold,
    pow2,
};
use vstd::prelude::*;

verus! {

/// The number of low bits that `n` has beyond the 24 bits of a significand.
pub open spec fn surplus_bits(n: nat) -> nat
    decreases n,
{
    if n < 0x100_0000 {
        0
    } else {
        1 + surplus_bits(n / 2)
    }
}

/// The single-precision number nearest to `n` units, in units; of two that
/// are equally near, the one with the even significand. The largest finite
/// number is not taken into account: a result beyond it stands for an
/// infinity.
pub open spec fn nearest_single(n: nat) -> nat {
    let step = pow2(surplus_bits(n));
    let below = n / step;
    let rest = n % step;
    if 2 * rest > step || (2 * rest == step && below % 2 == 1) {
        (below + 1) * step
    } else {
        below * step
    }
}

/// A number with `k` surplus bits has 24 + `k` bits.
pub proof fn lemma_surplus_bits_bounds(n: nat)
    ensures
        n < pow2(24 + surplus_bits(n)),
        surplus_bits(n) > 0 ==> pow2(23 + surplus_bits(n)) <= n,
    decreases n,
{
    lemma2_to64();
    if n >= 0x100_0000 {
        let half = n / 2;
        let k = surplus_bits(half);
        lemma_surplus_bits_bounds(half);
        assert(surplus_bits(n) == k + 1);
        lemma_pow2_unfold(24 + k + 1);
        lemma_pow2_unfold(23 + k + 1);
    }
}

/// A number with 24 + `k` bits has `k` surplus bits.
pub proof fn lemma_surplus_bits_of_range(n: nat, k: nat)
    requires
        k > 0,
        pow2(23 + k) <= n < pow2(24 + k),
    ensures
        surplus_bits(n) == k,
{
    lemma_surplus_bits_bounds(n);
    let j = surplus_bits(n);
    if j < k {
        if 24 + j < 23 + k {
            lemma_pow2_strictly_increases(24 + j, 23 + k);
        }
    } else if j > k {
        if 24 + k < 23 + j {
            lemma_pow2_strictly_increases(24 + k, 23 + j);
        }
    }
}

/// Rounding moves a number by less than one step, to a multiple of the
/// step.
pub proof fn lemma_nearest_single_is_near(n: nat)
    ensures
        n - n % pow2(surplus_bits(n)) <= nearest_single(n) <= n - n % pow2(surplus_bits(n)) + pow2(
            surplus_bits(n),
        ),
        nearest_single(n) == (n / pow2(surplus_bits(n))) * pow2(surplus_bits(n)) || nearest_single(
            n,
        ) == (n / pow2(surplus_bits(n)) + 1) * pow2(surplus_bits(n)),
{
    let step = pow2(surplus_bits(n));
    lemma_pow2_pos(surplus_bits(n));
    lemma_fundamental_div_mod(n as int, step as int);
    let below = n / step;
    assert((below + 1) * step == below * step + step) by (nonlinear_arith);
    assert(step * below == below * step) by (nonlinear_arith);
}

/// Doubling a number that already needs rounding doubles what it is rounded
/// to.
pub proof fn lemma_nearest_single_scales(p: nat, j: nat)
    requires
        p >= 0x100_0000,
    ensures
        surplus_bits(p * pow2(j)) == surplus_bits(p) + j,
        nearest_single(p * pow2(j)) == nearest_single(p) * pow2(j),
{
    let d = surplus_bits(p);
    let n = p * pow2(j);
    let scale = pow2(j);
    let step = pow2(d);
    lemma_pow2_pos(j);
    lemma_pow2_pos(d);
    lemma_surplus_bits_bounds(p);
    assert(d > 0);
    lemma_pow2_adds(23 + d, j);
    lemma_pow2_adds(24 + d, j);
    assert(pow2(23 + d) * scale <= p * scale) by (nonlinear_arith)
        requires
            pow2(23 + d) <= p,
    ;
    assert(p * scale < pow2(24 + d) * scale) by (nonlinear_arith)
        requires
            p < pow2(24 + d),
            scale > 0,
    ;
    assert(23 + d + j == 23 + (d + j) && 24 + d + j == 24 + (d + j));
    lemma_surplus_bits_of_range(n, d + j);
    lemma_pow2_adds(d, j);
    let wide = pow2(d + j);
    assert(wide == step * scale);
    assert(n == scale * p && wide == scale * step) by (nonlinear_arith)
        requires
            n == p * scale,
            wide == step * scale,
    ;
    lemma_div_multiples_vanish_quotient(scale as int, p as int, step as int);
    lemma_truncate_middle(p as int, scale as int, step as int);
    let below = p / step;
    let rest = p % step;
    assert(n / wide == below);
    assert(n % wide == scale * rest);
    assert((2 * (scale * rest) > wide) == (2 * rest > step)) by (nonlinear_arith)
        requires
            wide == scale * step,
            scale > 0,
    ;
    assert((2 * (scale * rest) == wide) == (2 * rest == step)) by (nonlinear_arith)
        requires
            wide == scale * step,
            scale > 0,
    ;
    assert((below + 1) * wide == ((below + 1) * step) * scale && below * wide == (below * step)
        * scale) by (nonlinear_arith)
        requires
            wide == step * scale,
    ;
}

} // verus!
