//! Fast approximate base-2 logarithm on fixed-point scalars.
//!
//! The scheme mirrors the classic exponent-plus-mantissa trick: take the
//! position of the highest set bit, normalize the mantissa into
//! [1, 2), and correct it with the quadratic (2 − v/3)·v − 2/3, which is
//! exact at both ends of the interval. The absolute error stays below
//! 0.009 (a few tenths of a percent over the range used here); the value
//! is only ever used for visual smoothing, never for correctness-critical
//! decisions.

use crate::fixed::fmul;
use crate::fixed::FIX_ONE;
use vstd::arithmetic::div_mod::{
    lemma_div_by_multiple, lemma_div_is_ordered, lemma_fundamental_div_mod,
    lemma_fundamental_div_mod_converse, lemma_hoist_over_denominator, lemma_multiply_divide_lt,
};
use vstd::arithmetic::mul::{
    lemma_mul_inequality, lemma_mul_is_commutative, lemma_mul_strict_inequality,
};
use vstd::arithmetic::power2::{
    lemma2_to64, lemma2_to64_rest, lemma_pow2_adds, lemma_pow2_pos, lemma_pow2_strictly_increases,
    pow2,
};
use vstd::prelude::*;

verus! {

/// ln(2), as a fixed-point scalar (truncated).
pub const LN2_FIX: i64 = 2977044471;

/// Position of the highest set bit of a positive integer (0 for 1).
pub open spec fn floor_log2(x: int) -> int
    decreases x,
{
    if x < 2 {
        0
    } else {
        1 + floor_log2(x / 2)
    }
}

/// The mantissa of `x`, normalized into [FIX_ONE, 2·FIX_ONE).
pub open spec fn mant(x: int) -> int {
    let e = floor_log2(x);
    if e >= 32 {
        x / pow2((e - 32) as nat) as int
    } else {
        x * pow2((32 - e) as nat) as int
    }
}

/// The quadratic mantissa correction, scaled: (2 − v/3)·v − 2/3 for the
/// real mantissa v = m / FIX_ONE.
pub open spec fn log2_poly(m: int) -> int {
    (m * (6 * FIX_ONE - m) - 2 * (FIX_ONE as int) * (FIX_ONE as int)) / (3 * FIX_ONE as int)
}

/// The approximate base-2 logarithm of the fixed-point scalar `x` (for
/// positive `x`, including subunit ones, where it is negative).
pub open spec fn log2fix_s(x: int) -> int {
    log2_poly(mant(x)) + (floor_log2(x) - 33) * FIX_ONE
}

/// The approximate natural logarithm: log2 rescaled by ln(2).
pub open spec fn ln_s(x: int) -> int {
    fmul(log2fix_s(x), LN2_FIX as int)
}

/// `pow2` is monotone.
pub proof fn lemma_pow2_le(a: nat, b: nat)
    requires
        a <= b,
    ensures
        pow2(a) <= pow2(b),
{
    if a < b {
        lemma_pow2_strictly_increases(a, b);
    }
}

/// `floor_log2` names an exponent that brackets `x`.
pub proof fn lemma_floor_log2(x: int)
    requires
        x >= 1,
    ensures
        0 <= floor_log2(x),
        pow2(floor_log2(x) as nat) <= x,
        x < pow2((floor_log2(x) + 1) as nat),
    decreases x,
{
    if x < 2 {
        lemma2_to64();
    } else {
        lemma_floor_log2(x / 2);
        let e = floor_log2(x / 2);
        lemma_pow2_adds(e as nat, 1);
        lemma_pow2_adds((e + 1) as nat, 1);
        lemma2_to64();
        lemma_fundamental_div_mod(x, 2);
        assert(2 * pow2(e as nat) <= x) by (nonlinear_arith)
            requires
                pow2(e as nat) <= x / 2,
                x == 2 * (x / 2) + x % 2,
                x % 2 >= 0,
        ;
        assert(x < 2 * pow2((e + 1) as nat)) by (nonlinear_arith)
            requires
                x / 2 < pow2((e + 1) as nat),
                x == 2 * (x / 2) + x % 2,
                x % 2 < 2,
        ;
        assert(pow2(((e + 1) + 1) as nat) == pow2((e + 1) as nat) * pow2(1));
        lemma_mul_is_commutative(pow2((e + 1) as nat) as int, 2);
        lemma_mul_is_commutative(pow2(e as nat) as int, 2);
    }
}

/// The bracketing is also complete: any exponent that brackets `x` is
/// `floor_log2(x)`.
pub proof fn lemma_floor_log2_unique(x: int, e: nat)
    requires
        pow2(e) <= x,
        x < pow2((e + 1) as nat),
    ensures
        floor_log2(x) == e,
{
    lemma_pow2_pos(e);
    lemma_floor_log2(x);
    let f = floor_log2(x);
    if f < e {
        lemma_pow2_le((f + 1) as nat, e);
        assert(false);
    }
    if f > e {
        lemma_pow2_le((e + 1) as nat, f as nat);
        lemma_pow2_pos((e + 1) as nat);
        assert(false);
    }
}

/// `floor_log2` is monotone.
pub proof fn lemma_floor_log2_mono(x1: int, x2: int)
    requires
        1 <= x1 <= x2,
    ensures
        floor_log2(x1) <= floor_log2(x2),
{
    lemma_floor_log2(x1);
    lemma_floor_log2(x2);
    let e1 = floor_log2(x1);
    let e2 = floor_log2(x2);
    if e1 > e2 {
        lemma_pow2_le((e2 + 1) as nat, e1 as nat);
        assert(false);
    }
}

/// Below 2^63 the exponent stays at most 62.
pub proof fn lemma_floor_log2_le62(x: int)
    requires
        1 <= x < 0x8000_0000_0000_0000,
    ensures
        0 <= floor_log2(x) <= 62,
{
    lemma_floor_log2(x);
    lemma2_to64();
    lemma2_to64_rest();
    if floor_log2(x) > 62 {
        lemma_pow2_le(63, floor_log2(x) as nat);
        assert(false);
    }
}

/// The normalized mantissa lies in [FIX_ONE, 2·FIX_ONE).
pub proof fn lemma_mant_range(x: int)
    requires
        x >= 1,
    ensures
        FIX_ONE <= mant(x) < 2 * FIX_ONE,
{
    lemma_floor_log2(x);
    let e = floor_log2(x);
    lemma2_to64();
    lemma2_to64_rest();
    if e >= 32 {
        let k = (e - 32) as nat;
        lemma_pow2_pos(k);
        lemma_pow2_adds(32, k);
        lemma_div_is_ordered(pow2(e as nat) as int, x, pow2(k) as int);
        lemma_mul_is_commutative(pow2(32) as int, pow2(k) as int);
        lemma_div_by_multiple(pow2(32) as int, pow2(k) as int);
        lemma_pow2_adds(33, k);
        lemma_mul_is_commutative(pow2(33) as int, pow2(k) as int);
        lemma_multiply_divide_lt(x, pow2(k) as int, pow2(33) as int);
        assert(mant(x) == x / pow2(k) as int);
    } else {
        let k = (32 - e) as nat;
        lemma_pow2_pos(k);
        lemma_pow2_adds(e as nat, k);
        lemma_mul_inequality(pow2(e as nat) as int, x, pow2(k) as int);
        lemma_pow2_adds((e + 1) as nat, k);
        lemma_mul_strict_inequality(x, pow2((e + 1) as nat) as int, pow2(k) as int);
        assert(pow2((e + 1) as nat) == 2 * pow2(e as nat)) by {
            lemma_pow2_adds(e as nat, 1);
            lemma2_to64();
            lemma_mul_is_commutative(pow2(e as nat) as int, 2);
        }
        assert(pow2((e + 1) as nat) * pow2(k) == 2 * (pow2(e as nat) * pow2(k)))
            by (nonlinear_arith)
            requires
                pow2((e + 1) as nat) == 2 * pow2(e as nat),
        ;
    }
}

/// The mantissa correction is monotone on the normalized interval.
pub proof fn lemma_poly_mono(m1: int, m2: int)
    requires
        FIX_ONE <= m1 <= m2 <= 2 * FIX_ONE,
    ensures
        log2_poly(m1) <= log2_poly(m2),
{
    assert(m1 * (6 * FIX_ONE - m1) <= m2 * (6 * FIX_ONE - m2)) by (nonlinear_arith)
        requires
            FIX_ONE <= m1 <= m2 <= 2 * FIX_ONE,
    ;
    lemma_div_is_ordered(
        m1 * (6 * FIX_ONE - m1) - 2 * (FIX_ONE as int) * (FIX_ONE as int),
        m2 * (6 * FIX_ONE - m2) - 2 * (FIX_ONE as int) * (FIX_ONE as int),
        3 * FIX_ONE as int,
    );
}

/// On the normalized interval the correction stays within [FIX_ONE,
/// 2·FIX_ONE − 1], with the exact value FIX_ONE at the left end.
pub proof fn lemma_poly_range(m: int)
    requires
        FIX_ONE <= m < 2 * FIX_ONE,
    ensures
        FIX_ONE <= log2_poly(m) <= 2 * FIX_ONE - 1,
        log2_poly(FIX_ONE as int) == FIX_ONE,
{
    let one = FIX_ONE as int;
    assert(one * (6 * FIX_ONE - one) - 2 * (FIX_ONE as int) * (FIX_ONE as int) == one * (3 * one)
        + 0) by (nonlinear_arith)
        requires
            one == FIX_ONE,
    ;
    lemma_fundamental_div_mod_converse(
        one * (6 * FIX_ONE - one) - 2 * (FIX_ONE as int) * (FIX_ONE as int),
        3 * one,
        one,
        0,
    );
    let m2 = 2 * one - 1;
    assert(m2 * (6 * FIX_ONE - m2) - 2 * (FIX_ONE as int) * (FIX_ONE as int) == (2 * one - 1) * (3
        * one) + (one - 1)) by (nonlinear_arith)
        requires
            one == FIX_ONE,
            m2 == 2 * one - 1,
            FIX_ONE == 0x1_0000_0000,
    ;
    lemma_fundamental_div_mod_converse(
        m2 * (6 * FIX_ONE - m2) - 2 * (FIX_ONE as int) * (FIX_ONE as int),
        3 * one,
        2 * one - 1,
        one - 1,
    );
    lemma_poly_mono(one, m);
    lemma_poly_mono(m, m2);
}

/// A mantissa step of at least 2 strictly increases the correction.
pub proof fn lemma_poly_strict(m1: int, m2: int)
    requires
        FIX_ONE <= m1,
        m1 + 2 <= m2,
        m2 <= 2 * FIX_ONE,
    ensures
        log2_poly(m1) < log2_poly(m2),
{
    let num1 = m1 * (6 * FIX_ONE - m1) - 2 * (FIX_ONE as int) * (FIX_ONE as int);
    let num2 = m2 * (6 * FIX_ONE - m2) - 2 * (FIX_ONE as int) * (FIX_ONE as int);
    assert(num1 + 3 * FIX_ONE <= num2) by (nonlinear_arith)
        requires
            FIX_ONE <= m1,
            m1 + 2 <= m2,
            m2 <= 2 * FIX_ONE,
            num1 == m1 * (6 * FIX_ONE - m1) - 2 * (FIX_ONE as int) * (FIX_ONE as int),
            num2 == m2 * (6 * FIX_ONE - m2) - 2 * (FIX_ONE as int) * (FIX_ONE as int),
    ;
    lemma_hoist_over_denominator(num1, 1, (3 * FIX_ONE) as nat);
    lemma_div_is_ordered(num1 + 3 * FIX_ONE, num2, 3 * FIX_ONE as int);
}

/// Doubling the argument raises the approximate logarithm by exactly one.
pub proof fn lemma_log2fix_double(x: int)
    requires
        x >= 1,
    ensures
        floor_log2(2 * x) == floor_log2(x) + 1,
        mant(2 * x) == mant(x),
        log2fix_s(2 * x) == log2fix_s(x) + FIX_ONE,
{
    lemma_floor_log2(x);
    let e = floor_log2(x);
    lemma2_to64();
    assert(pow2((e + 1) as nat) == 2 * pow2(e as nat)) by {
        lemma_pow2_adds(e as nat, 1);
        lemma_mul_is_commutative(pow2(e as nat) as int, 2);
    }
    assert(pow2((e + 2) as nat) == 2 * pow2((e + 1) as nat)) by {
        lemma_pow2_adds((e + 1) as nat, 1);
        lemma_mul_is_commutative(pow2((e + 1) as nat) as int, 2);
    }
    assert(pow2((e + 1) as nat) <= 2 * x && 2 * x < pow2((e + 2) as nat));
    lemma_floor_log2_unique(2 * x, (e + 1) as nat);
    if e >= 32 {
        let k = (e - 32) as nat;
        lemma_pow2_pos(k);
        assert(pow2((k + 1) as nat) == pow2(k) * 2) by {
            lemma_pow2_adds(k, 1);
        }
        vstd::arithmetic::div_mod::lemma_div_denominator(2 * x, 2, pow2(k) as int);
        assert(2 * x / 2 == x);
        lemma_mul_is_commutative(pow2(k) as int, 2);
        assert(mant(2 * x) == 2 * x / pow2((k + 1) as nat) as int);
    } else if e == 31 {
        lemma_pow2_pos(0);
        vstd::arithmetic::div_mod::lemma_div_by_self(1);
        vstd::arithmetic::div_mod::lemma_basic_div_specific_divisor(1);
        assert(mant(2 * x) == (2 * x) / pow2(0) as int);
        assert((2 * x) / 1int == 2 * x);
        lemma_mul_is_commutative(x, 2);
        assert(mant(x) == x * pow2(1) as int);
    } else {
        let k = (32 - e) as nat;
        lemma_pow2_pos((k - 1) as nat);
        assert(pow2(k) == 2 * pow2((k - 1) as nat)) by {
            lemma_pow2_adds((k - 1) as nat, 1);
            lemma_mul_is_commutative(pow2((k - 1) as nat) as int, 2);
        }
        assert(2 * x * pow2((k - 1) as nat) as int == x * (2 * pow2((k - 1) as nat) as int))
            by (nonlinear_arith);
        assert(mant(2 * x) == 2 * x * pow2((k - 1) as nat) as int);
    }
}

/// The approximate logarithm is monotone.
pub proof fn lemma_log2fix_mono(x1: int, x2: int)
    requires
        1 <= x1 <= x2,
    ensures
        log2fix_s(x1) <= log2fix_s(x2),
{
    lemma_floor_log2_mono(x1, x2);
    lemma_floor_log2(x1);
    lemma_floor_log2(x2);
    lemma_mant_range(x1);
    lemma_mant_range(x2);
    let e1 = floor_log2(x1);
    let e2 = floor_log2(x2);
    if e1 == e2 {
        if e1 >= 32 {
            lemma_pow2_pos((e1 - 32) as nat);
            lemma_div_is_ordered(x1, x2, pow2((e1 - 32) as nat) as int);
        } else {
            lemma_mul_inequality(x1, x2, pow2((32 - e1) as nat) as int);
        }
        lemma_poly_mono(mant(x1), mant(x2));
    } else {
        lemma_poly_range(mant(x1));
        lemma_poly_range(mant(x2));
    }
}

/// A gap of two mantissa units strictly increases the approximate
/// logarithm.
pub proof fn lemma_log2fix_strict(x1: int, x2: int)
    requires
        FIX_ONE <= x1,
        x1 + 2 * pow2((floor_log2(x1) - 32) as nat) <= x2,
    ensures
        log2fix_s(x1) < log2fix_s(x2),
{
    lemma2_to64();
    lemma_floor_log2(x1);
    lemma_floor_log2(x2);
    assert(floor_log2(x1) >= 32) by {
        lemma_floor_log2_mono(pow2(32) as int, x1);
        lemma_pow2_strictly_increases(32, 33);
        lemma_floor_log2_unique(pow2(32) as int, 32);
    }
    let e1 = floor_log2(x1);
    let e2 = floor_log2(x2);
    let k = (e1 - 32) as nat;
    lemma_pow2_pos(k);
    lemma_floor_log2_mono(x1, x2);
    lemma_mant_range(x1);
    lemma_mant_range(x2);
    if e1 == e2 {
        assert(mant(x1) + 2 <= mant(x2)) by {
            lemma_hoist_over_denominator(x1, 2, pow2(k));
            lemma_div_is_ordered(x1 + 2 * pow2(k), x2, pow2(k) as int);
        }
        lemma_poly_strict(mant(x1), mant(x2));
    } else {
        lemma_poly_range(mant(x1));
        lemma_poly_range(mant(x2));
    }
}

/// Bounds on the approximate logarithm from the exponent alone.
pub proof fn lemma_log2fix_bounds(x: int)
    requires
        x >= 1,
    ensures
        (floor_log2(x) - 32) * FIX_ONE <= log2fix_s(x) <= (floor_log2(x) - 31) * FIX_ONE - 1,
{
    lemma_mant_range(x);
    lemma_poly_range(mant(x));
}

/// Exponent of a positive scalar, as executable code: the loop peels one
/// bit per step.
fn exponent_u64(x: u64) -> (e: u64)
    requires
        x >= 1,
    ensures
        e == floor_log2(x as int),
        e <= 63,
{
    let mut e: u64 = 0;
    let mut t: u64 = x;
    proof {
        lemma2_to64();
    }
    while t >= 2
        invariant
            1 <= t,
            e <= 63,
            t == x as int / pow2(e as nat) as int,
            pow2(e as nat) <= x,
        decreases t,
    {
        proof {
            lemma_pow2_pos(e as nat);
            lemma_pow2_adds(e as nat, 1);
            lemma2_to64();
            lemma_mul_is_commutative(pow2(e as nat) as int, 2);
            vstd::arithmetic::div_mod::lemma_div_denominator(x as int, pow2(e as nat) as int, 2);
            lemma_fundamental_div_mod(x as int, pow2(e as nat) as int);
            assert(2 * pow2(e as nat) <= x) by (nonlinear_arith)
                requires
                    x as int / pow2(e as nat) as int >= 2,
                    pow2(e as nat) >= 1,
                    x as int == pow2(e as nat) as int * (x as int / pow2(e as nat) as int) + x as int
                        % pow2(e as nat) as int,
                    x as int % pow2(e as nat) as int >= 0,
            ;
            if e >= 63 {
                lemma2_to64_rest();
                lemma_pow2_le(63, e as nat);
                assert(false);
            }
        }
        t = t / 2;
        e = e + 1;
    }
    proof {
        lemma_pow2_pos(e as nat);
        lemma_fundamental_div_mod(x as int, pow2(e as nat) as int);
        assert(pow2((e + 1) as nat) == 2 * pow2(e as nat)) by {
            lemma_pow2_adds(e as nat, 1);
            lemma2_to64();
            lemma_mul_is_commutative(pow2(e as nat) as int, 2);
        }
        assert(x < pow2((e + 1) as nat)) by (nonlinear_arith)
            requires
                x as int / pow2(e as nat) as int == 1,
                x as int == pow2(e as nat) as int * (x as int / pow2(e as nat) as int) + x as int
                    % pow2(e as nat) as int,
                (x as int % pow2(e as nat) as int) < pow2(e as nat),
                pow2((e + 1) as nat) == 2 * pow2(e as nat),
        ;
        lemma_floor_log2_unique(x as int, e as nat);
    }
    e
}

/// 2^k, as executable code.
fn pow2_u64(k: u64) -> (r: u64)
    requires
        k <= 63,
    ensures
        r == pow2(k as nat),
        r >= 1,
{
    let mut i: u64 = 0;
    let mut r: u64 = 1;
    proof {
        lemma2_to64();
    }
    while i < k
        invariant
            i <= k <= 63,
            r == pow2(i as nat),
        decreases k - i,
    {
        proof {
            lemma_pow2_adds(i as nat, 1);
            lemma2_to64();
            lemma2_to64_rest();
            lemma_mul_is_commutative(pow2(i as nat) as int, 2);
            lemma_pow2_le(i as nat, 62);
        }
        r = r * 2;
        i = i + 1;
    }
    proof {
        lemma_pow2_pos(k as nat);
    }
    r
}

/// The fast approximate base-2 logarithm of a positive fixed-point
/// scalar. Exact at powers of two; within 0.009 of the true logarithm in
/// between.
pub fn fast_log2(x: i64) -> (r: i64)
    requires
        x >= 1,
    ensures
        r == log2fix_s(x as int),
{
    proof {
        lemma_floor_log2(x as int);
        lemma_floor_log2_le62(x as int);
        lemma_mant_range(x as int);
        lemma2_to64();
    }
    let e = exponent_u64(x as u64);
    let m: u64 = if e >= 32 {
        let d = pow2_u64(e - 32);
        (x as u64) / d
    } else {
        let f = pow2_u64(32 - e);
        proof {
            assert((x as u64) * f < 0x2_0000_0000) by (nonlinear_arith)
                requires
                    x as int * (f as int) < 0x2_0000_0000,
                    x >= 1,
                    f >= 1,
            ;
        }
        (x as u64) * f
    };
    let mu = m as u128;
    proof {
        assert(mu * (6 * 0x1_0000_0000 - mu) < 0x1_0000_0000_0000_0000_0000) by (nonlinear_arith)
            requires
                mu < 0x2_0000_0000,
        ;
        assert(mu * (6 * 0x1_0000_0000 - mu) >= 2 * 0x1_0000_0000 * 0x1_0000_0000)
            by (nonlinear_arith)
            requires
                0x1_0000_0000 <= mu < 0x2_0000_0000,
        ;
    }
    let num = mu * (6 * (FIX_ONE as u128) - mu) - 2 * (FIX_ONE as u128) * (FIX_ONE as u128);
    let p = num / (3 * (FIX_ONE as u128));
    proof {
        lemma_poly_range(m as int);
        assert(num == m as int * (6 * FIX_ONE - m as int) - 2 * (FIX_ONE as int) * (
        FIX_ONE as int));
        assert(p == log2_poly(m as int));
    }
    (p as i64) + ((e as i64) - 33) * FIX_ONE
}

/// The fast approximate natural logarithm: the base-2 logarithm rescaled
/// by ln(2).
pub fn fast_ln(x: i64) -> (r: i64)
    requires
        x >= 1,
    ensures
        r == ln_s(x as int),
{
    let l = fast_log2(x);
    proof {
        lemma_log2fix_bounds(x as int);
        lemma_floor_log2(x as int);
        lemma_floor_log2_le62(x as int);
    }
    crate::fixed::fix_mul(l, LN2_FIX)
}

} // verus!
