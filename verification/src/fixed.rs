//! Signed fixed-point scalars.
//!
//! A scalar is an `i64` holding a real value scaled by `FIX_ONE` (2^32).
//! Products and quotients are computed in 128-bit intermediates and
//! truncated toward zero, exactly as the spec functions `fmul` and
//! `fdiv` describe.

use vstd::arithmetic::div_mod::{
    lemma_div_is_ordered, lemma_div_pos_is_pos, lemma_fundamental_div_mod,
};
use vstd::arithmetic::mul::lemma_mul_inequality;
use vstd::prelude::*;

verus! {

/// The fixed-point scaling factor: the representation of the real number 1.
pub const FIX_ONE: i64 = 0x1_0000_0000;

/// Largest magnitude accepted for each factor of a fixed-point product;
/// keeps the scaled product within an `i64`.
pub const FIX_FACTOR_MAX: i64 = 0x8000_0000_0000;

/// Magnitude of a mathematical integer.
pub open spec fn abs_i(x: int) -> int {
    if x >= 0 {
        x
    } else {
        -x
    }
}

/// Truncating (round-toward-zero) integer division, the rounding used by
/// all fixed-point operations here.
pub open spec fn tdiv(n: int, d: int) -> int {
    if (n >= 0) == (d >= 0) {
        abs_i(n) / abs_i(d)
    } else {
        -(abs_i(n) / abs_i(d))
    }
}

/// Fixed-point product: the real product of the two scalars, rescaled and
/// truncated toward zero.
pub open spec fn fmul(a: int, b: int) -> int {
    tdiv(a * b, FIX_ONE as int)
}

/// Fixed-point quotient: the real quotient of the two scalars, rescaled and
/// truncated toward zero.
pub open spec fn fdiv(a: int, b: int) -> int {
    tdiv(a * FIX_ONE, b)
}

/// For a nonnegative dividend and a positive divisor, truncating division
/// is Euclidean division.
pub proof fn lemma_tdiv_nonneg(n: int, d: int)
    requires
        n >= 0,
        d > 0,
    ensures
        tdiv(n, d) == n / d,
{
}

/// Truncating division is monotone in the dividend.
pub proof fn lemma_tdiv_ordered(n1: int, n2: int, d: int)
    requires
        n1 <= n2,
        d > 0,
    ensures
        tdiv(n1, d) <= tdiv(n2, d),
{
    if n1 >= 0 {
        lemma_div_is_ordered(n1, n2, d);
    } else if n2 < 0 {
        lemma_div_is_ordered(-n2, -n1, d);
    } else {
        lemma_div_pos_is_pos(-n1, d);
        lemma_div_pos_is_pos(n2, d);
    }
}

/// The remainder a truncating division drops is smaller than the divisor
/// in magnitude and has the sign of the dividend.
pub proof fn lemma_tdiv_fundamental(n: int, d: int)
    requires
        d > 0,
    ensures
        n == tdiv(n, d) * d + (n - tdiv(n, d) * d),
        abs_i(n - tdiv(n, d) * d) < d,
        n >= 0 ==> 0 <= n - tdiv(n, d) * d,
        n <= 0 ==> n - tdiv(n, d) * d <= 0,
{
    if n >= 0 {
        lemma_fundamental_div_mod(n, d);
        assert(n - (n / d) * d == n % d) by (nonlinear_arith)
            requires
                n == d * (n / d) + n % d,
        ;
    } else {
        lemma_fundamental_div_mod(-n, d);
        assert((-n) - ((-n) / d) * d == (-n) % d) by (nonlinear_arith)
            requires
                -n == d * ((-n) / d) + (-n) % d,
        ;
        assert(tdiv(n, d) * d == -(((-n) / d) * d)) by (nonlinear_arith)
            requires
                tdiv(n, d) == -((-n) / d),
        ;
    }
}

/// A quotient's magnitude from a bound on the dividend.
pub proof fn lemma_tdiv_bound(n: int, d: int, b: int)
    requires
        d != 0,
        0 <= b,
        abs_i(n) <= b * abs_i(d),
    ensures
        abs_i(tdiv(n, d)) <= b,
{
    lemma_abs_mul(b, d);
    vstd::arithmetic::div_mod::lemma_div_is_ordered(abs_i(n), b * abs_i(d), abs_i(d));
    vstd::arithmetic::div_mod::lemma_div_by_multiple(b, abs_i(d));
    lemma_div_pos_is_pos(abs_i(n), abs_i(d));
}

/// Magnitudes multiply.
pub proof fn lemma_abs_mul(a: int, b: int)
    by (nonlinear_arith)
    ensures
        abs_i(a * b) == abs_i(a) * abs_i(b),
{
}

/// Magnitude of a scalar, as executable code.
pub fn abs_u64(a: i64) -> (r: u64)
    requires
        a != i64::MIN,
    ensures
        r == abs_i(a as int),
{
    if a >= 0 {
        a as u64
    } else {
        (-a) as u64
    }
}

/// Fixed-point multiplication.
pub fn fix_mul(a: i64, b: i64) -> (r: i64)
    requires
        -FIX_FACTOR_MAX <= a <= FIX_FACTOR_MAX,
        -FIX_FACTOR_MAX <= b <= FIX_FACTOR_MAX,
    ensures
        r == fmul(a as int, b as int),
        abs_i(r as int) <= abs_i(a as int) * abs_i(b as int) / (FIX_ONE as int),
{
    let neg = (a < 0) != (b < 0);
    let aa = abs_u64(a) as u128;
    let bb = abs_u64(b) as u128;
    proof {
        assert(aa * bb <= 0x8000_0000_0000 * 0x8000_0000_0000) by (nonlinear_arith)
            requires
                aa <= 0x8000_0000_0000,
                bb <= 0x8000_0000_0000,
        ;
    }
    let q = (aa * bb) / (FIX_ONE as u128);
    proof {
        lemma_abs_mul(a as int, b as int);
        lemma_div_is_ordered(
            (aa * bb) as int,
            0x8000_0000_0000int * 0x8000_0000_0000int,
            FIX_ONE as int,
        );
        if neg {
            assert(a as int * b as int <= 0) by (nonlinear_arith)
                requires
                    (a < 0) != (b < 0),
            ;
        } else {
            assert(a as int * b as int >= 0) by (nonlinear_arith)
                requires
                    (a < 0) == (b < 0),
            ;
        }
    }
    if neg {
        -(q as i64)
    } else {
        q as i64
    }
}

/// Fixed-point division. The result bound in `requires` is what the
/// machine forces: the rescaled quotient must fit in an `i64`.
pub fn fix_div(a: i64, b: i64) -> (r: i64)
    requires
        b != 0,
        -FIX_FACTOR_MAX <= a <= FIX_FACTOR_MAX,
        -FIX_FACTOR_MAX <= b <= FIX_FACTOR_MAX,
        abs_i(fdiv(a as int, b as int)) <= 0x4000_0000_0000_0000,
    ensures
        r == fdiv(a as int, b as int),
{
    let neg = (a < 0) != (b < 0);
    let aa = (abs_u64(a) as u128) * (FIX_ONE as u128);
    let bb = abs_u64(b) as u128;
    let q = aa / bb;
    proof {
        lemma_abs_mul(a as int, FIX_ONE as int);
        assert((a as int * FIX_ONE >= 0) == (a >= 0)) by (nonlinear_arith)
            requires
                FIX_ONE == 0x1_0000_0000,
        ;
    }
    if neg {
        -(q as i64)
    } else {
        q as i64
    }
}

/// Fixed-point division that reports failure instead of demanding bounds:
/// `None` exactly when the divisor is zero or the rescaled quotient does
/// not fit in an `i64`.
pub fn fix_div_checked(a: i64, b: i64) -> (r: Option<i64>)
    requires
        a != i64::MIN,
        b != i64::MIN,
    ensures
        b == 0 ==> r is None,
        b != 0 ==> match r {
            Some(v) => v == fdiv(a as int, b as int),
            None => abs_i(fdiv(a as int, b as int)) > i64::MAX,
        },
{
    if b == 0 {
        return None;
    }
    let neg = (a < 0) != (b < 0);
    let a_abs = abs_u64(a);
    proof {
        assert((a_abs as u128) * (FIX_ONE as u128) <= 0xFFFF_FFFF_FFFF_FFFF * 0x1_0000_0000)
            by (nonlinear_arith)
            requires
                a_abs <= 0xFFFF_FFFF_FFFF_FFFF,
                FIX_ONE == 0x1_0000_0000,
        ;
    }
    let aa = (a_abs as u128) * (FIX_ONE as u128);
    let bb = abs_u64(b) as u128;
    let q = aa / bb;
    proof {
        lemma_abs_mul(a as int, FIX_ONE as int);
        assert((a as int * FIX_ONE >= 0) == (a >= 0)) by (nonlinear_arith)
            requires
                FIX_ONE == 0x1_0000_0000,
        ;
    }
    if q > i64::MAX as u128 {
        return None;
    }
    if neg {
        Some(-(q as i64))
    } else {
        Some(q as i64)
    }
}

/// The rescaled product of a scalar and a plain (unscaled) nonnegative
/// multiplier: tdiv(a·m, FIX_ONE).
pub fn mul_scale_down(a: i64, m: i64) -> (r: i64)
    requires
        a != i64::MIN,
        0 <= m <= 65536,
        abs_i(a as int) * m / (FIX_ONE as int) <= 0x4000_0000_0000_0000,
    ensures
        r == tdiv(a as int * m, FIX_ONE as int),
{
    let neg = a < 0;
    let aa = abs_u64(a) as u128;
    let mm = m as u128;
    proof {
        assert(aa * mm <= 0x8000_0000_0000_0000 * 0x1_0000) by (nonlinear_arith)
            requires
                aa <= 0x8000_0000_0000_0000,
                mm <= 0x1_0000,
        ;
    }
    let q = (aa * mm) / (FIX_ONE as u128);
    proof {
        lemma_abs_mul(a as int, m as int);
        if neg {
            assert(a as int * m <= 0) by (nonlinear_arith)
                requires
                    a < 0,
                    m >= 0,
            ;
        } else {
            assert(a as int * m >= 0) by (nonlinear_arith)
                requires
                    a >= 0,
                    m >= 0,
            ;
        }
    }
    if neg {
        -(q as i64)
    } else {
        q as i64
    }
}

/// Integer square root, by bisection.
pub fn isqrt_u128(n: u128) -> (r: u128)
    requires
        n < 0x4000_0000_0000_0000_0000_0000,
    ensures
        r * r <= n < (r + 1) * (r + 1),
        r < 0x8000_0000_0000,
{
    let mut lo: u128 = 0;
    let mut hi: u128 = 0x8000_0000_0000;
    proof {
        assert(hi * hi > n) by (nonlinear_arith)
            requires
                n < 0x4000_0000_0000_0000_0000_0000,
                hi == 0x8000_0000_0000,
        ;
    }
    while lo + 1 < hi
        invariant
            lo < hi,
            hi <= 0x8000_0000_0000,
            lo * lo <= n,
            n < hi * hi,
        decreases hi - lo,
    {
        let mid = lo + (hi - lo) / 2;
        proof {
            assert(mid * mid < 0x8000_0000_0000 * 0x8000_0000_0000) by (nonlinear_arith)
                requires
                    mid < 0x8000_0000_0000,
            ;
        }
        if mid * mid <= n {
            lo = mid;
        } else {
            hi = mid;
        }
    }
    lo
}

/// Truncating division on plain (unscaled) scalars.
pub fn div_trunc(a: i64, b: i64) -> (r: i64)
    requires
        b != 0,
        a != i64::MIN,
        b != i64::MIN,
    ensures
        r == tdiv(a as int, b as int),
{
    let neg = (a < 0) != (b < 0);
    let q = abs_u64(a) / abs_u64(b);
    proof {
        vstd::arithmetic::div_mod::lemma_div_is_ordered_by_denominator(
            abs_i(a as int),
            1,
            abs_i(b as int),
        );
    }
    if neg {
        -(q as i64)
    } else {
        q as i64
    }
}

/// A product of two nonnegative factors bounded by `m` is at most `m * m`.
pub proof fn lemma_square_bound(a: int, m: int)
    by (nonlinear_arith)
    requires
        abs_i(a) <= m,
    ensures
        0 <= a * a <= m * m,
{
}

/// Bounding both factors bounds the product.
pub proof fn lemma_mul_abs_bound(a: int, b: int, ma: int, mb: int)
    by (nonlinear_arith)
    requires
        abs_i(a) <= ma,
        abs_i(b) <= mb,
    ensures
        abs_i(a * b) <= ma * mb,
{
}

/// Bound on a fixed-point product, derived from bounds on its factors.
pub proof fn lemma_fmul_bound(a: int, b: int, ma: int, mb: int)
    requires
        abs_i(a) <= ma,
        abs_i(b) <= mb,
    ensures
        abs_i(fmul(a, b)) <= ma * mb / (FIX_ONE as int),
{
    lemma_mul_abs_bound(a, b, ma, mb);
    lemma_abs_mul(a, b);
    lemma_div_is_ordered(abs_i(a) * abs_i(b), ma * mb, FIX_ONE as int);
    lemma_div_pos_is_pos_or_zero(abs_i(a) * abs_i(b), FIX_ONE as int);
}

proof fn lemma_div_pos_is_pos_or_zero(x: int, d: int)
    requires
        x >= 0,
        d > 0,
    ensures
        x / d >= 0,
{
    lemma_div_pos_is_pos(x, d);
}

/// `fmul` is monotone in its first argument when the second is positive.
pub proof fn lemma_fmul_ordered(a1: int, a2: int, b: int)
    requires
        a1 <= a2,
        b > 0,
    ensures
        fmul(a1, b) <= fmul(a2, b),
{
    lemma_mul_inequality(a1, a2, b);
    lemma_tdiv_ordered(a1 * b, a2 * b, FIX_ONE as int);
}

/// Adding an exact multiple of one to a nonnegative scalar shifts its
/// fixed-point product by an exact multiple.
pub proof fn lemma_fmul_shift(a: int, k: int, b: int)
    requires
        a >= 0,
        k >= 0,
        b > 0,
    ensures
        fmul(a + k * FIX_ONE, b) == fmul(a, b) + k * b,
{
    assert((a + k * FIX_ONE) * b == a * b + (k * b) * FIX_ONE) by (nonlinear_arith);
    assert(a * b >= 0 && k * b >= 0) by (nonlinear_arith)
        requires
            a >= 0,
            k >= 0,
            b > 0,
    ;
    lemma_tdiv_nonneg(a * b, FIX_ONE as int);
    lemma_tdiv_nonneg(a * b + (k * b) * FIX_ONE, FIX_ONE as int);
    vstd::arithmetic::div_mod::lemma_hoist_over_denominator(a * b, k * b, FIX_ONE as nat);
}

} // verus!
