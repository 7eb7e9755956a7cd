//! Complex values over fixed-point scalars.
//!
//! A value is an immutable pair (re, im); every operation returns a new
//! value. The spec functions describe each operation exactly, over
//! mathematical integers, so the evaluator's iteration can be stated
//! without any bound.

use crate::fixed::{
    abs_i, abs_u64, fdiv, fix_div_checked, fix_mul, fmul, isqrt_u128, lemma_abs_mul,
    lemma_fmul_bound, lemma_square_bound, tdiv, FIX_ONE,
};
use vstd::prelude::*;

verus! {

/// Largest component magnitude the arithmetic here accepts; keeps every
/// intermediate product within an `i64` after rescaling.
pub const CPLX_COMP_MAX: i64 = 0x4000_0000_0000;

/// A complex value; both components are fixed-point scalars.
#[derive(Clone, Copy, Debug, PartialEq, Eq, Structural)]
pub struct Cplx {
    pub re: i64,
    pub im: i64,
}

/// Squared magnitude, as the fixed-point arithmetic computes it.
pub open spec fn sq_abs_s(a: int, b: int) -> int {
    fmul(a, a) + fmul(b, b)
}

/// Real part of the specialized squaring operation.
pub open spec fn square_re_s(a: int, b: int) -> int {
    fmul(a, a) - fmul(b, b)
}

/// Imaginary part of the specialized squaring operation: 2·a·b, rescaled
/// with a single truncation.
pub open spec fn square_im_s(a: int, b: int) -> int {
    tdiv(2 * (a * b), FIX_ONE as int)
}

/// Components within `m` give fixed-point products within `m * m / FIX_ONE`.
pub proof fn lemma_sq_abs_bounds(a: int, b: int, m: int)
    requires
        0 <= m,
        abs_i(a) <= m,
        abs_i(b) <= m,
    ensures
        0 <= sq_abs_s(a, b) <= 2 * (m * m / (FIX_ONE as int)),
        abs_i(square_re_s(a, b)) <= m * m / (FIX_ONE as int),
        abs_i(square_im_s(a, b)) <= 2 * (m * m / (FIX_ONE as int)) + 2,
{
    lemma_square_bound(a, m);
    lemma_square_bound(b, m);
    lemma_fmul_bound(a, a, m, m);
    lemma_fmul_bound(b, b, m, m);
    assert(fmul(a, a) >= 0 && fmul(b, b) >= 0) by {
        vstd::arithmetic::div_mod::lemma_div_pos_is_pos(a * a, FIX_ONE as int);
        vstd::arithmetic::div_mod::lemma_div_pos_is_pos(b * b, FIX_ONE as int);
    }
    assert(abs_i(2 * (a * b)) <= 2 * (m * m)) by (nonlinear_arith)
        requires
            abs_i(a) <= m,
            abs_i(b) <= m,
    ;
    assert(abs_i(tdiv(2 * (a * b), FIX_ONE as int)) == abs_i(2 * (a * b)) / (FIX_ONE as int));
    vstd::arithmetic::div_mod::lemma_div_is_ordered(
        abs_i(2 * (a * b)),
        2 * (m * m),
        FIX_ONE as int,
    );
    assert(2 * (m * m) / (FIX_ONE as int) <= 2 * (m * m / (FIX_ONE as int)) + 2) by {
        vstd::arithmetic::div_mod::lemma_breakdown(m * m, 2, FIX_ONE as int);
        assert(2 * (m * m) == (m * m) * 2) by (nonlinear_arith);
        assert((m * m) * 2 / (2 * FIX_ONE) * 2 <= m * m / (FIX_ONE as int) * 2 + 2) by {
            vstd::arithmetic::div_mod::lemma_div_denominator((m * m) * 2, 2, FIX_ONE as int);
        }
    }
    vstd::arithmetic::div_mod::lemma_div_pos_is_pos(2 * (m * m), FIX_ONE as int);
}

impl View for Cplx {
    type V = (int, int);

    open spec fn view(&self) -> (int, int) {
        (self.re as int, self.im as int)
    }
}

impl Cplx {
    /// The component bounds every method here asks for.
    pub open spec fn bounded(self, m: int) -> bool {
        abs_i(self.re as int) <= m && abs_i(self.im as int) <= m
    }

    /// Squared magnitude |z|^2.
    pub fn sq_abs(&self) -> (r: i64)
        requires
            self.bounded(CPLX_COMP_MAX as int),
        ensures
            r == sq_abs_s(self.re as int, self.im as int),
            0 <= r,
    {
        proof {
            lemma_sq_abs_bounds(self.re as int, self.im as int, CPLX_COMP_MAX as int);
        }
        fix_mul(self.re, self.re) + fix_mul(self.im, self.im)
    }

    /// Componentwise sum.
    pub fn add(self, rhs: Cplx) -> (r: Cplx)
        requires
            i64::MIN <= self.re + rhs.re <= i64::MAX,
            i64::MIN <= self.im + rhs.im <= i64::MAX,
        ensures
            r.re == self.re + rhs.re,
            r.im == self.im + rhs.im,
    {
        Cplx { re: self.re + rhs.re, im: self.im + rhs.im }
    }

    /// Componentwise negation.
    pub fn neg(self) -> (r: Cplx)
        requires
            self.re != i64::MIN,
            self.im != i64::MIN,
        ensures
            r.re == -self.re,
            r.im == -self.im,
    {
        Cplx { re: -self.re, im: -self.im }
    }

    /// Componentwise difference.
    pub fn sub(self, rhs: Cplx) -> (r: Cplx)
        requires
            i64::MIN <= self.re - rhs.re <= i64::MAX,
            i64::MIN <= self.im - rhs.im <= i64::MAX,
        ensures
            r.re == self.re - rhs.re,
            r.im == self.im - rhs.im,
    {
        Cplx { re: self.re - rhs.re, im: self.im - rhs.im }
    }

    /// General complex product: (a·c − b·d, a·d + b·c).
    pub fn mul(self, rhs: Cplx) -> (r: Cplx)
        requires
            self.bounded(CPLX_COMP_MAX as int),
            rhs.bounded(CPLX_COMP_MAX as int),
        ensures
            r.re == fmul(self.re as int, rhs.re as int) - fmul(self.im as int, rhs.im as int),
            r.im == fmul(self.re as int, rhs.im as int) + fmul(self.im as int, rhs.re as int),
    {
        proof {
            lemma_fmul_bound(self.re as int, rhs.re as int, CPLX_COMP_MAX as int, CPLX_COMP_MAX as int);
            lemma_fmul_bound(self.im as int, rhs.im as int, CPLX_COMP_MAX as int, CPLX_COMP_MAX as int);
            lemma_fmul_bound(self.re as int, rhs.im as int, CPLX_COMP_MAX as int, CPLX_COMP_MAX as int);
            lemma_fmul_bound(self.im as int, rhs.re as int, CPLX_COMP_MAX as int, CPLX_COMP_MAX as int);
        }
        Cplx {
            re: fix_mul(self.re, rhs.re) - fix_mul(self.im, rhs.im),
            im: fix_mul(self.re, rhs.im) + fix_mul(self.im, rhs.re),
        }
    }

    /// The squaring operation used on the iteration hot path:
    /// (a² − b², 2·a·b), the imaginary part rescaled with one truncation.
    pub fn square(&self) -> (r: Cplx)
        requires
            self.bounded(CPLX_COMP_MAX as int),
        ensures
            r.re == square_re_s(self.re as int, self.im as int),
            r.im == square_im_s(self.re as int, self.im as int),
    {
        proof {
            lemma_sq_abs_bounds(self.re as int, self.im as int, CPLX_COMP_MAX as int);
        }
        let rr = fix_mul(self.re, self.re);
        let ii = fix_mul(self.im, self.im);
        let neg = (self.re < 0) != (self.im < 0);
        let aa = abs_u64(self.re) as u128;
        let bb = abs_u64(self.im) as u128;
        proof {
            assert(2 * (aa * bb) <= 2 * (0x4000_0000_0000 * 0x4000_0000_0000)) by (nonlinear_arith)
                requires
                    aa <= 0x4000_0000_0000,
                    bb <= 0x4000_0000_0000,
            ;
        }
        let q = (2 * (aa * bb)) / (FIX_ONE as u128);
        proof {
            lemma_abs_mul(self.re as int, self.im as int);
            assert(abs_i(2 * (self.re as int * self.im as int)) == 2 * (aa * bb)) by (nonlinear_arith)
                requires
                    abs_i(self.re as int * self.im as int) == aa * bb,
            ;
            if neg {
                assert(2 * (self.re as int * self.im as int) <= 0) by (nonlinear_arith)
                    requires
                        (self.re < 0) != (self.im < 0),
                ;
            } else {
                assert(2 * (self.re as int * self.im as int) >= 0) by (nonlinear_arith)
                    requires
                        (self.re < 0) == (self.im < 0),
                ;
            }
            vstd::arithmetic::div_mod::lemma_div_is_ordered(
                (2 * (aa * bb)) as int,
                2 * (0x4000_0000_0000int * 0x4000_0000_0000int),
                FIX_ONE as int,
            );
        }
        let im2 = if neg {
            -(q as i64)
        } else {
            q as i64
        };
        Cplx { re: rr - ii, im: im2 }
    }

    /// Magnitude |z|: the integer square root of the rescaled squared
    /// magnitude. The contract pins the result down exactly: it is the
    /// unique r with r² ≤ |z|²·FIX_ONE < (r+1)².
    pub fn abs(&self) -> (r: i64)
        requires
            self.bounded(CPLX_COMP_MAX as int),
        ensures
            0 <= r,
            r * r <= sq_abs_s(self.re as int, self.im as int) * FIX_ONE,
            sq_abs_s(self.re as int, self.im as int) * FIX_ONE < (r + 1) * (r + 1),
    {
        let s = self.sq_abs();
        let su = s as u128;
        proof {
            lemma_sq_abs_bounds(self.re as int, self.im as int, CPLX_COMP_MAX as int);
            assert(su * (FIX_ONE as u128) < 0x4000_0000_0000_0000_0000_0000) by (nonlinear_arith)
                requires
                    su <= 0x2000_0000_0000_0000,
                    FIX_ONE == 0x1_0000_0000,
            ;
        }
        let n = su * (FIX_ONE as u128);
        let r = isqrt_u128(n);
        r as i64
    }

    /// Complex division, via the conjugate: fails (`None`) when the
    /// divisor's squared magnitude underflows to zero, or when a quotient
    /// component does not fit in an `i64`.
    pub fn div(self, rhs: Cplx) -> (r: Option<Cplx>)
        requires
            self.bounded(0x40_0000_0000),
            rhs.bounded(0x40_0000_0000),
        ensures
            ({
                let ccdd = sq_abs_s(rhs.re as int, rhs.im as int);
                let nre = fmul(self.re as int, rhs.re as int) + fmul(self.im as int, rhs.im as int);
                let nim = fmul(self.im as int, rhs.re as int) - fmul(self.re as int, rhs.im as int);
                match r {
                    Some(z) => ccdd != 0 && z.re == fdiv(nre, ccdd) && z.im == fdiv(nim, ccdd),
                    None => ccdd == 0 || abs_i(fdiv(nre, ccdd)) > i64::MAX || abs_i(
                        fdiv(nim, ccdd),
                    ) > i64::MAX,
                }
            }),
    {
        proof {
            lemma_sq_abs_bounds(rhs.re as int, rhs.im as int, 0x40_0000_0000);
            lemma_fmul_bound(self.re as int, rhs.re as int, 0x40_0000_0000, 0x40_0000_0000);
            lemma_fmul_bound(self.im as int, rhs.im as int, 0x40_0000_0000, 0x40_0000_0000);
            lemma_fmul_bound(self.im as int, rhs.re as int, 0x40_0000_0000, 0x40_0000_0000);
            lemma_fmul_bound(self.re as int, rhs.im as int, 0x40_0000_0000, 0x40_0000_0000);
        }
        let ccdd = fix_mul(rhs.re, rhs.re) + fix_mul(rhs.im, rhs.im);
        let nre = fix_mul(self.re, rhs.re) + fix_mul(self.im, rhs.im);
        let nim = fix_mul(self.im, rhs.re) - fix_mul(self.re, rhs.im);
        let qre = match fix_div_checked(nre, ccdd) {
            Some(v) => v,
            None => {
                return None;
            },
        };
        let qim = match fix_div_checked(nim, ccdd) {
            Some(v) => v,
            None => {
                return None;
            },
        };
        Some(Cplx { re: qre, im: qim })
    }
}

} // verus!
