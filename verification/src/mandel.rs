//! The escape-time evaluator.
//!
//! A `Mandel` value carries one coordinate of the parameter plane and an
//! iteration bound, and evaluates the divergence of z ← z² + c at that
//! coordinate: either a smoothed (fractional) escape value, or the
//! interior sentinel when the bound is exhausted. The evaluator is
//! stateless apart from the cached result, reentrant, and allocates
//! nothing.

use crate::cplx::{
    lemma_sq_abs_bounds, sq_abs_s, square_im_s, square_re_s, Cplx, CPLX_COMP_MAX,
};
use crate::fixed::{
    abs_i, fmul, lemma_fmul_ordered, lemma_fmul_shift, lemma_tdiv_nonneg, FIX_ONE,
};
use crate::log2::{
    fast_ln, fast_log2, floor_log2, lemma_floor_log2_le62, lemma_floor_log2_mono,
    lemma_floor_log2_unique, lemma_log2fix_bounds, lemma_log2fix_double, lemma_log2fix_mono,
    lemma_log2fix_strict, ln_s, log2fix_s, LN2_FIX,
};
use vstd::arithmetic::div_mod::{lemma_div_is_ordered, lemma_hoist_over_denominator};
use vstd::arithmetic::power2::{lemma2_to64, lemma2_to64_rest, pow2};
use vstd::prelude::*;

verus! {

/// Squared escape radius for the smoothed evaluation (M = 32; a large M
/// reduces visible banding in the smoothing step).
pub const ESCAPE_SQ_SMOOTH: i64 = 1024 * FIX_ONE;

/// Squared escape radius for the raw (unsmoothed) escape count (M = 2).
pub const ESCAPE_SQ_RAW: i64 = 4 * FIX_ONE;

/// Squared escape radius used by the Julia-set variant (M = 10).
pub const ESCAPE_SQ_JULIA: i64 = 100 * FIX_ONE;

/// Largest coordinate component the evaluator accepts.
pub const COORD_MAX: i64 = 8192 * FIX_ONE;

/// Largest iteration bound the evaluator accepts; keeps the smoothed
/// value within an `i64`.
pub const ITER_LIMIT: usize = 0x4000_0000;

/// Result of evaluating one coordinate: a finite smoothed divergence
/// measurement, or the sentinel for "iteration bound reached without
/// divergence" (the point is presumed to belong to the bounded set).
/// A raster additionally distinguishes cells not yet computed; that
/// third state is `Option::<Sample>::None`, so the three states can
/// never be confused.
#[derive(Clone, Copy, Debug, PartialEq, Eq, Structural)]
pub enum Sample {
    Finite(i64),
    Interior,
}

impl Sample {
    /// Whether this sample is a finite measurement.
    pub fn is_finite(&self) -> (r: bool)
        ensures
            r == (self is Finite),
    {
        match self {
            Sample::Finite(_) => true,
            Sample::Interior => false,
        }
    }
}

/// One iteration step z² + c, over unbounded integers.
pub open spec fn step_s(z: (int, int), c: (int, int)) -> (int, int) {
    (square_re_s(z.0, z.1) + c.0, square_im_s(z.0, z.1) + c.1)
}

/// The k-th iterate of z ← z² + c, starting from z0.
pub open spec fn iter_s(z0: (int, int), c: (int, int), k: nat) -> (int, int)
    decreases k,
{
    if k == 0 {
        z0
    } else {
        step_s(iter_s(z0, c, (k - 1) as nat), c)
    }
}

/// Whether the j-th iterate has reached the squared escape radius `t`.
pub open spec fn escapes_at(z0: (int, int), c: (int, int), t: int, j: nat) -> bool {
    sq_abs_s(iter_s(z0, c, j).0, iter_s(z0, c, j).1) >= t
}

/// The least index j < fuel at which the iteration escapes, if any.
pub open spec fn first_escape(z0: (int, int), c: (int, int), t: int, fuel: nat) -> Option<nat>
    decreases fuel,
{
    if fuel == 0 {
        None
    } else {
        match first_escape(z0, c, t, (fuel - 1) as nat) {
            Some(j) => Some(j),
            None => if escapes_at(z0, c, t, (fuel - 1) as nat) {
                Some((fuel - 1) as nat)
            } else {
                None
            },
        }
    }
}

/// Half the approximate natural logarithm.
pub open spec fn half_ln_s(x: int) -> int {
    ln_s(x) / 2
}

/// The smoothed escape value for an escape detected at index j (that is,
/// at the (j+1)-th border test): (j+1) − log2(ln(|z_j|²) / 2), as the
/// fixed-point arithmetic computes it.
pub open spec fn smooth_s(z0: (int, int), c: (int, int), j: nat) -> int {
    (j + 1) * FIX_ONE - log2fix_s(
        half_ln_s(sq_abs_s(iter_s(z0, c, j).0, iter_s(z0, c, j).1)),
    )
}

/// What evaluating a coordinate returns: the smoothed value of the first
/// escape within the bound, or the interior sentinel.
pub open spec fn eval_sample(z0: (int, int), c: (int, int), t: int, n_max: int) -> Sample {
    match first_escape(z0, c, t, (n_max - 1) as nat) {
        Some(j) => Sample::Finite(smooth_s(z0, c, j) as i64),
        None => Sample::Interior,
    }
}

/// The smoothed field sample at coordinate c.
pub open spec fn mandel_sample(c: (int, int), n_max: int) -> Sample {
    eval_sample(c, c, ESCAPE_SQ_SMOOTH as int, n_max)
}

/// The raw escape count at coordinate c: the loop index of the first
/// escape, or the bound itself when none occurs.
pub open spec fn raw_count_s(c: (int, int), n_max: int) -> int {
    match first_escape(c, c, ESCAPE_SQ_RAW as int, (n_max - 1) as nat) {
        Some(j) => j as int + 1,
        None => n_max,
    }
}

/// A `None` scan means no index below the fuel escapes.
pub proof fn lemma_first_escape_none(z0: (int, int), c: (int, int), t: int, fuel: nat)
    requires
        first_escape(z0, c, t, fuel) is None,
    ensures
        forall|j: nat| j < fuel ==> !escapes_at(z0, c, t, j),
    decreases fuel,
{
    if fuel > 0 {
        lemma_first_escape_none(z0, c, t, (fuel - 1) as nat);
    }
}

/// Once an escape is found just past a clean prefix, every larger fuel
/// reports exactly that index.
pub proof fn lemma_first_escape_found(z0: (int, int), c: (int, int), t: int, b: nat, fuel: nat)
    requires
        first_escape(z0, c, t, b) is None,
        escapes_at(z0, c, t, b),
        b < fuel,
    ensures
        first_escape(z0, c, t, fuel) == Some(b),
    decreases fuel,
{
    if fuel > b + 1 {
        lemma_first_escape_found(z0, c, t, b, (fuel - 1) as nat);
    }
}

/// A component whose fixed-point square stays below 1025·FIX_ONE is
/// below 33·FIX_ONE in magnitude.
proof fn lemma_comp_bound(a: int)
    requires
        fmul(a, a) < 1025 * FIX_ONE,
    ensures
        abs_i(a) <= 33 * FIX_ONE,
{
    if abs_i(a) > 33 * FIX_ONE {
        assert(a * a >= (33 * FIX_ONE) * (33 * FIX_ONE)) by (nonlinear_arith)
            requires
                abs_i(a) > 33 * FIX_ONE,
        ;
        assert((33 * FIX_ONE) * (33 * FIX_ONE) == 1089 * FIX_ONE * FIX_ONE) by (nonlinear_arith);
        lemma_tdiv_nonneg(a * a, FIX_ONE as int);
        lemma_div_is_ordered(1089 * FIX_ONE * FIX_ONE, a * a, FIX_ONE as int);
        assert((1089 * FIX_ONE * FIX_ONE) / (FIX_ONE as int) == 1089 * FIX_ONE) by {
            vstd::arithmetic::div_mod::lemma_div_by_multiple(1089 * FIX_ONE, FIX_ONE as int);
            assert(1089 * FIX_ONE * FIX_ONE == (1089 * FIX_ONE) * FIX_ONE);
        }
        assert(false);
    }
}

/// Range of the half-logarithm for the squared magnitudes seen at an
/// escape: at least 2·FIX_ONE, and its exponent stays at most 36.
proof fn lemma_half_ln_range(x: int)
    requires
        ESCAPE_SQ_JULIA <= x < 0x8000_0000_0000_0000,
    ensures
        2 * FIX_ONE <= half_ln_s(x),
        half_ln_s(x) < 0x20_0000_0000,
        ln_s(x) >= 0,
{
    lemma2_to64();
    lemma2_to64_rest();
    lemma_floor_log2_le62(x);
    assert(floor_log2(x) >= 38) by {
        lemma_floor_log2_mono(pow2(38) as int, x);
        lemma_floor_log2_unique(pow2(38) as int, 38);
    }
    lemma_log2fix_bounds(x);
    assert(log2fix_s(x) >= 6 * FIX_ONE);
    assert(log2fix_s(x) <= 31 * FIX_ONE);
    lemma_fmul_ordered(6 * FIX_ONE, log2fix_s(x), LN2_FIX as int);
    lemma_fmul_ordered(log2fix_s(x), 31 * FIX_ONE, LN2_FIX as int);
    lemma_fmul_shift(0, 6, LN2_FIX as int);
    lemma_fmul_shift(0, 31, LN2_FIX as int);
    assert(fmul(0, LN2_FIX as int) == 0);
    assert(ln_s(x) >= 6 * (LN2_FIX as int));
    assert(ln_s(x) <= 31 * (LN2_FIX as int));
    assert(half_ln_s(x) >= (6 * (LN2_FIX as int)) / 2) by {
        lemma_div_is_ordered(6 * (LN2_FIX as int), ln_s(x), 2);
    }
    assert(half_ln_s(x) <= (31 * (LN2_FIX as int)) / 2) by {
        lemma_div_is_ordered(ln_s(x), 31 * (LN2_FIX as int), 2);
    }
}

/// The half-logarithm is monotone over the escape range.
proof fn lemma_half_ln_mono(x1: int, x2: int)
    requires
        1 <= x1 <= x2,
    ensures
        half_ln_s(x1) <= half_ln_s(x2),
        ln_s(x1) <= ln_s(x2),
{
    lemma_log2fix_mono(x1, x2);
    lemma_fmul_ordered(log2fix_s(x1), log2fix_s(x2), LN2_FIX as int);
    lemma_div_is_ordered(ln_s(x1), ln_s(x2), 2);
}

/// The evaluator of one coordinate.
#[derive(Clone, Copy)]
pub struct Mandel {
    c: Cplx,
    n: Option<Sample>,
    zp: Option<(i64, i64)>,
    n_max: usize,
}

impl Mandel {
    /// The coordinate this evaluator was built for.
    pub closed spec fn coord(self) -> Cplx {
        self.c
    }

    /// The cached evaluation result, `None` until computed.
    pub closed spec fn state(self) -> Option<Sample> {
        self.n
    }

    /// The stored shading orientation (reserved; nothing computes it).
    pub closed spec fn shadow_field(self) -> Option<(i64, i64)> {
        self.zp
    }

    /// The iteration bound.
    pub closed spec fn bound(self) -> usize {
        self.n_max
    }

    /// The machine bounds under which every method here operates.
    pub open spec fn wf(self) -> bool {
        &&& self.coord().bounded(COORD_MAX as int)
        &&& 1 <= self.bound() <= ITER_LIMIT
    }

    /// A fresh, not yet computed evaluator for coordinate `c`.
    pub fn new(c: Cplx, n_max: usize) -> (m: Mandel)
        requires
            c.bounded(COORD_MAX as int),
            1 <= n_max <= ITER_LIMIT,
        ensures
            m.coord() == c,
            m.bound() == n_max,
            m.state() is None,
            m.shadow_field() is None,
            m.wf(),
    {
        Mandel { c, n_max, zp: None, n: None }
    }

    /// A placeholder evaluator at the origin with the default bound.
    pub fn new_empty() -> (m: Mandel)
        ensures
            m.coord() == (Cplx { re: 0, im: 0 }),
            m.bound() == 256,
            m.state() is None,
            m.shadow_field() is None,
            m.wf(),
    {
        Mandel { c: Cplx { re: 0, im: 0 }, n_max: 256, zp: None, n: None }
    }

    /// The raw escape count: the index of the loop pass that first sees
    /// |z|² ≥ 4, or the bound when none does.
    pub fn get_mandel(&self) -> (r: usize)
        requires
            self.wf(),
        ensures
            r == raw_count_s(self.coord()@, self.bound() as int),
            1 <= r <= self.bound(),
    {
        match scan_escape(self.c, self.c, ESCAPE_SQ_RAW, self.n_max) {
            Some((i, _z)) => i,
            None => self.n_max,
        }
    }

    /// The cached result: `None` while nothing has been computed, then
    /// the sample (finite or interior sentinel).
    pub fn get_finished(&self) -> (r: Option<Sample>)
        ensures
            r == self.state(),
    {
        self.n
    }

    /// The shading orientation for relief shading, available only once a
    /// result has been computed. Nothing populates the underlying field,
    /// so a computed evaluator still reports the stored `None`.
    pub fn get_shadow(&self) -> (r: Option<(i64, i64)>)
        ensures
            r == (if self.state() is Some {
                self.shadow_field()
            } else {
                None
            }),
    {
        if self.n.is_some() {
            self.zp
        } else {
            None
        }
    }

    /// Evaluate the coordinate: iterate z ← z² + c from z = c, testing
    /// |z|² against the squared escape radius before each pass, and cache
    /// either the smoothed escape value or the interior sentinel.
    pub fn calculate_mandel_smooth(&mut self)
        requires
            old(self).wf(),
        ensures
            final(self).coord() == old(self).coord(),
            final(self).bound() == old(self).bound(),
            final(self).shadow_field() == old(self).shadow_field(),
            final(self).wf(),
            final(self).state() == Some(
                mandel_sample(old(self).coord()@, old(self).bound() as int),
            ),
    {
        let s = match scan_escape(self.c, self.c, ESCAPE_SQ_SMOOTH, self.n_max) {
            Some((i, z)) => {
                proof {
                    lemma_smooth_in_range(self.c@, self.c@, (i - 1) as nat, z@);
                }
                Sample::Finite(smooth_value(i, &z))
            },
            None => Sample::Interior,
        };
        self.n = Some(s);
    }

    /// The smoothed escape value of the Julia-style iteration: z starts
    /// from this evaluator's coordinate and `c` is the supplied
    /// parameter (escape radius M = 10).
    pub fn get_julia_smooth(&self, c: Cplx) -> (r: Sample)
        requires
            self.wf(),
            c.bounded(COORD_MAX as int),
        ensures
            r == eval_sample(self.coord()@, c@, ESCAPE_SQ_JULIA as int, self.bound() as int),
    {
        match scan_escape(self.c, c, ESCAPE_SQ_JULIA, self.n_max) {
            Some((i, z)) => {
                proof {
                    lemma_smooth_in_range(self.c@, c@, (i - 1) as nat, z@);
                }
                Sample::Finite(smooth_value(i, &z))
            },
            None => Sample::Interior,
        }
    }
}

/// Run the escape loop: starting from z0, iterate z ← z² + c at most
/// n_max − 1 times, testing the squared magnitude against `t` before
/// each pass. Returns the loop index and iterate of the first escape, or
/// `None` when the bound is exhausted.
fn scan_escape(z0: Cplx, c: Cplx, t: i64, n_max: usize) -> (r: Option<(usize, Cplx)>)
    requires
        z0.bounded(COORD_MAX as int),
        c.bounded(COORD_MAX as int),
        ESCAPE_SQ_RAW <= t <= ESCAPE_SQ_SMOOTH,
        1 <= n_max <= ITER_LIMIT,
    ensures
        match r {
            Some(iz) => {
                &&& first_escape(z0@, c@, t as int, (n_max - 1) as nat) == Some(
                    (iz.0 - 1) as nat,
                )
                &&& 1 <= iz.0 < n_max
                &&& iz.1@ == iter_s(z0@, c@, (iz.0 - 1) as nat)
                &&& iz.1.bounded(CPLX_COMP_MAX as int)
                &&& sq_abs_s(iz.1@.0, iz.1@.1) >= t
            },
            None => first_escape(z0@, c@, t as int, (n_max - 1) as nat) is None,
        },
{
    let mut z = z0;
    let mut i: usize = 1;
    proof {
        assert(COORD_MAX < CPLX_COMP_MAX);
    }
    while i < n_max
        invariant
            1 <= i <= n_max,
            n_max <= ITER_LIMIT,
            z0.bounded(COORD_MAX as int),
            c.bounded(COORD_MAX as int),
            ESCAPE_SQ_RAW <= t <= ESCAPE_SQ_SMOOTH,
            z@ == iter_s(z0@, c@, (i - 1) as nat),
            z.bounded(CPLX_COMP_MAX as int),
            first_escape(z0@, c@, t as int, (i - 1) as nat) is None,
        decreases n_max - i,
    {
        let s = z.sq_abs();
        if s >= t {
            proof {
                lemma_first_escape_found(z0@, c@, t as int, (i - 1) as nat, (n_max - 1) as nat);
            }
            return Some((i, z));
        }
        proof {
            assert(fmul(z.re as int, z.re as int) >= 0 && fmul(z.im as int, z.im as int) >= 0) by {
                crate::fixed::lemma_square_bound(z.re as int, CPLX_COMP_MAX as int);
                crate::fixed::lemma_square_bound(z.im as int, CPLX_COMP_MAX as int);
                vstd::arithmetic::div_mod::lemma_div_pos_is_pos(
                    z.re as int * z.re as int,
                    FIX_ONE as int,
                );
                vstd::arithmetic::div_mod::lemma_div_pos_is_pos(
                    z.im as int * z.im as int,
                    FIX_ONE as int,
                );
            }
            lemma_comp_bound(z.re as int);
            lemma_comp_bound(z.im as int);
            lemma_sq_abs_bounds(z.re as int, z.im as int, 33 * FIX_ONE);
            assert((33 * FIX_ONE) * (33 * FIX_ONE) / (FIX_ONE as int) == 1089 * FIX_ONE) by {
                assert((33 * FIX_ONE) * (33 * FIX_ONE) == (1089 * FIX_ONE) * FIX_ONE)
                    by (nonlinear_arith);
                vstd::arithmetic::div_mod::lemma_div_by_multiple(1089 * FIX_ONE, FIX_ONE as int);
            }
        }
        let zn = z.square().add(c);
        z = zn;
        i = i + 1;
    }
    None
}

/// The smoothed value is always well within an `i64`.
proof fn lemma_smooth_in_range(z0: (int, int), c: (int, int), j: nat, z: (int, int))
    requires
        z == iter_s(z0, c, j),
        abs_i(z.0) <= CPLX_COMP_MAX,
        abs_i(z.1) <= CPLX_COMP_MAX,
        sq_abs_s(z.0, z.1) >= ESCAPE_SQ_JULIA,
        j + 1 <= ITER_LIMIT,
    ensures
        abs_i(smooth_s(z0, c, j)) < 0x7fff_ffff_ffff_ffff,
        smooth_s(z0, c, j) == (j + 1) * FIX_ONE - log2fix_s(half_ln_s(sq_abs_s(z.0, z.1))),
{
    let s = sq_abs_s(z.0, z.1);
    lemma_sq_abs_upper(z.0, z.1);
    lemma_half_ln_range(s);
    lemma_log2fix_bounds(half_ln_s(s));
    lemma_floor_log2_le62(half_ln_s(s));
    crate::log2::lemma_floor_log2(half_ln_s(s));
    assert((j + 1) * FIX_ONE <= 0x4000_0000 * 0x1_0000_0000) by (nonlinear_arith)
        requires
            1 <= j + 1 <= 0x4000_0000,
            FIX_ONE == 0x1_0000_0000,
    ;
    assert((j + 1) * FIX_ONE >= FIX_ONE) by (nonlinear_arith)
        requires
            j + 1 >= 1,
            FIX_ONE == 0x1_0000_0000,
    ;
}

/// Squared magnitudes of bounded components stay below 2^62.
proof fn lemma_sq_abs_upper(a: int, b: int)
    requires
        abs_i(a) <= CPLX_COMP_MAX,
        abs_i(b) <= CPLX_COMP_MAX,
    ensures
        0 <= sq_abs_s(a, b) < 0x8000_0000_0000_0000,
{
    lemma_sq_abs_bounds(a, b, CPLX_COMP_MAX as int);
}

/// Turn an escape detected at loop index `i` into the smoothed value:
/// i − log2(ln(|z|²) / 2).
fn smooth_value(i: usize, z: &Cplx) -> (v: i64)
    requires
        1 <= i <= ITER_LIMIT,
        z.bounded(CPLX_COMP_MAX as int),
        sq_abs_s(z.re as int, z.im as int) >= ESCAPE_SQ_JULIA,
    ensures
        v == i * FIX_ONE - log2fix_s(half_ln_s(sq_abs_s(z.re as int, z.im as int))),
{
    let s = z.sq_abs();
    proof {
        lemma_sq_abs_upper(z.re as int, z.im as int);
        lemma_half_ln_range(s as int);
    }
    let l = fast_ln(s);
    let half = ((l as u64) / 2) as i64;
    proof {
        lemma_log2fix_bounds(half as int);
        lemma_floor_log2_le62(half as int);
        crate::log2::lemma_floor_log2(half as int);
        assert(i * FIX_ONE <= 0x4000_0000 * 0x1_0000_0000) by (nonlinear_arith)
            requires
                1 <= i <= 0x4000_0000,
                FIX_ONE == 0x1_0000_0000,
        ;
        assert(i * FIX_ONE >= FIX_ONE) by (nonlinear_arith)
            requires
                i >= 1,
                FIX_ONE == 0x1_0000_0000,
        ;
    }
    let lg = fast_log2(half);
    (i as i64) * FIX_ONE - lg
}

/// Law: the origin never escapes — for every iteration bound the
/// evaluator returns the interior sentinel at c = 0.
pub proof fn lemma_origin_interior(n_max: int)
    requires
        n_max >= 1,
    ensures
        mandel_sample((0, 0), n_max) == Sample::Interior,
{
    lemma_iter_zero((n_max - 1) as nat);
    lemma_zero_never_escapes((n_max - 1) as nat);
}

/// Every iterate at the origin is the origin.
proof fn lemma_iter_zero(k: nat)
    ensures
        iter_s((0, 0), (0, 0), k) == (0int, 0int),
    decreases k,
{
    if k > 0 {
        lemma_iter_zero((k - 1) as nat);
    }
}

proof fn lemma_zero_never_escapes(fuel: nat)
    ensures
        first_escape((0, 0), (0, 0), ESCAPE_SQ_SMOOTH as int, fuel) is None,
    decreases fuel,
{
    if fuel > 0 {
        lemma_zero_never_escapes((fuel - 1) as nat);
        lemma_iter_zero((fuel - 1) as nat);
    }
}

/// The smoothed value of an escape at the very first test lies in a
/// narrow band just below zero.
proof fn lemma_first_smooth_bounds(s: int)
    requires
        ESCAPE_SQ_JULIA <= s < 0x8000_0000_0000_0000,
    ensures
        -(6 * FIX_ONE) <= FIX_ONE - log2fix_s(half_ln_s(s)) <= 0,
{
    lemma_half_ln_range(s);
    let h = half_ln_s(s);
    lemma_log2fix_bounds(h);
    crate::log2::lemma_floor_log2(h);
    lemma2_to64();
    lemma2_to64_rest();
    assert(floor_log2(h) >= 33) by {
        lemma_floor_log2_mono(pow2(33) as int, h);
        lemma_floor_log2_unique(pow2(33) as int, 33);
    }
    assert(floor_log2(h) <= 36) by {
        if floor_log2(h) > 36 {
            crate::log2::lemma_pow2_le(37, floor_log2(h) as nat);
            assert(false);
        }
    }
}

/// Law: a coordinate already beyond the escape radius is reported
/// finite immediately — the first border test trips, and the sample is
/// the smoothed value of escape index 0.
pub proof fn lemma_immediate_escape(c: (int, int), n_max: int)
    requires
        sq_abs_s(c.0, c.1) >= ESCAPE_SQ_SMOOTH,
        sq_abs_s(c.0, c.1) < 0x8000_0000_0000_0000,
        n_max >= 2,
    ensures
        mandel_sample(c, n_max) == Sample::Finite(smooth_s(c, c, 0) as i64),
        i64::MIN <= smooth_s(c, c, 0) <= i64::MAX,
{
    assert(iter_s(c, c, 0) == c);
    assert(first_escape(c, c, ESCAPE_SQ_SMOOTH as int, 0) is None);
    lemma_first_escape_found(c, c, ESCAPE_SQ_SMOOTH as int, 0, (n_max - 1) as nat);
    lemma_first_smooth_bounds(sq_abs_s(c.0, c.1));
}

/// Law: among coordinates that escape immediately, the smoothed value
/// never increases as the squared magnitude grows.
pub proof fn lemma_escape_value_monotone(c1: (int, int), c2: (int, int))
    requires
        ESCAPE_SQ_SMOOTH <= sq_abs_s(c1.0, c1.1),
        sq_abs_s(c1.0, c1.1) <= sq_abs_s(c2.0, c2.1),
        sq_abs_s(c2.0, c2.1) < 0x8000_0000_0000_0000,
    ensures
        smooth_s(c2, c2, 0) <= smooth_s(c1, c1, 0),
        i64::MIN <= smooth_s(c2, c2, 0) && smooth_s(c1, c1, 0) <= i64::MAX,
{
    let s1 = sq_abs_s(c1.0, c1.1);
    let s2 = sq_abs_s(c2.0, c2.1);
    lemma_first_smooth_bounds(s1);
    lemma_first_smooth_bounds(s2);
    lemma_half_ln_range(s1);
    lemma_half_ln_range(s2);
    lemma_half_ln_mono(s1, s2);
    lemma_log2fix_mono(half_ln_s(s1), half_ln_s(s2));
}

/// Law: among coordinates that escape immediately, doubling the squared
/// magnitude strictly decreases the smoothed value. (Pointwise strict
/// decrease cannot hold of a fixed-precision value: two adjacent
/// representable magnitudes can smooth to the same scalar.)
pub proof fn lemma_escape_value_strict(c1: (int, int), c2: (int, int))
    requires
        ESCAPE_SQ_SMOOTH <= sq_abs_s(c1.0, c1.1),
        2 * sq_abs_s(c1.0, c1.1) <= sq_abs_s(c2.0, c2.1),
        sq_abs_s(c2.0, c2.1) < 0x8000_0000_0000_0000,
    ensures
        smooth_s(c2, c2, 0) < smooth_s(c1, c1, 0),
        i64::MIN <= smooth_s(c2, c2, 0) && smooth_s(c1, c1, 0) <= i64::MAX,
{
    let s1 = sq_abs_s(c1.0, c1.1);
    let s2 = sq_abs_s(c2.0, c2.1);
    lemma_first_smooth_bounds(s1);
    lemma_first_smooth_bounds(s2);
    let l1 = log2fix_s(s1);
    lemma_half_ln_range(s1);
    lemma_half_ln_range(s2);
    lemma_log2fix_double(s1);
    lemma_log2fix_mono(2 * s1, s2);
    assert(log2fix_s(s2) >= l1 + FIX_ONE);
    lemma_log2fix_bounds(s1);
    crate::log2::lemma_floor_log2(s1);
    assert(l1 >= 0);
    assert(ln_s(s2) >= ln_s(s1) + LN2_FIX) by {
        lemma_fmul_shift(l1, 1, LN2_FIX as int);
        lemma_fmul_ordered(l1 + FIX_ONE, log2fix_s(s2), LN2_FIX as int);
    }
    assert(half_ln_s(s2) >= half_ln_s(s1) + 1488522235) by {
        lemma_hoist_over_denominator(ln_s(s1), 1488522235, 2);
        lemma_div_is_ordered(ln_s(s1) + 2 * 1488522235, ln_s(s2), 2);
    }
    let h1 = half_ln_s(s1);
    let h2 = half_ln_s(s2);
    assert(floor_log2(h1) <= 36) by {
        lemma2_to64();
        lemma2_to64_rest();
        crate::log2::lemma_floor_log2(h1);
        if floor_log2(h1) > 36 {
            crate::log2::lemma_pow2_le(37, floor_log2(h1) as nat);
            assert(false);
        }
    }
    assert(floor_log2(h1) >= 32) by {
        lemma2_to64();
        lemma2_to64_rest();
        vstd::arithmetic::power2::lemma_pow2_strictly_increases(32, 33);
        lemma_floor_log2_mono(pow2(32) as int, h1);
        lemma_floor_log2_unique(pow2(32) as int, 32);
    }
    assert(2 * pow2((floor_log2(h1) - 32) as nat) <= 1488522235) by {
        crate::log2::lemma_pow2_le((floor_log2(h1) - 32) as nat, 4);
        lemma2_to64();
    }
    lemma_log2fix_strict(h1, h2);
}

} // verus!
