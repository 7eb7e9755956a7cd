//! The viewport configuration and the pixel/parameter mapping.
//!
//! A `Config` is an immutable-for-one-computation snapshot of raster
//! size, zoom factor, center offset and iteration bound; it is copied by
//! value into every concurrent task. The affine mapping
//! `parameter = (pixel − size/2) / min(width, height) / zoom + offset`
//! is used identically on the forward (request) and inverse (recentring)
//! paths, and the round-trip lemma shows the inverse reproduces a pixel
//! within one unit for every well-formed configuration.

use crate::cplx::Cplx;
use crate::fixed::{
    abs_i, div_trunc, fdiv, fix_div, fix_mul, fmul, lemma_abs_mul, lemma_fmul_bound,
    lemma_tdiv_bound, lemma_tdiv_fundamental, mul_scale_down, tdiv, FIX_ONE,
};
use crate::mandel::{COORD_MAX, ITER_LIMIT};
use vstd::prelude::*;

verus! {

/// Smallest zoom factor accepted (1/256: the whole plane fits many times
/// over in view).
pub const ZOOM_MIN: i64 = 0x100_0000;

/// Largest zoom factor accepted (2^15: bounded by the precision of the
/// fixed-point plane — deeper zooms would map adjacent pixels to one
/// parameter value).
pub const ZOOM_MAX: i64 = 0x8000_0000_0000;

/// Largest raster dimension accepted.
pub const SIZE_MAX: usize = 65536;

/// Largest center-offset component accepted.
pub const OFFSET_MAX: i64 = 0x800_0000_0000;

/// A snapshot of the view: raster size, zoom, center offset in parameter
/// space, and the iteration bound handed to the evaluator.
#[derive(Clone, Copy, Debug, PartialEq, Eq)]
pub struct Config {
    pub size: (usize, usize),
    pub zoom: i64,
    pub offset: Cplx,
    pub iter_max: usize,
}

impl Config {
    /// The bounds every mapping and scheduling function asks of a
    /// configuration. The aspect ratio is capped at 16 so that pixel
    /// offsets keep a bounded parameter-space image.
    pub open spec fn wf(self) -> bool {
        &&& 1 <= self.size.0 <= SIZE_MAX
        &&& 1 <= self.size.1 <= SIZE_MAX
        &&& self.size.0 <= 16 * self.size.1
        &&& self.size.1 <= 16 * self.size.0
        &&& ZOOM_MIN <= self.zoom <= ZOOM_MAX
        &&& self.offset.bounded(OFFSET_MAX as int)
        &&& 1 <= self.iter_max <= ITER_LIMIT
    }

    /// The well-formedness bounds, decided at run time.
    pub fn check_wf(&self) -> (r: bool)
        ensures
            r == self.wf(),
    {
        1 <= self.size.0 && self.size.0 <= SIZE_MAX && 1 <= self.size.1 && self.size.1 <= SIZE_MAX
            && self.size.0 <= 16 * self.size.1 && self.size.1 <= 16 * self.size.0 && ZOOM_MIN
            <= self.zoom && self.zoom <= ZOOM_MAX && -OFFSET_MAX <= self.offset.re
            && self.offset.re <= OFFSET_MAX && -OFFSET_MAX <= self.offset.im && self.offset.im
            <= OFFSET_MAX && 1 <= self.iter_max && self.iter_max <= ITER_LIMIT
    }

    /// The documented default view: the whole set centered at −0.5, at
    /// quarter zoom, 256 iterations, on a 640×480 raster.
    pub fn default_view() -> (c: Config)
        ensures
            c == default_view_s(),
            c.wf(),
    {
        Config { size: (640, 480), zoom: 0x4000_0000, offset: Cplx { re: -0x8000_0000i64, im: 0 }, iter_max: 256 }
    }
}

/// The default view, as a value.
pub open spec fn default_view_s() -> Config {
    Config { size: (640, 480), zoom: 0x4000_0000, offset: Cplx { re: -0x8000_0000i64, im: 0 }, iter_max: 256 }
}

/// The shorter raster side.
pub open spec fn min_side(cfg: Config) -> int {
    if cfg.size.0 < cfg.size.1 {
        cfg.size.0 as int
    } else {
        cfg.size.1 as int
    }
}

/// One axis of the forward mapping: pixel offset from the raster center,
/// divided by the shorter side and the zoom, plus the center offset.
pub open spec fn axis_to_param(p: int, half: int, mn: int, zoom: int, off: int) -> int {
    fdiv(tdiv((p - half) * FIX_ONE, mn), zoom) + off
}

/// The forward mapping: the parameter-plane point under pixel (x, y).
pub open spec fn pix_to_param(cfg: Config, x: int, y: int) -> (int, int) {
    (
        axis_to_param(x, cfg.size.0 as int / 2, min_side(cfg), cfg.zoom as int, cfg.offset.re as int),
        axis_to_param(y, cfg.size.1 as int / 2, min_side(cfg), cfg.zoom as int, cfg.offset.im as int),
    )
}

/// One axis of the inverse mapping.
pub open spec fn axis_to_pix(z: int, half: int, mn: int, zoom: int, off: int) -> int {
    tdiv(fmul(z - off, zoom) * mn, FIX_ONE as int) + half
}

/// The inverse mapping: the pixel under a parameter-plane point.
pub open spec fn param_to_pix(cfg: Config, zx: int, zy: int) -> (int, int) {
    (
        axis_to_pix(zx, cfg.size.0 as int / 2, min_side(cfg), cfg.zoom as int, cfg.offset.re as int),
        axis_to_pix(zy, cfg.size.1 as int / 2, min_side(cfg), cfg.zoom as int, cfg.offset.im as int),
    )
}

/// The image of an in-raster pixel stays within `COORD_MAX` of the
/// origin (so it can be handed to the evaluator).
pub proof fn lemma_axis_to_param_bound(p: int, half: int, mn: int, zoom: int, off: int)
    requires
        1 <= mn <= SIZE_MAX,
        abs_i(p - half) <= 16 * mn,
        ZOOM_MIN <= zoom <= ZOOM_MAX,
        abs_i(off) <= OFFSET_MAX,
    ensures
        abs_i(axis_to_param(p, half, mn, zoom, off)) <= COORD_MAX - OFFSET_MAX,
        abs_i(tdiv((p - half) * FIX_ONE, mn)) <= 16 * FIX_ONE,
        abs_i(fdiv(tdiv((p - half) * FIX_ONE, mn), zoom)) <= 4096 * FIX_ONE,
{
    let u = p - half;
    assert(abs_i(u * FIX_ONE) <= (16 * FIX_ONE) * abs_i(mn)) by (nonlinear_arith)
        requires
            abs_i(u) <= 16 * mn,
            mn >= 1,
            FIX_ONE == 0x1_0000_0000,
    ;
    lemma_tdiv_bound(u * FIX_ONE, mn, 16 * FIX_ONE);
    let t = tdiv(u * FIX_ONE, mn);
    assert(abs_i(t * FIX_ONE) <= (4096 * FIX_ONE) * abs_i(zoom)) by (nonlinear_arith)
        requires
            abs_i(t) <= 16 * FIX_ONE,
            zoom >= FIX_ONE / 256,
            FIX_ONE == 0x1_0000_0000,
    ;
    lemma_tdiv_bound(t * FIX_ONE, zoom, 4096 * FIX_ONE);
}

/// The image of an in-raster pixel of a well-formed configuration stays
/// within `COORD_MAX` of the origin.
pub proof fn lemma_pix_param_in_range(cfg: Config, x: int, y: int)
    requires
        cfg.wf(),
        0 <= x < cfg.size.0,
        0 <= y < cfg.size.1,
    ensures
        abs_i(pix_to_param(cfg, x, y).0) <= COORD_MAX,
        abs_i(pix_to_param(cfg, x, y).1) <= COORD_MAX,
{
    lemma_axis_to_param_bound(
        x,
        cfg.size.0 as int / 2,
        min_side(cfg),
        cfg.zoom as int,
        cfg.offset.re as int,
    );
    lemma_axis_to_param_bound(
        y,
        cfg.size.1 as int / 2,
        min_side(cfg),
        cfg.zoom as int,
        cfg.offset.im as int,
    );
}

/// The forward mapping, as executable code.
pub fn pos_to_cplx(x: usize, y: usize, config: &Config) -> (z: Cplx)
    requires
        config.wf(),
        x < config.size.0,
        y < config.size.1,
    ensures
        z@ == pix_to_param(*config, x as int, y as int),
        z.bounded(COORD_MAX as int),
{
    let w = config.size.0;
    let h = config.size.1;
    let mn: i64 = if w < h {
        w as i64
    } else {
        h as i64
    };
    proof {
        lemma_axis_to_param_bound(
            x as int,
            w as int / 2,
            mn as int,
            config.zoom as int,
            config.offset.re as int,
        );
        lemma_axis_to_param_bound(
            y as int,
            h as int / 2,
            mn as int,
            config.zoom as int,
            config.offset.im as int,
        );
    }
    let ux: i64 = x as i64 - (w / 2) as i64;
    let uy: i64 = y as i64 - (h / 2) as i64;
    let tx = div_trunc(ux * FIX_ONE, mn);
    let ty = div_trunc(uy * FIX_ONE, mn);
    let re = fix_div(tx, config.zoom) + config.offset.re;
    let im = fix_div(ty, config.zoom) + config.offset.im;
    Cplx { re, im }
}

/// The inverse mapping, as executable code. Accepts any point the
/// evaluator can produce, raster-space or not; the result may lie
/// outside the raster.
pub fn cplx_to_pos(z: Cplx, config: &Config) -> (p: (i64, i64))
    requires
        config.wf(),
        z.bounded(crate::cplx::CPLX_COMP_MAX as int),
    ensures
        (p.0 as int, p.1 as int) == param_to_pix(*config, z.re as int, z.im as int),
{
    let w = config.size.0;
    let h = config.size.1;
    let mn: i64 = if w < h {
        w as i64
    } else {
        h as i64
    };
    proof {
        lemma_fmul_bound(
            z.re - config.offset.re,
            config.zoom as int,
            0x5000_0000_0000,
            ZOOM_MAX as int,
        );
        lemma_fmul_bound(
            z.im - config.offset.im,
            config.zoom as int,
            0x5000_0000_0000,
            ZOOM_MAX as int,
        );
        lemma_scale_bound(fmul(z.re - config.offset.re, config.zoom as int), mn as int);
        lemma_scale_bound(fmul(z.im - config.offset.im, config.zoom as int), mn as int);
    }
    let sx = fix_mul(z.re - config.offset.re, config.zoom);
    let sy = fix_mul(z.im - config.offset.im, config.zoom);
    let px = mul_scale_down(sx, mn) + (w / 2) as i64;
    let py = mul_scale_down(sy, mn) + (h / 2) as i64;
    (px, py)
}

/// Bound needed by the final rescaling of the inverse mapping.
proof fn lemma_scale_bound(s: int, mn: int)
    requires
        abs_i(s) <= 0x5000_0000_0000_0000,
        1 <= mn <= 65536,
    ensures
        abs_i(s) * mn / (FIX_ONE as int) <= 0x4000_0000_0000_0000,
        abs_i(tdiv(s * mn, FIX_ONE as int)) <= 0x5000_0000_0000,
{
    assert(abs_i(s) * mn <= 0x5000_0000_0000_0000 * 0x1_0000) by (nonlinear_arith)
        requires
            abs_i(s) <= 0x5000_0000_0000_0000,
            0 <= mn <= 0x1_0000,
    ;
    vstd::arithmetic::div_mod::lemma_div_is_ordered(
        abs_i(s) * mn,
        0x5000_0000_0000_0000int * 0x1_0000,
        FIX_ONE as int,
    );
    vstd::arithmetic::div_mod::lemma_div_pos_is_pos(abs_i(s) * mn, FIX_ONE as int);
    lemma_abs_mul(s, mn);
    assert(abs_i(s * mn) <= 0x5000_0000_0000 * abs_i(FIX_ONE as int)) by (nonlinear_arith)
        requires
            abs_i(s * mn) == abs_i(s) * abs_i(mn),
            abs_i(s) <= 0x5000_0000_0000_0000,
            0 <= mn <= 0x1_0000,
            FIX_ONE == 0x1_0000_0000,
    ;
    lemma_tdiv_bound(s * mn, FIX_ONE as int, 0x5000_0000_0000);
}

/// Law: the inverse affine transform reproduces a pixel within one unit
/// of rounding error, for every pixel within raster bounds, on one axis.
proof fn lemma_axis_round_trip(u: int, mn: int, zoom: int)
    requires
        1 <= mn <= 65536,
        ZOOM_MIN <= zoom <= ZOOM_MAX,
        abs_i(u) <= 16 * mn,
    ensures
        ({
            let t = tdiv(u * FIX_ONE, mn);
            let v = fdiv(t, zoom);
            let p = tdiv(fmul(v, zoom) * mn, FIX_ONE as int);
            abs_i(p - u) <= 1
        }),
{
    let one = FIX_ONE as int;
    let t = tdiv(u * FIX_ONE, mn);
    let v = fdiv(t, zoom);
    let s = fmul(v, zoom);
    let p = tdiv(s * mn, one);
    lemma_tdiv_fundamental(u * one, mn);
    let r1 = u * one - t * mn;
    lemma_tdiv_fundamental(t * one, zoom);
    let r2 = t * one - v * zoom;
    lemma_tdiv_fundamental(v * zoom, one);
    let r3 = v * zoom - s * one;
    lemma_tdiv_fundamental(s * mn, one);
    let r4 = s * mn - p * one;
    assert((s - t) * one == -(r2 + r3)) by (nonlinear_arith)
        requires
            r2 == t * one - v * zoom,
            r3 == v * zoom - s * one,
    ;
    assert((p - u) * one * one == (s - t) * one * mn - r1 * one - r4 * one) by (nonlinear_arith)
        requires
            r1 == u * one - t * mn,
            r4 == s * mn - p * one,
    ;
    assert(abs_i((p - u) * (one * one)) < 2 * (one * one)) by (nonlinear_arith)
        requires
            (p - u) * one * one == (s - t) * one * mn - r1 * one - r4 * one,
            (s - t) * one == -(r2 + r3),
            abs_i(r1) < mn,
            abs_i(r2) < zoom,
            abs_i(r3) < one,
            abs_i(r4) < one,
            1 <= mn <= 65536,
            zoom <= 32768 * one,
            one == 0x1_0000_0000,
    ;
    lemma_abs_mul(p - u, one * one);
    assert(one * one == 0x1_0000_0000_0000_0000) by (nonlinear_arith)
        requires
            one == 0x1_0000_0000,
    ;
    assert(abs_i(p - u) * 0x1_0000_0000_0000_0000 < 2 * 0x1_0000_0000_0000_0000);
    assert(abs_i(p - u) <= 1);
}

/// Law: mapping pixel → parameter → pixel through the forward and
/// inverse affine transforms reproduces the original pixel coordinate
/// within one unit of rounding error, for every pixel within raster
/// bounds of a well-formed configuration.
pub proof fn lemma_round_trip(cfg: Config, x: int, y: int)
    requires
        cfg.wf(),
        0 <= x < cfg.size.0,
        0 <= y < cfg.size.1,
    ensures
        ({
            let z = pix_to_param(cfg, x, y);
            let p = param_to_pix(cfg, z.0, z.1);
            abs_i(p.0 - x) <= 1 && abs_i(p.1 - y) <= 1
        }),
{
    let mn = min_side(cfg);
    lemma_axis_round_trip(x - cfg.size.0 as int / 2, mn, cfg.zoom as int);
    lemma_axis_round_trip(y - cfg.size.1 as int / 2, mn, cfg.zoom as int);
}

} // verus!
