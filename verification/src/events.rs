//! View-state transitions behind the interactive requests.
//!
//! Each request from the input layer — zoom in or out around a clicked
//! pixel, recenter, resize, change the iteration bound, reset — becomes a
//! pure function from the current configuration to the next one. A
//! transition whose result would leave the machine bounds of `Config::wf`
//! returns the configuration unchanged, so every reachable configuration
//! stays well-formed. The input layer performs the I/O and hands pixel
//! coordinates here.

use crate::cplx::Cplx;
use crate::mandel::ITER_LIMIT;
use crate::viewport::{pix_to_param, pos_to_cplx, Config, ZOOM_MAX, ZOOM_MIN};
use vstd::prelude::*;

verus! {

/// The configuration after a zoom step to factor `z2`: the offset is
/// recentered so the clicked pixel keeps its parameter-space position up
/// to the mapping's rounding — computed, as on the forward path, from
/// the affine mapping itself.
pub open spec fn rezoom_s(cfg: Config, x: int, y: int, z2: int) -> Config {
    let c2 = Config { size: cfg.size, zoom: z2 as i64, offset: cfg.offset, iter_max: cfg.iter_max };
    let p = pix_to_param(cfg, x, y);
    let q = pix_to_param(c2, x, y);
    let m = pix_to_param(c2, cfg.size.0 as int / 2, cfg.size.1 as int / 2);
    Config {
        size: cfg.size,
        zoom: z2 as i64,
        offset: Cplx { re: (p.0 - q.0 + m.0) as i64, im: (p.1 - q.1 + m.1) as i64 },
        iter_max: cfg.iter_max,
    }
}

/// The configuration recentered on the parameter point under a pixel.
pub open spec fn recenter_s(cfg: Config, x: int, y: int) -> Config {
    let p = pix_to_param(cfg, x, y);
    Config {
        size: cfg.size,
        zoom: cfg.zoom,
        offset: Cplx { re: p.0 as i64, im: p.1 as i64 },
        iter_max: cfg.iter_max,
    }
}

/// Double the zoom factor, keeping the parameter point under pixel
/// (x, y) fixed; unchanged when the result would leave the bounds.
pub fn zoom_in(config: &Config, x: usize, y: usize) -> (r: Config)
    requires
        config.wf(),
        x < config.size.0,
        y < config.size.1,
    ensures
        r.wf(),
        ({
            let cand = rezoom_s(*config, x as int, y as int, 2 * config.zoom);
            if 2 * config.zoom <= ZOOM_MAX && cand.wf() {
                r == cand
            } else {
                r == *config
            }
        }),
{
    if config.zoom > 0x4000_0000_0000 {
        return *config;
    }
    let c2 = Config {
        size: config.size,
        zoom: config.zoom * 2,
        offset: config.offset,
        iter_max: config.iter_max,
    };
    let p = pos_to_cplx(x, y, config);
    let q = pos_to_cplx(x, y, &c2);
    let m = pos_to_cplx(config.size.0 / 2, config.size.1 / 2, &c2);
    let cand = Config {
        size: config.size,
        zoom: c2.zoom,
        offset: Cplx { re: p.re - q.re + m.re, im: p.im - q.im + m.im },
        iter_max: config.iter_max,
    };
    if cand.check_wf() {
        cand
    } else {
        *config
    }
}

/// Halve the zoom factor, keeping the parameter point under pixel (x, y)
/// fixed; unchanged when the result would leave the bounds.
pub fn zoom_out(config: &Config, x: usize, y: usize) -> (r: Config)
    requires
        config.wf(),
        x < config.size.0,
        y < config.size.1,
    ensures
        r.wf(),
        ({
            let cand = rezoom_s(*config, x as int, y as int, config.zoom as int / 2);
            if config.zoom / 2 >= ZOOM_MIN && cand.wf() {
                r == cand
            } else {
                r == *config
            }
        }),
{
    let half = ((config.zoom as u64) / 2) as i64;
    if half < ZOOM_MIN {
        return *config;
    }
    let c2 = Config {
        size: config.size,
        zoom: half,
        offset: config.offset,
        iter_max: config.iter_max,
    };
    let p = pos_to_cplx(x, y, config);
    let q = pos_to_cplx(x, y, &c2);
    let m = pos_to_cplx(config.size.0 / 2, config.size.1 / 2, &c2);
    let cand = Config {
        size: config.size,
        zoom: c2.zoom,
        offset: Cplx { re: p.re - q.re + m.re, im: p.im - q.im + m.im },
        iter_max: config.iter_max,
    };
    if cand.check_wf() {
        cand
    } else {
        *config
    }
}

/// Recenter the view on the parameter point under pixel (x, y);
/// unchanged when the result would leave the bounds.
pub fn recenter(config: &Config, x: usize, y: usize) -> (r: Config)
    requires
        config.wf(),
        x < config.size.0,
        y < config.size.1,
    ensures
        r.wf(),
        ({
            let cand = recenter_s(*config, x as int, y as int);
            if cand.wf() {
                r == cand
            } else {
                r == *config
            }
        }),
{
    let p = pos_to_cplx(x, y, config);
    let cand = Config {
        size: config.size,
        zoom: config.zoom,
        offset: p,
        iter_max: config.iter_max,
    };
    if cand.check_wf() {
        cand
    } else {
        *config
    }
}

/// Adopt new raster dimensions, keeping the parameter mapping; unchanged
/// when the new size leaves the bounds.
pub fn resize_view(config: &Config, width: usize, height: usize) -> (r: Config)
    requires
        config.wf(),
    ensures
        r.wf(),
        ({
            let cand = Config {
                size: (width, height),
                zoom: config.zoom,
                offset: config.offset,
                iter_max: config.iter_max,
            };
            if cand.wf() {
                r == cand
            } else {
                r == *config
            }
        }),
{
    let cand = Config {
        size: (width, height),
        zoom: config.zoom,
        offset: config.offset,
        iter_max: config.iter_max,
    };
    if cand.check_wf() {
        cand
    } else {
        *config
    }
}

/// Double the iteration bound; unchanged at the upper limit.
pub fn iter_up(config: &Config) -> (r: Config)
    requires
        config.wf(),
    ensures
        r.wf(),
        r.size == config.size && r.zoom == config.zoom && r.offset == config.offset,
        r.iter_max == (if 2 * config.iter_max <= ITER_LIMIT {
            2 * config.iter_max
        } else {
            config.iter_max as int
        }),
{
    if config.iter_max <= ITER_LIMIT / 2 {
        Config {
            size: config.size,
            zoom: config.zoom,
            offset: config.offset,
            iter_max: config.iter_max * 2,
        }
    } else {
        *config
    }
}

/// Halve the iteration bound, but never below the floor of 32.
pub fn iter_down(config: &Config) -> (r: Config)
    requires
        config.wf(),
    ensures
        r.wf(),
        r.size == config.size && r.zoom == config.zoom && r.offset == config.offset,
        r.iter_max == (if config.iter_max / 2 >= 32 {
            config.iter_max as int / 2
        } else {
            config.iter_max as int
        }),
{
    if config.iter_max / 2 >= 32 {
        Config {
            size: config.size,
            zoom: config.zoom,
            offset: config.offset,
            iter_max: config.iter_max / 2,
        }
    } else {
        *config
    }
}

} // verus!
