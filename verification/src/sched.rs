//! The boundary-tracing subdivision scheduler.
//!
//! A region is filled with field samples while doing asymptotically less
//! work than one evaluation per pixel: every pixel of the region's
//! one-pixel perimeter is sampled first; a rectangle whose whole border
//! is the interior sentinel is classified closed and its interior is
//! deliberately skipped (the cells stay unresolved); a small rectangle is
//! enumerated; anything else has its interior split along the longer
//! axis into two disjoint halves, which are handled independently — no
//! coordination between them is needed, because their pixel sets are
//! disjoint by construction.
//!
//! `area` is the whole recursion as one sequential function; the pieces
//! it is made of (`border_samples`, `is_leaf_region`, `interior_samples`,
//! `split_region`) are public so a concurrent driver can dispatch the two
//! halves of a split as independent tasks, each with a copy of the
//! configuration, and stream each batch into its output channel as it
//! is computed.

use crate::cplx::sq_abs_s;
use crate::mandel::{lemma_immediate_escape, mandel_sample, Mandel, Sample, ESCAPE_SQ_SMOOTH};
use crate::viewport::{pix_to_param, pos_to_cplx, Config};
use vstd::prelude::*;

verus! {

/// Minimum tile size: a (not closed) region with both sides below this
/// is enumerated sequentially instead of split further.
pub const TILE_MIN: usize = 128;

/// An axis-aligned rectangle of pixel coordinates, always fully inside
/// the raster it is computed for.
#[derive(Clone, Copy, Debug, PartialEq, Eq, Structural)]
pub struct Region {
    pub left: usize,
    pub top: usize,
    pub width: usize,
    pub height: usize,
}

/// One streamed result: a pixel coordinate and its field sample.
pub type Emission = (usize, usize, Sample);

/// Whether pixel (x, y) lies in the region.
pub open spec fn in_rect(r: Region, x: int, y: int) -> bool {
    &&& r.left <= x < r.left + r.width
    &&& r.top <= y < r.top + r.height
}

/// Whether pixel (x, y) lies on the region's one-pixel perimeter.
pub open spec fn on_border(r: Region, x: int, y: int) -> bool {
    &&& in_rect(r, x, y)
    &&& (x == r.left || x == r.left + r.width - 1 || y == r.top || y == r.top + r.height - 1)
}

/// Whether pixel (x, y) lies strictly inside the region.
pub open spec fn in_interior(r: Region, x: int, y: int) -> bool {
    in_rect(r, x, y) && !on_border(r, x, y)
}

/// The region bounds the scheduler asks for: nonempty, and fully inside
/// the raster.
pub open spec fn region_in_raster(r: Region, cfg: Config) -> bool {
    &&& 1 <= r.width
    &&& 1 <= r.height
    &&& r.left + r.width <= cfg.size.0
    &&& r.top + r.height <= cfg.size.1
}

/// The field sample the evaluator produces at pixel (x, y).
pub open spec fn sample_at(cfg: Config, x: int, y: int) -> Sample {
    mandel_sample(pix_to_param(cfg, x, y), cfg.iter_max as int)
}

/// The j-th emission of the border pass: the top and bottom rows are
/// swept first (two emissions per column), then the left and right
/// columns (two per row). The four corners are visited twice, once by
/// each sweep; this is tolerated, not deduplicated.
pub open spec fn border_item(cfg: Config, r: Region, j: int) -> Emission {
    if j < 2 * r.width {
        let x = r.left + j / 2;
        let y = if j % 2 == 0 {
            r.top as int
        } else {
            r.top + r.height - 1
        };
        (x as usize, y as usize, sample_at(cfg, x, y))
    } else {
        let k = j - 2 * r.width;
        let y = r.top + k / 2;
        let x = if k % 2 == 0 {
            r.left as int
        } else {
            r.left + r.width - 1
        };
        (x as usize, y as usize, sample_at(cfg, x, y))
    }
}

/// Everything the border pass emits, in order.
pub open spec fn border_emits(cfg: Config, r: Region) -> Seq<Emission> {
    Seq::new((2 * (r.width + r.height)) as nat, |j: int| border_item(cfg, r, j))
}

/// The closed-region classification: every border pixel sampled as the
/// interior sentinel. One-sided: it never affects border values, and a
/// closed region's interior is presumed solid.
pub open spec fn border_closed(cfg: Config, r: Region) -> bool {
    forall|x: int, y: int| #[trigger] on_border(r, x, y) ==> sample_at(cfg, x, y) == Sample::Interior
}

/// The j-th emission of a leaf's interior enumeration, in the sweep
/// order of the border pass: columns outer, rows inner.
pub open spec fn interior_item(cfg: Config, r: Region, j: int) -> Emission {
    let ih = r.height - 2;
    let x = r.left + 1 + j / ih;
    let y = r.top + 1 + j % ih;
    (x as usize, y as usize, sample_at(cfg, x, y))
}

/// Everything a leaf's interior enumeration emits, in order.
pub open spec fn interior_emits(cfg: Config, r: Region) -> Seq<Emission> {
    if r.width <= 2 || r.height <= 2 {
        Seq::empty()
    } else {
        Seq::new(((r.width - 2) * (r.height - 2)) as nat, |j: int| interior_item(cfg, r, j))
    }
}

/// Whether the region is enumerated rather than split: both sides below
/// the minimum tile size, or an interior too thin to split.
pub open spec fn is_leaf(r: Region) -> bool {
    (r.width < TILE_MIN && r.height < TILE_MIN) || r.width <= 2 || r.height <= 2
}

/// First half of a split: the interior (the region inset by one pixel on
/// each side, its border being already handled), cut along the longer
/// axis.
pub open spec fn split_first(r: Region) -> Region {
    if r.width >= r.height {
        Region {
            left: (r.left + 1) as usize,
            top: (r.top + 1) as usize,
            width: ((r.width - 2) / 2) as usize,
            height: (r.height - 2) as usize,
        }
    } else {
        Region {
            left: (r.left + 1) as usize,
            top: (r.top + 1) as usize,
            width: (r.width - 2) as usize,
            height: ((r.height - 2) / 2) as usize,
        }
    }
}

/// Second half of a split: the rest of the interior. The two halves are
/// disjoint and together cover the interior exactly.
pub open spec fn split_second(r: Region) -> Region {
    if r.width >= r.height {
        Region {
            left: (r.left + 1 + (r.width - 2) / 2) as usize,
            top: (r.top + 1) as usize,
            width: ((r.width - 2) - (r.width - 2) / 2) as usize,
            height: (r.height - 2) as usize,
        }
    } else {
        Region {
            left: (r.left + 1) as usize,
            top: (r.top + 1 + (r.height - 2) / 2) as usize,
            width: (r.width - 2) as usize,
            height: ((r.height - 2) - (r.height - 2) / 2) as usize,
        }
    }
}

/// Everything the scheduler emits for a region, in emission order: the
/// border pass; then, unless the region is closed, the interior — either
/// enumerated (leaf) or delegated to the two halves of the split.
pub open spec fn emits(cfg: Config, r: Region) -> Seq<Emission>
    decreases r.width + r.height,
{
    let b = border_emits(cfg, r);
    if border_closed(cfg, r) {
        b
    } else if is_leaf(r) {
        b + interior_emits(cfg, r)
    } else {
        b + emits(cfg, split_first(r)) + emits(cfg, split_second(r))
    }
}

/// Evaluate one pixel: map it to the parameter plane and run the
/// smoothed escape-time evaluator.
pub fn eval_pixel(config: &Config, x: usize, y: usize) -> (s: Sample)
    requires
        config.wf(),
        x < config.size.0,
        y < config.size.1,
    ensures
        s == sample_at(*config, x as int, y as int),
{
    let z = pos_to_cplx(x, y, config);
    let mut m = Mandel::new(z, config.iter_max);
    m.calculate_mandel_smooth();
    match m.get_finished() {
        Some(s) => s,
        None => {
            proof {
                assert(false);
            }
            Sample::Interior
        },
    }
}

/// Every emission of the border pass lies on the region's perimeter.
pub proof fn lemma_border_item_coords(cfg: Config, r: Region, j: int)
    requires
        1 <= r.width,
        1 <= r.height,
        r.left + r.width <= 0x1_0000,
        r.top + r.height <= 0x1_0000,
        0 <= j < 2 * (r.width + r.height),
    ensures
        on_border(r, border_item(cfg, r, j).0 as int, border_item(cfg, r, j).1 as int),
        border_item(cfg, r, j).2 == sample_at(
            cfg,
            border_item(cfg, r, j).0 as int,
            border_item(cfg, r, j).1 as int,
        ),
{
    if j < 2 * r.width {
        assert(0 <= j / 2 < r.width);
    } else {
        let k = j - 2 * r.width;
        assert(0 <= k / 2 < r.height);
    }
}

/// Every perimeter pixel appears in the border pass.
pub proof fn lemma_border_coord_covered(cfg: Config, r: Region, x: int, y: int)
    requires
        r.left + r.width <= 0x1_0000,
        r.top + r.height <= 0x1_0000,
        on_border(r, x, y),
    ensures
        exists|j: int|
            0 <= j < 2 * (r.width + r.height) && border_item(cfg, r, j).0 == x as usize
                && border_item(cfg, r, j).1 == y as usize,
{
    if y == r.top {
        let j = 2 * (x - r.left);
        assert(j / 2 == x - r.left && j % 2 == 0);
        assert(border_item(cfg, r, j).0 == x as usize && border_item(cfg, r, j).1 == y as usize);
    } else if y == r.top + r.height - 1 {
        let j = 2 * (x - r.left) + 1;
        assert(j / 2 == x - r.left && j % 2 == 1);
        assert(border_item(cfg, r, j).0 == x as usize && border_item(cfg, r, j).1 == y as usize);
    } else if x == r.left {
        let j = 2 * r.width + 2 * (y - r.top);
        let k = j - 2 * r.width;
        assert(k / 2 == y - r.top && k % 2 == 0);
        assert(border_item(cfg, r, j).0 == x as usize && border_item(cfg, r, j).1 == y as usize);
    } else {
        let j = 2 * r.width + 2 * (y - r.top) + 1;
        let k = j - 2 * r.width;
        assert(k / 2 == y - r.top && k % 2 == 1);
        assert(border_item(cfg, r, j).0 == x as usize && border_item(cfg, r, j).1 == y as usize);
    }
}

/// The border pass of one region: its emissions in order, and the
/// closed-region classification (true exactly when every border sample
/// is the interior sentinel).
pub fn border_samples(config: &Config, rect: &Region) -> (res: (Vec<Emission>, bool))
    requires
        config.wf(),
        region_in_raster(*rect, *config),
    ensures
        res.0@ == border_emits(*config, *rect),
        res.1 == border_closed(*config, *rect),
{
    let mut out: Vec<Emission> = Vec::new();
    let mut closed = true;
    let left = rect.left;
    let top = rect.top;
    let w = rect.width;
    let h = rect.height;
    let bottom = top + h - 1;
    let right = left + w - 1;
    let mut x = left;
    while x < left + w
        invariant
            config.wf(),
            region_in_raster(*rect, *config),
            left == rect.left && top == rect.top && w == rect.width && h == rect.height,
            bottom == top + h - 1,
            right == left + w - 1,
            left <= x <= left + w,
            out@.len() == 2 * (x - left),
            forall|j: int| 0 <= j < out@.len() ==> out@[j] == border_item(*config, *rect, j),
            closed ==> forall|j: int|
                0 <= j < out@.len() ==> (#[trigger] out@[j]).2 == Sample::Interior,
            !closed ==> exists|j: int|
                0 <= j < out@.len() && (#[trigger] out@[j]).2 != Sample::Interior,
        decreases left + w - x,
    {
        let st = eval_pixel(config, x, top);
        let sb = eval_pixel(config, x, bottom);
        proof {
            let j0 = out@.len() as int;
            assert(j0 % 2 == 0 && j0 / 2 == x - left) by {
                vstd::arithmetic::div_mod::lemma_fundamental_div_mod_converse(
                    j0,
                    2,
                    x - left,
                    0,
                );
            }
            assert((j0 + 1) % 2 == 1 && (j0 + 1) / 2 == x - left) by {
                vstd::arithmetic::div_mod::lemma_fundamental_div_mod_converse(
                    j0 + 1,
                    2,
                    x - left,
                    1,
                );
            }
        }
        let ghost out0 = out@;
        out.push((x, top, st));
        out.push((x, bottom, sb));
        let finite_here = st.is_finite() || sb.is_finite();
        proof {
            assert(out@[out0.len() as int] == (x, top, st));
            assert(out@[out0.len() as int + 1] == (x, bottom, sb));
            assert(forall|j: int| 0 <= j < out0.len() ==> out@[j] == out0[j]);
            if finite_here {
                assert(out@[if st is Finite {
                    out0.len() as int
                } else {
                    out0.len() as int + 1
                }].2 != Sample::Interior);
            }
        }
        if finite_here {
            closed = false;
        }
        x = x + 1;
    }
    let mut y = top;
    while y < top + h
        invariant
            config.wf(),
            region_in_raster(*rect, *config),
            left == rect.left && top == rect.top && w == rect.width && h == rect.height,
            bottom == top + h - 1,
            right == left + w - 1,
            top <= y <= top + h,
            out@.len() == 2 * w + 2 * (y - top),
            forall|j: int| 0 <= j < out@.len() ==> out@[j] == border_item(*config, *rect, j),
            closed ==> forall|j: int|
                0 <= j < out@.len() ==> (#[trigger] out@[j]).2 == Sample::Interior,
            !closed ==> exists|j: int|
                0 <= j < out@.len() && (#[trigger] out@[j]).2 != Sample::Interior,
        decreases top + h - y,
    {
        let sl = eval_pixel(config, left, y);
        let sr = eval_pixel(config, right, y);
        proof {
            let j0 = out@.len() as int;
            let k0 = j0 - 2 * w;
            assert(k0 % 2 == 0 && k0 / 2 == y - top) by {
                vstd::arithmetic::div_mod::lemma_fundamental_div_mod_converse(
                    k0,
                    2,
                    y - top,
                    0,
                );
            }
            assert((k0 + 1) % 2 == 1 && (k0 + 1) / 2 == y - top) by {
                vstd::arithmetic::div_mod::lemma_fundamental_div_mod_converse(
                    k0 + 1,
                    2,
                    y - top,
                    1,
                );
            }
        }
        let ghost out0 = out@;
        out.push((left, y, sl));
        out.push((right, y, sr));
        let finite_here = sl.is_finite() || sr.is_finite();
        proof {
            assert(out@[out0.len() as int] == (left, y, sl));
            assert(out@[out0.len() as int + 1] == (right, y, sr));
            assert(forall|j: int| 0 <= j < out0.len() ==> out@[j] == out0[j]);
            if finite_here {
                assert(out@[if sl is Finite {
                    out0.len() as int
                } else {
                    out0.len() as int + 1
                }].2 != Sample::Interior);
            }
        }
        if finite_here {
            closed = false;
        }
        y = y + 1;
    }
    proof {
        assert(out@ =~= border_emits(*config, *rect));
        if closed {
            assert forall|px: int, py: int| #[trigger]
                on_border(*rect, px, py) implies sample_at(*config, px, py)
                == Sample::Interior by {
                lemma_border_coord_covered(*config, *rect, px, py);
                let j = choose|j: int|
                    0 <= j < 2 * (rect.width + rect.height) && border_item(*config, *rect, j).0
                        == px as usize && border_item(*config, *rect, j).1 == py as usize;
                lemma_border_item_coords(*config, *rect, j);
            }
        } else {
            let j = choose|j: int|
                0 <= j < out@.len() && (#[trigger] out@[j]).2 != Sample::Interior;
            lemma_border_item_coords(*config, *rect, j);
        }
    }
    (out, closed)
}

/// Whether the region is enumerated rather than split.
pub fn is_leaf_region(rect: &Region) -> (b: bool)
    ensures
        b == is_leaf(*rect),
{
    (rect.width < TILE_MIN && rect.height < TILE_MIN) || rect.width <= 2 || rect.height <= 2
}

/// The leaf enumeration of one region: every interior pixel, columns
/// outer and rows inner, in order.
pub fn interior_samples(config: &Config, rect: &Region) -> (out: Vec<Emission>)
    requires
        config.wf(),
        region_in_raster(*rect, *config),
    ensures
        out@ == interior_emits(*config, *rect),
{
    let mut out: Vec<Emission> = Vec::new();
    if rect.width <= 2 || rect.height <= 2 {
        proof {
            assert(out@ =~= interior_emits(*config, *rect));
        }
        return out;
    }
    let left = rect.left;
    let top = rect.top;
    let iw = rect.width - 2;
    let ih = rect.height - 2;
    let mut x = left + 1;
    proof {
        assert((x - left - 1) * ih == 0) by (nonlinear_arith)
            requires
                x == left + 1,
        ;
    }
    while x < left + 1 + iw
        invariant
            config.wf(),
            region_in_raster(*rect, *config),
            left == rect.left && top == rect.top,
            iw == rect.width - 2 && ih == rect.height - 2,
            1 <= iw && 1 <= ih,
            left + 1 <= x <= left + 1 + iw,
            out@.len() == (x - left - 1) * ih,
            forall|j: int| 0 <= j < out@.len() ==> out@[j] == interior_item(*config, *rect, j),
        decreases left + 1 + iw - x,
    {
        let mut y = top + 1;
        proof {
            assert((x - left - 1) * ih + ih == (x - left) * ih) by (nonlinear_arith);
            assert((x - left) * ih <= iw * ih) by (nonlinear_arith)
                requires
                    x - left <= iw && ih >= 0,
            ;
        }
        while y < top + 1 + ih
            invariant
                config.wf(),
                region_in_raster(*rect, *config),
                left == rect.left && top == rect.top,
                iw == rect.width - 2 && ih == rect.height - 2,
                1 <= iw && 1 <= ih,
                left + 1 <= x < left + 1 + iw,
                top + 1 <= y <= top + 1 + ih,
                out@.len() == (x - left - 1) * ih + (y - top - 1),
                (x - left - 1) * ih + ih == (x - left) * ih,
                (x - left) * ih <= iw * ih,
                forall|j: int| 0 <= j < out@.len() ==> out@[j] == interior_item(*config, *rect, j),
            decreases top + 1 + ih - y,
        {
            let s = eval_pixel(config, x, y);
            proof {
                let j0 = out@.len() as int;
                vstd::arithmetic::div_mod::lemma_fundamental_div_mod_converse(
                    j0,
                    ih as int,
                    x - left - 1,
                    y - top - 1,
                );
            }
            out.push((x, y, s));
            y = y + 1;
        }
        x = x + 1;
    }
    proof {
        assert(iw * ih == (rect.width - 2) * (rect.height - 2));
        assert(out@ =~= interior_emits(*config, *rect));
    }
    out
}

/// The two halves of a split: the interior of the region, cut along its
/// longer axis into two disjoint nonempty rectangles.
pub fn split_region(rect: &Region) -> (halves: (Region, Region))
    requires
        !is_leaf(*rect),
        rect.left + rect.width <= 0x1_0000,
        rect.top + rect.height <= 0x1_0000,
    ensures
        halves.0 == split_first(*rect),
        halves.1 == split_second(*rect),
{
    if rect.width >= rect.height {
        let wa = (rect.width - 2) / 2;
        (
            Region { left: rect.left + 1, top: rect.top + 1, width: wa, height: rect.height - 2 },
            Region {
                left: rect.left + 1 + wa,
                top: rect.top + 1,
                width: (rect.width - 2) - wa,
                height: rect.height - 2,
            },
        )
    } else {
        let ha = (rect.height - 2) / 2;
        (
            Region { left: rect.left + 1, top: rect.top + 1, width: rect.width - 2, height: ha },
            Region {
                left: rect.left + 1,
                top: rect.top + 1 + ha,
                width: rect.width - 2,
                height: (rect.height - 2) - ha,
            },
        )
    }
}

/// What a split guarantees: both halves are nonempty, inside the raster,
/// strictly smaller, and they partition the interior.
pub proof fn lemma_split_props(cfg: Config, r: Region)
    requires
        cfg.wf(),
        region_in_raster(r, cfg),
        !is_leaf(r),
    ensures
        region_in_raster(split_first(r), cfg),
        region_in_raster(split_second(r), cfg),
        split_first(r).width + split_first(r).height < r.width + r.height,
        split_second(r).width + split_second(r).height < r.width + r.height,
        forall|x: int, y: int|
            #[trigger] in_interior(r, x, y) <==> (in_rect(split_first(r), x, y) || in_rect(
                split_second(r),
                x,
                y,
            )),
        forall|x: int, y: int| #[trigger] in_rect(split_first(r), x, y) ==> in_rect(r, x, y),
        forall|x: int, y: int| #[trigger] in_rect(split_second(r), x, y) ==> in_rect(r, x, y),
{
}

/// Every emission of a leaf's interior enumeration lies strictly inside
/// the region.
pub proof fn lemma_interior_item_coords(cfg: Config, r: Region, j: int)
    requires
        3 <= r.width,
        3 <= r.height,
        r.left + r.width <= 0x1_0000,
        r.top + r.height <= 0x1_0000,
        0 <= j < (r.width - 2) * (r.height - 2),
    ensures
        in_interior(r, interior_item(cfg, r, j).0 as int, interior_item(cfg, r, j).1 as int),
        interior_item(cfg, r, j).2 == sample_at(
            cfg,
            interior_item(cfg, r, j).0 as int,
            interior_item(cfg, r, j).1 as int,
        ),
{
    let ih = r.height - 2;
    vstd::arithmetic::div_mod::lemma_mod_division_less_than_divisor(j, ih);
    vstd::arithmetic::div_mod::lemma_div_pos_is_pos(j, ih);
    assert(j < ih * (r.width - 2)) by (nonlinear_arith)
        requires
            j < (r.width - 2) * (r.height - 2),
            ih == r.height - 2,
    ;
    vstd::arithmetic::div_mod::lemma_multiply_divide_lt(j, ih, r.width - 2);
}

/// Every strictly interior pixel appears in a leaf's enumeration.
pub proof fn lemma_interior_coord_covered(cfg: Config, r: Region, x: int, y: int)
    requires
        r.left + r.width <= 0x1_0000,
        r.top + r.height <= 0x1_0000,
        in_interior(r, x, y),
    ensures
        exists|j: int|
            0 <= j < (r.width - 2) * (r.height - 2) && interior_item(cfg, r, j).0 == x as usize
                && interior_item(cfg, r, j).1 == y as usize,
{
    let ih = r.height - 2;
    let j = (x - r.left - 1) * ih + (y - r.top - 1);
    assert(0 <= j < (r.width - 2) * (r.height - 2)) by (nonlinear_arith)
        requires
            ih == r.height - 2,
            j == (x - r.left - 1) * ih + (y - r.top - 1),
            0 <= x - r.left - 1 <= r.width - 3,
            0 <= y - r.top - 1 <= r.height - 3,
            3 <= r.width,
            3 <= r.height,
    ;
    vstd::arithmetic::div_mod::lemma_fundamental_div_mod_converse(
        j,
        ih,
        x - r.left - 1,
        y - r.top - 1,
    );
    assert(interior_item(cfg, r, j).0 == x as usize && interior_item(cfg, r, j).1 == y as usize);
}

/// Law: everything the scheduler emits lies inside the region it was
/// asked to fill, and carries exactly the evaluator's sample for its
/// coordinate.
pub proof fn lemma_emits_in_rect(cfg: Config, r: Region)
    requires
        cfg.wf(),
        region_in_raster(r, cfg),
    ensures
        forall|i: int|
            0 <= i < emits(cfg, r).len() ==> in_rect(
                r,
                (#[trigger] emits(cfg, r)[i]).0 as int,
                emits(cfg, r)[i].1 as int,
            ) && emits(cfg, r)[i].2 == sample_at(
                cfg,
                emits(cfg, r)[i].0 as int,
                emits(cfg, r)[i].1 as int,
            ),
    decreases r.width + r.height,
{
    let e = emits(cfg, r);
    let b = border_emits(cfg, r);
    assert forall|i: int| 0 <= i < b.len() implies in_rect(
        r,
        (#[trigger] b[i]).0 as int,
        b[i].1 as int,
    ) && b[i].2 == sample_at(cfg, b[i].0 as int, b[i].1 as int) by {
        lemma_border_item_coords(cfg, r, i);
    }
    if border_closed(cfg, r) {
    } else if is_leaf(r) {
        let n = interior_emits(cfg, r);
        assert forall|i: int| 0 <= i < n.len() implies in_rect(
            r,
            (#[trigger] n[i]).0 as int,
            n[i].1 as int,
        ) && n[i].2 == sample_at(cfg, n[i].0 as int, n[i].1 as int) by {
            lemma_interior_item_coords(cfg, r, i);
        }
    } else {
        lemma_split_props(cfg, r);
        lemma_emits_in_rect(cfg, split_first(r));
        lemma_emits_in_rect(cfg, split_second(r));
    }
}

/// Law: a region whose whole border is the interior sentinel is
/// classified closed, and the scheduler emits exactly the border pass —
/// every emission on the perimeter, every perimeter pixel emitted, and
/// zero interior pixels.
pub proof fn lemma_closed_region_border_only(cfg: Config, r: Region)
    requires
        cfg.wf(),
        region_in_raster(r, cfg),
        border_closed(cfg, r),
    ensures
        emits(cfg, r) == border_emits(cfg, r),
        emits(cfg, r).len() == 2 * (r.width + r.height),
        forall|i: int|
            0 <= i < emits(cfg, r).len() ==> on_border(
                r,
                (#[trigger] emits(cfg, r)[i]).0 as int,
                emits(cfg, r)[i].1 as int,
            ),
        forall|x: int, y: int|
            #[trigger] on_border(r, x, y) ==> exists|i: int|
                0 <= i < emits(cfg, r).len() && (#[trigger] emits(cfg, r)[i]).0 == x as usize
                    && emits(cfg, r)[i].1 == y as usize,
{
    let e = emits(cfg, r);
    assert forall|i: int| 0 <= i < e.len() implies on_border(
        r,
        (#[trigger] e[i]).0 as int,
        e[i].1 as int,
    ) by {
        lemma_border_item_coords(cfg, r, i);
    }
    assert forall|x: int, y: int| #[trigger] on_border(r, x, y) implies exists|i: int|
        0 <= i < e.len() && (#[trigger] e[i]).0 == x as usize && e[i].1 == y as usize by {
        lemma_border_coord_covered(cfg, r, x, y);
        let j = choose|j: int|
            0 <= j < 2 * (r.width + r.height) && border_item(cfg, r, j).0 == x as usize
                && border_item(cfg, r, j).1 == y as usize;
        assert(e[j].0 == x as usize && e[j].1 == y as usize);
    }
}

/// Whatever branch the scheduler takes, its emissions start with the
/// border pass, so every perimeter pixel appears among them.
proof fn lemma_border_coord_in_emits(cfg: Config, r: Region, x: int, y: int)
    requires
        cfg.wf(),
        region_in_raster(r, cfg),
        on_border(r, x, y),
    ensures
        exists|i: int|
            0 <= i < emits(cfg, r).len() && (#[trigger] emits(cfg, r)[i]).0 == x as usize && emits(
                cfg,
                r,
            )[i].1 == y as usize,
{
    let e = emits(cfg, r);
    let b = border_emits(cfg, r);
    lemma_border_coord_covered(cfg, r, x, y);
    let j = choose|j: int|
        0 <= j < 2 * (r.width + r.height) && border_item(cfg, r, j).0 == x as usize && border_item(
            cfg,
            r,
            j,
        ).1 == y as usize;
    assert(e[j] == b[j]);
    assert(e[j].0 == x as usize && e[j].1 == y as usize);
}

/// Law: over a region every pixel of which maps beyond the escape
/// radius, the closed-region classification is false, and every pixel of
/// the region is emitted — no silently skipped areas.
#[verifier::rlimit(50)]
pub proof fn lemma_escaping_region_fully_emitted(cfg: Config, r: Region)
    requires
        cfg.wf(),
        region_in_raster(r, cfg),
        cfg.iter_max >= 2,
        forall|x: int, y: int|
            #[trigger] in_rect(r, x, y) ==> sq_abs_s(
                pix_to_param(cfg, x, y).0,
                pix_to_param(cfg, x, y).1,
            ) >= ESCAPE_SQ_SMOOTH,
    ensures
        !border_closed(cfg, r),
        forall|x: int, y: int|
            #[trigger] in_rect(r, x, y) ==> exists|i: int|
                0 <= i < emits(cfg, r).len() && (#[trigger] emits(cfg, r)[i]).0 == x as usize
                    && emits(cfg, r)[i].1 == y as usize,
    decreases r.width + r.height,
{
    assert forall|x: int, y: int| #[trigger] in_rect(r, x, y) implies sample_at(cfg, x, y)
        is Finite by {
        let p = pix_to_param(cfg, x, y);
        crate::viewport::lemma_pix_param_in_range(cfg, x, y);
        crate::cplx::lemma_sq_abs_bounds(p.0, p.1, crate::mandel::COORD_MAX as int);
        lemma_immediate_escape(p, cfg.iter_max as int);
    }
    assert(on_border(r, r.left as int, r.top as int));
    assert(in_rect(r, r.left as int, r.top as int));
    assert(!border_closed(cfg, r));
    let e = emits(cfg, r);
    let b = border_emits(cfg, r);
    if is_leaf(r) {
        assert forall|x: int, y: int| #[trigger] in_rect(r, x, y) implies exists|i: int|
            0 <= i < e.len() && (#[trigger] e[i]).0 == x as usize && e[i].1 == y as usize by {
            if on_border(r, x, y) {
                lemma_border_coord_in_emits(cfg, r, x, y);
            } else {
                lemma_interior_coord_covered(cfg, r, x, y);
                let j = choose|j: int|
                    0 <= j < (r.width - 2) * (r.height - 2) && interior_item(cfg, r, j).0
                        == x as usize && interior_item(cfg, r, j).1 == y as usize;
                assert(e[b.len() + j].0 == x as usize && e[b.len() + j].1 == y as usize);
            }
        }
    } else {
        lemma_split_props(cfg, r);
        let r1 = split_first(r);
        let r2 = split_second(r);
        assert forall|x: int, y: int| #[trigger] in_rect(r1, x, y) implies sq_abs_s(
            pix_to_param(cfg, x, y).0,
            pix_to_param(cfg, x, y).1,
        ) >= ESCAPE_SQ_SMOOTH by {
            assert(in_rect(r, x, y));
        }
        assert forall|x: int, y: int| #[trigger] in_rect(r2, x, y) implies sq_abs_s(
            pix_to_param(cfg, x, y).0,
            pix_to_param(cfg, x, y).1,
        ) >= ESCAPE_SQ_SMOOTH by {
            assert(in_rect(r, x, y));
        }
        lemma_escaping_region_fully_emitted(cfg, r1);
        lemma_escaping_region_fully_emitted(cfg, r2);
        let e1 = emits(cfg, r1);
        let e2 = emits(cfg, r2);
        assert forall|x: int, y: int| #[trigger] in_rect(r, x, y) implies exists|i: int|
            0 <= i < e.len() && (#[trigger] e[i]).0 == x as usize && e[i].1 == y as usize by {
            if on_border(r, x, y) {
                lemma_border_coord_in_emits(cfg, r, x, y);
            } else if in_rect(r1, x, y) {
                let i = choose|i: int|
                    0 <= i < e1.len() && (#[trigger] e1[i]).0 == x as usize && e1[i].1
                        == y as usize;
                assert(e[b.len() + i].0 == x as usize && e[b.len() + i].1 == y as usize);
            } else {
                assert(in_rect(r2, x, y));
                let i = choose|i: int|
                    0 <= i < e2.len() && (#[trigger] e2[i]).0 == x as usize && e2[i].1
                        == y as usize;
                assert(e[b.len() + e1.len() + i].0 == x as usize && e[b.len() + e1.len() + i].1
                    == y as usize);
            }
        }
    }
}

/// Law: the scheduler is deterministic — two runs over one viewport and
/// one raster rectangle produce identical multisets of emissions,
/// whatever order a concurrent driver interleaves them in.
pub proof fn lemma_emissions_deterministic(
    cfg: Config,
    r: Region,
    first: Seq<Emission>,
    second: Seq<Emission>,
)
    requires
        first == emits(cfg, r),
        second == emits(cfg, r),
    ensures
        first.to_multiset() == second.to_multiset(),
{
}

/// The whole scheduler as one sequential recursion: appends everything
/// the region's computation emits, in emission order, to `out`.
pub fn area(config: &Config, rect: Region, out: &mut Vec<Emission>)
    requires
        config.wf(),
        region_in_raster(rect, *config),
    ensures
        final(out)@ == old(out)@ + emits(*config, rect),
    decreases rect.width + rect.height,
{
    let (mut border, closed) = border_samples(config, &rect);
    out.append(&mut border);
    if closed {
        return;
    }
    if is_leaf_region(&rect) {
        let mut inner = interior_samples(config, &rect);
        out.append(&mut inner);
        proof {
            assert(out@ =~= old(out)@ + emits(*config, rect));
        }
        return;
    }
    proof {
        lemma_split_props(*config, rect);
    }
    let (r1, r2) = split_region(&rect);
    area(config, r1, out);
    area(config, r2, out);
    proof {
        assert(out@ =~= old(out)@ + emits(*config, rect));
    }
}

} // verus!
