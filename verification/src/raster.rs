//! The result-stream consumer's raster buffer.
//!
//! The raster is the single-writer store the consumer drains streamed
//! results into; producers only ever communicate through the channel and
//! never touch it. Each cell holds one of three states that must never
//! be confused: not yet computed (`None`), a finite smoothed value, or
//! the interior sentinel. Applying a result is idempotent per coordinate
//! and ignores coordinates outside the raster, so the consumer tolerates
//! any interleaving of the producers' emissions.

use crate::mandel::Sample;
use crate::sched::Emission;
use vstd::pervasive::VecAdditionalExecFns;
use vstd::prelude::*;

verus! {

/// A raster of field-sample cells, row-major.
pub struct Raster {
    width: usize,
    height: usize,
    cells: Vec<Option<Sample>>,
}

impl View for Raster {
    type V = Seq<Option<Sample>>;

    closed spec fn view(&self) -> Seq<Option<Sample>> {
        self.cells@
    }
}

/// A sequence of results folded into a cell sequence, in order; results
/// outside the raster bounds are ignored.
pub open spec fn apply_seq(
    cells: Seq<Option<Sample>>,
    w: int,
    h: int,
    items: Seq<Emission>,
) -> Seq<Option<Sample>>
    decreases items.len(),
{
    if items.len() == 0 {
        cells
    } else {
        let rest = apply_seq(cells, w, h, items.drop_last());
        let it = items.last();
        if it.0 < w && it.1 < h {
            rest.update(it.1 * w + it.0, Some(it.2))
        } else {
            rest
        }
    }
}

impl Raster {
    /// The raster's dimensions.
    pub closed spec fn dims(self) -> (int, int) {
        (self.width as int, self.height as int)
    }

    /// The one structural invariant: one cell per pixel.
    pub open spec fn wf(self) -> bool {
        self@.len() == self.dims().0 * self.dims().1
    }

    /// The cell at (x, y).
    pub open spec fn cell(self, x: int, y: int) -> Option<Sample> {
        self@[y * self.dims().0 + x]
    }

    /// A fresh raster with every cell unresolved.
    pub fn new(width: usize, height: usize) -> (r: Raster)
        requires
            width * height <= usize::MAX,
        ensures
            r.wf(),
            r.dims() == (width as int, height as int),
            forall|i: int| 0 <= i < r@.len() ==> r@[i] is None,
    {
        proof {
            assert(width * height <= usize::MAX) by (nonlinear_arith)
                requires
                    width * height <= usize::MAX,
            ;
        }
        let n = width * height;
        let mut cells: Vec<Option<Sample>> = Vec::new();
        let mut i: usize = 0;
        while i < n
            invariant
                i <= n,
                cells@.len() == i,
                forall|j: int| 0 <= j < cells@.len() ==> cells@[j] is None,
            decreases n - i,
        {
            cells.push(None);
            i = i + 1;
        }
        Raster { width, height, cells }
    }

    /// The raster's width.
    pub fn get_width(&self) -> (w: usize)
        ensures
            w == self.dims().0,
    {
        self.width
    }

    /// The raster's height.
    pub fn get_height(&self) -> (h: usize)
        ensures
            h == self.dims().1,
    {
        self.height
    }

    /// Read the cell at (x, y); unresolved (`None`) outside the bounds.
    pub fn get(&self, x: usize, y: usize) -> (c: Option<Sample>)
        requires
            self.wf(),
        ensures
            x < self.dims().0 && y < self.dims().1 ==> c == self.cell(x as int, y as int),
            !(x < self.dims().0 && y < self.dims().1) ==> c is None,
    {
        if x < self.width && y < self.height {
            let _n = self.cells.len();
            proof {
                lemma_cell_index(self.width as int, self.height as int, x as int, y as int);
            }
            self.cells[y * self.width + x]
        } else {
            None
        }
    }

    /// Write one streamed result into its cell; a coordinate outside the
    /// raster is ignored.
    pub fn apply(&mut self, x: usize, y: usize, s: Sample)
        requires
            old(self).wf(),
        ensures
            final(self).wf(),
            final(self).dims() == old(self).dims(),
            x < old(self).dims().0 && y < old(self).dims().1 ==> final(self)@ == old(self)@.update(
                y * old(self).dims().0 + x,
                Some(s),
            ),
            !(x < old(self).dims().0 && y < old(self).dims().1) ==> final(self)@ == old(self)@,
    {
        if x < self.width && y < self.height {
            let _n = self.cells.len();
            proof {
                lemma_cell_index(self.width as int, self.height as int, x as int, y as int);
            }
            self.cells.set(y * self.width + x, Some(s));
        }
    }

    /// Drain a batch of streamed results into the raster, in order.
    pub fn apply_all(&mut self, items: &Vec<Emission>)
        requires
            old(self).wf(),
        ensures
            final(self).wf(),
            final(self).dims() == old(self).dims(),
            final(self)@ == apply_seq(
                old(self)@,
                old(self).dims().0,
                old(self).dims().1,
                items@,
            ),
    {
        let mut i: usize = 0;
        while i < items.len()
            invariant
                self.wf(),
                self.dims() == old(self).dims(),
                i <= items@.len(),
                self@ == apply_seq(
                    old(self)@,
                    old(self).dims().0,
                    old(self).dims().1,
                    items@.take(i as int),
                ),
            decreases items@.len() - i,
        {
            let (x, y, s) = items[i];
            proof {
                assert(items@.take(i as int + 1).drop_last() =~= items@.take(i as int));
                assert(items@.take(i as int + 1).last() == items@[i as int]);
            }
            self.apply(x, y, s);
            i = i + 1;
        }
        proof {
            assert(items@.take(items@.len() as int) =~= items@);
        }
    }
}

/// A row-major index stays within the cell count.
proof fn lemma_cell_index(w: int, h: int, x: int, y: int)
    by (nonlinear_arith)
    requires
        0 <= x < w,
        0 <= y < h,
    ensures
        0 <= y * w + x < w * h,
{
}

} // verus!
