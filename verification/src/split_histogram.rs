//! Histograms of split pixels: the parts of every pixel are added directly to the
//! bins that they fall into, pixel by pixel.

use crate::accumulate::{
    accumulates, bins_reduce_to, contributions, filled, lemma_accumulate_pixel,
    lemma_contributions_are_shares, reduces_to, scatter_pixel, shares_in,
};
use crate::builder::{
    built_row, is_masked, mask_fits, masked_out, pixel_shares, share_entries, PixelSpan,
    SplitPixel,
};
use crate::double::{greater, gt, is_nan, rank};
use crate::edge::{
    box_cells, box_order, larger, lemma_box_is_rectangle, smaller, spread, spread_1d, BoxCell, Spread,
};
use crate::grid::{flat, lemma_flat_bound, lemma_flat_cell, lemma_flat_inverse, lemma_flat_of};
use crate::histogram::{
    cells_reduce_to, lemma_transpose_twice, reduce_1d, reduce_2d, source_cell,
};
use crate::patch::{BoxReach, BoxSwept};
use crate::quad::{weigh, Swept};
use crate::sparse::Entry;
use crate::split::{
    cell_order, cell_shares, cover, cover_1d, cover_2d, cover_grid, cover_raw,
    lemma_cell_order_is_rectangle, lemma_cover_is_range, lemma_on_grid, lemma_product_fits, off_axis,
    on_grid, part_of, range_hi, range_lo, BinShare, CellShare, Part,
};
use vstd::prelude::*;

verus! {

/// A pixel whose parts are added to bins; `S` is what is known of a part.
pub trait Scatter<S> {
    /// The pixel can be added to `bins` bins.
    spec fn fits(&self, bins: int) -> bool;

    /// The parts of the pixel, each with the bin it falls into.
    spec fn parts(&self, bins: int) -> Seq<(usize, S)>;

    /// Lists the parts of the pixel.
    fn list_parts(&self, bins: usize) -> (out: Vec<(usize, S)>)
        requires
            self.fits(bins as int),
        ensures
            out@ == self.parts(bins as int),
            forall|k: int| 0 <= k < out@.len() ==> (#[trigger] out@[k]).0 < bins,
    ;
}

/// The parts of every pixel, none where the pixel is masked.
pub open spec fn pixel_parts<S, P: Scatter<S>>(
    pixels: Seq<P>,
    mask: Option<&[i8]>,
    bins: int,
) -> spec_fn(int) -> Seq<(usize, S)> {
    |i: int|
        if masked_out(mask, i) {
            Seq::<(usize, S)>::empty()
        } else {
            pixels[i].parts(bins)
        }
}

/// The pixels that are not masked can be added to `bins` bins.
pub open spec fn scatterable<S, P: Scatter<S>>(
    pixels: Seq<P>,
    mask: Option<&[i8]>,
    bins: int,
) -> bool {
    &&& mask_fits(mask, pixels.len() as int)
    &&& forall|i: int|
        0 <= i < pixels.len() && !masked_out(mask, i) ==> (#[trigger] pixels[i]).fits(bins)
}

/// Adds the parts of the pixels up, pixel by pixel; masked pixels (`mask[i] != 0`) are
/// left out.
fn scatter_pixels<S: Copy, P: Scatter<S>, T: Copy, F: Fn(T, (usize, S)) -> T>(
    pixels: &[P],
    mask: Option<&[i8]>,
    bins: usize,
    start: T,
    step: &F,
) -> (acc: Vec<T>)
    requires
        scatterable(pixels@, mask, bins as int),
        forall|t: T, c: (usize, S)| #[trigger] step.requires((t, c)),
    ensures
        acc@.len() == bins,
        accumulates(
            *step,
            start,
            pixel_parts(pixels@, mask, bins as int),
            pixels@.len() as int,
            acc@,
        ),
{
    let n: usize = pixels.len();
    let ghost parts = pixel_parts(pixels@, mask, bins as int);
    let mut acc: Vec<T> = filled(start, bins);
    let mut i: usize = 0;
    while i < n
        invariant
            i <= n == pixels@.len(),
            scatterable(pixels@, mask, bins as int),
            forall|t: T, c: (usize, S)| #[trigger] step.requires((t, c)),
            parts == pixel_parts(pixels@, mask, bins as int),
            acc@.len() == bins,
            accumulates(*step, start, parts, i as int, acc@),
        decreases n - i,
    {
        let ghost before = acc@;
        if !is_masked(mask, i) {
            let list: Vec<(usize, S)> = pixels[i].list_parts(bins);
            scatter_pixel(&mut acc, i, &list, step);
        }
        proof {
            lemma_accumulate_pixel(*step, start, parts, i as int, before, acc@);
        }
        i = i + 1;
    }
    acc
}

/// The bins that a pixel reaches along one axis, none where it lies out of range.
#[derive(Debug, Clone, Copy)]
pub struct LineReach {
    /// The bins of the pixel's lower and upper edge.
    pub bins: Option<(i64, i64)>,
}

impl LineReach {
    /// The value of [`LineReach::of`].
    pub open spec fn reach(lower: u64, upper: u64, range: (u64, u64), bins: (i64, i64)) -> Self {
        LineReach {
            bins: if gt(range.0, upper) || gt(lower, range.1) {
                None
            } else {
                Some(bins)
            },
        }
    }

    /// The reach of a pixel from `lower` to `upper`, whose edges lie in the bins `bins`;
    /// out of range where it has no position in common with `range`.
    pub fn of(lower: u64, upper: u64, range: (u64, u64), bins: (i64, i64)) -> (r: Self)
        ensures
            r.bins == if gt(range.0, upper) || gt(lower, range.1) {
                None
            } else {
                Some(bins)
            },
            r == Self::reach(lower, upper, range, bins),
    {
        if greater(range.0, upper) || greater(lower, range.1) {
            LineReach { bins: None }
        } else {
            LineReach { bins: Some(bins) }
        }
    }

    /// Tests [`Scatter::fits`].
    pub fn check(&self, bins: usize) -> (b: bool)
        ensures
            b == self.fits(bins as int),
    {
        if bins == 0 || bins as u64 > i64::MAX as u64 {
            return false;
        }
        match self.bins {
            Some((lo, hi)) => lo < bins as i64 && hi >= 0,
            None => true,
        }
    }
}

impl Scatter<Part> for LineReach {
    open spec fn fits(&self, bins: int) -> bool {
        &&& 0 < bins <= i64::MAX
        &&& match self.bins {
            Some((lo, hi)) => !off_axis(lo as int, hi as int, bins),
            None => true,
        }
    }

    open spec fn parts(&self, bins: int) -> Seq<(usize, Part)> {
        match self.bins {
            Some((lo, hi)) => {
                let shares = cover(lo as int, hi as int, bins);
                Seq::new(shares.len(), |k: int| (shares[k].bin, shares[k].part))
            },
            None => Seq::empty(),
        }
    }

    fn list_parts(&self, bins: usize) -> (out: Vec<(usize, Part)>) {
        let mut out: Vec<(usize, Part)> = Vec::new();
        if let Some((lo, hi)) = self.bins {
            let shares: Vec<BinShare> = cover_1d(lo, hi, bins);
            let mut k: usize = 0;
            while k < shares.len()
                invariant
                    k <= shares@.len(),
                    0 < bins <= i64::MAX,
                    shares@ == cover(lo as int, hi as int, bins as int),
                    out@.len() == k,
                    forall|l: int|
                        0 <= l < k ==> #[trigger] out@[l] == (shares@[l].bin, shares@[l].part)
                            && out@[l].0 < bins,
                decreases shares@.len() - k,
            {
                out.push((shares[k].bin, shares[k].part));
                k = k + 1;
            }
        }
        assert(out@ =~= self.parts(bins as int));
        out
    }
}

/// The bins that a pixel reaches on a grid, none where it lies out of range.
#[derive(Debug, Clone, Copy)]
pub struct GridReach {
    /// The bins of the pixel's lower and upper edge, on the first and on the second
    /// axis.
    pub bins: Option<((i64, i64), (i64, i64))>,
    /// The number of bins on either axis.
    pub shape: (usize, usize),
}

impl GridReach {
    /// The cells of the pixel.
    pub open spec fn cells(&self) -> Seq<CellShare> {
        match self.bins {
            Some((bin0, bin1)) => cover_grid(
                bin0.0 as int,
                bin0.1 as int,
                bin1.0 as int,
                bin1.1 as int,
                self.shape.0 as int,
                self.shape.1 as int,
            ),
            None => Seq::empty(),
        }
    }

    /// The cells lie on the grid.
    proof fn lemma_cells(&self, bins: int)
        requires
            self.fits(bins),
        ensures
            forall|k: int| 0 <= k < self.cells().len() ==> (#[trigger] self.cells()[k]).cell < bins,
    {
        let (b0, b1) = (self.shape.0 as int, self.shape.1 as int);
        if let Some((bin0, bin1)) = self.bins {
            if !off_axis(bin0.0 as int, bin0.1 as int, b0) && !off_axis(
                bin1.0 as int,
                bin1.1 as int,
                b1,
            ) {
                let lo0 = range_lo(bin0.0 as int);
                let hi0 = range_hi(bin0.1 as int, b0);
                let lo1 = range_lo(bin1.0 as int);
                let hi1 = range_hi(bin1.1 as int, b1);
                let order = cell_order(lo0, hi0, lo1, hi1);
                lemma_cell_order_is_rectangle(lo0, hi0, lo1, hi1);
                assert forall|k: int| 0 <= k < self.cells().len() implies (
                #[trigger] self.cells()[k]).cell < bins by {
                    assert(order.contains((order[k].0, order[k].1)));
                    lemma_flat_bound(order[k].0, order[k].1, b0, b1);
                }
            }
        }
    }
}

impl Scatter<(Part, Part)> for GridReach {
    open spec fn fits(&self, bins: int) -> bool {
        &&& 0 < self.shape.0 <= i64::MAX
        &&& 0 < self.shape.1 <= i64::MAX
        &&& bins == self.shape.0 * self.shape.1
    }

    open spec fn parts(&self, bins: int) -> Seq<(usize, (Part, Part))> {
        let cells = self.cells();
        Seq::new(cells.len(), |k: int| (cells[k].cell, (cells[k].part0, cells[k].part1)))
    }

    fn list_parts(&self, bins: usize) -> (out: Vec<(usize, (Part, Part))>) {
        let mut out: Vec<(usize, (Part, Part))> = Vec::new();
        proof {
            self.lemma_cells(bins as int);
        }
        if let Some((bin0, bin1)) = self.bins {
            let cells: Vec<CellShare> = cover_2d(bin0, bin1, self.shape);
            let mut k: usize = 0;
            while k < cells.len()
                invariant
                    k <= cells@.len(),
                    cells@ == self.cells(),
                    forall|l: int|
                        0 <= l < self.cells().len() ==> (#[trigger] self.cells()[l]).cell < bins,
                    out@.len() == k,
                    forall|l: int|
                        0 <= l < k ==> #[trigger] out@[l] == (
                            cells@[l].cell,
                            (cells@[l].part0, cells@[l].part1),
                        ) && out@[l].0 < bins,
                decreases cells@.len() - k,
            {
                let c: CellShare = cells[k];
                assert(self.cells()[k as int].cell < bins);
                out.push((c.cell, (c.part0, c.part1)));
                k = k + 1;
            }
        }
        assert(out@ =~= self.parts(bins as int));
        out
    }
}

/// The bins that a pixel spans on a grid, taken as they are, none where it lies out of
/// range. A bin beyond the end of a row is taken for one of the rows next to it.
#[derive(Debug, Clone, Copy)]
pub struct RawReach {
    /// The bins of the pixel's lower and upper edge, on the first and on the second
    /// axis.
    pub bins: Option<((i64, i64), (i64, i64))>,
    /// The number of bins on either axis.
    pub shape: (usize, usize),
}

/// The place of a bin in a grid.
fn raw_cell(b0: i64, b1: i64, bins1: usize) -> (cell: i128)
    requires
        bins1 <= i64::MAX,
    ensures
        cell == flat(b0 as int, b1 as int, bins1 as int),
{
    proof {
        lemma_product_fits(b0, bins1);
    }
    b0 as i128 * bins1 as i128 + b1 as i128
}

impl RawReach {
    /// The cells of the pixel.
    pub open spec fn cells(&self) -> Seq<CellShare> {
        match self.bins {
            Some((bin0, bin1)) => {
                let (lo0, hi0) = (bin0.0 as int, bin0.1 as int);
                let (lo1, hi1) = (bin1.0 as int, bin1.1 as int);
                cell_shares(
                    lo0,
                    hi0,
                    lo1,
                    hi1,
                    self.shape.1 as int,
                    cell_order(lo0, hi0, lo1, hi1),
                )
            },
            None => Seq::empty(),
        }
    }

    /// The cells lie on the grid.
    proof fn lemma_cells(&self, bins: int)
        requires
            self.fits(bins),
        ensures
            forall|k: int| 0 <= k < self.cells().len() ==> (#[trigger] self.cells()[k]).cell < bins,
    {
        if let Some((bin0, bin1)) = self.bins {
            let (lo0, hi0) = (bin0.0 as int, bin0.1 as int);
            let (lo1, hi1) = (bin1.0 as int, bin1.1 as int);
            let b1 = self.shape.1 as int;
            let order = cell_order(lo0, hi0, lo1, hi1);
            lemma_cell_order_is_rectangle(lo0, hi0, lo1, hi1);
            assert forall|k: int| 0 <= k < self.cells().len() implies (
            #[trigger] self.cells()[k]).cell < bins by {
                assert(order.contains((order[k].0, order[k].1)));
                lemma_on_grid(lo0, hi0, lo1, hi1, b1, bins, order[k].0, order[k].1);
            }
        }
    }

    /// Tests [`Scatter::fits`] for the whole grid.
    pub fn check(&self) -> (b: bool)
        ensures
            b == self.fits(self.shape.0 * self.shape.1),
    {
        let cells: usize = match self.shape.0.checked_mul(self.shape.1) {
            Some(n) => n,
            None => {
                return false;
            },
        };
        let b1: usize = self.shape.1;
        if b1 as u64 > i64::MAX as u64 {
            return false;
        }
        match self.bins {
            Some((bin0, bin1)) => {
                let n: i128 = cells as i128;
                let (p, q): (i128, i128) = (
                    raw_cell(bin0.0, bin1.0, b1),
                    raw_cell(bin0.0, bin1.1, b1),
                );
                let (r, s): (i128, i128) = (
                    raw_cell(bin0.1, bin1.0, b1),
                    raw_cell(bin0.1, bin1.1, b1),
                );
                bin0.0 < i64::MAX && bin1.0 < i64::MAX && 0 <= p && p < n && 0 <= q && q < n && 0
                    <= r && r < n && 0 <= s && s < n
            },
            None => true,
        }
    }
}

impl Scatter<(Part, Part)> for RawReach {
    open spec fn fits(&self, bins: int) -> bool {
        &&& self.shape.1 <= i64::MAX
        &&& bins == self.shape.0 * self.shape.1
        &&& bins <= usize::MAX
        &&& match self.bins {
            Some((bin0, bin1)) => bin0.0 < i64::MAX && bin1.0 < i64::MAX && on_grid(
                bin0.0 as int,
                bin0.1 as int,
                bin1.0 as int,
                bin1.1 as int,
                self.shape.1 as int,
                bins,
            ),
            None => true,
        }
    }

    open spec fn parts(&self, bins: int) -> Seq<(usize, (Part, Part))> {
        let cells = self.cells();
        Seq::new(cells.len(), |k: int| (cells[k].cell, (cells[k].part0, cells[k].part1)))
    }

    fn list_parts(&self, bins: usize) -> (out: Vec<(usize, (Part, Part))>) {
        let mut out: Vec<(usize, (Part, Part))> = Vec::new();
        proof {
            self.lemma_cells(bins as int);
        }
        if let Some((bin0, bin1)) = self.bins {
            let cells: Vec<CellShare> = cover_raw(bin0, bin1, self.shape.1, bins);
            let mut k: usize = 0;
            while k < cells.len()
                invariant
                    k <= cells@.len(),
                    cells@ == self.cells(),
                    forall|l: int|
                        0 <= l < self.cells().len() ==> (#[trigger] self.cells()[l]).cell < bins,
                    out@.len() == k,
                    forall|l: int|
                        0 <= l < k ==> #[trigger] out@[l] == (
                            cells@[l].cell,
                            (cells@[l].part0, cells@[l].part1),
                        ) && out@[l].0 < bins,
                decreases cells@.len() - k,
            {
                let c: CellShare = cells[k];
                assert(self.cells()[k as int].cell < bins);
                out.push((c.cell, (c.part0, c.part1)));
                k = k + 1;
            }
        }
        assert(out@ =~= self.parts(bins as int));
        out
    }
}

/// A quadrilateral pixel along one axis: the bins of its smallest and largest position
/// and the double-precision weight of every bin of [`spread`]'s range, in ascending
/// order. A pixel in one bin weighs one; one without area has no weights.
#[derive(Debug)]
pub struct LineSweep {
    /// The bin of the pixel's smallest position.
    pub bin_min: i64,
    /// The bin of the pixel's largest position.
    pub bin_max: i64,
    /// Weights of the bins.
    pub weights: Option<Vec<u64>>,
}

/// The double-precision pattern of one.
pub const DOUBLE_ONE: u64 = 0x3ff0_0000_0000_0000;

impl LineSweep {
    /// The pixel has the weights of what it sweeps, none where the sum of the areas is
    /// nothing.
    pub open spec fn is_of<T, S, E: Fn(S) -> bool, C: Fn(T, S) -> u64>(
        &self,
        swept: Swept<T, S>,
        nothing: E,
        scale: C,
    ) -> bool {
        &&& self.bin_min == swept.bin_min
        &&& self.bin_max == swept.bin_max
        &&& match self.weights {
            None => nothing.ensures((swept.sum,), true),
            Some(w) => {
                &&& nothing.ensures((swept.sum,), false)
                &&& w@.len() == swept.areas@.len()
                &&& forall|k: int|
                    0 <= k < swept.areas@.len() ==> scale.ensures(
                        (swept.areas@[k], swept.sum),
                        #[trigger] w@[k],
                    )
            },
        }
    }

    /// The weights of a pixel by what it sweeps: `nothing` tells whether the sum of the
    /// areas is nothing, and `scale` gives the weight of an area and the sum of the
    /// areas. A pixel that sweeps nothing lies off the axis.
    pub fn of<T: Copy, S: Copy, E: Fn(S) -> bool, C: Fn(T, S) -> u64>(
        swept: &Option<Swept<T, S>>,
        nothing: &E,
        scale: &C,
    ) -> (p: Self)
        requires
            forall|s: S| #[trigger] nothing.requires((s,)),
            forall|t: T, s: S| #[trigger] scale.requires((t, s)),
        ensures
            swept matches Some(s) ==> p.is_of(*s, *nothing, *scale),
            swept is None ==> forall|bins: int| (#[trigger] p.parts(bins)).len() == 0,
            forall|bins: int|
                0 < bins <= i64::MAX && bins <= usize::MAX && (swept matches Some(s) ==> s.fits(
                    bins,
                )) ==> #[trigger] p.fits(bins),
    {
        match swept {
            Some(s) => LineSweep {
                bin_min: s.bin_min,
                bin_max: s.bin_max,
                weights: if nothing(s.sum) {
                    None
                } else {
                    Some(weigh(&s.areas, s.sum, scale))
                },
            },
            None => LineSweep { bin_min: -1, bin_max: -1, weights: None },
        }
    }
}

impl Scatter<u64> for LineSweep {
    open spec fn fits(&self, bins: int) -> bool {
        &&& 0 < bins <= i64::MAX
        &&& bins <= usize::MAX
        &&& match (spread(self.bin_min as int, self.bin_max as int, bins), self.weights) {
            (Spread::Over(lo, hi), Some(w)) => hi > lo ==> w@.len() == hi - lo,
            _ => true,
        }
    }

    open spec fn parts(&self, bins: int) -> Seq<(usize, u64)> {
        match (spread(self.bin_min as int, self.bin_max as int, bins), self.weights) {
            (Spread::Off, _) => Seq::empty(),
            (Spread::Single(b), _) => seq![(b, DOUBLE_ONE)],
            (Spread::Over(lo, hi), Some(w)) => Seq::new(
                (if hi > lo {
                    hi - lo
                } else {
                    0
                }) as nat,
                |k: int| ((lo + k) as usize, w@[k]),
            ),
            (Spread::Over(_, _), None) => Seq::empty(),
        }
    }

    fn list_parts(&self, bins: usize) -> (out: Vec<(usize, u64)>) {
        let mut out: Vec<(usize, u64)> = Vec::new();
        match spread_1d(self.bin_min, self.bin_max, bins) {
            Spread::Off => {},
            Spread::Single(b) => {
                out.push((b, DOUBLE_ONE));
            },
            Spread::Over(lo, hi) => {
                if let Some(w) = &self.weights {
                    let mut b: usize = lo;
                    while b < hi
                        invariant
                            lo <= b,
                            b <= hi || b == lo,
                            hi <= bins,
                            lo < hi ==> w@.len() == hi - lo,
                            out@.len() == b - lo,
                            forall|k: int|
                                0 <= k < b - lo ==> #[trigger] out@[k] == (
                                    (lo + k) as usize,
                                    w@[k],
                                ) && out@[k].0 < bins,
                        decreases hi - b,
                    {
                        out.push((b, w[b - lo]));
                        b = b + 1;
                    }
                }
            },
        }
        assert(out@ =~= self.parts(bins as int));
        out
    }
}

/// A quadrilateral pixel on a grid: the box of cells that it covers and the
/// double-precision weight of every place of a box with one more row and column, row
/// by row. A pixel out of range covers no cell.
#[derive(Debug)]
pub struct GridSweep {
    /// First row and column of the grid that the box covers.
    pub offset: (usize, usize),
    /// Number of rows and columns that the box covers.
    pub size: (usize, usize),
    /// The number of bins on either axis.
    pub shape: (usize, usize),
    /// Weights of the places.
    pub weights: Vec<u64>,
}

impl GridSweep {
    /// The pixel has the weights of what it sweeps.
    pub open spec fn is_of<T, S, C: Fn(T, S) -> u64>(
        &self,
        swept: BoxSwept<T, S>,
        shape: (usize, usize),
        scale: C,
    ) -> bool {
        &&& self.offset == swept.offset
        &&& self.size == swept.size
        &&& self.shape == shape
        &&& self.weights@.len() == swept.areas@.len()
        &&& forall|k: int|
            0 <= k < swept.areas@.len() ==> scale.ensures(
                (swept.areas@[k], swept.sum),
                #[trigger] self.weights@[k],
            )
    }

    /// The weights of a pixel by what it sweeps, none for one that reaches beyond the
    /// grid: `scale` gives the weight of an area and the sum of the areas. A pixel out
    /// of range covers no cell.
    pub fn of<T: Copy, S: Copy, C: Fn(T, S) -> u64>(
        reach: &BoxReach<T, S>,
        shape: (usize, usize),
        scale: &C,
    ) -> (r: Option<Self>)
        requires
            forall|t: T, s: S| #[trigger] scale.requires((t, s)),
        ensures
            r is None <==> reach is Beyond,
            reach matches BoxReach::Within(b) ==> (r->0).is_of(*b, shape, *scale),
            reach is Outside ==> (r->0).parts(shape.0 * shape.1).len() == 0,
            r is Some && shape.0 * shape.1 <= usize::MAX && (reach matches BoxReach::Within(b)
                ==> b.fits(shape)) ==> (r->0).fits(shape.0 * shape.1),
    {
        match reach {
            BoxReach::Outside => {
                let none = GridSweep { offset: (0, 0), size: (0, 0), shape, weights: vec![0u64] };
                proof {
                    assert(none.size.0 as int * none.size.1 as int == 0) by (nonlinear_arith)
                        requires
                            none.size.0 == 0,
                    ;
                    assert((none.size.0 + 1) * (none.size.1 + 1) == 1) by (nonlinear_arith)
                        requires
                            none.size.0 == 0,
                            none.size.1 == 0,
                    ;
                }
                Some(none)
            },
            BoxReach::Beyond => None,
            BoxReach::Within(b) => Some(
                GridSweep {
                    offset: b.offset,
                    size: b.size,
                    shape,
                    weights: weigh(&b.areas, b.sum, scale),
                },
            ),
        }
    }

    /// The cells that the box covers, with their places.
    pub open spec fn cells(&self) -> Seq<BoxCell> {
        box_order(
            self.offset.0 as int,
            self.offset.1 as int,
            self.size.1 as int,
            self.shape.1 as int,
            self.size.0 as int,
            0,
        )
    }

    /// A cell of the box lies in the box and on the grid.
    proof fn lemma_cell(&self, bins: int, k: int)
        requires
            self.fits(bins),
            0 <= k < self.cells().len(),
        ensures
            self.cells()[k].place < self.weights@.len(),
            self.cells()[k].cell < bins,
    {
        let w0 = self.size.0 as int;
        let w1 = self.size.1 as int;
        lemma_flat_cell(k, w0, w1);
        lemma_flat_bound(k / w1, k % w1, w0 + 1, w1 + 1);
        lemma_flat_bound(
            self.offset.0 + k / w1,
            self.offset.1 + k % w1,
            self.shape.0 as int,
            self.shape.1 as int,
        );
    }
}

impl Scatter<u64> for GridSweep {
    open spec fn fits(&self, bins: int) -> bool {
        &&& self.offset.0 + self.size.0 <= self.shape.0
        &&& self.offset.1 + self.size.1 <= self.shape.1
        &&& bins == self.shape.0 * self.shape.1
        &&& bins <= usize::MAX
        &&& self.weights@.len() == (self.size.0 + 1) * (self.size.1 + 1)
        &&& self.weights@.len() <= usize::MAX
    }

    open spec fn parts(&self, bins: int) -> Seq<(usize, u64)> {
        let cells = self.cells();
        Seq::new(cells.len(), |k: int| (cells[k].cell, self.weights@[cells[k].place as int]))
    }

    fn list_parts(&self, bins: usize) -> (out: Vec<(usize, u64)>) {
        let cells: Vec<BoxCell> = box_cells(
            self.offset.0,
            self.offset.1,
            self.size.0,
            self.size.1,
            self.shape,
        );
        let mut out: Vec<(usize, u64)> = Vec::new();
        let mut k: usize = 0;
        while k < cells.len()
            invariant
                self.fits(bins as int),
                cells@ == self.cells(),
                k <= cells@.len(),
                out@.len() == k,
                forall|l: int|
                    0 <= l < k ==> #[trigger] out@[l] == (
                        cells@[l].cell,
                        self.weights@[cells@[l].place as int],
                    ) && out@[l].0 < bins,
            decreases cells@.len() - k,
        {
            proof {
                self.lemma_cell(bins as int, k as int);
            }
            let at: BoxCell = cells[k];
            out.push((at.cell, self.weights[at.place]));
            k = k + 1;
        }
        assert(out@ =~= self.parts(bins as int));
        out
    }
}

/// What the pixels add to bin `b`, pixel by pixel: for each part its pixel and what is
/// known of it.
pub open spec fn parts_in<S, P: Scatter<S>>(
    pixels: Seq<P>,
    mask: Option<&[i8]>,
    bins: int,
    b: int,
) -> Seq<(usize, S)> {
    contributions(pixel_parts(pixels, mask, bins), b, pixels.len() as int)
}

/// What the pixels add to each bin.
pub open spec fn parts_of<S, P: Scatter<S>>(
    pixels: Seq<P>,
    mask: Option<&[i8]>,
    bins: int,
) -> spec_fn(int) -> Seq<(usize, S)> {
    |b: int| parts_in(pixels, mask, bins, b)
}

/// The histogram of pixels on an axis.
fn line_histogram<S: Copy, P: Scatter<S>, T: Copy, R, F: Fn(T, (usize, S)) -> T, G: Fn(T) -> R>(
    pixels: &[P],
    mask: Option<&[i8]>,
    npt: usize,
    start: T,
    step: &F,
    finish: &G,
) -> (out: Vec<R>)
    requires
        scatterable(pixels@, mask, npt as int),
        forall|t: T, c: (usize, S)| #[trigger] step.requires((t, c)),
        forall|t: T| #[trigger] finish.requires((t,)),
    ensures
        out@.len() == npt,
        forall|b: int|
            0 <= b < npt ==> reduces_to(
                *step,
                *finish,
                start,
                parts_in(pixels@, mask, npt as int, b),
                #[trigger] out@[b],
            ),
        bins_reduce_to(
            *step,
            *finish,
            start,
            parts_of(pixels@, mask, npt as int),
            npt as int,
            out@,
        ),
{
    let acc: Vec<T> = scatter_pixels(pixels, mask, npt, start, step);
    let out: Vec<R> = reduce_1d(&acc, finish);
    proof {
        assert forall|b: int| 0 <= b < npt implies reduces_to(
            *step,
            *finish,
            start,
            parts_in(pixels@, mask, npt as int, b),
            #[trigger] out@[b],
        ) by {
            assert(finish.ensures((acc@[b],), out@[b]));
        }
    }
    out
}

/// The histogram of pixels on a grid, the cells in azimuthal-major order.
fn grid_histogram<S: Copy, P: Scatter<S>, T: Copy, R, F: Fn(T, (usize, S)) -> T, G: Fn(T) -> R>(
    pixels: &[P],
    mask: Option<&[i8]>,
    bins: (usize, usize),
    start: T,
    step: &F,
    finish: &G,
) -> (out: Vec<R>)
    requires
        bins.0 * bins.1 <= usize::MAX,
        scatterable(pixels@, mask, bins.0 * bins.1),
        forall|t: T, c: (usize, S)| #[trigger] step.requires((t, c)),
        forall|t: T| #[trigger] finish.requires((t,)),
    ensures
        out@.len() == bins.0 * bins.1,
        forall|i: int|
            0 <= i < out@.len() ==> reduces_to(
                *step,
                *finish,
                start,
                parts_in(
                    pixels@,
                    mask,
                    bins.0 * bins.1,
                    source_cell(i, bins.0 as int, bins.1 as int),
                ),
                #[trigger] out@[i],
            ),
        cells_reduce_to(
            *step,
            *finish,
            start,
            parts_of(pixels@, mask, bins.0 * bins.1),
            (bins.0 as int, bins.1 as int),
            out@,
        ),
{
    let n: usize = bins.0 * bins.1;
    let acc: Vec<T> = scatter_pixels(pixels, mask, n, start, step);
    let out: Vec<R> = reduce_2d(&acc, bins, finish);
    proof {
        assert forall|i: int| 0 <= i < out@.len() implies reduces_to(
            *step,
            *finish,
            start,
            parts_in(pixels@, mask, n as int, source_cell(i, bins.0 as int, bins.1 as int)),
            #[trigger] out@[i],
        ) by {
            let b = source_cell(i, bins.0 as int, bins.1 as int);
            lemma_transpose_twice(i, bins.0 as int, bins.1 as int);
            assert(finish.ensures((acc@[b],), out@[i]));
        }
    }
    out
}

/// The histogram of pixels that are split along an axis, each over the bins between its
/// edges.
pub fn histogram1d_bbox<T: Copy, R, F: Fn(T, (usize, Part)) -> T, G: Fn(T) -> R>(
    pixels: &[LineReach],
    mask: Option<&[i8]>,
    npt: usize,
    start: T,
    step: F,
    finish: G,
) -> (out: Vec<R>)
    requires
        1 < npt,
        scatterable(pixels@, mask, npt as int),
        forall|t: T, c: (usize, Part)| #[trigger] step.requires((t, c)),
        forall|t: T| #[trigger] finish.requires((t,)),
    ensures
        out@.len() == npt,
        forall|b: int|
            0 <= b < npt ==> reduces_to(
                step,
                finish,
                start,
                parts_in(pixels@, mask, npt as int, b),
                #[trigger] out@[b],
            ),
        bins_reduce_to(
            step,
            finish,
            start,
            parts_of(pixels@, mask, npt as int),
            npt as int,
            out@,
        ),
{
    line_histogram(pixels, mask, npt, start, &step, &finish)
}

/// The histogram of quadrilateral pixels that are split along an axis, each by the area
/// that falls into every bin.
pub fn histogram1d_full<T: Copy, R, F: Fn(T, (usize, u64)) -> T, G: Fn(T) -> R>(
    pixels: &[LineSweep],
    mask: Option<&[i8]>,
    npt: usize,
    start: T,
    step: F,
    finish: G,
) -> (out: Vec<R>)
    requires
        1 < npt,
        scatterable(pixels@, mask, npt as int),
        forall|t: T, c: (usize, u64)| #[trigger] step.requires((t, c)),
        forall|t: T| #[trigger] finish.requires((t,)),
    ensures
        out@.len() == npt,
        forall|b: int|
            0 <= b < npt ==> reduces_to(
                step,
                finish,
                start,
                parts_in(pixels@, mask, npt as int, b),
                #[trigger] out@[b],
            ),
        bins_reduce_to(
            step,
            finish,
            start,
            parts_of(pixels@, mask, npt as int),
            npt as int,
            out@,
        ),
{
    line_histogram(pixels, mask, npt, start, &step, &finish)
}

/// The histogram of pixels that are split on a grid, each over the cells between its
/// edges, the cells in azimuthal-major order.
pub fn histogram2d_bbox<T: Copy, R, F: Fn(T, (usize, (Part, Part))) -> T, G: Fn(T) -> R>(
    pixels: &[GridReach],
    mask: Option<&[i8]>,
    bins: (usize, usize),
    start: T,
    step: F,
    finish: G,
) -> (out: Vec<R>)
    requires
        0 < bins.0,
        0 < bins.1,
        bins.0 * bins.1 <= usize::MAX,
        scatterable(pixels@, mask, bins.0 * bins.1),
        forall|t: T, c: (usize, (Part, Part))| #[trigger] step.requires((t, c)),
        forall|t: T| #[trigger] finish.requires((t,)),
    ensures
        out@.len() == bins.0 * bins.1,
        forall|i: int|
            0 <= i < out@.len() ==> reduces_to(
                step,
                finish,
                start,
                parts_in(
                    pixels@,
                    mask,
                    bins.0 * bins.1,
                    source_cell(i, bins.0 as int, bins.1 as int),
                ),
                #[trigger] out@[i],
            ),
        cells_reduce_to(
            step,
            finish,
            start,
            parts_of(pixels@, mask, bins.0 * bins.1),
            (bins.0 as int, bins.1 as int),
            out@,
        ),
{
    grid_histogram(pixels, mask, bins, start, &step, &finish)
}

/// The histogram of pixels that are taken for rectangles of the same area and split on a
/// grid, the cells in azimuthal-major order. What the rectangles are is settled by
/// [`pseudo_pixels`](crate::pseudo::pseudo_pixels).
pub fn histogram2d_pseudo<T: Copy, R, F: Fn(T, (usize, (Part, Part))) -> T, G: Fn(T) -> R>(
    pixels: &[RawReach],
    mask: Option<&[i8]>,
    bins: (usize, usize),
    start: T,
    step: F,
    finish: G,
) -> (out: Vec<R>)
    requires
        0 < bins.0,
        0 < bins.1,
        bins.0 * bins.1 <= usize::MAX,
        scatterable(pixels@, mask, bins.0 * bins.1),
        forall|t: T, c: (usize, (Part, Part))| #[trigger] step.requires((t, c)),
        forall|t: T| #[trigger] finish.requires((t,)),
    ensures
        out@.len() == bins.0 * bins.1,
        forall|i: int|
            0 <= i < out@.len() ==> reduces_to(
                step,
                finish,
                start,
                parts_in(
                    pixels@,
                    mask,
                    bins.0 * bins.1,
                    source_cell(i, bins.0 as int, bins.1 as int),
                ),
                #[trigger] out@[i],
            ),
        cells_reduce_to(
            step,
            finish,
            start,
            parts_of(pixels@, mask, bins.0 * bins.1),
            (bins.0 as int, bins.1 as int),
            out@,
        ),
{
    grid_histogram(pixels, mask, bins, start, &step, &finish)
}

/// The histogram of quadrilateral pixels that are split on a grid, each by the area that
/// falls into every cell, the cells in azimuthal-major order.
pub fn histogram2d_full<T: Copy, R, F: Fn(T, (usize, u64)) -> T, G: Fn(T) -> R>(
    pixels: &[GridSweep],
    mask: Option<&[i8]>,
    bins: (usize, usize),
    start: T,
    step: F,
    finish: G,
) -> (out: Vec<R>)
    requires
        0 < bins.0,
        0 < bins.1,
        bins.0 * bins.1 <= usize::MAX,
        scatterable(pixels@, mask, bins.0 * bins.1),
        forall|t: T, c: (usize, u64)| #[trigger] step.requires((t, c)),
        forall|t: T| #[trigger] finish.requires((t,)),
    ensures
        out@.len() == bins.0 * bins.1,
        forall|i: int|
            0 <= i < out@.len() ==> reduces_to(
                step,
                finish,
                start,
                parts_in(
                    pixels@,
                    mask,
                    bins.0 * bins.1,
                    source_cell(i, bins.0 as int, bins.1 as int),
                ),
                #[trigger] out@[i],
            ),
        cells_reduce_to(
            step,
            finish,
            start,
            parts_of(pixels@, mask, bins.0 * bins.1),
            (bins.0 as int, bins.1 as int),
            out@,
        ),
{
    grid_histogram(pixels, mask, bins, start, &step, &finish)
}

/// The direct histogram of pixels and their matrix agree: row `b` of the matrix holds,
/// pixel by pixel, the coefficients of the parts that the histogram adds to bin `b`.
pub proof fn lemma_direct_split_is_matrix(
    reaches: Seq<LineReach>,
    spans: Seq<PixelSpan>,
    mask: Option<&[i8]>,
    bins: int,
    b: int,
)
    requires
        reaches.len() == spans.len(),
        spans.len() <= i32::MAX + 1,
        forall|i: int|
            0 <= i < spans.len() ==> (#[trigger] reaches[i]).bins == Some(
                (spans[i].bin_min, spans[i].bin_max),
            ),
    ensures
        built_row(pixel_shares(spans, mask, bins), b, spans.len() as int) == weighed(
            spans,
            parts_in(reaches, mask, bins, b),
        ),
{
    lemma_direct_rows(reaches, spans, mask, bins, b, spans.len() as int);
}

/// The entries of a row that hold given parts of pixels.
pub open spec fn weighed(spans: Seq<PixelSpan>, parts: Seq<(usize, Part)>) -> Seq<Entry> {
    Seq::new(
        parts.len(),
        |k: int| (parts[k].0 as i32, spans[parts[k].0 as int].weight(parts[k].1)),
    )
}

proof fn lemma_direct_rows(
    reaches: Seq<LineReach>,
    spans: Seq<PixelSpan>,
    mask: Option<&[i8]>,
    bins: int,
    b: int,
    n: int,
)
    requires
        reaches.len() == spans.len(),
        spans.len() <= i32::MAX + 1,
        0 <= n <= spans.len(),
        forall|i: int|
            0 <= i < spans.len() ==> (#[trigger] reaches[i]).bins == Some(
                (spans[i].bin_min, spans[i].bin_max),
            ),
    ensures
        built_row(pixel_shares(spans, mask, bins), b, n) == weighed(
            spans,
            contributions(pixel_parts(reaches, mask, bins), b, n),
        ),
    decreases n,
{
    let shares = pixel_shares(spans, mask, bins);
    let parts = pixel_parts(reaches, mask, bins);
    if n > 0 {
        let i = n - 1;
        lemma_direct_rows(reaches, spans, mask, bins, b, i);
        assert(reaches[i].bins == Some((spans[i].bin_min, spans[i].bin_max)));
        if masked_out(mask, i) {
            assert(shares(i) == Seq::<(usize, u32)>::empty());
            assert(parts(i) == Seq::<(usize, Part)>::empty());
        } else {
            assert(shares(i) == spans[i].shares(bins));
            assert(parts(i) == reaches[i].parts(bins));
        }
        assert forall|k: int| 0 <= k < parts(i).len() implies #[trigger] shares(i)[k] == (
            parts(i)[k].0,
            spans[i].weight(parts(i)[k].1),
        ) by {}
        assert(shares(i).len() == parts(i).len());
        lemma_direct_pixel(spans, shares(i), parts(i), b, i);
        assert(built_row(shares, b, n) =~= weighed(spans, contributions(parts, b, n)));
    } else {
        assert(built_row(shares, b, n) =~= weighed(spans, contributions(parts, b, n)));
    }
}

proof fn lemma_direct_pixel(
    spans: Seq<PixelSpan>,
    shares: Seq<(usize, u32)>,
    parts: Seq<(usize, Part)>,
    b: int,
    i: int,
)
    requires
        0 <= i < spans.len(),
        i <= i32::MAX,
        shares.len() == parts.len(),
        forall|k: int|
            0 <= k < parts.len() ==> #[trigger] shares[k] == (
                parts[k].0,
                spans[i].weight(parts[k].1),
            ),
    ensures
        share_entries(shares, b, i) == weighed(spans, shares_in(parts, b, i as usize)),
    decreases parts.len(),
{
    if parts.len() > 0 {
        assert(shares[shares.len() - 1] == (parts.last().0, spans[i].weight(parts.last().1)));
        assert forall|k: int| 0 <= k < parts.drop_last().len() implies #[trigger] shares.drop_last()[k]
            == (parts.drop_last()[k].0, spans[i].weight(parts.drop_last()[k].1)) by {
            assert(shares[k] == (parts[k].0, spans[i].weight(parts[k].1)));
        }
        lemma_direct_pixel(spans, shares.drop_last(), parts.drop_last(), b, i);
    }
    assert(share_entries(shares, b, i) =~= weighed(spans, shares_in(parts, b, i as usize)));
}

/// A pixel is out of range where no position lies both between its edges and in the range.
pub proof fn lemma_reach_of_a_pixel(lower: u64, upper: u64, range: (u64, u64), bins: (i64, i64))
    requires
        !is_nan(lower) && !is_nan(upper) && !is_nan(range.0) && !is_nan(range.1),
        rank(lower) <= rank(upper),
        rank(range.0) <= rank(range.1),
    ensures
        ({
            let r = LineReach::reach(lower, upper, range, bins).bins;
            &&& r is None <==> !exists|x: u64|
                rank(lower) <= #[trigger] rank(x) <= rank(upper) && rank(range.0) <= rank(x)
                    <= rank(range.1)
            &&& r is Some ==> r->0 == bins
        }),
{
    let x = if rank(lower) <= rank(range.0) {
        range.0
    } else {
        lower
    };
    if !gt(range.0, upper) && !gt(lower, range.1) {
        assert(rank(lower) <= rank(x) <= rank(upper) && rank(range.0) <= rank(x) <= rank(range.1));
    }
}

/// What part of a pixel that spans the bins from `lo` to `hi` bin `x` has.
pub open spec fn part_in(lo: int, hi: int, x: int) -> Part {
    if lo == hi {
        Part::Whole
    } else if x == lo {
        Part::First
    } else if x == hi {
        Part::Last
    } else {
        Part::Inner
    }
}

/// The parts of a pixel along an axis: one for each bin on the axis between its edges, the
/// first, the last and those between them, or the pixel whole where there is one bin.
pub proof fn lemma_parts_on_a_line(p: LineReach, bins: int, b: int, part: Part)
    requires
        p.fits(bins),
        bins <= usize::MAX,
        p.bins matches Some((lo, hi)) ==> lo <= hi,
        0 <= b <= usize::MAX,
    ensures
        p.parts(bins).contains((b as usize, part)) <==> match p.bins {
            None => false,
            Some((bin_min, bin_max)) => {
                let lo = larger(bin_min as int, 0);
                let hi = smaller(bin_max as int, bins - 1);
                lo <= b <= hi && part == part_in(lo, hi, b)
            },
        },
{
    let parts = p.parts(bins);
    if let Some((bin_min, bin_max)) = p.bins {
        let shares = cover(bin_min as int, bin_max as int, bins);
        let lo = larger(bin_min as int, 0);
        let hi = smaller(bin_max as int, bins - 1);
        lemma_cover_is_range(bin_min as int, bin_max as int, bins, b);
        if lo <= b <= hi {
            let want = BinShare { bin: b as usize, part: part_of(lo, hi, b) };
            let k = choose|k: int| 0 <= k < shares.len() && shares[k] == want;
            assert(parts[k] == (b as usize, part_of(lo, hi, b)));
        }
        if parts.contains((b as usize, part)) {
            let k = choose|k: int| 0 <= k < parts.len() && parts[k] == (b as usize, part);
            lemma_cover_is_range(bin_min as int, bin_max as int, bins, k);
        }
    }
}

/// The parts of a pixel on a grid: one for each cell of the rectangle between its edges, as
/// far as it lies on the grid, with the part along either axis.
pub proof fn lemma_parts_on_a_grid(p: GridReach, bins: int, x: int, y: int)
    requires
        p.fits(bins),
        bins <= usize::MAX,
        p.bins matches Some((bin0, bin1)) ==> bin0.0 <= bin0.1 && bin1.0 <= bin1.1,
        0 <= x < p.shape.0,
        0 <= y < p.shape.1,
    ensures
        ({
            let cell = x * p.shape.1 + y;
            let none = forall|k: int|
                0 <= k < p.parts(bins).len() ==> (#[trigger] p.parts(bins)[k]).0 != cell;
            &&& 0 <= cell < bins
            &&& match p.bins {
                None => none,
                Some((bin0, bin1)) => {
                    let (lo0, hi0) = (
                        larger(bin0.0 as int, 0),
                        smaller(bin0.1 as int, p.shape.0 - 1),
                    );
                    let (lo1, hi1) = (
                        larger(bin1.0 as int, 0),
                        smaller(bin1.1 as int, p.shape.1 - 1),
                    );
                    if lo0 <= x <= hi0 && lo1 <= y <= hi1 {
                        p.parts(bins).contains(
                            (cell as usize, (part_in(lo0, hi0, x), part_in(lo1, hi1, y))),
                        )
                    } else {
                        none
                    }
                },
            }
        }),
{
    let (b0, b1) = (p.shape.0 as int, p.shape.1 as int);
    let parts = p.parts(bins);
    let cells = p.cells();
    lemma_flat_bound(x, y, b0, b1);
    if let Some((bin0, bin1)) = p.bins {
        let (lo0, hi0) = (larger(bin0.0 as int, 0), smaller(bin0.1 as int, b0 - 1));
        let (lo1, hi1) = (larger(bin1.0 as int, 0), smaller(bin1.1 as int, b1 - 1));
        if !off_axis(bin0.0 as int, bin0.1 as int, b0) && !off_axis(
            bin1.0 as int,
            bin1.1 as int,
            b1,
        ) {
            let order = cell_order(lo0, hi0, lo1, hi1);
            lemma_cell_order_is_rectangle(lo0, hi0, lo1, hi1);
            if lo0 <= x <= hi0 && lo1 <= y <= hi1 {
                assert(order.contains((x, y)));
                let k = choose|k: int| 0 <= k < order.len() && order[k] == (x, y);
                assert(cells[k].cell == flat(x, y, b1));
                assert(cells[k].part0 == part_of(lo0, hi0, x));
                assert(cells[k].part1 == part_of(lo1, hi1, y));
                assert(parts[k] == (cells[k].cell, (cells[k].part0, cells[k].part1)));
            } else {
                assert forall|k: int| 0 <= k < parts.len() implies (#[trigger] parts[k]).0 != flat(
                    x,
                    y,
                    b1,
                ) by {
                    let at = order[k];
                    assert(order.contains((at.0, at.1)));
                    lemma_flat_bound(at.0, at.1, b0, b1);
                    lemma_flat_inverse(at.0, at.1, b1);
                    lemma_flat_inverse(x, y, b1);
                }
            }
        }
    }
}

/// The parts of a pixel whose bins are taken as they are: one for each of the bins between
/// its edges, at the place that the bin has in a grid that goes on in all directions.
pub proof fn lemma_raw_parts(p: RawReach, bins: int, x: int, y: int)
    requires
        p.fits(bins),
        p.bins is Some,
        (p.bins->0).0.0 <= x <= (p.bins->0).0.1,
        (p.bins->0).1.0 <= y <= (p.bins->0).1.1,
    ensures
        ({
            let ((lo0, hi0), (lo1, hi1)) = p.bins->0;
            let cell = x * p.shape.1 + y;
            &&& 0 <= cell < bins
            &&& p.parts(bins).contains(
                (
                    cell as usize,
                    (part_in(lo0 as int, hi0 as int, x), part_in(lo1 as int, hi1 as int, y)),
                ),
            )
            &&& p.parts(bins).len() == cell_order(
                lo0 as int,
                hi0 as int,
                lo1 as int,
                hi1 as int,
            ).len()
        }),
{
    let ((lo0, hi0), (lo1, hi1)) = p.bins->0;
    let (lo0, hi0, lo1, hi1) = (lo0 as int, hi0 as int, lo1 as int, hi1 as int);
    let order = cell_order(lo0, hi0, lo1, hi1);
    let cells = p.cells();
    lemma_cell_order_is_rectangle(lo0, hi0, lo1, hi1);
    lemma_on_grid(lo0, hi0, lo1, hi1, p.shape.1 as int, bins, x, y);
    assert(order.contains((x, y)));
    let k = choose|k: int| 0 <= k < order.len() && order[k] == (x, y);
    assert(cells[k].cell == flat(x, y, p.shape.1 as int));
    assert(cells[k].part0 == part_of(lo0, hi0, x));
    assert(cells[k].part1 == part_of(lo1, hi1, y));
    assert(p.parts(bins)[k] == (cells[k].cell, (cells[k].part0, cells[k].part1)));
}

/// The parts of a quadrilateral pixel along an axis: one for each bin on the axis between
/// those of its smallest and largest position, with the weights in turn; the pixel whole
/// where there is one bin; none where the pixel has no weights.
pub proof fn lemma_swept_parts_on_a_line(p: LineSweep, bins: int, b: int, w: u64)
    requires
        p.fits(bins),
        p.bin_min <= p.bin_max,
        0 <= b <= usize::MAX,
    ensures
        ({
            let lo = larger(p.bin_min as int, 0);
            let hi = smaller(p.bin_max as int, bins - 1);
            p.parts(bins).contains((b as usize, w)) <==> lo <= b <= hi && if p.bin_min
                == p.bin_max {
                w == DOUBLE_ONE
            } else {
                p.weights matches Some(v) && w == v@[b - lo]
            }
        }),
{
    let parts = p.parts(bins);
    let lo = larger(p.bin_min as int, 0);
    let hi = smaller(p.bin_max as int, bins - 1);
    if lo <= b <= hi && (p.bin_min == p.bin_max || p.weights is Some) {
        let k = if p.bin_min == p.bin_max {
            0
        } else {
            b - lo
        };
        assert(parts[k].0 == b);
        if p.bin_min == p.bin_max {
            assert(parts[k].1 == DOUBLE_ONE);
        } else {
            assert(parts[k].1 == (p.weights->0)@[b - lo]);
        }
    }
}

/// The parts of a quadrilateral pixel on a grid: one for each cell of its box, the one in
/// row `i` and column `j` of the box with the weight at `i * (columns + 1) + j`.
pub proof fn lemma_swept_parts_on_a_grid(p: GridSweep, bins: int, x: int, y: int)
    requires
        p.fits(bins),
        0 <= x < p.shape.0,
        0 <= y < p.shape.1,
    ensures
        ({
            let (i, j) = (x - p.offset.0, y - p.offset.1);
            let cell = x * p.shape.1 + y;
            &&& 0 <= cell < bins
            &&& 0 <= i < p.size.0 && 0 <= j < p.size.1 ==> p.parts(bins).contains(
                (cell as usize, p.weights@[i * (p.size.1 + 1) + j]),
            )
            &&& !(0 <= i < p.size.0 && 0 <= j < p.size.1) ==> forall|k: int|
                0 <= k < p.parts(bins).len() ==> (#[trigger] p.parts(bins)[k]).0 != cell
        }),
{
    let (b0, b1) = (p.shape.0 as int, p.shape.1 as int);
    let (w0, w1) = (p.size.0 as int, p.size.1 as int);
    let (i, j) = (x - p.offset.0, y - p.offset.1);
    let parts = p.parts(bins);
    lemma_flat_bound(x, y, b0, b1);
    lemma_flat_inverse(x, y, b1);
    if 0 <= i < w0 && 0 <= j < w1 {
        lemma_box_is_rectangle(p.offset.0 as int, p.offset.1 as int, w0, w1, (b0, b1), i, j);
        let k = i * w1 + j;
        let c = p.cells()[k].cell as int;
        lemma_flat_of(c, b1);
        assert(parts[k].0 == c);
        assert(parts[k].1 == p.weights@[i * (w1 + 1) + j]);
    } else {
        assert forall|k: int| 0 <= k < parts.len() implies (#[trigger] parts[k]).0 != flat(
            x,
            y,
            b1,
        ) by {
            lemma_flat_cell(k, w0, w1);
            let (r, c) = (p.offset.0 + k / w1, p.offset.1 + k % w1);
            lemma_flat_bound(r, c, b0, b1);
            lemma_flat_inverse(r, c, b1);
        }
    }
}

/// A pixel along an axis has no weights where the sum of its areas is nothing, else each
/// area over the sum, in turn.
pub proof fn lemma_weights_on_a_line<T, S, E: Fn(S) -> bool, C: Fn(T, S) -> u64>(
    p: LineSweep,
    swept: Swept<T, S>,
    nothing: E,
    scale: C,
    area: spec_fn(T) -> int,
    sum: spec_fn(S) -> int,
    val: spec_fn(u64) -> int,
    k: int,
)
    requires
        p.is_of(swept, nothing, scale),
        forall|s: S, b: bool| #[trigger] nothing.ensures((s,), b) ==> (b <==> sum(s) == 0),
        forall|t: T, s: S, w: u64| #[trigger]
            scale.ensures((t, s), w) ==> val(w) * sum(s) == area(t),
        0 <= k < swept.areas@.len(),
    ensures
        p.weights is None <==> sum(swept.sum) == 0,
        p.weights matches Some(w) ==> w@.len() == swept.areas@.len() && val(w@[k]) * sum(swept.sum)
            == area(swept.areas@[k]),
        p.bin_min == swept.bin_min && p.bin_max == swept.bin_max,
{
}

/// The weights of a pixel on a grid are its areas over their sum, place by place.
pub proof fn lemma_weights_on_a_grid<T, S, C: Fn(T, S) -> u64>(
    p: GridSweep,
    swept: BoxSwept<T, S>,
    shape: (usize, usize),
    scale: C,
    area: spec_fn(T) -> int,
    sum: spec_fn(S) -> int,
    val: spec_fn(u64) -> int,
    k: int,
)
    requires
        p.is_of(swept, shape, scale),
        forall|t: T, s: S, w: u64| #[trigger]
            scale.ensures((t, s), w) ==> val(w) * sum(s) == area(t),
        0 <= k < swept.areas@.len(),
    ensures
        p.weights@.len() == swept.areas@.len(),
        val(p.weights@[k]) * sum(swept.sum) == area(swept.areas@[k]),
        p.offset == swept.offset && p.size == swept.size && p.shape == shape,
{
}

/// A bin is given the parts of the pixels that fall into it, those of masked pixels left
/// out, pixel by pixel.
pub proof fn lemma_parts_of_a_bin<S, P: Scatter<S>>(
    pixels: Seq<P>,
    mask: Option<&[i8]>,
    bins: int,
    b: int,
    i: int,
    part: S,
)
    requires
        pixels.len() <= usize::MAX,
        0 <= b <= usize::MAX,
        0 <= i < pixels.len(),
    ensures
        parts_of(pixels, mask, bins)(b).contains((i as usize, part)) <==> !(mask is Some
            && (mask->0)@[i] != 0) && pixels[i].parts(bins).contains((b as usize, part)),
        forall|j: int, k: int|
            0 <= j <= k < parts_of(pixels, mask, bins)(b).len() ==> (#[trigger] parts_of(
                pixels,
                mask,
                bins,
            )(b)[j]).0 <= (#[trigger] parts_of(pixels, mask, bins)(b)[k]).0,
{
    lemma_contributions_are_shares(
        pixel_parts(pixels, mask, bins),
        b,
        pixels.len() as int,
        i,
        part,
    );
}

} // verus!
