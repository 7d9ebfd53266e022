//! Building the matrix of overlap coefficients, pixel by pixel.

use crate::ieee::ONE;
use crate::sparse::{
    ascending, csr_to_csc, csr_to_lut, flatten_csr, lists_view, total_entries, widest, Csc, Csr,
    Entry, Lut,
};
use crate::edge::{
    box_cells, box_order, larger, lemma_box_is_rectangle, smaller, spread, spread_1d, BoxCell, Spread,
};
use crate::integrate::{lemma_scattered_entries, scattered_valid};
use crate::grid::{
    flat, lemma_flat_bound, lemma_flat_cell, lemma_flat_inverse, lemma_flat_of, lemma_flat_order,
};
use crate::patch::{BoxReach, BoxSwept};
use crate::quad::{weigh, Swept};
use crate::split::{
    cell_order, cover, cover_1d, cover_2d, cover_grid, lemma_cell_order_is_rectangle,
    lemma_cover_is_range, off_axis, part_of, range_hi, range_lo, BinShare, CellShare, Part,
};
use vstd::prelude::*;

verus! {

/// A share of a pixel: the bin it falls into and its coefficient.
pub type Share = (usize, u32);

/// What the shares of pixel `i` add to bin `b`.
pub open spec fn share_entries(shares: Seq<Share>, b: int, i: int) -> Seq<Entry>
    decreases shares.len(),
{
    if shares.len() == 0 {
        Seq::empty()
    } else if shares.last().0 == b {
        share_entries(shares.drop_last(), b, i).push((i as i32, shares.last().1))
    } else {
        share_entries(shares.drop_last(), b, i)
    }
}

/// Lists of entries, one per bin, to which pixels are added in turn.
pub struct SparseBuilder {
    /// The entries of each bin.
    pub lists: Vec<Vec<Entry>>,
}

impl SparseBuilder {
    /// The entries of bin `b`.
    pub open spec fn row(&self, b: int) -> Seq<Entry> {
        self.lists@[b]@
    }

    /// How many entries there are in all.
    pub open spec fn total(&self) -> int {
        total_entries(lists_view(self.lists@), self.lists@.len() as int)
    }

    /// A matrix of `bins` empty bins.
    pub fn new(bins: usize) -> (s: Self)
        ensures
            s.lists@.len() == bins,
            forall|b: int| 0 <= b < bins ==> #[trigger] s.row(b) == Seq::<Entry>::empty(),
            s.total() == 0,
    {
        let mut lists: Vec<Vec<Entry>> = Vec::new();
        let mut b: usize = 0;
        while b < bins
            invariant
                b <= bins,
                lists@.len() == b,
                forall|i: int| 0 <= i < b ==> (#[trigger] lists@[i])@ == Seq::<Entry>::empty(),
            decreases bins - b,
        {
            lists.push(Vec::new());
            b = b + 1;
        }
        proof {
            lemma_total_empty(lists_view(lists@), bins as int);
        }
        SparseBuilder { lists }
    }

    /// Adds the shares of a pixel, each at the end of the list of its bin.
    pub fn insert_pixel(&mut self, pixel: i32, shares: &Vec<Share>)
        requires
            0 <= pixel,
            forall|k: int|
                0 <= k < shares@.len() ==> (#[trigger] shares@[k]).0 < old(self).lists@.len(),
        ensures
            final(self).lists@.len() == old(self).lists@.len(),
            final(self).total() == old(self).total() + shares@.len(),
            forall|b: int|
                0 <= b < old(self).lists@.len() ==> #[trigger] final(self).row(b) == old(self).row(
                    b,
                ) + share_entries(shares@, b, pixel as int),
    {
        let mut k: usize = 0;
        assert(shares@.take(0) =~= Seq::<Share>::empty());
        while k < shares.len()
            invariant
                0 <= pixel,
                k <= shares@.len(),
                self.lists@.len() == old(self).lists@.len(),
                forall|l: int|
                    0 <= l < shares@.len() ==> (#[trigger] shares@[l]).0 < old(self).lists@.len(),
                self.total() == old(self).total() + k,
                forall|b: int|
                    0 <= b < old(self).lists@.len() ==> #[trigger] self.row(b) == old(self).row(b)
                        + share_entries(shares@.take(k as int), b, pixel as int),
            decreases shares@.len() - k,
        {
            let (bin, coef): Share = shares[k];
            let ghost state = *self;
            let ghost before = self.lists@;
            let ghost taken = shares@.take(k as int);
            proof {
                assert(shares@.take(k + 1).drop_last() =~= taken);
                assert(shares@.take(k + 1).last() == (bin, coef));
            }
            self.lists[bin].push((pixel, coef));
            proof {
                lemma_total_push(
                    lists_view(before),
                    lists_view(self.lists@),
                    bin as int,
                    before.len() as int,
                );
                assert forall|b: int| 0 <= b < old(self).lists@.len() implies #[trigger] self.row(b)
                    == old(self).row(b) + share_entries(shares@.take(k + 1), b, pixel as int) by {
                    assert(state.row(b) == old(self).row(b) + share_entries(
                        taken,
                        b,
                        pixel as int,
                    ));
                    if b != bin {
                        assert(self.lists@[b] == before[b]);
                    } else {
                        assert(self.lists@[b]@ == before[b]@.push((pixel, coef)));
                    }
                    assert(self.row(b) =~= old(self).row(b) + share_entries(
                        shares@.take(k + 1),
                        b,
                        pixel as int,
                    ));
                }
            }
            k = k + 1;
        }
        assert(shares@.take(shares@.len() as int) =~= shares@);
    }

    /// The matrix of the lists.
    pub fn to_csr(&self) -> (csr: Csr)
        requires
            self.total() <= i32::MAX,
        ensures
            csr.wf(self.lists@.len() as int),
            forall|b: int| 0 <= b < self.lists@.len() ==> #[trigger] csr.row(b) == self.row(b),
    {
        flatten_csr(&self.lists)
    }
}

/// Empty lists hold nothing.
proof fn lemma_total_empty(lists: Seq<Seq<Entry>>, n: int)
    requires
        n <= lists.len(),
        forall|b: int| 0 <= b < n ==> (#[trigger] lists[b]).len() == 0,
    ensures
        total_entries(lists, n) == 0,
    decreases n,
{
    if n > 0 {
        lemma_total_empty(lists, n - 1);
    }
}

/// One more entry in one list is one more entry in all.
proof fn lemma_total_push(before: Seq<Seq<Entry>>, after: Seq<Seq<Entry>>, bin: int, n: int)
    requires
        before.len() == after.len(),
        0 <= bin < before.len(),
        0 <= n <= before.len(),
        after[bin].len() == before[bin].len() + 1,
        forall|b: int| 0 <= b < before.len() && b != bin ==> #[trigger] after[b] == before[b],
    ensures
        total_entries(after, n) == total_entries(before, n) + if bin < n {
            1int
        } else {
            0
        },
    decreases n,
{
    if n > 0 {
        lemma_total_push(before, after, bin, n - 1);
    }
}

/// What the first `n` pixels add to bin `b`, pixel by pixel, where `shares` gives
/// the shares of each pixel.
pub open spec fn built_row(shares: spec_fn(int) -> Seq<Share>, b: int, n: int) -> Seq<Entry>
    decreases n,
{
    if n <= 0 {
        Seq::empty()
    } else {
        built_row(shares, b, n - 1) + share_entries(shares(n - 1), b, n - 1)
    }
}

/// How many shares the first `n` pixels have.
pub open spec fn built_total(shares: spec_fn(int) -> Seq<Share>, n: int) -> int
    decreases n,
{
    if n <= 0 {
        0
    } else {
        built_total(shares, n - 1) + shares(n - 1).len()
    }
}

/// The builder holds the shares of the first `n` pixels.
spec fn builder_holds(
    builder: SparseBuilder,
    bins: int,
    shares: spec_fn(int) -> Seq<Share>,
    n: int,
) -> bool {
    &&& builder.lists@.len() == bins
    &&& builder.total() == built_total(shares, n)
    &&& forall|b: int| 0 <= b < bins ==> #[trigger] builder.row(b) == built_row(shares, b, n)
}

/// No two shares fall into one bin.
pub open spec fn distinct_bins(shares: Seq<Share>) -> bool {
    forall|i: int, j: int|
        0 <= i < j < shares.len() ==> (#[trigger] shares[i]).0 != (#[trigger] shares[j]).0
}

/// A pixel adds to a bin the share that falls into it, and nothing where none does.
proof fn lemma_share_entries(shares: Seq<Share>, b: int, i: int)
    requires
        distinct_bins(shares),
    ensures
        forall|k: int|
            0 <= k < shares.len() && (#[trigger] shares[k]).0 == b ==> share_entries(shares, b, i)
                == seq![(i as i32, shares[k].1)],
        (forall|k: int| 0 <= k < shares.len() ==> (#[trigger] shares[k]).0 != b)
            ==> share_entries(shares, b, i) == Seq::<Entry>::empty(),
        share_entries(shares, b, i).len() <= 1,
        forall|e: int|
            0 <= e < share_entries(shares, b, i).len() ==> (#[trigger] share_entries(
                shares,
                b,
                i,
            )[e]).0 == i as i32,
    decreases shares.len(),
{
    if shares.len() > 0 {
        let rest = shares.drop_last();
        assert forall|k: int, l: int| 0 <= k < l < rest.len() implies (#[trigger] rest[k]).0 != (
        #[trigger] rest[l]).0 by {
            assert(shares[k].0 != shares[l].0);
        }
        lemma_share_entries(rest, b, i);
        if shares.last().0 == b {
            assert forall|k: int| 0 <= k < rest.len() implies (#[trigger] rest[k]).0 != b by {
                assert(shares[k].0 != shares[shares.len() - 1].0);
            }
            assert(share_entries(shares, b, i) =~= seq![(i as i32, shares.last().1)]);
        } else {
            assert forall|k: int|
                0 <= k < shares.len() && (#[trigger] shares[k]).0 == b implies share_entries(
                shares,
                b,
                i,
            ) == seq![(i as i32, shares[k].1)] by {
                assert(rest[k] == shares[k]);
            }
            if forall|k: int| 0 <= k < shares.len() ==> (#[trigger] shares[k]).0 != b {
                assert forall|k: int| 0 <= k < rest.len() implies (#[trigger] rest[k]).0 != b by {
                    assert(shares[k].0 != b);
                }
            }
        }
    }
}

/// A matrix built of pixels without double shares lists the pixels of every bin in
/// ascending order.
pub proof fn lemma_built_rows_ascend(shares: spec_fn(int) -> Seq<Share>, b: int, n: int)
    requires
        forall|i: int| 0 <= i < n ==> distinct_bins(#[trigger] shares(i)),
        n <= i32::MAX + 1,
    ensures
        ascending(built_row(shares, b, n)),
        forall|k: int|
            0 <= k < built_row(shares, b, n).len() ==> 0 <= (#[trigger] built_row(
                shares,
                b,
                n,
            )[k]).0 < n,
    decreases n,
{
    if n > 0 {
        lemma_built_rows_ascend(shares, b, n - 1);
        lemma_share_entries(shares(n - 1), b, n - 1);
        let before = built_row(shares, b, n - 1);
        let added = share_entries(shares(n - 1), b, n - 1);
        let row = built_row(shares, b, n);
        assert forall|k: int| 0 <= k < row.len() implies 0 <= (#[trigger] row[k]).0 < n by {
            if k < before.len() {
                assert(row[k] == before[k]);
            } else {
                assert(row[k] == added[k - before.len()]);
            }
        }
        assert forall|i: int, j: int| 0 <= i < j < row.len() implies (#[trigger] row[i]).0 < (
        #[trigger] row[j]).0 by {
            assert(row[i] == before[i]);
            if j < before.len() {
                assert(row[j] == before[j]);
            } else {
                assert(row[j] == added[j - before.len()]);
            }
        }
    }
}

/// The mask flags pixel `i` as invalid.
pub open spec fn masked_out(mask: Option<&[i8]>, i: int) -> bool {
    match mask {
        Some(m) => m@[i] != 0,
        None => false,
    }
}

/// The mask, if there is one, has a flag for each of `n` pixels.
pub open spec fn mask_fits(mask: Option<&[i8]>, n: int) -> bool {
    match mask {
        Some(m) => m@.len() == n,
        None => true,
    }
}

/// Tests the mask.
pub fn is_masked(mask: Option<&[i8]>, i: usize) -> (b: bool)
    requires
        mask is Some ==> i < (mask->0)@.len(),
    ensures
        b == masked_out(mask, i as int),
{
    match mask {
        Some(m) => m[i] != 0,
        None => false,
    }
}

/// The bins that a pixel spans along one axis, and what its parts weigh: the first
/// bin, the last bin and each bin between them. A pixel in one bin weighs one.
#[derive(Debug, Clone, Copy)]
pub struct PixelSpan {
    /// The bin of the pixel's lower edge.
    pub bin_min: i64,
    /// The bin of the pixel's upper edge.
    pub bin_max: i64,
    /// Coefficient of the first bin.
    pub first: u32,
    /// Coefficient of the last bin.
    pub last: u32,
    /// Coefficient of each bin between them.
    pub inner: u32,
}

impl PixelSpan {
    /// What a part of the pixel weighs.
    pub open spec fn weight(&self, part: Part) -> u32 {
        match part {
            Part::Whole => ONE,
            Part::First => self.first,
            Part::Last => self.last,
            Part::Inner => self.inner,
        }
    }

    /// The value of [`PixelSpan::weight`].
    pub fn weigh(&self, part: Part) -> (w: u32)
        ensures
            w == self.weight(part),
    {
        match part {
            Part::Whole => ONE,
            Part::First => self.first,
            Part::Last => self.last,
            Part::Inner => self.inner,
        }
    }
}

/// A pixel that is split over bins.
pub trait SplitPixel {
    /// The pixel can be split over `bins` bins.
    spec fn fits(&self, bins: int) -> bool;

    /// The shares of the pixel.
    spec fn shares(&self, bins: int) -> Seq<Share>;

    /// The shares fall into different bins.
    proof fn lemma_shares(&self, bins: int)
        requires
            self.fits(bins),
        ensures
            distinct_bins(self.shares(bins)),
            forall|k: int|
                0 <= k < self.shares(bins).len() ==> (#[trigger] self.shares(bins)[k]).0 < bins,
    ;

    /// Lists the shares of the pixel.
    fn list_shares(&self, bins: usize) -> (out: Vec<Share>)
        requires
            self.fits(bins as int),
        ensures
            out@ == self.shares(bins as int),
    ;
}

impl SplitPixel for PixelSpan {
    open spec fn fits(&self, bins: int) -> bool {
        0 < bins <= i64::MAX && bins <= usize::MAX
    }

    open spec fn shares(&self, bins: int) -> Seq<Share> {
        let parts = cover(self.bin_min as int, self.bin_max as int, bins);
        Seq::new(parts.len(), |k: int| (parts[k].bin, self.weight(parts[k].part)))
    }

    proof fn lemma_shares(&self, bins: int) {
        let parts = cover(self.bin_min as int, self.bin_max as int, bins);
        let lo = range_lo(self.bin_min as int);
        let hi = range_hi(self.bin_max as int, bins);
        assert forall|k: int| 0 <= k < parts.len() implies (#[trigger] parts[k]).bin == if k == 0 {
            lo
        } else if k == 1 {
            hi
        } else {
            lo + k - 1
        } by {}
    }

    fn list_shares(&self, bins: usize) -> (out: Vec<Share>) {
        let parts: Vec<BinShare> = cover_1d(self.bin_min, self.bin_max, bins);
        let mut out: Vec<Share> = Vec::new();
        let mut k: usize = 0;
        while k < parts.len()
            invariant
                k <= parts@.len(),
                out@.len() == k,
                forall|l: int|
                    0 <= l < k ==> #[trigger] out@[l] == (
                        parts@[l].bin,
                        self.weight(parts@[l].part),
                    ),
            decreases parts@.len() - k,
        {
            out.push((parts[k].bin, self.weigh(parts[k].part)));
            k = k + 1;
        }
        assert(out@ =~= self.shares(bins as int));
        out
    }
}

/// The bins that a quadrilateral pixel spans, and what falls into each of them: one
/// coefficient for every bin of [`spread`]'s range, in ascending order. A pixel in
/// one bin weighs one.
#[derive(Debug)]
pub struct PixelArea {
    /// The bin of the pixel's smallest position.
    pub bin_min: i64,
    /// The bin of the pixel's largest position.
    pub bin_max: i64,
    /// Coefficients of the bins.
    pub coefs: Vec<u32>,
}

impl PixelArea {
    /// The pixel has the coefficients of what it sweeps.
    pub open spec fn is_of<T, S, C: Fn(T, S) -> u32>(&self, swept: Swept<T, S>, scale: C) -> bool {
        &&& self.bin_min == swept.bin_min
        &&& self.bin_max == swept.bin_max
        &&& self.coefs@.len() == swept.areas@.len()
        &&& forall|k: int|
            0 <= k < swept.areas@.len() ==> scale.ensures(
                (swept.areas@[k], swept.sum),
                #[trigger] self.coefs@[k],
            )
    }

    /// The coefficients of a pixel by what it sweeps: `scale` gives that of an area and
    /// the sum of the areas. A pixel that sweeps nothing lies off the axis.
    pub fn of<T: Copy, S: Copy, C: Fn(T, S) -> u32>(
        swept: &Option<Swept<T, S>>,
        scale: &C,
    ) -> (p: Self)
        requires
            forall|t: T, s: S| #[trigger] scale.requires((t, s)),
        ensures
            swept matches Some(s) ==> p.is_of(*s, *scale),
            swept is None ==> forall|bins: int| (#[trigger] p.shares(bins)).len() == 0,
            forall|bins: int|
                0 < bins <= i64::MAX && bins <= usize::MAX && (swept matches Some(s) ==> s.fits(
                    bins,
                )) ==> #[trigger] p.fits(bins),
    {
        match swept {
            Some(s) => PixelArea {
                bin_min: s.bin_min,
                bin_max: s.bin_max,
                coefs: weigh(&s.areas, s.sum, scale),
            },
            None => PixelArea { bin_min: -1, bin_max: -1, coefs: Vec::new() },
        }
    }
}

impl SplitPixel for PixelArea {
    open spec fn fits(&self, bins: int) -> bool {
        &&& 0 < bins <= i64::MAX
        &&& bins <= usize::MAX
        &&& match spread(self.bin_min as int, self.bin_max as int, bins) {
            Spread::Over(lo, hi) => hi > lo ==> self.coefs@.len() == hi - lo,
            _ => true,
        }
    }

    open spec fn shares(&self, bins: int) -> Seq<Share> {
        match spread(self.bin_min as int, self.bin_max as int, bins) {
            Spread::Off => Seq::empty(),
            Spread::Single(b) => seq![(b, ONE)],
            Spread::Over(lo, hi) => Seq::new(
                (if hi > lo {
                    hi - lo
                } else {
                    0
                }) as nat,
                |k: int| ((lo + k) as usize, self.coefs@[k]),
            ),
        }
    }

    proof fn lemma_shares(&self, bins: int) {
    }

    fn list_shares(&self, bins: usize) -> (out: Vec<Share>) {
        let mut out: Vec<Share> = Vec::new();
        match spread_1d(self.bin_min, self.bin_max, bins) {
            Spread::Off => {},
            Spread::Single(b) => {
                out.push((b, ONE));
            },
            Spread::Over(lo, hi) => {
                let mut b: usize = lo;
                while b < hi
                    invariant
                        lo <= b,
                        b <= hi || b == lo,
                        hi <= bins,
                        lo < hi ==> self.coefs@.len() == hi - lo,
                        out@.len() == b - lo,
                        forall|k: int|
                            0 <= k < b - lo ==> #[trigger] out@[k] == (
                                (lo + k) as usize,
                                self.coefs@[k],
                            ),
                    decreases hi - b,
                {
                    out.push((b, self.coefs[b - lo]));
                    b = b + 1;
                }
            },
        }
        assert(out@ =~= self.shares(bins as int));
        out
    }
}

/// The cells that a pixel spans on a grid, and what its parts weigh: sixteen
/// coefficients, four for each part along the first axis, in the order whole,
/// first, last, inner.
#[derive(Debug)]
pub struct PixelBox {
    /// The bins of the pixel's lower and upper edge on the first axis.
    pub bin0: (i64, i64),
    /// The bins of the pixel's lower and upper edge on the second axis.
    pub bin1: (i64, i64),
    /// The number of bins on either axis.
    pub bins: (usize, usize),
    /// The coefficients.
    pub coefs: [u32; 16],
}

/// The place of a part among the four.
pub open spec fn part_rank(part: Part) -> int {
    match part {
        Part::Whole => 0,
        Part::First => 1,
        Part::Last => 2,
        Part::Inner => 3,
    }
}

/// The value of [`part_rank`].
fn part_index(part: Part) -> (k: usize)
    ensures
        k == part_rank(part),
        k < 4,
{
    match part {
        Part::Whole => 0,
        Part::First => 1,
        Part::Last => 2,
        Part::Inner => 3,
    }
}

impl PixelBox {
    /// What a share of the pixel weighs.
    pub open spec fn weight(&self, share: CellShare) -> u32 {
        self.coefs@[4 * part_rank(share.part0) + part_rank(share.part1)]
    }

    /// The shares of the pixel's cells.
    pub open spec fn cells(&self) -> Seq<CellShare> {
        cover_grid(
            self.bin0.0 as int,
            self.bin0.1 as int,
            self.bin1.0 as int,
            self.bin1.1 as int,
            self.bins.0 as int,
            self.bins.1 as int,
        )
    }
}

impl SplitPixel for PixelBox {
    open spec fn fits(&self, bins: int) -> bool {
        &&& 0 < self.bins.0 <= i64::MAX
        &&& 0 < self.bins.1 <= i64::MAX
        &&& bins == self.bins.0 * self.bins.1
        &&& bins <= usize::MAX
    }

    open spec fn shares(&self, bins: int) -> Seq<Share> {
        let cells = self.cells();
        Seq::new(cells.len(), |k: int| (cells[k].cell, self.weight(cells[k])))
    }

    proof fn lemma_shares(&self, bins: int) {
        let (b0, b1) = (self.bins.0 as int, self.bins.1 as int);
        if !off_axis(self.bin0.0 as int, self.bin0.1 as int, b0) && !off_axis(
            self.bin1.0 as int,
            self.bin1.1 as int,
            b1,
        ) {
            let lo0 = range_lo(self.bin0.0 as int);
            let hi0 = range_hi(self.bin0.1 as int, b0);
            let lo1 = range_lo(self.bin1.0 as int);
            let hi1 = range_hi(self.bin1.1 as int, b1);
            let order = cell_order(lo0, hi0, lo1, hi1);
            lemma_cell_order_is_rectangle(lo0, hi0, lo1, hi1);
            assert forall|k: int| 0 <= k < order.len() implies self.shares(bins)[k].0 == flat(
                (#[trigger] order[k]).0,
                order[k].1,
                b1,
            ) && self.shares(bins)[k].0 < bins && 0 <= order[k].0 < b0 && 0 <= order[k].1
                < b1 by {
                assert(order.contains((order[k].0, order[k].1)));
                lemma_flat_bound(order[k].0, order[k].1, b0, b1);
            }
            assert forall|i: int, j: int| 0 <= i < j < order.len() implies (
            #[trigger] self.shares(bins)[i]).0 != (#[trigger] self.shares(bins)[j]).0 by {
                assert(order[i] != order[j]);
                lemma_flat_inverse(order[i].0, order[i].1, b1);
                lemma_flat_inverse(order[j].0, order[j].1, b1);
            }
        }
    }

    fn list_shares(&self, bins: usize) -> (out: Vec<Share>) {
        let cells: Vec<CellShare> = cover_2d(self.bin0, self.bin1, self.bins);
        let mut out: Vec<Share> = Vec::new();
        let mut k: usize = 0;
        while k < cells.len()
            invariant
                k <= cells@.len(),
                out@.len() == k,
                forall|l: int|
                    0 <= l < k ==> #[trigger] out@[l] == (cells@[l].cell, self.weight(cells@[l])),
            decreases cells@.len() - k,
        {
            let share: CellShare = cells[k];
            let at: usize = 4 * part_index(share.part0) + part_index(share.part1);
            out.push((share.cell, self.coefs[at]));
            k = k + 1;
        }
        assert(out@ =~= self.shares(bins as int));
        out
    }
}

/// The cells that a quadrilateral pixel spans on a grid, and what falls into each of
/// them: one coefficient for every place of a box with one more row and column than
/// it covers, row by row.
#[derive(Debug)]
pub struct PixelPatch {
    /// First row and column of the grid that the box covers.
    pub offset: (usize, usize),
    /// Number of rows and columns that the box covers.
    pub size: (usize, usize),
    /// The number of bins on either axis.
    pub bins: (usize, usize),
    /// Coefficients of the places.
    pub coefs: Vec<u32>,
}

impl PixelPatch {
    /// The pixel has the coefficients of what it sweeps.
    pub open spec fn is_of<T, S, C: Fn(T, S) -> u32>(
        &self,
        swept: BoxSwept<T, S>,
        bins: (usize, usize),
        scale: C,
    ) -> bool {
        &&& self.offset == swept.offset
        &&& self.size == swept.size
        &&& self.bins == bins
        &&& self.coefs@.len() == swept.areas@.len()
        &&& forall|k: int|
            0 <= k < swept.areas@.len() ==> scale.ensures(
                (swept.areas@[k], swept.sum),
                #[trigger] self.coefs@[k],
            )
    }

    /// The coefficients of a pixel by what it sweeps, none for one that reaches beyond
    /// the grid: `scale` gives the coefficient of an area and the sum of the areas. A
    /// pixel out of range covers no cell.
    pub fn of<T: Copy, S: Copy, C: Fn(T, S) -> u32>(
        reach: &BoxReach<T, S>,
        bins: (usize, usize),
        scale: &C,
    ) -> (r: Option<Self>)
        requires
            forall|t: T, s: S| #[trigger] scale.requires((t, s)),
        ensures
            r is None <==> reach is Beyond,
            reach matches BoxReach::Within(b) ==> (r->0).is_of(*b, bins, *scale),
            reach is Outside ==> (r->0).shares(bins.0 * bins.1).len() == 0,
            r is Some && bins.0 * bins.1 <= usize::MAX && (reach matches BoxReach::Within(b)
                ==> b.fits(bins)) ==> (r->0).fits(bins.0 * bins.1),
    {
        match reach {
            BoxReach::Outside => {
                let none = PixelPatch { offset: (0, 0), size: (0, 0), bins, coefs: vec![0u32] };
                proof {
                    assert(none.size.0 as int * none.size.1 as int == 0) by (nonlinear_arith)
                        requires
                            none.size.0 == 0,
                    ;
                    assert((none.size.0 + 1) * (none.size.1 + 1) == 1) by (nonlinear_arith)
                        requires
                            none.size.0 == 0,
                            none.size.1 == 0,
                    ;
                }
                Some(none)
            },
            BoxReach::Beyond => None,
            BoxReach::Within(b) => Some(
                PixelPatch {
                    offset: b.offset,
                    size: b.size,
                    bins,
                    coefs: weigh(&b.areas, b.sum, scale),
                },
            ),
        }
    }

    /// The cells that the box covers, with their places.
    pub open spec fn cells(&self) -> Seq<BoxCell> {
        box_order(
            self.offset.0 as int,
            self.offset.1 as int,
            self.size.1 as int,
            self.bins.1 as int,
            self.size.0 as int,
            0,
        )
    }

    /// A cell of the box lies in the box and on the grid.
    proof fn lemma_cell(&self, bins: int, k: int)
        requires
            self.fits(bins),
            0 <= k < self.cells().len(),
        ensures
            0 < self.size.1,
            0 <= k / (self.size.1 as int) < self.size.0,
            0 <= k % (self.size.1 as int) < self.size.1,
            self.cells()[k].place == flat(
                k / self.size.1 as int,
                k % self.size.1 as int,
                self.size.1 + 1,
            ),
            self.cells()[k].place < self.coefs@.len(),
            self.cells()[k].cell == flat(
                self.offset.0 + k / self.size.1 as int,
                self.offset.1 + k % self.size.1 as int,
                self.bins.1 as int,
            ),
            self.cells()[k].cell < bins,
    {
        let w0 = self.size.0 as int;
        let w1 = self.size.1 as int;
        lemma_flat_cell(k, w0, w1);
        lemma_flat_bound(k / w1, k % w1, w0 + 1, w1 + 1);
        lemma_flat_bound(
            self.offset.0 + k / w1,
            self.offset.1 + k % w1,
            self.bins.0 as int,
            self.bins.1 as int,
        );
    }
}

impl SplitPixel for PixelPatch {
    open spec fn fits(&self, bins: int) -> bool {
        &&& self.offset.0 + self.size.0 <= self.bins.0
        &&& self.offset.1 + self.size.1 <= self.bins.1
        &&& bins == self.bins.0 * self.bins.1
        &&& bins <= usize::MAX
        &&& self.coefs@.len() == (self.size.0 + 1) * (self.size.1 + 1)
        &&& self.coefs@.len() <= usize::MAX
    }

    open spec fn shares(&self, bins: int) -> Seq<Share> {
        let cells = self.cells();
        Seq::new(cells.len(), |k: int| (cells[k].cell, self.coefs@[cells[k].place as int]))
    }

    proof fn lemma_shares(&self, bins: int) {
        let w1 = self.size.1 as int;
        assert forall|k: int| 0 <= k < self.shares(bins).len() implies (
        #[trigger] self.shares(bins)[k]).0 < bins by {
            self.lemma_cell(bins, k);
        }
        assert forall|i: int, j: int| 0 <= i < j < self.shares(bins).len() implies (
        #[trigger] self.shares(bins)[i]).0 != (#[trigger] self.shares(bins)[j]).0 by {
            self.lemma_cell(bins, i);
            self.lemma_cell(bins, j);
            let b1 = self.bins.1 as int;
            lemma_flat_inverse(self.offset.0 + i / w1, self.offset.1 + i % w1, b1);
            lemma_flat_inverse(self.offset.0 + j / w1, self.offset.1 + j % w1, b1);
            lemma_flat_order(i, j, w1);
        }
    }

    fn list_shares(&self, bins: usize) -> (out: Vec<Share>) {
        let places: usize = self.coefs.len();
        let cells: Vec<BoxCell> = box_cells(
            self.offset.0,
            self.offset.1,
            self.size.0,
            self.size.1,
            self.bins,
        );
        let mut out: Vec<Share> = Vec::new();
        let mut k: usize = 0;
        while k < cells.len()
            invariant
                self.fits(bins as int),
                cells@ == self.cells(),
                k <= cells@.len(),
                out@.len() == k,
                forall|l: int|
                    0 <= l < k ==> #[trigger] out@[l] == (
                        cells@[l].cell,
                        self.coefs@[cells@[l].place as int],
                    ),
            decreases cells@.len() - k,
        {
            proof {
                self.lemma_cell(bins as int, k as int);
            }
            let at: BoxCell = cells[k];
            out.push((at.cell, self.coefs[at.place]));
            k = k + 1;
        }
        assert(out@ =~= self.shares(bins as int));
        out
    }
}

/// The shares of every pixel, none where the pixel is masked.
pub open spec fn pixel_shares<P: SplitPixel>(
    pixels: Seq<P>,
    mask: Option<&[i8]>,
    bins: int,
) -> spec_fn(int) -> Seq<Share> {
    |i: int|
        if masked_out(mask, i) {
            Seq::<Share>::empty()
        } else {
            pixels[i].shares(bins)
        }
}

/// The pixels can be split and their shares fit a matrix of `bins` rows.
pub open spec fn buildable<P: SplitPixel>(
    pixels: Seq<P>,
    mask: Option<&[i8]>,
    bins: int,
) -> bool {
    &&& pixels.len() <= i32::MAX + 1
    &&& mask_fits(mask, pixels.len() as int)
    &&& forall|i: int|
        0 <= i < pixels.len() && !masked_out(mask, i) ==> (#[trigger] pixels[i]).fits(bins)
    &&& built_total(pixel_shares(pixels, mask, bins), pixels.len() as int) <= i32::MAX
}

/// `csr` is the matrix of the pixels' shares: row `b` lists, pixel by pixel, the
/// shares that fall into bin `b`.
pub open spec fn is_matrix_of<P: SplitPixel>(
    csr: Csr,
    pixels: Seq<P>,
    mask: Option<&[i8]>,
    bins: int,
) -> bool {
    &&& csr.wf(bins)
    &&& csr.pixels_below(pixels.len() as int)
    &&& forall|b: int|
        0 <= b < bins ==> #[trigger] csr.row(b) == built_row(
            pixel_shares(pixels, mask, bins),
            b,
            pixels.len() as int,
        )
    &&& forall|b: int| 0 <= b < bins ==> ascending(#[trigger] csr.row(b))
}

/// Builds the matrix of the pixels' shares; masked pixels (`mask[i] != 0`) are
/// skipped.
fn build_csr<P: SplitPixel>(pixels: &[P], mask: Option<&[i8]>, bins: usize) -> (csr: Csr)
    requires
        buildable(pixels@, mask, bins as int),
    ensures
        is_matrix_of(csr, pixels@, mask, bins as int),
{
    let ghost shares = pixel_shares(pixels@, mask, bins as int);
    let ghost nb = bins as int;
    let n: usize = pixels.len();
    let mut builder = SparseBuilder::new(bins);
    let mut i: usize = 0;
    while i < n
        invariant
            n == pixels@.len(),
            nb == bins,
            buildable(pixels@, mask, nb),
            i <= n,
            shares == pixel_shares(pixels@, mask, nb),
            builder_holds(builder, nb, shares, i as int),
        decreases n - i,
    {
        if !is_masked(mask, i) {
            let list: Vec<Share> = pixels[i].list_shares(bins);
            proof {
                pixels@[i as int].lemma_shares(nb);
            }
            let ghost before = builder;
            builder.insert_pixel(i as i32, &list);
            proof {
                assert forall|b: int| 0 <= b < nb implies #[trigger] builder.row(b) == built_row(
                    shares,
                    b,
                    i + 1,
                ) by {
                    assert(before.row(b) == built_row(shares, b, i as int));
                }
            }
        } else {
            proof {
                assert forall|b: int| 0 <= b < nb implies #[trigger] builder.row(b) == built_row(
                    shares,
                    b,
                    i + 1,
                ) by {
                    assert(builder.row(b) =~= built_row(shares, b, i as int) + Seq::<
                        Entry,
                    >::empty());
                }
            }
        }
        i = i + 1;
    }
    let csr: Csr = builder.to_csr();
    proof {
        assert forall|k: int| 0 <= k < n implies distinct_bins(#[trigger] shares(k)) by {
            if !masked_out(mask, k) {
                pixels@[k].lemma_shares(nb);
            }
        }
        lemma_built_matrix(csr, nb, shares, n as int);
    }
    csr
}

/// Builds the matrix of pixels split along one axis by their bounding box. `spans`
/// gives the bins and weights of each pixel; masked pixels (`mask[i] != 0`) are
/// skipped.
pub fn build_bbox_csr_1d(spans: &[PixelSpan], mask: Option<&[i8]>, bins: usize) -> (csr: Csr)
    requires
        buildable(spans@, mask, bins as int),
    ensures
        is_matrix_of(csr, spans@, mask, bins as int),
{
    build_csr(spans, mask, bins)
}

/// Builds the matrix of pixels split along one axis by the area that falls into each
/// bin.
pub fn build_full_csr_1d(areas: &[PixelArea], mask: Option<&[i8]>, bins: usize) -> (csr: Csr)
    requires
        buildable(areas@, mask, bins as int),
    ensures
        is_matrix_of(csr, areas@, mask, bins as int),
{
    build_csr(areas, mask, bins)
}

/// Builds the matrix of pixels split over a grid by their bounding box. `bins` is
/// the number of cells of the grid.
pub fn build_bbox_csr_2d(boxes: &[PixelBox], mask: Option<&[i8]>, bins: usize) -> (csr: Csr)
    requires
        buildable(boxes@, mask, bins as int),
    ensures
        is_matrix_of(csr, boxes@, mask, bins as int),
{
    build_csr(boxes, mask, bins)
}

/// Builds the matrix of pixels split over a grid by the area that falls into each
/// cell. `bins` is the number of cells of the grid.
pub fn build_full_csr_2d(patches: &[PixelPatch], mask: Option<&[i8]>, bins: usize) -> (csr: Csr)
    requires
        buildable(patches@, mask, bins as int),
    ensures
        is_matrix_of(csr, patches@, mask, bins as int),
{
    build_csr(patches, mask, bins)
}

/// What holds of a matrix whose rows are built of pixels without double shares.
proof fn lemma_built_matrix(csr: Csr, bins: int, shares: spec_fn(int) -> Seq<Share>, n: int)
    requires
        csr.wf(bins),
        0 <= n <= i32::MAX + 1,
        forall|i: int| 0 <= i < n ==> distinct_bins(#[trigger] shares(i)),
        forall|b: int| 0 <= b < bins ==> #[trigger] csr.row(b) == built_row(shares, b, n),
    ensures
        csr.pixels_below(n),
        forall|b: int| 0 <= b < bins ==> ascending(#[trigger] csr.row(b)),
{
    assert forall|b: int| 0 <= b < bins implies ascending(#[trigger] csr.row(b)) by {
        lemma_built_rows_ascend(shares, b, n);
    }
    assert forall|k: int| 0 <= k < csr.indices@.len() implies 0 <= #[trigger] csr.indices@[k]
        < n by {
        let b = crate::sparse::row_of(csr.indptr@, k, bins - 1);
        crate::sparse::lemma_row_of_holds(
            csr.indptr@,
            bins,
            csr.data@.len() as int,
            k,
            bins - 1,
        );
        lemma_built_rows_ascend(shares, b, n);
        let at = k - csr.indptr@[b];
        assert(csr.row(b)[at].0 == csr.indices@[k]);
        assert(0 <= built_row(shares, b, n)[at].0 < n);
    }
}

/// The length of the longest of the first `bins` rows built of the first `n` pixels.
pub open spec fn widest_built(shares: spec_fn(int) -> Seq<Share>, bins: int, n: int) -> int
    decreases bins,
{
    if bins <= 0 {
        0
    } else if built_row(shares, bins - 1, n).len() > widest_built(shares, bins - 1, n) {
        built_row(shares, bins - 1, n).len() as int
    } else {
        widest_built(shares, bins - 1, n)
    }
}

/// The longest row of a matrix is the longest row built.
proof fn lemma_widest_built(csr: Csr, shares: spec_fn(int) -> Seq<Share>, bins: int, n: int)
    requires
        forall|b: int| 0 <= b < bins ==> #[trigger] csr.row(b) == built_row(shares, b, n),
    ensures
        widest(csr, bins) == widest_built(shares, bins, n),
    decreases bins,
{
    if bins > 0 {
        lemma_widest_built(csr, shares, bins - 1, n);
        assert(csr.row(bins - 1) == built_row(shares, bins - 1, n));
    }
}

/// `csc` is the transpose of the matrix of the pixels' shares. Walking its columns
/// in order gives every bin its shares, pixel by pixel, and within a column the
/// bins ascend.
pub open spec fn is_transposed_matrix_of<P: SplitPixel>(
    csc: Csc,
    pixels: Seq<P>,
    mask: Option<&[i8]>,
    bins: int,
) -> bool {
    let n = pixels.len() as int;
    &&& csc.wf(n)
    &&& csc.bins_below(bins)
    &&& forall|b: int|
        0 <= b < bins ==> #[trigger] csc.scattered(b, n) == built_row(
            pixel_shares(pixels, mask, bins),
            b,
            n,
        )
    &&& forall|p: int, i: int, j: int|
        0 <= p < n && 0 <= i <= j < csc.column(p).len() ==> 0 <= (#[trigger] csc.column(p)[i]).0 <= (
        #[trigger] csc.column(p)[j]).0 < bins
}

/// `lut` is the table of the matrix of the pixels' shares: its leading slots hold
/// the shares of each bin, pixel by pixel, and the slots behind them are zero.
pub open spec fn is_tabled_matrix_of<P: SplitPixel>(
    lut: Lut,
    pixels: Seq<P>,
    mask: Option<&[i8]>,
    bins: int,
) -> bool {
    let n = pixels.len() as int;
    let shares = pixel_shares(pixels, mask, bins);
    &&& lut.lut_size == widest_built(shares, bins, n)
    &&& lut.coef@.len() == bins * lut.lut_size
    &&& lut.idx@.len() == bins * lut.lut_size
    &&& lut.covers(bins)
    &&& forall|b: int|
        0 <= b < bins ==> #[trigger] lut.row(b) == padded(
            built_row(shares, b, n),
            lut.lut_size as int,
        )
}

/// `row` filled up with zeros to `width` slots.
pub open spec fn padded(row: Seq<Entry>, width: int) -> Seq<Entry> {
    Seq::new(
        width as nat,
        |c: int|
            if c < row.len() {
                row[c]
            } else {
                (0i32, 0u32)
            },
    )
}

/// Transposes the matrix of the pixels' shares.
fn transpose_built<P: SplitPixel>(csr: &Csr, pixels: &[P], mask: Option<&[i8]>, bins: usize) -> (csc:
    Csc)
    requires
        buildable(pixels@, mask, bins as int),
        is_matrix_of(*csr, pixels@, mask, bins as int),
        0 < bins <= i32::MAX,
        pixels@.len() < usize::MAX,
    ensures
        is_transposed_matrix_of(csc, pixels@, mask, bins as int),
{
    let n: usize = pixels.len();
    let csc: Csc = csr_to_csc(csr, bins, n);
    proof {
        let nb = bins as int;
        let m = n as int;
        assert forall|b: int| 0 <= b < nb implies #[trigger] csc.scattered(b, m) == built_row(
            pixel_shares(pixels@, mask, nb),
            b,
            m,
        ) by {
            assert(ascending(csr.row(b)));
            crate::sparse::lemma_scatter_equals_gather(*csr, csc, nb, m, b);
        }
        assert forall|p: int, i: int, j: int|
            0 <= p < m && 0 <= i <= j < csc.column(p).len() implies 0 <= (
        #[trigger] csc.column(p)[i]).0 <= (#[trigger] csc.column(p)[j]).0 < nb by {
            assert(csc.column(p) == csr.column_entries(nb, p, csr.data@.len() as int));
            crate::sparse::lemma_columns_are_sorted(*csr, nb, p, i, j);
            crate::sparse::lemma_columns_are_sorted(*csr, nb, p, j, j);
        }
    }
    csc
}

/// Makes the table of the matrix of the pixels' shares.
fn table_built<P: SplitPixel>(csr: &Csr, pixels: &[P], mask: Option<&[i8]>, bins: usize) -> (lut:
    Lut)
    requires
        is_matrix_of(*csr, pixels@, mask, bins as int),
        bins * widest_built(
            pixel_shares(pixels@, mask, bins as int),
            bins as int,
            pixels@.len() as int,
        ) <= usize::MAX,
    ensures
        is_tabled_matrix_of(lut, pixels@, mask, bins as int),
{
    let ghost nb = bins as int;
    let ghost shares = pixel_shares(pixels@, mask, nb);
    proof {
        lemma_widest_built(*csr, shares, nb, pixels@.len() as int);
    }
    let lut: Lut = csr_to_lut(csr, bins);
    proof {
        let w = lut.lut_size as int;
        assert forall|b: int| 0 <= b < nb implies #[trigger] lut.row(b) == padded(
            built_row(shares, b, pixels@.len() as int),
            w,
        ) by {
            assert(csr.row(b) == built_row(shares, b, pixels@.len() as int));
            assert forall|c: int| 0 <= c < w implies #[trigger] lut.row(b)[c] == padded(
                csr.row(b),
                w,
            )[c] by {
                let at = flat(b, c, w);
                assert((lut.idx@[at], lut.coef@[at]) == if c < csr.row(b).len() {
                    csr.row(b)[c]
                } else {
                    (0i32, 0u32)
                });
            }
            assert(lut.row(b) =~= padded(csr.row(b), w));
        }
    }
    lut
}

/// Builds the transposed matrix of pixels split along one axis by their bounding box.
pub fn build_bbox_csc_1d(spans: &[PixelSpan], mask: Option<&[i8]>, bins: usize) -> (csc: Csc)
    requires
        buildable(spans@, mask, bins as int),
        0 < bins <= i32::MAX,
        spans@.len() < usize::MAX,
    ensures
        is_transposed_matrix_of(csc, spans@, mask, bins as int),
{
    let csr: Csr = build_bbox_csr_1d(spans, mask, bins);
    transpose_built(&csr, spans, mask, bins)
}

/// Builds the transposed matrix of pixels split along one axis by area.
pub fn build_full_csc_1d(areas: &[PixelArea], mask: Option<&[i8]>, bins: usize) -> (csc: Csc)
    requires
        buildable(areas@, mask, bins as int),
        0 < bins <= i32::MAX,
        areas@.len() < usize::MAX,
    ensures
        is_transposed_matrix_of(csc, areas@, mask, bins as int),
{
    let csr: Csr = build_full_csr_1d(areas, mask, bins);
    transpose_built(&csr, areas, mask, bins)
}

/// Builds the transposed matrix of pixels split over a grid by their bounding box.
pub fn build_bbox_csc_2d(boxes: &[PixelBox], mask: Option<&[i8]>, bins: usize) -> (csc: Csc)
    requires
        buildable(boxes@, mask, bins as int),
        0 < bins <= i32::MAX,
        boxes@.len() < usize::MAX,
    ensures
        is_transposed_matrix_of(csc, boxes@, mask, bins as int),
{
    let csr: Csr = build_bbox_csr_2d(boxes, mask, bins);
    transpose_built(&csr, boxes, mask, bins)
}

/// Builds the transposed matrix of pixels split over a grid by area.
pub fn build_full_csc_2d(patches: &[PixelPatch], mask: Option<&[i8]>, bins: usize) -> (csc: Csc)
    requires
        buildable(patches@, mask, bins as int),
        0 < bins <= i32::MAX,
        patches@.len() < usize::MAX,
    ensures
        is_transposed_matrix_of(csc, patches@, mask, bins as int),
{
    let csr: Csr = build_full_csr_2d(patches, mask, bins);
    transpose_built(&csr, patches, mask, bins)
}

/// Builds the table of pixels split along one axis by their bounding box.
pub fn build_bbox_lut_1d(spans: &[PixelSpan], mask: Option<&[i8]>, bins: usize) -> (lut: Lut)
    requires
        buildable(spans@, mask, bins as int),
        bins * widest_built(
            pixel_shares(spans@, mask, bins as int),
            bins as int,
            spans@.len() as int,
        ) <= usize::MAX,
    ensures
        is_tabled_matrix_of(lut, spans@, mask, bins as int),
{
    let csr: Csr = build_bbox_csr_1d(spans, mask, bins);
    table_built(&csr, spans, mask, bins)
}

/// Builds the table of pixels split along one axis by area.
pub fn build_full_lut_1d(areas: &[PixelArea], mask: Option<&[i8]>, bins: usize) -> (lut: Lut)
    requires
        buildable(areas@, mask, bins as int),
        bins * widest_built(
            pixel_shares(areas@, mask, bins as int),
            bins as int,
            areas@.len() as int,
        ) <= usize::MAX,
    ensures
        is_tabled_matrix_of(lut, areas@, mask, bins as int),
{
    let csr: Csr = build_full_csr_1d(areas, mask, bins);
    table_built(&csr, areas, mask, bins)
}

/// Builds the table of pixels split over a grid by their bounding box.
pub fn build_bbox_lut_2d(boxes: &[PixelBox], mask: Option<&[i8]>, bins: usize) -> (lut: Lut)
    requires
        buildable(boxes@, mask, bins as int),
        bins * widest_built(
            pixel_shares(boxes@, mask, bins as int),
            bins as int,
            boxes@.len() as int,
        ) <= usize::MAX,
    ensures
        is_tabled_matrix_of(lut, boxes@, mask, bins as int),
{
    let csr: Csr = build_bbox_csr_2d(boxes, mask, bins);
    table_built(&csr, boxes, mask, bins)
}

/// Builds the table of pixels split over a grid by area.
pub fn build_full_lut_2d(patches: &[PixelPatch], mask: Option<&[i8]>, bins: usize) -> (lut: Lut)
    requires
        buildable(patches@, mask, bins as int),
        bins * widest_built(
            pixel_shares(patches@, mask, bins as int),
            bins as int,
            patches@.len() as int,
        ) <= usize::MAX,
    ensures
        is_tabled_matrix_of(lut, patches@, mask, bins as int),
{
    let csr: Csr = build_full_csr_2d(patches, mask, bins);
    table_built(&csr, patches, mask, bins)
}

/// A bin has an entry for a pixel where the pixel has a share in the bin, with the
/// coefficient of that share, and no others.
pub proof fn lemma_built_entries(
    shares: spec_fn(int) -> Seq<Share>,
    b: int,
    n: int,
    i: int,
    coef: u32,
)
    requires
        forall|k: int| 0 <= k < n ==> distinct_bins(#[trigger] shares(k)),
        n <= i32::MAX + 1,
        0 <= i <= i32::MAX,
        0 <= b <= usize::MAX,
    ensures
        built_row(shares, b, n).contains((i as i32, coef)) <==> i < n && shares(i).contains(
            (b as usize, coef),
        ),
    decreases n,
{
    let row = built_row(shares, b, n);
    if n > 0 {
        lemma_built_entries(shares, b, n - 1, i, coef);
        let before = built_row(shares, b, n - 1);
        let list = shares(n - 1);
        let added = share_entries(list, b, n - 1);
        lemma_share_entries(list, b, n - 1);
        let e = (i as i32, coef);
        if before.contains(e) {
            let k = choose|k: int| 0 <= k < before.len() && before[k] == e;
            assert(row[k] == e);
        }
        if i == n - 1 && list.contains((b as usize, coef)) {
            let k = choose|k: int| 0 <= k < list.len() && list[k] == (b as usize, coef);
            assert(list[k].0 == b);
            assert(row[before.len() as int] == e);
        }
        if row.contains(e) {
            let k = choose|k: int| 0 <= k < row.len() && row[k] == e;
            if k < before.len() {
                assert(before[k] == e);
            } else {
                assert(added[k - before.len()] == e);
                if forall|l: int| 0 <= l < list.len() ==> (#[trigger] list[l]).0 != b {
                    assert(added.len() == 0);
                }
                let l = choose|l: int| 0 <= l < list.len() && (#[trigger] list[l]).0 == b;
                assert(added == seq![((n - 1) as i32, list[l].1)]);
                assert(list[l] == (b as usize, coef));
            }
        }
        if before.contains(e) {
            lemma_built_rows_ascend(shares, b, n - 1);
        }
    }
}

/// The entry of a matrix for a bin and a pixel is the pixel's share in that bin; a masked
/// pixel has no entry.
pub proof fn lemma_matrix_entries<P: SplitPixel>(
    csr: Csr,
    pixels: Seq<P>,
    mask: Option<&[i8]>,
    bins: int,
    b: int,
    i: int,
    coef: u32,
)
    requires
        buildable(pixels, mask, bins),
        is_matrix_of(csr, pixels, mask, bins),
        0 <= b < bins <= usize::MAX,
        0 <= i < pixels.len(),
    ensures
        csr.row(b).contains((i as i32, coef)) <==> !(mask is Some && (mask->0)@[i] != 0)
            && pixels[i].shares(bins).contains((b as usize, coef)),
{
    let shares = pixel_shares(pixels, mask, bins);
    assert forall|k: int| 0 <= k < pixels.len() implies distinct_bins(#[trigger] shares(k)) by {
        if !masked_out(mask, k) {
            pixels[k].lemma_shares(bins);
        }
    }
    lemma_built_entries(shares, b, pixels.len() as int, i, coef);
}

/// The table of the pixels' shares holds the rows of their matrix, each followed by zeros,
/// and is no wider than its longest row.
pub proof fn lemma_table_holds_the_matrix<P: SplitPixel>(
    csr: Csr,
    lut: Lut,
    pixels: Seq<P>,
    mask: Option<&[i8]>,
    bins: int,
    b: int,
)
    requires
        is_matrix_of(csr, pixels, mask, bins),
        is_tabled_matrix_of(lut, pixels, mask, bins),
        0 <= b < bins,
    ensures
        csr.row(b).len() <= lut.row(b).len() == lut.lut_size,
        forall|c: int| 0 <= c < csr.row(b).len() ==> #[trigger] lut.row(b)[c] == csr.row(b)[c],
        forall|c: int|
            csr.row(b).len() <= c < lut.lut_size ==> #[trigger] lut.row(b)[c] == (0i32, 0u32),
        lut.lut_size > 0 ==> exists|x: int|
            0 <= x < bins && (#[trigger] csr.row(x)).len() == lut.lut_size,
{
    let n = pixels.len() as int;
    let shares = pixel_shares(pixels, mask, bins);
    lemma_widest_row(shares, bins, n, b);
    if lut.lut_size > 0 {
        let x = choose|x: int|
            0 <= x < bins && (#[trigger] built_row(shares, x, n)).len() == widest_built(
                shares,
                bins,
                n,
            );
        assert(csr.row(x).len() == lut.lut_size);
    }
}

proof fn lemma_widest_row(shares: spec_fn(int) -> Seq<Share>, bins: int, n: int, b: int)
    ensures
        0 <= b < bins ==> built_row(shares, b, n).len() <= widest_built(shares, bins, n),
        0 <= widest_built(shares, bins, n),
        widest_built(shares, bins, n) > 0 ==> exists|x: int|
            0 <= x < bins && (#[trigger] built_row(shares, x, n)).len() == widest_built(
                shares,
                bins,
                n,
            ),
    decreases bins,
{
    if bins > 0 {
        lemma_widest_row(shares, bins - 1, n, b);
        assert(built_row(shares, bins - 1, n).len() >= 0);
        if built_row(shares, bins - 1, n).len() <= widest_built(shares, bins - 1, n)
            && widest_built(shares, bins, n) > 0 {
            let x = choose|x: int|
                0 <= x < bins - 1 && (#[trigger] built_row(shares, x, n)).len() == widest_built(
                    shares,
                    bins - 1,
                    n,
                );
            assert(built_row(shares, x, n).len() == widest_built(shares, bins, n));
        }
    }
}

/// The shares of a pixel along one axis: each bin on the axis from the bin of its lower
/// edge to that of its upper edge. Where that is one bin, it has the pixel whole; else the
/// first and the last have their own coefficients and those between them one in common.
pub proof fn lemma_shares_of_a_span(p: PixelSpan, bins: int, b: int, coef: u32)
    requires
        p.fits(bins),
        p.bin_min <= p.bin_max,
        0 <= b <= usize::MAX,
    ensures
        ({
            let lo = larger(p.bin_min as int, 0);
            let hi = smaller(p.bin_max as int, bins - 1);
            p.shares(bins).contains((b as usize, coef)) <==> lo <= b <= hi && coef == if lo == hi {
                ONE
            } else if b == lo {
                p.first
            } else if b == hi {
                p.last
            } else {
                p.inner
            }
        }),
{
    let parts = cover(p.bin_min as int, p.bin_max as int, bins);
    let shares = p.shares(bins);
    let lo = larger(p.bin_min as int, 0);
    let hi = smaller(p.bin_max as int, bins - 1);
    if !off_axis(p.bin_min as int, p.bin_max as int, bins) {
        lemma_cover_is_range(p.bin_min as int, p.bin_max as int, bins, b);
        if lo <= b <= hi {
            let want = BinShare { bin: b as usize, part: part_of(lo, hi, b) };
            let k = choose|k: int| 0 <= k < parts.len() && parts[k] == want;
            assert(shares[k] == (b as usize, p.weight(want.part)));
        }
        if shares.contains((b as usize, coef)) {
            let k = choose|k: int| 0 <= k < shares.len() && shares[k] == (b as usize, coef);
            lemma_cover_is_range(p.bin_min as int, p.bin_max as int, bins, k);
        }
    }
}

/// The shares of a quadrilateral pixel along one axis: each bin on the axis from that of
/// its smallest to that of its largest position, in turn, or the one bin with the pixel
/// whole.
pub proof fn lemma_shares_of_an_area(p: PixelArea, bins: int, b: int, coef: u32)
    requires
        p.fits(bins),
        p.bin_min <= p.bin_max,
        0 <= b <= usize::MAX,
    ensures
        ({
            let lo = larger(p.bin_min as int, 0);
            let hi = smaller(p.bin_max as int, bins - 1);
            p.shares(bins).contains((b as usize, coef)) <==> lo <= b <= hi && coef == if p.bin_min
                == p.bin_max {
                ONE
            } else {
                p.coefs@[b - lo]
            }
        }),
{
    let shares = p.shares(bins);
    let lo = larger(p.bin_min as int, 0);
    let hi = smaller(p.bin_max as int, bins - 1);
    if lo <= b <= hi {
        let k = if p.bin_min == p.bin_max {
            0
        } else {
            b - lo
        };
        assert(shares[k].0 == b);
        if p.bin_min == p.bin_max {
            assert(shares[k].1 == ONE);
        } else {
            assert(shares[k].1 == p.coefs@[b - lo]);
        }
    }
}

/// Which of the four parts a bin of the range from `lo` to `hi` is: whole, first, last or
/// inner, in this order.
pub open spec fn place_among_parts(lo: int, hi: int, x: int) -> int {
    if lo == hi {
        0
    } else if x == lo {
        1
    } else if x == hi {
        2
    } else {
        3
    }
}

/// The shares of a pixel on a grid: each cell of the rectangle of bins that it spans, as
/// far as it lies on the grid. The coefficient is the one for the part along the first
/// axis, four to each, and the part along the second.
pub proof fn lemma_shares_of_a_box(p: PixelBox, bins: int, x: int, y: int)
    requires
        p.fits(bins),
        p.bin0.0 <= p.bin0.1,
        p.bin1.0 <= p.bin1.1,
        0 <= x < p.bins.0,
        0 <= y < p.bins.1,
    ensures
        ({
            let (lo0, hi0) = (larger(p.bin0.0 as int, 0), smaller(p.bin0.1 as int, p.bins.0 - 1));
            let (lo1, hi1) = (larger(p.bin1.0 as int, 0), smaller(p.bin1.1 as int, p.bins.1 - 1));
            let cell = x * p.bins.1 + y;
            let coef = p.coefs@[4 * place_among_parts(lo0, hi0, x) + place_among_parts(
                lo1,
                hi1,
                y,
            )];
            &&& 0 <= cell < bins
            &&& lo0 <= x <= hi0 && lo1 <= y <= hi1 ==> p.shares(bins).contains(
                (cell as usize, coef),
            )
            &&& !(lo0 <= x <= hi0 && lo1 <= y <= hi1) ==> forall|k: int|
                0 <= k < p.shares(bins).len() ==> (#[trigger] p.shares(bins)[k]).0 != cell
        }),
{
    let (b0, b1) = (p.bins.0 as int, p.bins.1 as int);
    let (lo0, hi0) = (larger(p.bin0.0 as int, 0), smaller(p.bin0.1 as int, b0 - 1));
    let (lo1, hi1) = (larger(p.bin1.0 as int, 0), smaller(p.bin1.1 as int, b1 - 1));
    let shares = p.shares(bins);
    let cells = p.cells();
    lemma_flat_bound(x, y, b0, b1);
    if !off_axis(p.bin0.0 as int, p.bin0.1 as int, b0) && !off_axis(
        p.bin1.0 as int,
        p.bin1.1 as int,
        b1,
    ) {
        let order = cell_order(lo0, hi0, lo1, hi1);
        lemma_cell_order_is_rectangle(lo0, hi0, lo1, hi1);
        if lo0 <= x <= hi0 && lo1 <= y <= hi1 {
            assert(order.contains((x, y)));
            let k = choose|k: int| 0 <= k < order.len() && order[k] == (x, y);
            assert(cells[k].cell == flat(x, y, b1));
            assert(cells[k].part0 == part_of(lo0, hi0, x));
            assert(cells[k].part1 == part_of(lo1, hi1, y));
            assert(shares[k].0 == cells[k].cell);
            assert(shares[k].1 == p.weight(cells[k]));
        } else {
            assert forall|k: int| 0 <= k < shares.len() implies (#[trigger] shares[k]).0 != flat(
                x,
                y,
                b1,
            ) by {
                let at = order[k];
                assert(order.contains((at.0, at.1)));
                lemma_flat_bound(at.0, at.1, b0, b1);
                lemma_flat_inverse(at.0, at.1, b1);
                lemma_flat_inverse(x, y, b1);
            }
        }
    }
}

/// The shares of a quadrilateral pixel on a grid: each cell of its box, the one in row `i`
/// and column `j` of the box with the coefficient at `i * (columns + 1) + j`.
pub proof fn lemma_shares_of_a_patch(p: PixelPatch, bins: int, x: int, y: int)
    requires
        p.fits(bins),
        0 <= x < p.bins.0,
        0 <= y < p.bins.1,
    ensures
        ({
            let (i, j) = (x - p.offset.0, y - p.offset.1);
            let cell = x * p.bins.1 + y;
            &&& 0 <= cell < bins
            &&& 0 <= i < p.size.0 && 0 <= j < p.size.1 ==> p.shares(bins).contains(
                (cell as usize, p.coefs@[i * (p.size.1 + 1) + j]),
            )
            &&& !(0 <= i < p.size.0 && 0 <= j < p.size.1) ==> forall|k: int|
                0 <= k < p.shares(bins).len() ==> (#[trigger] p.shares(bins)[k]).0 != cell
        }),
{
    let (b0, b1) = (p.bins.0 as int, p.bins.1 as int);
    let (i, j) = (x - p.offset.0, y - p.offset.1);
    let shares = p.shares(bins);
    lemma_flat_bound(x, y, b0, b1);
    lemma_flat_inverse(x, y, b1);
    if 0 <= i < p.size.0 && 0 <= j < p.size.1 {
        lemma_box_is_rectangle(
            p.offset.0 as int,
            p.offset.1 as int,
            p.size.0 as int,
            p.size.1 as int,
            (b0, b1),
            i,
            j,
        );
        let k = i * p.size.1 + j;
        let c = p.cells()[k].cell as int;
        lemma_flat_of(c, b1);
        assert(shares[k].0 == c);
        assert(shares[k].1 == p.coefs@[i * (p.size.1 + 1) + j]);
    } else {
        assert forall|k: int| 0 <= k < shares.len() implies (#[trigger] shares[k]).0 != flat(
            x,
            y,
            b1,
        ) by {
            p.lemma_cell(bins, k);
            lemma_flat_inverse(
                p.offset.0 + k / p.size.1 as int,
                p.offset.1 + k % p.size.1 as int,
                b1,
            );
        }
    }
}

/// The coefficients of a pixel are its areas over their sum, in turn.
pub proof fn lemma_coefficients_of_an_area<T, S, C: Fn(T, S) -> u32>(
    p: PixelArea,
    swept: Swept<T, S>,
    scale: C,
    area: spec_fn(T) -> int,
    sum: spec_fn(S) -> int,
    coef: spec_fn(u32) -> int,
    k: int,
)
    requires
        p.is_of(swept, scale),
        forall|t: T, s: S, w: u32| #[trigger]
            scale.ensures((t, s), w) ==> coef(w) * sum(s) == area(t),
        0 <= k < swept.areas@.len(),
    ensures
        p.coefs@.len() == swept.areas@.len(),
        coef(p.coefs@[k]) * sum(swept.sum) == area(swept.areas@[k]),
        p.bin_min == swept.bin_min && p.bin_max == swept.bin_max,
{
}

/// The coefficients of a pixel on a grid are its areas over their sum, place by place.
pub proof fn lemma_coefficients_of_a_patch<T, S, C: Fn(T, S) -> u32>(
    p: PixelPatch,
    swept: BoxSwept<T, S>,
    bins: (usize, usize),
    scale: C,
    area: spec_fn(T) -> int,
    sum: spec_fn(S) -> int,
    coef: spec_fn(u32) -> int,
    k: int,
)
    requires
        p.is_of(swept, bins, scale),
        forall|t: T, s: S, w: u32| #[trigger]
            scale.ensures((t, s), w) ==> coef(w) * sum(s) == area(t),
        0 <= k < swept.areas@.len(),
    ensures
        p.coefs@.len() == swept.areas@.len(),
        coef(p.coefs@[k]) * sum(swept.sum) == area(swept.areas@[k]),
        p.offset == swept.offset && p.size == swept.size && p.bins == bins,
{
}

proof fn lemma_scattered_holds(csc: Csc, b: int, n: int, p: int, coef: u32)
    requires
        0 <= n <= i32::MAX + 1,
        0 <= p < n,
        0 <= b <= i32::MAX,
    ensures
        csc.scattered(b, n).contains((p as i32, coef)) <==> csc.column(p).contains((b as i32, coef)),
{
    let all = Seq::new(n as nat, |i: int| true);
    lemma_scattered_all(csc, all, b, n);
    lemma_scattered_entries(csc, all, b, n, p, coef);
}

proof fn lemma_scattered_all(csc: Csc, valid: Seq<bool>, b: int, n: int)
    requires
        n <= valid.len(),
        forall|i: int| 0 <= i < valid.len() ==> #[trigger] valid[i],
    ensures
        scattered_valid(csc, valid, b, n) == csc.scattered(b, n),
    decreases n,
{
    if n > 0 {
        lemma_scattered_all(csc, valid, b, n - 1);
        assert(valid[n - 1]);
    }
}

/// The entry of a transposed matrix for a pixel and a bin is the pixel's share in that bin;
/// a masked pixel has no entry.
pub proof fn lemma_transposed_entries<P: SplitPixel>(
    csc: Csc,
    pixels: Seq<P>,
    mask: Option<&[i8]>,
    bins: int,
    b: int,
    i: int,
    coef: u32,
)
    requires
        buildable(pixels, mask, bins),
        is_transposed_matrix_of(csc, pixels, mask, bins),
        0 <= b < bins <= i32::MAX,
        0 <= i < pixels.len(),
    ensures
        csc.column(i).contains((b as i32, coef)) <==> !(mask is Some && (mask->0)@[i] != 0)
            && pixels[i].shares(bins).contains((b as usize, coef)),
{
    let n = pixels.len() as int;
    let shares = pixel_shares(pixels, mask, bins);
    assert forall|k: int| 0 <= k < n implies distinct_bins(#[trigger] shares(k)) by {
        if !masked_out(mask, k) {
            pixels[k].lemma_shares(bins);
        }
    }
    lemma_built_entries(shares, b, n, i, coef);
    assert(csc.scattered(b, n) == built_row(shares, b, n));
    lemma_scattered_holds(csc, b, n, i, coef);
}

} // verus!
