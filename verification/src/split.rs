//! Pixel splitting: which bins a pixel contributes to, and with which part of it.
//!
//! A pixel spans a range of bins along each axis. Its share of a bin depends only
//! on where the bin lies in the range: the first and the last bin are covered in
//! part, those between them in full. What the parts weigh is a matter of the
//! positions of the pixel's edges; which parts there are, and in which order they
//! are added up, is decided here.

use crate::grid::{flat, lemma_flat_bound, lemma_flat_inverse};
use vstd::prelude::*;

verus! {

/// The part of a pixel that falls into one bin of the range it spans.
#[derive(Debug, Clone, Copy, PartialEq, Eq, Structural)]
pub enum Part {
    /// The range is this one bin.
    Whole,
    /// The first bin of the range.
    First,
    /// The last bin of the range.
    Last,
    /// A bin between the first and the last one.
    Inner,
}

/// A bin and the part of the pixel that falls into it.
#[derive(Debug, Clone, Copy, PartialEq, Eq, Structural)]
pub struct BinShare {
    /// The bin.
    pub bin: usize,
    /// The part.
    pub part: Part,
}

/// No bin lies in the range `bin_min..=bin_max`.
pub open spec fn off_axis(bin_min: int, bin_max: int, bins: int) -> bool {
    bin_max < 0 || bin_min >= bins
}

/// The first bin of the range.
pub open spec fn range_lo(bin_min: int) -> int {
    if bin_min < 0 {
        0
    } else {
        bin_min
    }
}

/// The last bin of the range.
pub open spec fn range_hi(bin_max: int, bins: int) -> int {
    if bin_max > bins - 1 {
        bins - 1
    } else {
        bin_max
    }
}

/// The part of the range `lo..=hi` that `bin` is.
pub open spec fn part_of(lo: int, hi: int, bin: int) -> Part {
    if lo == hi {
        Part::Whole
    } else if bin == lo {
        Part::First
    } else if bin == hi {
        Part::Last
    } else {
        Part::Inner
    }
}

/// The shares of the bins strictly between `lo` and `hi`, in ascending order.
pub open spec fn inner_shares(lo: int, hi: int) -> Seq<BinShare> {
    Seq::new(
        if hi - lo > 1 {
            (hi - lo - 1) as nat
        } else {
            0
        },
        |k: int| BinShare { bin: (lo + 1 + k) as usize, part: Part::Inner },
    )
}

/// The shares of a pixel that spans the bins `bin_min..=bin_max` of an axis of
/// `bins` bins, in the order in which they are added up: the first bin, the last
/// bin, then those between them.
pub open spec fn cover(bin_min: int, bin_max: int, bins: int) -> Seq<BinShare> {
    let lo = range_lo(bin_min);
    let hi = range_hi(bin_max, bins);
    if off_axis(bin_min, bin_max, bins) {
        Seq::empty()
    } else if lo == hi {
        seq![BinShare { bin: lo as usize, part: Part::Whole }]
    } else {
        seq![
            BinShare { bin: lo as usize, part: Part::First },
            BinShare { bin: hi as usize, part: Part::Last },
        ] + inner_shares(lo, hi)
    }
}

/// The range `bin_min..=bin_max` as far as it lies on an axis of `bins` bins.
pub fn clamp_range(bin_min: i64, bin_max: i64, bins: usize) -> (r: Option<(usize, usize)>)
    requires
        0 < bins <= i64::MAX,
    ensures
        off_axis(bin_min as int, bin_max as int, bins as int) ==> r is None,
        !off_axis(bin_min as int, bin_max as int, bins as int) ==> r == Some(
            (
                range_lo(bin_min as int) as usize,
                range_hi(bin_max as int, bins as int) as usize,
            ),
        ),
        r is Some ==> (r->0).0 < bins && (r->0).1 < bins,
{
    let bins_i: i64 = bins as i64;
    if bin_max < 0 || bin_min >= bins_i {
        return None;
    }
    let hi: i64 = if bin_max > bins_i - 1 {
        bins_i - 1
    } else {
        bin_max
    };
    let lo: i64 = if bin_min < 0 {
        0
    } else {
        bin_min
    };
    Some((lo as usize, hi as usize))
}

/// The shares of a pixel along one axis, see [`cover`].
pub fn cover_1d(bin_min: i64, bin_max: i64, bins: usize) -> (shares: Vec<BinShare>)
    requires
        0 < bins <= i64::MAX,
    ensures
        shares@ == cover(bin_min as int, bin_max as int, bins as int),
{
    let mut shares: Vec<BinShare> = Vec::new();
    if let Some((lo, hi)) = clamp_range(bin_min, bin_max, bins) {
        if lo == hi {
            shares.push(BinShare { bin: lo, part: Part::Whole });
        } else {
            shares.push(BinShare { bin: lo, part: Part::First });
            shares.push(BinShare { bin: hi, part: Part::Last });
            let ghost head = shares@;
            let mut b: usize = lo + 1;
            while b < hi
                invariant
                    lo < b,
                    lo < hi ==> b <= hi,
                    lo > hi ==> b == lo + 1,
                    hi < bins,
                    head == seq![
                        BinShare { bin: lo, part: Part::First },
                        BinShare { bin: hi, part: Part::Last },
                    ],
                    shares@ == head + inner_shares(lo as int, b as int),
                decreases hi - b,
            {
                shares.push(BinShare { bin: b, part: Part::Inner });
                b = b + 1;
                assert(shares@ =~= head + inner_shares(lo as int, b as int));
            }
            assert(inner_shares(lo as int, b as int) =~= inner_shares(lo as int, hi as int));
        }
    }
    assert(shares@ =~= cover(bin_min as int, bin_max as int, bins as int));
    shares
}

/// A range on the axis holds each of its bins once, with the part that the bin is.
pub proof fn lemma_cover_is_range(bin_min: int, bin_max: int, bins: int, k: int)
    requires
        bin_min <= bin_max,
        0 < bins <= usize::MAX,
        !off_axis(bin_min, bin_max, bins),
    ensures
        ({
            let lo = range_lo(bin_min);
            let hi = range_hi(bin_max, bins);
            let shares = cover(bin_min, bin_max, bins);
            &&& shares.len() == hi - lo + 1
            &&& 0 <= k < shares.len() ==> lo <= shares[k].bin <= hi && shares[k].part == part_of(
                lo,
                hi,
                shares[k].bin as int,
            )
            &&& lo <= k <= hi ==> shares.contains(
                BinShare { bin: k as usize, part: part_of(lo, hi, k) },
            )
            &&& forall|i: int, j: int|
                0 <= i < j < shares.len() ==> (#[trigger] shares[i]).bin != (
                #[trigger] shares[j]).bin
        }),
{
    let lo = range_lo(bin_min);
    let hi = range_hi(bin_max, bins);
    let shares = cover(bin_min, bin_max, bins);
    if lo <= k <= hi {
        let at = if lo == hi || k == lo {
            0
        } else if k == hi {
            1
        } else {
            k - lo + 1
        };
        assert(shares[at] == (BinShare { bin: k as usize, part: part_of(lo, hi, k) }));
    }
}

/// What a part weighs when the pixel's edges lie at `a / d` and `b / d`, counted in
/// bins: the length of the pixel inside that bin, in units of `1 / d`.
pub open spec fn part_length(a: int, b: int, d: int, lo: int, hi: int, part: Part) -> int {
    match part {
        Part::Whole => b - a,
        Part::First => (lo + 1) * d - a,
        Part::Last => b - hi * d,
        Part::Inner => d,
    }
}

/// The lengths of the shares added up.
pub open spec fn total_length(
    shares: Seq<BinShare>,
    a: int,
    b: int,
    d: int,
    lo: int,
    hi: int,
) -> int
    decreases shares.len(),
{
    if shares.len() == 0 {
        0
    } else {
        total_length(shares.drop_last(), a, b, d, lo, hi) + part_length(
            a,
            b,
            d,
            lo,
            hi,
            shares.last().part,
        )
    }
}

/// The inner bins are all covered in full.
proof fn lemma_inner_length(
    head: Seq<BinShare>,
    n: nat,
    a: int,
    b: int,
    d: int,
    lo: int,
    hi: int,
)
    ensures
        total_length(head + inner_shares(lo, lo + 1 + n), a, b, d, lo, hi) == total_length(
            head,
            a,
            b,
            d,
            lo,
            hi,
        ) + n * d,
    decreases n,
{
    let shares = head + inner_shares(lo, lo + 1 + n);
    if n == 0 {
        assert(shares =~= head);
    } else {
        lemma_inner_length(head, (n - 1) as nat, a, b, d, lo, hi);
        assert(shares.drop_last() =~= head + inner_shares(lo, lo + n));
        assert((n - 1) * d + d == n * d) by (nonlinear_arith);
    }
}

/// A pixel that lies on the axis is distributed completely: with its edges at
/// `a / d` and `b / d`, the lengths of its shares add up to its own length, so the
/// shares divided by that length add up to one.
pub proof fn lemma_shares_add_up(a: int, b: int, d: int, bins: int)
    requires
        d > 0,
        0 <= a <= b,
        b < bins * d,
    ensures
        total_length(cover(a / d, b / d, bins), a, b, d, a / d, b / d) == b - a,
{
    vstd::arithmetic::div_mod::lemma_fundamental_div_mod(a, d);
    vstd::arithmetic::div_mod::lemma_fundamental_div_mod(b, d);
    let lo = a / d;
    let hi = b / d;
    assert(0 <= lo) by (nonlinear_arith)
        requires
            d > 0,
            0 <= a,
            lo == a / d,
    ;
    assert(lo <= hi) by (nonlinear_arith)
        requires
            d > 0,
            a <= b,
            lo == a / d,
            hi == b / d,
    ;
    assert(hi < bins) by (nonlinear_arith)
        requires
            d > 0,
            b < bins * d,
            b == d * hi + b % d,
            0 <= b % d,
    ;
    let shares = cover(lo, hi, bins);
    if lo == hi {
        assert(shares.drop_last() =~= Seq::<BinShare>::empty());
        assert(total_length(shares.drop_last(), a, b, d, lo, hi) == 0);
    } else {
        let first = BinShare { bin: lo as usize, part: Part::First };
        let last = BinShare { bin: hi as usize, part: Part::Last };
        let head = seq![first, last];
        assert(head.drop_last() =~= seq![first]);
        assert(seq![first].drop_last() =~= Seq::<BinShare>::empty());
        assert(total_length(Seq::<BinShare>::empty(), a, b, d, lo, hi) == 0);
        assert(total_length(seq![first], a, b, d, lo, hi) == (lo + 1) * d - a);
        assert(total_length(head, a, b, d, lo, hi) == (lo + 1) * d - a + (b - hi * d));
        lemma_inner_length(head, (hi - lo - 1) as nat, a, b, d, lo, hi);
        assert((lo + 1) * d - hi * d + (hi - lo - 1) * d == 0) by (nonlinear_arith);
    }
}

/// A cell of a two-dimensional grid and the part of the pixel that falls into it
/// along either axis. The share is the product of the two parts.
#[derive(Debug, Clone, Copy, PartialEq, Eq, Structural)]
pub struct CellShare {
    /// The cell, at `bin0 * bins1 + bin1`.
    pub cell: usize,
    /// The part along the first axis.
    pub part0: Part,
    /// The part along the second axis.
    pub part1: Part,
}

/// The corners of the rectangle of bins `lo0..=hi0` by `lo1..=hi1`.
pub open spec fn corners(lo0: int, hi0: int, lo1: int, hi1: int) -> Seq<(int, int)> {
    if lo0 == hi0 && lo1 == hi1 {
        seq![(lo0, lo1)]
    } else if lo0 == hi0 {
        seq![(lo0, lo1), (lo0, hi1)]
    } else if lo1 == hi1 {
        seq![(lo0, lo1), (hi0, lo1)]
    } else {
        seq![(lo0, lo1), (lo0, hi1), (hi0, lo1), (hi0, hi1)]
    }
}

/// The cells of row `i` with `lo1 < bin1 < upto`.
pub open spec fn row_inner(i: int, lo1: int, upto: int) -> Seq<(int, int)> {
    Seq::new(
        if upto - lo1 > 1 {
            (upto - lo1 - 1) as nat
        } else {
            0
        },
        |k: int| (i, lo1 + 1 + k),
    )
}

/// All cells of row `i`, from `lo1` to `hi1`.
pub open spec fn full_row(i: int, lo1: int, hi1: int) -> Seq<(int, int)> {
    if lo1 == hi1 {
        seq![(i, lo1)]
    } else {
        seq![(i, lo1)] + row_inner(i, lo1, hi1) + seq![(i, hi1)]
    }
}

/// The full rows `i` with `lo0 < i < upto`, one after the other.
pub open spec fn middle_rows(lo0: int, upto: int, lo1: int, hi1: int) -> Seq<(int, int)>
    decreases upto - lo0,
{
    if upto <= lo0 + 1 {
        Seq::empty()
    } else {
        middle_rows(lo0, upto - 1, lo1, hi1) + full_row(upto - 1, lo1, hi1)
    }
}

/// The cells of the first and the last row with `lo1 < bin1 < upto`, pair by pair.
pub open spec fn outer_rows(lo0: int, hi0: int, lo1: int, upto: int) -> Seq<(int, int)>
    decreases upto - lo1,
{
    if upto <= lo1 + 1 {
        Seq::empty()
    } else if lo0 == hi0 {
        outer_rows(lo0, hi0, lo1, upto - 1) + seq![(lo0, upto - 1)]
    } else {
        outer_rows(lo0, hi0, lo1, upto - 1) + seq![(lo0, upto - 1), (hi0, upto - 1)]
    }
}

/// The cells of the rectangle of bins `lo0..=hi0` by `lo1..=hi1`, in the order in
/// which the shares are added up: the corners, the rows between the first and the
/// last one, then what is left of these two.
pub open spec fn cell_order(lo0: int, hi0: int, lo1: int, hi1: int) -> Seq<(int, int)> {
    corners(lo0, hi0, lo1, hi1) + middle_rows(lo0, hi0, lo1, hi1) + outer_rows(lo0, hi0, lo1, hi1)
}

/// The share of a cell in the rectangle.
pub open spec fn cell_share(
    lo0: int,
    hi0: int,
    lo1: int,
    hi1: int,
    bins1: int,
    at: (int, int),
) -> CellShare {
    CellShare {
        cell: flat(at.0, at.1, bins1) as usize,
        part0: part_of(lo0, hi0, at.0),
        part1: part_of(lo1, hi1, at.1),
    }
}

/// The shares of a list of cells.
pub open spec fn cell_shares(
    lo0: int,
    hi0: int,
    lo1: int,
    hi1: int,
    bins1: int,
    cells: Seq<(int, int)>,
) -> Seq<CellShare> {
    Seq::new(cells.len(), |k: int| cell_share(lo0, hi0, lo1, hi1, bins1, cells[k]))
}

/// The shares of a pixel that spans the given ranges of bins on the two axes of a
/// grid of `bins0` by `bins1` cells.
pub open spec fn cover_grid(
    bin0_min: int,
    bin0_max: int,
    bin1_min: int,
    bin1_max: int,
    bins0: int,
    bins1: int,
) -> Seq<CellShare> {
    if off_axis(bin0_min, bin0_max, bins0) || off_axis(bin1_min, bin1_max, bins1) {
        Seq::empty()
    } else {
        let lo0 = range_lo(bin0_min);
        let hi0 = range_hi(bin0_max, bins0);
        let lo1 = range_lo(bin1_min);
        let hi1 = range_hi(bin1_max, bins1);
        cell_shares(lo0, hi0, lo1, hi1, bins1, cell_order(lo0, hi0, lo1, hi1))
    }
}

/// The corners of the rectangle of bins `lo0..=hi0` by `lo1..=hi1` are cells of a grid of
/// `cells` cells, `bins1` to a row. A bin beyond the end of a row is taken for one of the
/// rows next to it.
pub open spec fn on_grid(
    lo0: int,
    hi0: int,
    lo1: int,
    hi1: int,
    bins1: int,
    cells: int,
) -> bool {
    &&& 0 <= flat(lo0, lo1, bins1) < cells
    &&& 0 <= flat(lo0, hi1, bins1) < cells
    &&& 0 <= flat(hi0, lo1, bins1) < cells
    &&& 0 <= flat(hi0, hi1, bins1) < cells
}

/// Where the corners of a rectangle are cells of a grid, so are the bins between them.
pub proof fn lemma_on_grid(
    lo0: int,
    hi0: int,
    lo1: int,
    hi1: int,
    bins1: int,
    cells: int,
    x: int,
    y: int,
)
    requires
        0 <= bins1,
        on_grid(lo0, hi0, lo1, hi1, bins1, cells),
        in_range(lo0, hi0, x),
        in_range(lo1, hi1, y),
    ensures
        0 <= flat(x, y, bins1) < cells,
{
    if x != lo0 && x != hi0 {
        assert(lo0 * bins1 <= x * bins1 <= hi0 * bins1) by (nonlinear_arith)
            requires
                lo0 < x < hi0,
                0 <= bins1,
        ;
    }
}

/// A rectangle of bins on a grid, given by its ranges.
struct Rect {
    lo0: i64,
    hi0: i64,
    lo1: i64,
    hi1: i64,
    bins1: usize,
    cells: usize,
}

impl Rect {
    spec fn wf(&self) -> bool {
        &&& self.lo0 < i64::MAX
        &&& self.lo1 < i64::MAX
        &&& self.bins1 <= i64::MAX
        &&& on_grid(
            self.lo0 as int,
            self.hi0 as int,
            self.lo1 as int,
            self.hi1 as int,
            self.bins1 as int,
            self.cells as int,
        )
    }

    spec fn shares(&self, cells: Seq<(int, int)>) -> Seq<CellShare> {
        cell_shares(
            self.lo0 as int,
            self.hi0 as int,
            self.lo1 as int,
            self.hi1 as int,
            self.bins1 as int,
            cells,
        )
    }

    /// Adds the share of cell `(b0, b1)` to the list.
    fn add_cell(&self, b0: i64, b1: i64, out: &mut Vec<CellShare>, Ghost(cells): Ghost<
        Seq<(int, int)>,
    >)
        requires
            self.wf(),
            in_range(self.lo0 as int, self.hi0 as int, b0 as int),
            in_range(self.lo1 as int, self.hi1 as int, b1 as int),
            old(out)@ == self.shares(cells),
        ensures
            final(out)@ == self.shares(cells.push((b0 as int, b1 as int))),
    {
        proof {
            lemma_on_grid(
                self.lo0 as int,
                self.hi0 as int,
                self.lo1 as int,
                self.hi1 as int,
                self.bins1 as int,
                self.cells as int,
                b0 as int,
                b1 as int,
            );
            lemma_product_fits(b0, self.bins1);
        }
        let cell: usize = (b0 as i128 * self.bins1 as i128 + b1 as i128) as usize;
        out.push(
            CellShare {
                cell,
                part0: part_at(self.lo0, self.hi0, b0),
                part1: part_at(self.lo1, self.hi1, b1),
            },
        );
        assert(out@ =~= self.shares(cells.push((b0 as int, b1 as int))));
    }
}

/// The product of a bin and the length of a row is far from the ends of `i128`.
pub proof fn lemma_product_fits(b0: i64, bins1: usize)
    requires
        bins1 <= i64::MAX,
    ensures
        -0x4000_0000_0000_0000_0000_0000_0000_0000 <= b0 * bins1
            <= 0x4000_0000_0000_0000_0000_0000_0000_0000,
{
    assert(-0x4000_0000_0000_0000_0000_0000_0000_0000 <= b0 * bins1
        <= 0x4000_0000_0000_0000_0000_0000_0000_0000) by (nonlinear_arith)
        requires
            -0x8000_0000_0000_0000 <= b0 <= 0x7fff_ffff_ffff_ffff,
            0 <= bins1 <= 0x7fff_ffff_ffff_ffff,
    ;
}

/// The value of [`part_of`].
fn part_at(lo: i64, hi: i64, bin: i64) -> (p: Part)
    ensures
        p == part_of(lo as int, hi as int, bin as int),
{
    if lo == hi {
        Part::Whole
    } else if bin == lo {
        Part::First
    } else if bin == hi {
        Part::Last
    } else {
        Part::Inner
    }
}

/// The shares of a pixel on a grid of `bins.0` by `bins.1` cells, see
/// [`cover_grid`]. `bin0` and `bin1` are the first and the last bin that the pixel
/// spans on either axis.
pub fn cover_2d(bin0: (i64, i64), bin1: (i64, i64), bins: (usize, usize)) -> (shares: Vec<
    CellShare,
>)
    requires
        0 < bins.0 <= i64::MAX,
        0 < bins.1 <= i64::MAX,
        bins.0 * bins.1 <= usize::MAX,
    ensures
        shares@ == cover_grid(
            bin0.0 as int,
            bin0.1 as int,
            bin1.0 as int,
            bin1.1 as int,
            bins.0 as int,
            bins.1 as int,
        ),
{
    let mut out: Vec<CellShare> = Vec::new();
    let range0: Option<(usize, usize)> = clamp_range(bin0.0, bin0.1, bins.0);
    let range1: Option<(usize, usize)> = clamp_range(bin1.0, bin1.1, bins.1);
    if let (Some((lo0, hi0)), Some((lo1, hi1))) = (range0, range1) {
        let rect = Rect {
            lo0: lo0 as i64,
            hi0: hi0 as i64,
            lo1: lo1 as i64,
            hi1: hi1 as i64,
            bins1: bins.1,
            cells: bins.0 * bins.1,
        };
        proof {
            lemma_flat_bound(lo0 as int, lo1 as int, bins.0 as int, bins.1 as int);
            lemma_flat_bound(lo0 as int, hi1 as int, bins.0 as int, bins.1 as int);
            lemma_flat_bound(hi0 as int, lo1 as int, bins.0 as int, bins.1 as int);
            lemma_flat_bound(hi0 as int, hi1 as int, bins.0 as int, bins.1 as int);
        }
        cover_rect(&rect, &mut out);
    }
    out
}

/// The shares of a pixel that spans the given bins, which are taken as they are: a bin
/// off the second axis is one of the rows next to it.
pub fn cover_raw(bin0: (i64, i64), bin1: (i64, i64), bins1: usize, cells: usize) -> (shares: Vec<
    CellShare,
>)
    requires
        bins1 <= i64::MAX,
        bin0.0 < i64::MAX,
        bin1.0 < i64::MAX,
        on_grid(
            bin0.0 as int,
            bin0.1 as int,
            bin1.0 as int,
            bin1.1 as int,
            bins1 as int,
            cells as int,
        ),
    ensures
        shares@ == cell_shares(
            bin0.0 as int,
            bin0.1 as int,
            bin1.0 as int,
            bin1.1 as int,
            bins1 as int,
            cell_order(bin0.0 as int, bin0.1 as int, bin1.0 as int, bin1.1 as int),
        ),
{
    let mut out: Vec<CellShare> = Vec::new();
    let rect = Rect { lo0: bin0.0, hi0: bin0.1, lo1: bin1.0, hi1: bin1.1, bins1, cells };
    cover_rect(&rect, &mut out);
    out
}

/// Lists the shares of all cells of a rectangle.
fn cover_rect(rect: &Rect, out: &mut Vec<CellShare>)
    requires
        rect.wf(),
        old(out)@.len() == 0,
    ensures
        final(out)@ == rect.shares(
            cell_order(rect.lo0 as int, rect.hi0 as int, rect.lo1 as int, rect.hi1 as int),
        ),
{
    let ghost lo0 = rect.lo0 as int;
    let ghost hi0 = rect.hi0 as int;
    let ghost lo1 = rect.lo1 as int;
    let ghost hi1 = rect.hi1 as int;
    let ghost mut cells: Seq<(int, int)> = Seq::empty();
    assert(out@ =~= rect.shares(cells));
    rect.add_cell(rect.lo0, rect.lo1, out, Ghost(cells));
    proof {
        cells = cells.push((lo0, lo1));
    }
    if rect.lo1 != rect.hi1 {
        rect.add_cell(rect.lo0, rect.hi1, out, Ghost(cells));
        proof {
            cells = cells.push((lo0, hi1));
        }
    }
    if rect.lo0 != rect.hi0 {
        rect.add_cell(rect.hi0, rect.lo1, out, Ghost(cells));
        proof {
            cells = cells.push((hi0, lo1));
        }
        if rect.lo1 != rect.hi1 {
            rect.add_cell(rect.hi0, rect.hi1, out, Ghost(cells));
            proof {
                cells = cells.push((hi0, hi1));
            }
        }
    }
    let ghost head = corners(lo0, hi0, lo1, hi1);
    assert(cells =~= head + middle_rows(lo0, lo0 + 1, lo1, hi1));
    let mut i: i64 = rect.lo0 + 1;
    while i < rect.hi0
        invariant
            rect.wf(),
            lo0 == rect.lo0,
            hi0 == rect.hi0,
            lo1 == rect.lo1,
            hi1 == rect.hi1,
            lo0 < i,
            i <= hi0 || i == lo0 + 1,
            cells == head + middle_rows(lo0, i as int, lo1, hi1),
            out@ == rect.shares(cells),
        decreases hi0 - i,
    {
        let ghost before = cells;
        rect.add_cell(i, rect.lo1, out, Ghost(cells));
        proof {
            cells = cells.push((i as int, lo1));
        }
        if rect.lo1 != rect.hi1 {
            assert(cells =~= before + (seq![(i as int, lo1)] + row_inner(i as int, lo1, lo1 + 1)));
            let mut j: i64 = rect.lo1 + 1;
            while j < rect.hi1
                invariant
                    rect.wf(),
                    lo0 == rect.lo0,
                    hi0 == rect.hi0,
                    lo1 == rect.lo1,
                    hi1 == rect.hi1,
                    lo0 < i < hi0,
                    lo1 < j,
                    j <= hi1 || j == lo1 + 1,
                    cells == before + (seq![(i as int, lo1)] + row_inner(i as int, lo1, j as int)),
                    out@ == rect.shares(cells),
                decreases hi1 - j,
            {
                rect.add_cell(i, j, out, Ghost(cells));
                proof {
                    cells = cells.push((i as int, j as int));
                    assert(cells =~= before + (seq![(i as int, lo1)] + row_inner(
                        i as int,
                        lo1,
                        j + 1,
                    )));
                }
                j = j + 1;
            }
            assert(row_inner(i as int, lo1, j as int) =~= row_inner(i as int, lo1, hi1));
            rect.add_cell(i, rect.hi1, out, Ghost(cells));
            proof {
                cells = cells.push((i as int, hi1));
            }
        }
        proof {
            assert(cells =~= before + full_row(i as int, lo1, hi1));
            assert(cells =~= head + middle_rows(lo0, i + 1, lo1, hi1));
        }
        i = i + 1;
    }
    let ghost body = head + middle_rows(lo0, hi0, lo1, hi1);
    assert(middle_rows(lo0, i as int, lo1, hi1) =~= middle_rows(lo0, hi0, lo1, hi1));
    assert(cells =~= body + outer_rows(lo0, hi0, lo1, lo1 + 1));
    let mut j: i64 = rect.lo1 + 1;
    while j < rect.hi1
        invariant
            rect.wf(),
            lo0 == rect.lo0,
            hi0 == rect.hi0,
            lo1 == rect.lo1,
            hi1 == rect.hi1,
            lo1 < j,
            j <= hi1 || j == lo1 + 1,
            cells == body + outer_rows(lo0, hi0, lo1, j as int),
            out@ == rect.shares(cells),
        decreases hi1 - j,
    {
        rect.add_cell(rect.lo0, j, out, Ghost(cells));
        proof {
            cells = cells.push((lo0, j as int));
        }
        if rect.lo0 != rect.hi0 {
            rect.add_cell(rect.hi0, j, out, Ghost(cells));
            proof {
                cells = cells.push((hi0, j as int));
            }
        }
        assert(cells =~= body + outer_rows(lo0, hi0, lo1, j + 1));
        j = j + 1;
    }
    assert(outer_rows(lo0, hi0, lo1, j as int) =~= outer_rows(lo0, hi0, lo1, hi1));
}

/// One of the bins of a range: one of its ends, or one between them.
pub open spec fn in_range(lo: int, hi: int, x: int) -> bool {
    x == lo || x == hi || lo < x < hi
}

/// A full row holds each of its cells once.
proof fn lemma_full_row(i: int, lo1: int, hi1: int)
    ensures
        full_row(i, lo1, hi1).no_duplicates(),
        forall|x: int, y: int| #[trigger]
            full_row(i, lo1, hi1).contains((x, y)) <==> x == i && in_range(lo1, hi1, y),
{
    let row = full_row(i, lo1, hi1);
    assert forall|x: int, y: int| x == i && in_range(lo1, hi1, y) implies #[trigger] row.contains(
        (x, y),
    ) by {
        if y == hi1 {
            assert(row[row.len() - 1] == (x, y));
        } else {
            assert(row[y - lo1] == (x, y));
        }
    }
}

/// The middle rows hold each of their cells once.
proof fn lemma_middle_rows(lo0: int, upto: int, lo1: int, hi1: int)
    ensures
        middle_rows(lo0, upto, lo1, hi1).no_duplicates(),
        forall|x: int, y: int| #[trigger]
            middle_rows(lo0, upto, lo1, hi1).contains((x, y)) <==> lo0 < x < upto && in_range(
                lo1,
                hi1,
                y,
            ),
    decreases upto - lo0,
{
    if upto > lo0 + 1 {
        lemma_middle_rows(lo0, upto - 1, lo1, hi1);
        lemma_full_row(upto - 1, lo1, hi1);
        lemma_joined(
            middle_rows(lo0, upto - 1, lo1, hi1),
            full_row(upto - 1, lo1, hi1),
        );
    }
}

/// Two lists without repetitions and without common members, joined.
proof fn lemma_joined(a: Seq<(int, int)>, b: Seq<(int, int)>)
    requires
        a.no_duplicates(),
        b.no_duplicates(),
        forall|x: int, y: int| #[trigger] a.contains((x, y)) ==> !b.contains((x, y)),
    ensures
        (a + b).no_duplicates(),
        forall|x: int, y: int| #[trigger]
            (a + b).contains((x, y)) <==> a.contains((x, y)) || b.contains((x, y)),
{
    assert forall|i: int, j: int| 0 <= i < a.len() && 0 <= j < b.len() implies a[i] != b[j] by {
        assert(a.contains((a[i].0, a[i].1)));
        assert(b.contains(b[j]));
    }
    vstd::seq_lib::lemma_no_dup_in_concat(a, b);
    assert forall|x: int, y: int|
        a.contains((x, y)) || b.contains((x, y)) implies #[trigger] (a + b).contains((x, y)) by {
        if a.contains((x, y)) {
            let k = choose|k: int| 0 <= k < a.len() && a[k] == (x, y);
            assert((a + b)[k] == (x, y));
        } else {
            let k = choose|k: int| 0 <= k < b.len() && b[k] == (x, y);
            assert((a + b)[a.len() + k] == (x, y));
        }
    }
    assert forall|x: int, y: int| #[trigger] (a + b).contains((x, y)) implies a.contains((x, y))
        || b.contains((x, y)) by {
        let k = choose|k: int| 0 <= k < (a + b).len() && (a + b)[k] == (x, y);
        if k < a.len() {
            assert(a[k] == (x, y));
        } else {
            assert(b[k - a.len()] == (x, y));
        }
    }
}

/// What is left of the first and the last row holds each of its cells once.
proof fn lemma_outer_rows(lo0: int, hi0: int, lo1: int, upto: int)
    ensures
        outer_rows(lo0, hi0, lo1, upto).no_duplicates(),
        forall|x: int, y: int| #[trigger]
            outer_rows(lo0, hi0, lo1, upto).contains((x, y)) <==> (x == lo0 || x == hi0) && lo1 < y
                < upto,
    decreases upto - lo1,
{
    if upto > lo1 + 1 {
        lemma_outer_rows(lo0, hi0, lo1, upto - 1);
        let pair = if lo0 == hi0 {
            seq![(lo0, upto - 1)]
        } else {
            seq![(lo0, upto - 1), (hi0, upto - 1)]
        };
        assert(pair[0] == (lo0, upto - 1));
        assert(pair[pair.len() - 1] == (hi0, upto - 1));
        lemma_joined(outer_rows(lo0, hi0, lo1, upto - 1), pair);
    }
}

/// Every cell of the rectangle is listed exactly once, and no other cell is.
pub proof fn lemma_cell_order_is_rectangle(lo0: int, hi0: int, lo1: int, hi1: int)
    ensures
        cell_order(lo0, hi0, lo1, hi1).no_duplicates(),
        forall|x: int, y: int| #[trigger]
            cell_order(lo0, hi0, lo1, hi1).contains((x, y)) <==> in_range(lo0, hi0, x) && in_range(
                lo1,
                hi1,
                y,
            ),
{
    let a = corners(lo0, hi0, lo1, hi1);
    let b = middle_rows(lo0, hi0, lo1, hi1);
    let c = outer_rows(lo0, hi0, lo1, hi1);
    lemma_middle_rows(lo0, hi0, lo1, hi1);
    lemma_outer_rows(lo0, hi0, lo1, hi1);
    assert(a.no_duplicates());
    assert forall|x: int, y: int| #[trigger] a.contains((x, y)) <==> (x == lo0 || x == hi0) && (y
        == lo1 || y == hi1) by {
        if (x == lo0 || x == hi0) && (y == lo1 || y == hi1) {
            let row = if x == lo0 {
                0
            } else if lo1 == hi1 {
                1
            } else {
                2int
            };
            let col = if y == lo1 {
                0
            } else {
                1int
            };
            assert(a[row + col] == (x, y));
        }
    }
    lemma_joined(a, b);
    lemma_joined(a + b, c);
}

/// A pixel on the grid has one share in each cell of the rectangle that it spans,
/// and that share is the product of the parts along the two axes.
pub proof fn lemma_grid_cover_is_product(
    bin0_min: int,
    bin0_max: int,
    bin1_min: int,
    bin1_max: int,
    bins0: int,
    bins1: int,
    x: int,
    y: int,
)
    requires
        bin0_min <= bin0_max,
        bin1_min <= bin1_max,
        0 < bins0,
        0 < bins1,
        bins0 * bins1 <= usize::MAX,
        !off_axis(bin0_min, bin0_max, bins0),
        !off_axis(bin1_min, bin1_max, bins1),
        range_lo(bin0_min) <= x <= range_hi(bin0_max, bins0),
        range_lo(bin1_min) <= y <= range_hi(bin1_max, bins1),
    ensures
        ({
            let shares = cover_grid(bin0_min, bin0_max, bin1_min, bin1_max, bins0, bins1);
            exists|k: int|
                0 <= k < shares.len() && (#[trigger] shares[k]).cell == flat(x, y, bins1)
                    && shares[k].part0 == part_of(
                    range_lo(bin0_min),
                    range_hi(bin0_max, bins0),
                    x,
                ) && shares[k].part1 == part_of(range_lo(bin1_min), range_hi(bin1_max, bins1), y)
                    && forall|l: int|
                    0 <= l < shares.len() && l != k ==> (#[trigger] shares[l]).cell != shares[k].cell
        }),
{
    let lo0 = range_lo(bin0_min);
    let hi0 = range_hi(bin0_max, bins0);
    let lo1 = range_lo(bin1_min);
    let hi1 = range_hi(bin1_max, bins1);
    let cells = cell_order(lo0, hi0, lo1, hi1);
    let shares = cover_grid(bin0_min, bin0_max, bin1_min, bin1_max, bins0, bins1);
    lemma_cell_order_is_rectangle(lo0, hi0, lo1, hi1);
    assert(cells.contains((x, y)));
    let k = choose|k: int| 0 <= k < cells.len() && cells[k] == (x, y);
    lemma_flat_bound(x, y, bins0, bins1);
    assert(shares[k] == cell_share(lo0, hi0, lo1, hi1, bins1, cells[k]));
    assert forall|l: int| 0 <= l < shares.len() && l != k implies (#[trigger] shares[l]).cell
        != shares[k].cell by {
        let at = cells[l];
        assert(cells.contains((at.0, at.1)));
        lemma_flat_bound(at.0, at.1, bins0, bins1);
        lemma_flat_inverse(at.0, at.1, bins1);
        lemma_flat_inverse(x, y, bins1);
        assert(cells[l] != cells[k]);
    }
}

/// A pixel has a share in exactly those bins that lie both on the axis and in the range
/// that it spans, each of them once.
pub proof fn lemma_covered_bins(bin_min: int, bin_max: int, bins: int, bin: int)
    requires
        bin_min <= bin_max,
        0 < bins <= usize::MAX,
    ensures
        ({
            let shares = cover(bin_min, bin_max, bins);
            &&& 0 <= bin < bins && bin_min <= bin <= bin_max <==> exists|k: int|
                0 <= k < shares.len() && (#[trigger] shares[k]).bin == bin
            &&& forall|i: int, j: int|
                0 <= i < j < shares.len() ==> (#[trigger] shares[i]).bin != (
                #[trigger] shares[j]).bin
        }),
{
    let shares = cover(bin_min, bin_max, bins);
    if !off_axis(bin_min, bin_max, bins) {
        lemma_cover_is_range(bin_min, bin_max, bins, bin);
        let lo = range_lo(bin_min);
        let hi = range_hi(bin_max, bins);
        if lo <= bin <= hi {
            let share = BinShare { bin: bin as usize, part: part_of(lo, hi, bin) };
            let k = choose|k: int| 0 <= k < shares.len() && shares[k] == share;
            assert(shares[k].bin == bin);
        }
        assert forall|k: int| 0 <= k < shares.len() implies lo <= (#[trigger] shares[k]).bin
            <= hi by {
            lemma_cover_is_range(bin_min, bin_max, bins, k);
        }
    }
}

/// The length of the pixel from `a` to `b` inside the bin from `bin * d` to
/// `(bin + 1) * d`.
pub open spec fn overlap(a: int, b: int, d: int, bin: int) -> int {
    let from = if a > bin * d {
        a
    } else {
        bin * d
    };
    let to = if b < (bin + 1) * d {
        b
    } else {
        (bin + 1) * d
    };
    if from < to {
        to - from
    } else {
        0
    }
}

/// The share of a bin is the length of the pixel inside the bin: from the later of the
/// pixel's first edge and the bin's to the earlier of their last edges.
pub proof fn lemma_share_is_overlap(a: int, b: int, d: int, bins: int, k: int)
    requires
        d > 0,
        0 <= a <= b,
        b < bins * d,
        bins <= usize::MAX,
        0 <= k < cover(a / d, b / d, bins).len(),
    ensures
        ({
            let share = cover(a / d, b / d, bins)[k];
            part_length(a, b, d, a / d, b / d, share.part) == overlap(a, b, d, share.bin as int)
        }),
{
    vstd::arithmetic::div_mod::lemma_fundamental_div_mod(a, d);
    vstd::arithmetic::div_mod::lemma_fundamental_div_mod(b, d);
    let lo = a / d;
    let hi = b / d;
    assert(d * lo == lo * d && d * hi == hi * d) by (nonlinear_arith);
    assert((lo + 1) * d == lo * d + d && (hi + 1) * d == hi * d + d) by (nonlinear_arith);
    assert(0 <= lo) by (nonlinear_arith)
        requires
            d > 0,
            0 <= a,
            lo == a / d,
    ;
    assert(lo <= hi) by (nonlinear_arith)
        requires
            d > 0,
            a <= b,
            lo == a / d,
            hi == b / d,
    ;
    assert(hi < bins) by (nonlinear_arith)
        requires
            d > 0,
            b < bins * d,
            b == d * hi + b % d,
            0 <= b % d,
    ;
    lemma_cover_is_range(lo, hi, bins, k);
    let bin = cover(lo, hi, bins)[k].bin as int;
    assert((bin + 1) * d == bin * d + d) by (nonlinear_arith);
    if lo < bin {
        assert(bin * d >= lo * d + d) by (nonlinear_arith)
            requires
                bin >= lo + 1,
                d > 0,
        ;
    }
    if bin < hi {
        assert(hi * d >= bin * d + d) by (nonlinear_arith)
            requires
                hi >= bin + 1,
                d > 0,
        ;
    }
}

/// The first bin of a pixel comes first and the last one second, then those between them in
/// ascending order.
pub proof fn lemma_order_of_shares(bin_min: int, bin_max: int, bins: int, k: int)
    requires
        bin_min <= bin_max,
        0 < bins <= usize::MAX,
        0 <= k < cover(bin_min, bin_max, bins).len(),
    ensures
        ({
            let shares = cover(bin_min, bin_max, bins);
            let n = shares.len() as int;
            let first = if bin_min > 0 {
                bin_min
            } else {
                0
            };
            &&& shares[k].bin == if k == 0 {
                first
            } else if k == 1 {
                first + n - 1
            } else {
                first + k - 1
            }
        }),
{
}

/// When a cell of the rectangle of bins `lo0..=hi0` by `lo1..=hi1` is added up: the corners
/// come first, then the rows between the first and the last one, then what is left.
pub open spec fn stage(lo0: int, hi0: int, lo1: int, hi1: int, at: (int, int)) -> int {
    if (at.0 == lo0 || at.0 == hi0) && (at.1 == lo1 || at.1 == hi1) {
        0
    } else if lo0 < at.0 < hi0 {
        1
    } else {
        2
    }
}

/// Of two cells of one stage, `a` comes before `b`: by row and then by column, but by column
/// and then by row in what is left of the first and the last row.
pub open spec fn comes_first(stage: int, a: (int, int), b: (int, int)) -> bool {
    if stage == 2 {
        a.1 < b.1 || a.1 == b.1 && a.0 < b.0
    } else {
        a.0 < b.0 || a.0 == b.0 && a.1 < b.1
    }
}

/// The order of the cells of a rectangle.
pub open spec fn is_in_order(lo0: int, hi0: int, lo1: int, hi1: int, cells: Seq<(int, int)>) -> bool {
    forall|i: int, j: int|
        0 <= i < j < cells.len() ==> {
            let s = stage(lo0, hi0, lo1, hi1, #[trigger] cells[i]);
            let t = stage(lo0, hi0, lo1, hi1, #[trigger] cells[j]);
            s < t || s == t && comes_first(s, cells[i], cells[j])
        }
}

proof fn lemma_order_joined(
    lo0: int,
    hi0: int,
    lo1: int,
    hi1: int,
    a: Seq<(int, int)>,
    b: Seq<(int, int)>,
)
    requires
        is_in_order(lo0, hi0, lo1, hi1, a),
        is_in_order(lo0, hi0, lo1, hi1, b),
        forall|i: int, j: int|
            0 <= i < a.len() && 0 <= j < b.len() ==> {
                let s = stage(lo0, hi0, lo1, hi1, #[trigger] a[i]);
                let t = stage(lo0, hi0, lo1, hi1, #[trigger] b[j]);
                s < t || s == t && comes_first(s, a[i], b[j])
            },
    ensures
        is_in_order(lo0, hi0, lo1, hi1, a + b),
{
    let c = a + b;
    assert forall|i: int, j: int| 0 <= i < j < c.len() implies {
        let s = stage(lo0, hi0, lo1, hi1, #[trigger] c[i]);
        let t = stage(lo0, hi0, lo1, hi1, #[trigger] c[j]);
        s < t || s == t && comes_first(s, c[i], c[j])
    } by {
        if j < a.len() {
            assert(c[i] == a[i] && c[j] == a[j]);
        } else if i < a.len() {
            assert(c[i] == a[i] && c[j] == b[j - a.len()]);
        } else {
            assert(c[i] == b[i - a.len()] && c[j] == b[j - a.len()]);
        }
    }
}

proof fn lemma_row_in_order(i: int, lo0: int, hi0: int, lo1: int, hi1: int)
    requires
        lo0 < i < hi0,
        lo1 <= hi1,
    ensures
        is_in_order(lo0, hi0, lo1, hi1, full_row(i, lo1, hi1)),
        forall|k: int|
            0 <= k < full_row(i, lo1, hi1).len() ==> (#[trigger] full_row(i, lo1, hi1)[k]).0 == i,
{
    let row = full_row(i, lo1, hi1);
    assert forall|k: int| 0 <= k < row.len() implies #[trigger] row[k] == (i, lo1 + k) by {
        if lo1 != hi1 {
            let inner = row_inner(i, lo1, hi1);
            if k == 0 {
            } else if k <= inner.len() {
                assert(row[k] == inner[k - 1]);
            } else {
                assert(row[k] == (i, hi1));
            }
        }
    }
}

proof fn lemma_middle_in_order(lo0: int, hi0: int, lo1: int, hi1: int, upto: int)
    requires
        lo1 <= hi1,
        upto <= hi0,
    ensures
        is_in_order(lo0, hi0, lo1, hi1, middle_rows(lo0, upto, lo1, hi1)),
        forall|k: int|
            0 <= k < middle_rows(lo0, upto, lo1, hi1).len() ==> lo0 < (#[trigger] middle_rows(
                lo0,
                upto,
                lo1,
                hi1,
            )[k]).0 < upto,
    decreases upto - lo0,
{
    if upto > lo0 + 1 {
        let a = middle_rows(lo0, upto - 1, lo1, hi1);
        let b = full_row(upto - 1, lo1, hi1);
        lemma_middle_in_order(lo0, hi0, lo1, hi1, upto - 1);
        lemma_row_in_order(upto - 1, lo0, hi0, lo1, hi1);
        lemma_order_joined(lo0, hi0, lo1, hi1, a, b);
        let c = middle_rows(lo0, upto, lo1, hi1);
        assert forall|k: int| 0 <= k < c.len() implies lo0 < (#[trigger] c[k]).0 < upto by {
            if k < a.len() {
                assert(c[k] == a[k]);
            } else {
                assert(c[k] == b[k - a.len()]);
            }
        }
    }
}

proof fn lemma_outer_in_order(lo0: int, hi0: int, lo1: int, hi1: int, upto: int)
    requires
        lo0 <= hi0,
        upto <= hi1,
    ensures
        is_in_order(lo0, hi0, lo1, hi1, outer_rows(lo0, hi0, lo1, upto)),
        forall|k: int|
            0 <= k < outer_rows(lo0, hi0, lo1, upto).len() ==> {
                let at = #[trigger] outer_rows(lo0, hi0, lo1, upto)[k];
                (at.0 == lo0 || at.0 == hi0) && lo1 < at.1 < upto
            },
    decreases upto - lo1,
{
    if upto > lo1 + 1 {
        let a = outer_rows(lo0, hi0, lo1, upto - 1);
        let b = if lo0 == hi0 {
            seq![(lo0, upto - 1)]
        } else {
            seq![(lo0, upto - 1), (hi0, upto - 1)]
        };
        lemma_outer_in_order(lo0, hi0, lo1, hi1, upto - 1);
        assert(is_in_order(lo0, hi0, lo1, hi1, b));
        lemma_order_joined(lo0, hi0, lo1, hi1, a, b);
        let c = outer_rows(lo0, hi0, lo1, upto);
        assert(c == a + b);
        assert forall|k: int| 0 <= k < c.len() implies {
            let at = #[trigger] c[k];
            (at.0 == lo0 || at.0 == hi0) && lo1 < at.1 < upto
        } by {
            if k < a.len() {
                assert(c[k] == a[k]);
            } else {
                assert(c[k] == b[k - a.len()]);
            }
        }
    }
}

/// The cells of a rectangle are added up in order, see [`stage`] and [`comes_first`].
pub proof fn lemma_order_of_cells(lo0: int, hi0: int, lo1: int, hi1: int)
    requires
        lo0 <= hi0,
        lo1 <= hi1,
    ensures
        is_in_order(lo0, hi0, lo1, hi1, cell_order(lo0, hi0, lo1, hi1)),
{
    let a = corners(lo0, hi0, lo1, hi1);
    let b = middle_rows(lo0, hi0, lo1, hi1);
    let c = outer_rows(lo0, hi0, lo1, hi1);
    lemma_middle_in_order(lo0, hi0, lo1, hi1, hi0);
    lemma_outer_in_order(lo0, hi0, lo1, hi1, hi1);
    assert(is_in_order(lo0, hi0, lo1, hi1, a));
    lemma_order_joined(lo0, hi0, lo1, hi1, a, b);
    let ab = a + b;
    assert forall|i: int| 0 <= i < ab.len() implies stage(lo0, hi0, lo1, hi1, #[trigger] ab[i])
        < 2 by {
        if i < a.len() {
            assert(ab[i] == a[i]);
        } else {
            assert(ab[i] == b[i - a.len()]);
        }
    }
    lemma_order_joined(lo0, hi0, lo1, hi1, ab, c);
}

} // verus!
