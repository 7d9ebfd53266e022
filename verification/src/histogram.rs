//! Histograms: which pixels fall into which bin, and what becomes of a bin.

use crate::accumulate::{
    bins_reduce_to, fold, folds_to, lemma_worth_of_a_bin, reduces_to, worth_of,
};
use crate::builder::{is_masked, mask_fits, masked_out};
use crate::grid::{flat, lemma_flat_bound, lemma_flat_cell, lemma_flat_inverse};
use crate::model::ErrorModel;
use vstd::prelude::*;

verus! {

/// The pixels among the first `n` whose cell is `b`, in ascending order.
pub open spec fn members(cells: Seq<Option<usize>>, b: int, n: int) -> Seq<usize>
    decreases n,
{
    if n <= 0 {
        Seq::empty()
    } else if cells[n - 1] is Some && cells[n - 1]->0 == b {
        members(cells, b, n - 1).push((n - 1) as usize)
    } else {
        members(cells, b, n - 1)
    }
}

/// The members of a bin are its pixels, each once.
pub proof fn lemma_members(cells: Seq<Option<usize>>, b: int, n: int)
    requires
        0 <= n <= cells.len(),
        n <= usize::MAX,
    ensures
        forall|k: int|
            0 <= k < members(cells, b, n).len() ==> (#[trigger] members(cells, b, n)[k]) < n
                && cells[members(cells, b, n)[k] as int] == Some(b as usize) && 0 <= b
                <= usize::MAX,
        forall|i: int|
            0 <= i < n && 0 <= b <= usize::MAX && #[trigger] cells[i] == Some(b as usize)
                ==> members(cells, b, n).contains(i as usize),
        forall|j: int, k: int|
            0 <= j < k < members(cells, b, n).len() ==> (#[trigger] members(cells, b, n)[j]) < (
            #[trigger] members(cells, b, n)[k]),
    decreases n,
{
    if n > 0 {
        lemma_members(cells, b, n - 1);
        let before = members(cells, b, n - 1);
        let all = members(cells, b, n);
        if cells[n - 1] is Some && cells[n - 1]->0 == b {
            assert(all[before.len() as int] == n - 1);
        }
        assert forall|i: int|
            0 <= i < n && 0 <= b <= usize::MAX && #[trigger] cells[i] == Some(
                b as usize,
            ) implies all.contains(i as usize) by {
            if i < n - 1 {
                assert(before.contains(i as usize));
                let k = choose|k: int| 0 <= k < before.len() && before[k] == i as usize;
                assert(all[k] == i as usize);
            } else {
                assert(all[before.len() as int] == i as usize);
            }
        }
    }
}

/// Sorts the pixels by their cell.
fn group(cells: &Vec<Option<usize>>, bins: usize) -> (out: Vec<Vec<usize>>)
    requires
        forall|i: int|
            0 <= i < cells@.len() && #[trigger] cells@[i] is Some ==> cells@[i]->0 < bins,
    ensures
        out@.len() == bins,
        forall|b: int|
            0 <= b < bins ==> (#[trigger] out@[b])@ == members(cells@, b, cells@.len() as int),
{
    let mut out: Vec<Vec<usize>> = Vec::new();
    let mut b: usize = 0;
    while b < bins
        invariant
            b <= bins,
            out@.len() == b,
            forall|i: int| 0 <= i < b ==> (#[trigger] out@[i])@ == Seq::<usize>::empty(),
        decreases bins - b,
    {
        out.push(Vec::new());
        b = b + 1;
    }
    let mut i: usize = 0;
    while i < cells.len()
        invariant
            i <= cells@.len(),
            out@.len() == bins,
            forall|k: int|
                0 <= k < cells@.len() && #[trigger] cells@[k] is Some ==> cells@[k]->0 < bins,
            forall|b: int|
                0 <= b < bins ==> (#[trigger] out@[b])@ == members(cells@, b, i as int),
        decreases cells@.len() - i,
    {
        if let Some(cell) = cells[i] {
            assert(cells@[i as int] is Some);
            out[cell].push(i);
        }
        i = i + 1;
    }
    out
}

/// The bin of a pixel on an axis of `npt` bins, if it falls into one.
pub open spec fn bin_of(bin: i64, npt: int) -> Option<usize> {
    if 0 <= bin < npt {
        Some(bin as usize)
    } else {
        None
    }
}

/// For each pixel its bin.
pub open spec fn bins_of(bins: Seq<i64>, npt: int) -> Seq<Option<usize>> {
    Seq::new(bins.len(), |i: int| bin_of(bins[i], npt))
}

/// The bin of every pixel on an axis of `npt` bins; none for a pixel off the axis.
pub fn pixel_bins(bins: &[i64], npt: usize) -> (cells: Vec<Option<usize>>)
    requires
        1 < npt <= i64::MAX,
    ensures
        cells@ == bins_of(bins@, npt as int),
{
    let mut cells: Vec<Option<usize>> = Vec::new();
    let mut i: usize = 0;
    while i < bins.len()
        invariant
            1 < npt <= i64::MAX,
            i <= bins@.len(),
            cells@.len() == i,
            forall|k: int| 0 <= k < i ==> #[trigger] cells@[k] == bin_of(bins@[k], npt as int),
        decreases bins@.len() - i,
    {
        let bin: i64 = bins[i];
        if bin < 0 || bin >= npt as i64 {
            cells.push(None);
        } else {
            cells.push(Some(bin as usize));
        }
        i = i + 1;
    }
    assert(cells@ =~= bins_of(bins@, npt as int));
    cells
}

/// The cell of a pixel on a grid of `bins0` by `bins1` cells, if it falls into one.
pub open spec fn cell_of(bin0: i64, bin1: i64, bins0: int, bins1: int) -> Option<usize> {
    if 0 <= bin0 < bins0 && 0 <= bin1 < bins1 {
        Some(flat(bin0 as int, bin1 as int, bins1) as usize)
    } else {
        None
    }
}

/// For each pixel its cell, none where the pixel is masked.
pub open spec fn cells_of(
    bin0: Seq<i64>,
    bin1: Seq<i64>,
    mask: Option<&[i8]>,
    bins0: int,
    bins1: int,
) -> Seq<Option<usize>> {
    Seq::new(
        bin0.len(),
        |i: int|
            if masked_out(mask, i) {
                None
            } else {
                cell_of(bin0[i], bin1[i], bins0, bins1)
            },
    )
}

/// The cell of every pixel on a grid; none for a pixel off the grid and for a masked one
/// (`mask[i] != 0`). `bin0` and `bin1` hold for each pixel its bin on either axis.
pub fn pixel_cells(
    bin0: &[i64],
    bin1: &[i64],
    mask: Option<&[i8]>,
    bins: (usize, usize),
) -> (cells: Vec<Option<usize>>)
    requires
        1 <= bins.0 <= i64::MAX,
        1 <= bins.1 <= i64::MAX,
        bins.0 * bins.1 <= usize::MAX,
        bin0@.len() == bin1@.len(),
        mask_fits(mask, bin0@.len() as int),
    ensures
        cells@ == cells_of(bin0@, bin1@, mask, bins.0 as int, bins.1 as int),
        forall|i: int|
            0 <= i < cells@.len() && #[trigger] cells@[i] is Some ==> cells@[i]->0 < bins.0
                * bins.1,
{
    let (bins0, bins1): (usize, usize) = bins;
    let mut cells: Vec<Option<usize>> = Vec::new();
    let ghost want = cells_of(bin0@, bin1@, mask, bins0 as int, bins1 as int);
    let mut i: usize = 0;
    while i < bin0.len()
        invariant
            1 <= bins0 <= i64::MAX,
            1 <= bins1 <= i64::MAX,
            bins0 * bins1 <= usize::MAX,
            bin0@.len() == bin1@.len(),
            mask_fits(mask, bin0@.len() as int),
            want == cells_of(bin0@, bin1@, mask, bins0 as int, bins1 as int),
            i <= bin0@.len(),
            cells@.len() == i,
            forall|k: int|
                0 <= k < i ==> #[trigger] cells@[k] == want[k] && (cells@[k] is Some
                    ==> cells@[k]->0 < bins0 * bins1),
        decreases bin0@.len() - i,
    {
        let b0: i64 = bin0[i];
        let b1: i64 = bin1[i];
        if is_masked(mask, i) || b0 < 0 || b0 >= bins0 as i64 || b1 < 0 || b1 >= bins1 as i64 {
            cells.push(None);
        } else {
            proof {
                lemma_flat_bound(b0 as int, b1 as int, bins0 as int, bins1 as int);
            }
            cells.push(Some(b0 as usize * bins1 + b1 as usize));
        }
        i = i + 1;
    }
    assert(cells@ =~= want);
    cells
}

/// The place in a radial-major grid of `bins0` by `bins1` cells of the cell that
/// stands at `t` in the azimuthal-major one.
pub open spec fn source_cell(t: int, bins0: int, bins1: int) -> int {
    flat(t % bins0, t / bins0, bins1)
}

/// The place of azimuthal cell `j`, radial cell `i` comes from cell `(i, j)`.
pub proof fn lemma_source_cell(i: int, j: int, bins0: int, bins1: int)
    requires
        0 <= i < bins0,
        0 <= j < bins1,
    ensures
        source_cell(flat(j, i, bins0), bins0, bins1) == flat(i, j, bins1),
{
    lemma_flat_inverse(j, i, bins0);
}

/// The value of [`source_cell`]: the bin of a two-dimensional matrix that output
/// cell `t` takes its contributions from.
pub fn transposed_bin(t: usize, bins0: usize, bins1: usize) -> (bin: usize)
    requires
        t < bins0 * bins1,
        bins0 * bins1 <= usize::MAX,
    ensures
        bin == source_cell(t as int, bins0 as int, bins1 as int),
        bin < bins0 * bins1,
{
    proof {
        let n = bins0 * bins1;
        assert(bins1 * bins0 == n) by (nonlinear_arith)
            requires
                n == bins0 * bins1,
        ;
        lemma_flat_cell(t as int, bins1 as int, bins0 as int);
        lemma_flat_bound(
            t as int % bins0 as int,
            t as int / bins0 as int,
            bins0 as int,
            bins1 as int,
        );
    }
    (t % bins0) * bins1 + (t / bins0)
}

/// Turning a grid over and back gives the same grid.
pub proof fn lemma_transpose_twice(t: int, bins0: int, bins1: int)
    requires
        0 <= t < bins0 * bins1,
        0 <= bins0,
        0 <= bins1,
    ensures
        0 <= source_cell(t, bins0, bins1) < bins0 * bins1,
        source_cell(source_cell(t, bins0, bins1), bins1, bins0) == t,
{
    assert(bins1 * bins0 == bins0 * bins1) by (nonlinear_arith);
    lemma_flat_cell(t, bins1, bins0);
    lemma_flat_bound(t % bins0, t / bins0, bins0, bins1);
    lemma_flat_inverse(t % bins0, t / bins0, bins1);
}

/// Reduces every bin.
pub fn reduce_1d<T: Copy, R, G: Fn(T) -> R>(acc: &Vec<T>, finish: &G) -> (out: Vec<R>)
    requires
        forall|t: T| #[trigger] finish.requires((t,)),
    ensures
        out@.len() == acc@.len(),
        forall|b: int|
            0 <= b < out@.len() ==> finish.ensures((acc@[b],), #[trigger] out@[b]),
{
    let mut out: Vec<R> = Vec::new();
    let mut b: usize = 0;
    while b < acc.len()
        invariant
            b <= acc@.len(),
            forall|t: T| #[trigger] finish.requires((t,)),
            out@.len() == b,
            forall|i: int| 0 <= i < b ==> finish.ensures((acc@[i],), #[trigger] out@[i]),
        decreases acc@.len() - b,
    {
        let t: T = acc[b];
        out.push(finish(t));
        b = b + 1;
    }
    out
}

/// Reduces every cell of a radial-major grid of `bins.0` by `bins.1` cells, the results
/// in azimuthal-major order.
pub fn reduce_2d<T: Copy, R, G: Fn(T) -> R>(acc: &Vec<T>, bins: (usize, usize), finish: &G) -> (out:
    Vec<R>)
    requires
        acc@.len() == bins.0 * bins.1,
        forall|t: T| #[trigger] finish.requires((t,)),
    ensures
        out@.len() == acc@.len(),
        forall|i: int|
            0 <= i < out@.len() ==> finish.ensures(
                (acc@[source_cell(i, bins.0 as int, bins.1 as int)],),
                #[trigger] out@[i],
            ),
{
    let n: usize = acc.len();
    let mut out: Vec<R> = Vec::new();
    let mut i: usize = 0;
    while i < n
        invariant
            i <= n == acc@.len() == bins.0 * bins.1,
            forall|t: T| #[trigger] finish.requires((t,)),
            out@.len() == i,
            forall|k: int|
                0 <= k < i ==> finish.ensures(
                    (acc@[source_cell(k, bins.0 as int, bins.1 as int)],),
                    #[trigger] out@[k],
                ),
        decreases n - i,
    {
        let t: T = acc[transposed_bin(i, bins.0, bins.1)];
        out.push(finish(t));
        i = i + 1;
    }
    out
}

/// Adds up the pixels of every bin.
fn fold_members<T: Copy, F: Fn(T, usize) -> T>(lists: &Vec<Vec<usize>>, start: T, step: &F) -> (acc:
    Vec<T>)
    requires
        forall|t: T, i: usize| #[trigger] step.requires((t, i)),
    ensures
        acc@.len() == lists@.len(),
        forall|b: int|
            0 <= b < acc@.len() ==> folds_to(*step, start, lists@[b]@, #[trigger] acc@[b]),
{
    let mut acc: Vec<T> = Vec::new();
    let mut b: usize = 0;
    while b < lists.len()
        invariant
            b <= lists@.len(),
            forall|t: T, i: usize| #[trigger] step.requires((t, i)),
            acc@.len() == b,
            forall|k: int|
                0 <= k < b ==> folds_to(*step, start, lists@[k]@, #[trigger] acc@[k]),
        decreases lists@.len() - b,
    {
        let sum: T = fold(start, &lists[b], step);
        acc.push(sum);
        b = b + 1;
    }
    acc
}

/// Bins the pixels: `bins` holds for each pixel the number of its bin on an axis of
/// `npt` bins. Every bin adds its pixels up in ascending order; pixels off the axis are
/// left out.
pub fn histogram_preproc<T: Copy, F: Fn(T, usize) -> T>(
    bins: &[i64],
    npt: usize,
    start: T,
    step: &F,
) -> (acc: Vec<T>)
    requires
        1 < npt <= i64::MAX,
        forall|t: T, i: usize| #[trigger] step.requires((t, i)),
    ensures
        acc@.len() == npt,
        forall|b: int|
            0 <= b < npt ==> folds_to(
                *step,
                start,
                members(bins_of(bins@, npt as int), b, bins@.len() as int),
                #[trigger] acc@[b],
            ),
{
    let cells: Vec<Option<usize>> = pixel_bins(bins, npt);
    fold_members(&group(&cells, npt), start, step)
}

/// The histogram of the pixels on an axis: the sums of [`histogram_preproc`], reduced.
pub fn histogram1d<T: Copy, R, F: Fn(T, usize) -> T, G: Fn(T) -> R>(
    bins: &[i64],
    npt: usize,
    start: T,
    step: F,
    finish: G,
) -> (out: Vec<R>)
    requires
        1 < npt <= i64::MAX,
        forall|t: T, i: usize| #[trigger] step.requires((t, i)),
        forall|t: T| #[trigger] finish.requires((t,)),
    ensures
        out@.len() == npt,
        forall|b: int|
            0 <= b < npt ==> reduces_to(
                step,
                finish,
                start,
                members(bins_of(bins@, npt as int), b, bins@.len() as int),
                #[trigger] out@[b],
            ),
        bins_reduce_to(
            step,
            finish,
            start,
            pixels_in_bins(bins@, npt as int),
            npt as int,
            out@,
        ),
{
    let acc: Vec<T> = histogram_preproc(bins, npt, start, &step);
    let out: Vec<R> = reduce_1d(&acc, &finish);
    proof {
        assert forall|b: int| 0 <= b < npt implies reduces_to(
            step,
            finish,
            start,
            members(bins_of(bins@, npt as int), b, bins@.len() as int),
            #[trigger] out@[b],
        ) by {
            assert(finish.ensures((acc@[b],), out@[b]));
        }
    }
    out
}

/// The histogram of the pixels on a grid of `bins.0` by `bins.1` cells: `bin0` and
/// `bin1` hold for each pixel its bin on either axis. Every cell adds its pixels up in
/// ascending order and is reduced, the cells in azimuthal-major order; pixels off the
/// grid and masked pixels (`mask[i] != 0`) are left out.
pub fn histogram2d<T: Copy, R, F: Fn(T, usize) -> T, G: Fn(T) -> R>(
    bin0: &[i64],
    bin1: &[i64],
    mask: Option<&[i8]>,
    bins: (usize, usize),
    start: T,
    step: F,
    finish: G,
) -> (out: Vec<R>)
    requires
        1 <= bins.0 <= i64::MAX,
        1 <= bins.1 <= i64::MAX,
        bins.0 * bins.1 <= usize::MAX,
        bin0@.len() == bin1@.len(),
        mask_fits(mask, bin0@.len() as int),
        forall|t: T, i: usize| #[trigger] step.requires((t, i)),
        forall|t: T| #[trigger] finish.requires((t,)),
    ensures
        out@.len() == bins.0 * bins.1,
        forall|i: int|
            0 <= i < out@.len() ==> reduces_to(
                step,
                finish,
                start,
                members(
                    cells_of(bin0@, bin1@, mask, bins.0 as int, bins.1 as int),
                    source_cell(i, bins.0 as int, bins.1 as int),
                    bin0@.len() as int,
                ),
                #[trigger] out@[i],
            ),
        cells_reduce_to(
            step,
            finish,
            start,
            pixels_in_cells(bin0@, bin1@, mask, (bins.0 as int, bins.1 as int)),
            (bins.0 as int, bins.1 as int),
            out@,
        ),
{
    let cells: Vec<Option<usize>> = pixel_cells(bin0, bin1, mask, bins);
    let lists: Vec<Vec<usize>> = group(&cells, bins.0 * bins.1);
    let acc: Vec<T> = fold_members(&lists, start, &step);
    let out: Vec<R> = reduce_2d(&acc, bins, &finish);
    proof {
        let (b0, b1) = (bins.0 as int, bins.1 as int);
        assert forall|i: int| 0 <= i < out@.len() implies reduces_to(
            step,
            finish,
            start,
            members(
                cells_of(bin0@, bin1@, mask, b0, b1),
                source_cell(i, b0, b1),
                bin0@.len() as int,
            ),
            #[trigger] out@[i],
        ) by {
            let b = source_cell(i, b0, b1);
            lemma_transpose_twice(i, b0, b1);
            assert(lists@[b]@ == members(
                cells_of(bin0@, bin1@, mask, b0, b1),
                b,
                bin0@.len() as int,
            ));
            assert(folds_to(step, start, lists@[b]@, acc@[b]));
            assert(finish.ensures((acc@[b],), out@[i]));
        }
    }
    out
}

/// What is written for a bin.
#[derive(Debug, Clone, Copy, PartialEq, Eq, Structural)]
pub enum Fill {
    /// The value computed from the sums of the bin.
    Value,
    /// The fill value for bins without data.
    Empty,
    /// Zero.
    Zero,
}

/// What is written for the intensity of a bin and for its two error estimates.
#[derive(Debug, Clone, Copy, PartialEq, Eq, Structural)]
pub struct Outcome {
    /// The average intensity.
    pub intensity: Fill,
    /// The standard deviation and the standard error.
    pub errors: Fill,
}

/// The value of [`outcome_by_norm`].
pub open spec fn filled_by_norm(has_norm: bool, do_variance: bool) -> Outcome {
    Outcome {
        intensity: if has_norm {
            Fill::Value
        } else {
            Fill::Empty
        },
        errors: if has_norm && do_variance {
            Fill::Value
        } else {
            Fill::Empty
        },
    }
}

/// The value of [`outcome_by_count`].
pub open spec fn filled_by_count(has_count: bool, do_variance: bool) -> Outcome {
    let fill = if has_count {
        Fill::Value
    } else {
        Fill::Empty
    };
    Outcome {
        intensity: fill,
        errors: if do_variance {
            fill
        } else {
            Fill::Zero
        },
    }
}

/// The outcome of a bin of a one-dimensional histogram or of a sparse matrix: the bin
/// has data where its squared normalizations add up to more than zero. Without an
/// error model the error estimates are empty.
pub fn outcome_by_norm(has_norm: bool, do_variance: bool) -> (o: Outcome)
    ensures
        o.intensity == if has_norm {
            Fill::Value
        } else {
            Fill::Empty
        },
        o.errors == if has_norm && do_variance {
            Fill::Value
        } else {
            Fill::Empty
        },
        o == filled_by_norm(has_norm, do_variance),
{
    if has_norm {
        Outcome {
            intensity: Fill::Value,
            errors: if do_variance {
                Fill::Value
            } else {
                Fill::Empty
            },
        }
    } else {
        Outcome { intensity: Fill::Empty, errors: Fill::Empty }
    }
}

/// The outcome of a cell of a two-dimensional histogram or of a bin of a split one:
/// the bin has data where its count is not zero. Without an error model the error
/// estimates stay zero.
pub fn outcome_by_count(has_count: bool, do_variance: bool) -> (o: Outcome)
    ensures
        o.intensity == if has_count {
            Fill::Value
        } else {
            Fill::Empty
        },
        o.errors == if !do_variance {
            Fill::Zero
        } else if has_count {
            Fill::Value
        } else {
            Fill::Empty
        },
        o == filled_by_count(has_count, do_variance),
{
    let intensity: Fill = if has_count {
        Fill::Value
    } else {
        Fill::Empty
    };
    if do_variance {
        Outcome { intensity, errors: intensity }
    } else {
        Outcome { intensity, errors: Fill::Zero }
    }
}

/// What a contribution does to the running variance of a bin.
#[derive(Debug, Clone, Copy, PartialEq, Eq, Structural)]
pub enum WelfordStep {
    /// It is the first one and starts the sums.
    Seed,
    /// It updates the sums.
    Update,
    /// It is passed over.
    Skip,
}

/// What a contribution does to the running variance of a bin. `started` tells whether
/// the bin has data, `zero_norm` whether the contribution's normalization is zero.
/// Engines that are `guarded` pass over such a contribution unless it is the first.
pub open spec fn step_of(started: bool, zero_norm: bool, guarded: bool) -> WelfordStep {
    if !started {
        WelfordStep::Seed
    } else if zero_norm && guarded {
        WelfordStep::Skip
    } else {
        WelfordStep::Update
    }
}

/// The value of [`step_of`].
pub fn welford_step(started: bool, zero_norm: bool, guarded: bool) -> (s: WelfordStep)
    ensures
        s == step_of(started, zero_norm, guarded),
{
    if !started {
        WelfordStep::Seed
    } else if zero_norm && guarded {
        WelfordStep::Skip
    } else {
        WelfordStep::Update
    }
}

/// What a contribution does to the sums of a bin. Its count is added in any case.
#[derive(Debug, Clone, Copy, PartialEq, Eq, Structural)]
pub enum Contribution {
    /// Signal and normalization are added, and the variance with an error model.
    Sums {
        /// There is an error model.
        variance: bool,
    },
    /// The variance is that of the spread within the bin.
    Spread(WelfordStep),
}

/// What a contribution does to the sums of a bin under an error model, see [`step_of`].
pub open spec fn contribution_of(
    em: ErrorModel,
    started: bool,
    zero_norm: bool,
    guarded: bool,
) -> Contribution {
    if em == ErrorModel::Azimuthal {
        Contribution::Spread(step_of(started, zero_norm, guarded))
    } else {
        Contribution::Sums { variance: em != ErrorModel::No }
    }
}

/// The value of [`contribution_of`].
pub fn contribution(em: ErrorModel, started: bool, zero_norm: bool, guarded: bool) -> (c:
    Contribution)
    ensures
        c == contribution_of(em, started, zero_norm, guarded),
{
    match em {
        ErrorModel::Azimuthal => Contribution::Spread(welford_step(started, zero_norm, guarded)),
        _ => Contribution::Sums { variance: em.do_variance() },
    }
}

/// A pixel belongs to the bin with its number, and to no other.
pub proof fn lemma_pixel_in_bin(bins: Seq<i64>, npt: int, b: int, i: int)
    requires
        1 < npt <= i64::MAX,
        npt <= usize::MAX,
        bins.len() <= usize::MAX,
        0 <= b < npt,
        0 <= i < bins.len(),
    ensures
        members(bins_of(bins, npt), b, bins.len() as int).contains(i as usize) <==> bins[i] == b,
{
    let cells = bins_of(bins, npt);
    let list = members(cells, b, bins.len() as int);
    lemma_members(cells, b, bins.len() as int);
    assert(cells[i] == bin_of(bins[i], npt));
    if list.contains(i as usize) {
        let k = choose|k: int| 0 <= k < list.len() && list[k] == i as usize;
        assert(cells[list[k] as int] == Some(b as usize));
    }
}

/// A pixel belongs to the output cell at `t` where `t` counts whole rows of radial bins,
/// one for each azimuthal bin before the pixel's own, and within the row the radial bins
/// before its own. A masked pixel belongs to none.
pub proof fn lemma_pixel_in_cell(
    bin0: Seq<i64>,
    bin1: Seq<i64>,
    mask: Option<&[i8]>,
    bins0: int,
    bins1: int,
    t: int,
    i: int,
)
    requires
        1 <= bins0 <= i64::MAX,
        1 <= bins1 <= i64::MAX,
        bins0 * bins1 <= usize::MAX,
        bin0.len() == bin1.len() <= usize::MAX,
        0 <= t < bins0 * bins1,
        0 <= i < bin0.len(),
    ensures
        members(
            cells_of(bin0, bin1, mask, bins0, bins1),
            source_cell(t, bins0, bins1),
            bin0.len() as int,
        ).contains(i as usize) <==> !(mask is Some && (mask->0)@[i] != 0) && 0 <= bin0[i] < bins0
            && 0 <= bin1[i] < bins1 && t == bin1[i] * bins0 + bin0[i],
{
    let cells = cells_of(bin0, bin1, mask, bins0, bins1);
    let b = source_cell(t, bins0, bins1);
    let list = members(cells, b, bin0.len() as int);
    lemma_members(cells, b, bin0.len() as int);
    assert(bins1 * bins0 == bins0 * bins1) by (nonlinear_arith);
    lemma_transpose_twice(t, bins0, bins1);
    lemma_flat_cell(t, bins1, bins0);
    lemma_flat_inverse(t % bins0, t / bins0, bins1);
    lemma_flat_bound(t % bins0, t / bins0, bins0, bins1);
    assert(cells[i] == if masked_out(mask, i) {
        None
    } else {
        cell_of(bin0[i], bin1[i], bins0, bins1)
    });
    if 0 <= bin0[i] < bins0 && 0 <= bin1[i] < bins1 {
        lemma_flat_bound(bin0[i] as int, bin1[i] as int, bins0, bins1);
        lemma_flat_inverse(bin0[i] as int, bin1[i] as int, bins1);
        lemma_flat_inverse(bin1[i] as int, bin0[i] as int, bins0);
    }
    if list.contains(i as usize) {
        let k = choose|k: int| 0 <= k < list.len() && list[k] == i as usize;
        assert(cells[list[k] as int] == Some(b as usize));
    }
}

/// The spread within a bin is started once, by the first contribution, and a contribution
/// of zero weight is passed over only where it is guarded against and is not the first.
/// Without it every contribution is summed, the variance where there is an error model.
pub proof fn lemma_contributions(em: ErrorModel, started: bool, zero_norm: bool, guarded: bool)
    ensures
        ({
            let c = contribution_of(em, started, zero_norm, guarded);
            &&& c == Contribution::Spread(WelfordStep::Seed) <==> em == ErrorModel::Azimuthal
                && !started
            &&& c == Contribution::Spread(WelfordStep::Skip) <==> em == ErrorModel::Azimuthal
                && started && zero_norm && guarded
            &&& c == (Contribution::Sums { variance: false }) <==> em == ErrorModel::No
            &&& em == ErrorModel::Poisson || em == ErrorModel::Variance || em == ErrorModel::Hybrid
                ==> c == (Contribution::Sums { variance: true })
        }),
{
}

/// Values are written where there is data, and values of the errors where there is an error
/// model too. A bin without data is empty in both ways of telling; without an error model
/// the errors are empty in one way and zero in the other, whether there is data or not.
pub proof fn lemma_outcomes(has_data: bool, do_variance: bool)
    ensures
        ({
            let a = filled_by_norm(has_data, do_variance);
            let b = filled_by_count(has_data, do_variance);
            &&& a.intensity == b.intensity
            &&& a.intensity == Fill::Value <==> has_data
            &&& a.intensity == Fill::Empty <==> !has_data
            &&& a.errors == Fill::Value <==> has_data && do_variance
            &&& b.errors == Fill::Value <==> has_data && do_variance
            &&& a.errors != Fill::Zero
            &&& b.errors == Fill::Zero <==> !do_variance
        }),
{
}

/// `out` holds for each cell of a grid what its items are reduced to; the items are those of
/// a radial-major grid, the results stand in azimuthal-major order.
pub open spec fn cells_reduce_to<T, C, R, F: Fn(T, C) -> T, G: Fn(T) -> R>(
    step: F,
    finish: G,
    start: T,
    items: spec_fn(int) -> Seq<C>,
    bins: (int, int),
    out: Seq<R>,
) -> bool {
    bins_reduce_to(
        step,
        finish,
        start,
        |t: int| items(source_cell(t, bins.0, bins.1)),
        bins.0 * bins.1,
        out,
    )
}

/// The result of the cell at radial bin `i` and azimuthal bin `j` stands after `j` rows of
/// radial bins, and its items after `i` rows of azimuthal bins.
pub proof fn lemma_result_of_a_cell<T, C, R, F: Fn(T, C) -> T, G: Fn(T) -> R>(
    step: F,
    finish: G,
    start: T,
    items: spec_fn(int) -> Seq<C>,
    bins: (int, int),
    out: Seq<R>,
    val: spec_fn(T) -> int,
    item: spec_fn(C) -> int,
    result: spec_fn(R) -> int,
    i: int,
    j: int,
)
    requires
        cells_reduce_to(step, finish, start, items, bins, out),
        val(start) == 0,
        forall|t: T, c: C, r: T| #[trigger] step.ensures((t, c), r) ==> val(r) == val(t) + item(c),
        forall|t: T, r: R| #[trigger] finish.ensures((t,), r) ==> result(r) == val(t),
        0 <= i < bins.0,
        0 <= j < bins.1,
    ensures
        out.len() == bins.0 * bins.1,
        0 <= j * bins.0 + i < out.len(),
        result(out[j * bins.0 + i]) == worth_of(items(i * bins.1 + j), item),
{
    assert(bins.1 * bins.0 == bins.0 * bins.1) by (nonlinear_arith);
    lemma_flat_bound(j, i, bins.1, bins.0);
    lemma_source_cell(i, j, bins.0, bins.1);
    lemma_worth_of_a_bin(
        step,
        finish,
        start,
        |t: int| items(source_cell(t, bins.0, bins.1)),
        bins.0 * bins.1,
        out,
        val,
        item,
        result,
        j * bins.0 + i,
    );
}

/// The pixels of each bin of an axis.
pub open spec fn pixels_in_bins(bins: Seq<i64>, npt: int) -> spec_fn(int) -> Seq<usize> {
    |b: int| members(bins_of(bins, npt), b, bins.len() as int)
}

/// The pixels of each cell of a grid.
pub open spec fn pixels_in_cells(
    bin0: Seq<i64>,
    bin1: Seq<i64>,
    mask: Option<&[i8]>,
    bins: (int, int),
) -> spec_fn(int) -> Seq<usize> {
    |b: int| members(cells_of(bin0, bin1, mask, bins.0, bins.1), b, bin0.len() as int)
}

/// A bin of an axis has the pixels with its number, each once; a cell of a grid has those
/// with its two numbers that are not masked.
pub proof fn lemma_pixels_in_bins(
    bin0: Seq<i64>,
    bin1: Seq<i64>,
    mask: Option<&[i8]>,
    bins: (int, int),
    i: int,
    j: int,
    p: int,
)
    requires
        1 < bins.0 <= i64::MAX,
        1 <= bins.1 <= i64::MAX,
        bins.0 * bins.1 <= usize::MAX,
        bins.0 <= usize::MAX,
        bin0.len() == bin1.len() <= usize::MAX,
        0 <= i < bins.0,
        0 <= j < bins.1,
        0 <= p < bin0.len(),
    ensures
        pixels_in_bins(bin0, bins.0)(i).contains(p as usize) <==> bin0[p] == i,
        pixels_in_cells(bin0, bin1, mask, bins)(i * bins.1 + j).contains(p as usize) <==> !(mask is Some
            && (mask->0)@[p] != 0) && bin0[p] == i && bin1[p] == j,
        pixels_in_bins(bin0, bins.0)(i).no_duplicates(),
        pixels_in_cells(bin0, bin1, mask, bins)(i * bins.1 + j).no_duplicates(),
{
    let t = j * bins.0 + i;
    assert(bins.1 * bins.0 == bins.0 * bins.1) by (nonlinear_arith);
    lemma_flat_bound(j, i, bins.1, bins.0);
    lemma_source_cell(i, j, bins.0, bins.1);
    lemma_flat_inverse(j, i, bins.0);
    lemma_pixel_in_bin(bin0, bins.0, i, p);
    lemma_pixel_in_cell(bin0, bin1, mask, bins.0, bins.1, t, p);
    if 0 <= bin0[p] < bins.0 && 0 <= bin1[p] < bins.1 {
        lemma_flat_inverse(bin1[p] as int, bin0[p] as int, bins.0);
    }
    let n = bin0.len() as int;
    lemma_members(bins_of(bin0, bins.0), i, n);
    lemma_members(cells_of(bin0, bin1, mask, bins.0, bins.1), i * bins.1 + j, n);
}

} // verus!
