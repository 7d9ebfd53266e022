//! Adding preprocessed rows up: what the sparse engines add to the sums of a bin. The
//! arithmetic of numbers is left to the caller; here it is settled which numbers are
//! multiplied and added.

use crate::accumulate::{folds_to, worth_of};
use crate::combine::Sums;
use crate::double;
use crate::histogram::{contribution, contribution_of, step_of, Contribution, WelfordStep};
use crate::ieee;
use crate::ieee::{magnitude, zero};
use crate::integrate::{
    csc_reduce, csr_integrate1d, lemma_columns_add_rows, lut_integrate1d, of_valid, scattered_valid,
    takes_part, taking_part,
};
use crate::model::{internal_preproc_variance, internal_variance, ErrorModel};
use crate::sparse::{
    active, ascending, counts, is_table_of, lemma_table_gathers_as_matrix, picked, widest, Csc, Csr,
    Entry, Lut,
};
use vstd::prelude::*;

verus! {

/// A preprocessed pixel, in single precision.
#[derive(Debug, Clone, Copy, PartialEq, Eq, Structural)]
pub struct PrepRow {
    /// Signal.
    pub signal: u32,
    /// Variance.
    pub variance: u32,
    /// Normalization.
    pub norm: u32,
    /// Count.
    pub count: u32,
}

/// The row of pixel `p` in a list of rows, four numbers each.
pub open spec fn row_at(prep: Seq<u32>, p: int) -> PrepRow {
    PrepRow {
        signal: prep[4 * p],
        variance: prep[4 * p + 1],
        norm: prep[4 * p + 2],
        count: prep[4 * p + 3],
    }
}

/// The value of [`row_at`].
pub fn row_of(prep: &[u32], p: usize) -> (row: PrepRow)
    requires
        p < prep@.len() / 4,
    ensures
        row == row_at(prep@, p as int),
{
    let n: usize = prep.len();
    assert(4 * p + 4 <= n);
    PrepRow {
        signal: prep[4 * p],
        variance: prep[4 * p + 1],
        norm: prep[4 * p + 2],
        count: prep[4 * p + 3],
    }
}

/// A coefficient and the row that it weighs, in double precision.
#[derive(Debug, Clone, Copy, PartialEq, Eq, Structural)]
pub struct Wide {
    /// The coefficient.
    pub coef: u64,
    /// Signal.
    pub signal: u64,
    /// Variance.
    pub variance: u64,
    /// Normalization.
    pub norm: u64,
    /// Count.
    pub count: u64,
}

/// A contribution to the spread within a bin.
#[derive(Debug, Clone, Copy, PartialEq, Eq, Structural)]
pub struct Weighed {
    /// Its weight: the coefficient times the normalization.
    pub weight: u64,
    /// The coefficient times the signal.
    pub signal: u64,
    /// The intensity.
    pub intensity: u64,
}

/// The sums of a bin without contributions.
pub open spec fn no_sums() -> Sums {
    Sums { signal: 0, norm: 0, count: 0, variance: 0, norm2: 0 }
}

/// The bin has data: its squared normalizations are not zero or less.
pub open spec fn has_data(sums: Sums) -> bool {
    double::is_nan(sums.norm2) || double::gt(sums.norm2, double::ZERO)
}

/// The arithmetic of adding rows up: a number in double precision, products and sums of
/// two numbers, the intensity of a row, and a step of the spread within a bin.
pub struct RowMath<W, M, P, B, A> {
    /// A single-precision number in double precision.
    pub widen: W,
    /// The product.
    pub times: M,
    /// The sum.
    pub plus: P,
    /// The intensity of a row.
    pub intensity: B,
    /// A step of the spread within a bin; the count is not looked at.
    pub spread: A,
}

impl<
    W: Fn(u32) -> u64,
    M: Fn(u64, u64) -> u64,
    P: Fn(u64, u64) -> u64,
    B: Fn(PrepRow) -> u64,
    A: Fn(Sums, WelfordStep, Weighed) -> Sums,
> RowMath<W, M, P, B, A> {
    /// The arithmetic takes any numbers.
    pub open spec fn total(&self) -> bool {
        &&& forall|x: u32| #[trigger] self.widen.requires((x,))
        &&& forall|x: u64, y: u64| #[trigger] self.times.requires((x, y))
        &&& forall|x: u64, y: u64| #[trigger] self.plus.requires((x, y))
        &&& forall|r: PrepRow| #[trigger] self.intensity.requires((r,))
        &&& forall|s: Sums, k: WelfordStep, x: Weighed| #[trigger] self.spread.requires((s, k, x))
    }

    /// `wide` is the coefficient and the row in double precision.
    pub open spec fn is_widened(&self, coef: u32, row: PrepRow, wide: Wide) -> bool {
        &&& self.widen.ensures((coef,), wide.coef)
        &&& self.widen.ensures((row.signal,), wide.signal)
        &&& self.widen.ensures((row.variance,), wide.variance)
        &&& self.widen.ensures((row.norm,), wide.norm)
        &&& self.widen.ensures((row.count,), wide.count)
    }

    /// `out` is `sum` and the product of `x` and `y`.
    pub open spec fn adds_product(&self, sum: u64, x: u64, y: u64, out: u64) -> bool {
        exists|p: u64| #[trigger]
            self.times.ensures((x, y), p) && self.plus.ensures((sum, p), out)
    }

    /// `out` is the variance `sum` and `y`, weighed by the square of `x`.
    pub open spec fn adds_square(&self, sum: u64, x: u64, y: u64, out: u64) -> bool {
        exists|q: u64| #[trigger]
            self.times.ensures((x, x), q) && self.adds_product(sum, q, y, out)
    }

    /// `norm` and `norm2` are the normalizations of `sums` and the weighed one of `wide`.
    pub open spec fn adds_norm(&self, sums: Sums, wide: Wide, norm: u64, norm2: u64) -> bool {
        exists|w: u64| #[trigger]
            self.times.ensures((wide.coef, wide.norm), w) && self.plus.ensures(
                (sums.norm, w),
                norm,
            ) && self.adds_product(sums.norm2, w, w, norm2)
    }

    /// `x` is the contribution of a row to the spread within a bin.
    pub open spec fn is_weighed(&self, wide: Wide, row: PrepRow, x: Weighed) -> bool {
        &&& self.times.ensures((wide.coef, wide.norm), x.weight)
        &&& self.times.ensures((wide.coef, wide.signal), x.signal)
        &&& self.intensity.ensures((row,), x.intensity)
    }

    /// `out` holds the sums after a step of the spread, whatever its count.
    pub open spec fn spreads(
        &self,
        sums: Sums,
        step: WelfordStep,
        wide: Wide,
        row: PrepRow,
        out: Sums,
    ) -> bool {
        exists|x: Weighed, s: Sums| #[trigger]
            self.is_weighed(wide, row, x) && #[trigger] self.spread.ensures((sums, step, x), s)
                && out == (Sums { count: out.count, ..s })
    }

    /// `out` is `sums` with a row added that is given in double precision too.
    pub open spec fn adds_wide(
        &self,
        em: ErrorModel,
        guarded: bool,
        sums: Sums,
        wide: Wide,
        row: PrepRow,
        out: Sums,
    ) -> bool {
        &&& self.adds_product(sums.count, wide.coef, wide.count, out.count)
        &&& match contribution_of(em, has_data(sums), magnitude(row.norm) == 0, guarded) {
            Contribution::Sums { variance } => {
                &&& self.adds_product(sums.signal, wide.coef, wide.signal, out.signal)
                &&& if variance {
                    self.adds_square(sums.variance, wide.coef, wide.variance, out.variance)
                } else {
                    out.variance == sums.variance
                }
                &&& self.adds_norm(sums, wide, out.norm, out.norm2)
            },
            Contribution::Spread(step) => self.spreads(sums, step, wide, row, out),
        }
    }

    /// `out` is `sums` with a row added that is weighed by a coefficient. Under the
    /// azimuthal error model a `guarded` engine passes over a row without normalization
    /// unless it is the first.
    pub open spec fn adds_row(
        &self,
        em: ErrorModel,
        guarded: bool,
        sums: Sums,
        coef: u32,
        row: PrepRow,
        out: Sums,
    ) -> bool {
        exists|wide: Wide| #[trigger]
            self.is_widened(coef, row, wide) && self.adds_wide(em, guarded, sums, wide, row, out)
    }

    /// Adds the product of two numbers.
    fn add_product(&self, sum: u64, x: u64, y: u64) -> (out: u64)
        requires
            self.total(),
        ensures
            self.adds_product(sum, x, y, out),
    {
        let p: u64 = (self.times)(x, y);
        (self.plus)(sum, p)
    }

    /// Adds a row that is weighed by a coefficient to the sums of a bin.
    pub fn add_row(&self, em: ErrorModel, guarded: bool, sums: Sums, coef: u32, row: PrepRow) -> (out:
        Sums)
        requires
            self.total(),
        ensures
            self.adds_row(em, guarded, sums, coef, row, out),
    {
        let wide: Wide = Wide {
            coef: (self.widen)(coef),
            signal: (self.widen)(row.signal),
            variance: (self.widen)(row.variance),
            norm: (self.widen)(row.norm),
            count: (self.widen)(row.count),
        };
        assert(self.is_widened(coef, row, wide));
        let count: u64 = self.add_product(sums.count, wide.coef, wide.count);
        let started: bool = double::nan(sums.norm2) || double::greater(sums.norm2, double::ZERO);
        let out: Sums = match contribution(em, started, zero(row.norm), guarded) {
            Contribution::Sums { variance } => {
                let signal: u64 = self.add_product(sums.signal, wide.coef, wide.signal);
                let spread: u64 = if variance {
                    let q: u64 = (self.times)(wide.coef, wide.coef);
                    self.add_product(sums.variance, q, wide.variance)
                } else {
                    sums.variance
                };
                let w: u64 = (self.times)(wide.coef, wide.norm);
                let norm: u64 = (self.plus)(sums.norm, w);
                let norm2: u64 = self.add_product(sums.norm2, w, w);
                Sums { signal, norm, count, variance: spread, norm2 }
            },
            Contribution::Spread(step) => {
                let x: Weighed = Weighed {
                    weight: (self.times)(wide.coef, wide.norm),
                    signal: (self.times)(wide.coef, wide.signal),
                    intensity: (self.intensity)(row),
                };
                assert(self.is_weighed(wide, row, x));
                let s: Sums = (self.spread)(sums, step, x);
                Sums { count, ..s }
            },
        };
        assert(self.adds_wide(em, guarded, sums, wide, row, out));
        out
    }

    /// `end` is what the rows of `items` add up to, one after the other: each item names
    /// a pixel and the coefficient that weighs its row.
    pub open spec fn sums_rows(
        &self,
        prep: Seq<u32>,
        em: ErrorModel,
        guarded: bool,
        items: Seq<Entry>,
        end: Sums,
    ) -> bool
        decreases items.len(),
    {
        if items.len() == 0 {
            end == no_sums()
        } else {
            exists|mid: Sums|
                self.sums_rows(prep, em, guarded, items.drop_last(), mid)
                    && #[trigger] self.adds_row(
                    em,
                    guarded,
                    mid,
                    items.last().1,
                    row_at(prep, items.last().0 as int),
                    end,
                )
        }
    }

    /// What a step folds that adds a row, the rows add up to.
    proof fn lemma_fold_adds_rows<F: Fn(Sums, Entry) -> Sums>(
        &self,
        prep: Seq<u32>,
        em: ErrorModel,
        guarded: bool,
        step: F,
        items: Seq<Entry>,
        end: Sums,
    )
        requires
            names_rows(items, prep.len() as int / 4),
            forall|t: Sums, e: Entry, r: Sums|
                names_row(e, prep.len() as int / 4) && #[trigger] step.ensures((t, e), r)
                    ==> self.adds_row(em, guarded, t, e.1, row_at(prep, e.0 as int), r),
            folds_to(step, no_sums(), items, end),
        ensures
            self.sums_rows(prep, em, guarded, items, end),
        decreases items.len(),
    {
        if items.len() > 0 {
            let before = items.drop_last();
            let mid = choose|mid: Sums|
                folds_to(step, no_sums(), before, mid) && #[trigger] step.ensures(
                    (mid, items.last()),
                    end,
                );
            assert(names_row(items[items.len() - 1], prep.len() as int / 4));
            assert forall|k: int| 0 <= k < before.len() implies #[trigger] names_row(
                before[k],
                prep.len() as int / 4,
            ) by {
                assert(names_row(items[k], prep.len() as int / 4));
            }
            self.lemma_fold_adds_rows(prep, em, guarded, step, before, mid);
        }
    }

    /// `s` holds the sums of bin `b` of a matrix.
    pub open spec fn is_csr_bin(
        &self,
        prep: Seq<u32>,
        em: ErrorModel,
        csr: Csr,
        b: int,
        s: Sums,
    ) -> bool {
        self.sums_rows(prep, em, true, active(csr.row(b)), s)
    }

    /// `s` holds the sums of bin `b` of a table.
    pub open spec fn is_lut_bin(
        &self,
        prep: Seq<u32>,
        em: ErrorModel,
        lut: Lut,
        b: int,
        s: Sums,
    ) -> bool {
        self.sums_rows(prep, em, false, active(lut.row(b)), s)
    }

    /// `s` holds the sums of bin `b` of a transposed matrix.
    pub open spec fn is_csc_bin(
        &self,
        prep: Seq<u32>,
        em: ErrorModel,
        csc: Csc,
        b: int,
        s: Sums,
    ) -> bool {
        self.sums_rows(
            internal_prep(prep, em),
            em,
            false,
            scattered_valid(csc, counting(prep), b, prep.len() as int / 4),
            s,
        )
    }

    /// The sums of every bin of a matrix: each bin adds the rows of its entries up, those
    /// of coefficient zero left out.
    pub fn csr_sums(&self, csr: &Csr, prep: &[u32], em: ErrorModel) -> (out: Vec<Sums>)
        requires
            self.total(),
            csr.wf(csr.indptr@.len() - 1),
            forall|b: int|
                0 <= b < csr.indptr@.len() - 1 ==> names_rows(
                    active(#[trigger] csr.row(b)),
                    prep@.len() as int / 4,
                ),
        ensures
            out@.len() == csr.indptr@.len() - 1,
            forall|b: int|
                0 <= b < out@.len() ==> self.sums_rows(
                    prep@,
                    em,
                    true,
                    active(csr.row(b)),
                    #[trigger] out@[b],
                ),
            forall|b: int|
                0 <= b < out@.len() ==> self.is_csr_bin(prep@, em, *csr, b, #[trigger] out@[b]),
    {
        let n: usize = prep.len() / 4;
        let step = |t: Sums, e: Entry| -> (r: Sums)
            ensures
                names_row(e, n as int) ==> self.adds_row(
                    em,
                    true,
                    t,
                    e.1,
                    row_at(prep@, e.0 as int),
                    r,
                ),
            {
                if 0 <= e.0 && (e.0 as usize) < n {
                    self.add_row(em, true, t, e.1, row_of(prep, e.0 as usize))
                } else {
                    t
                }
            };
        let same = |t: Sums| -> (r: Sums)
            ensures
                r == t,
            { t };
        let out: Vec<Sums> = csr_integrate1d(
            csr,
            Sums { signal: 0, norm: 0, count: 0, variance: 0, norm2: 0 },
            step,
            same,
        );
        proof {
            assert forall|b: int| 0 <= b < out@.len() implies self.sums_rows(
                prep@,
                em,
                true,
                active(csr.row(b)),
                #[trigger] out@[b],
            ) by {
                self.lemma_fold_adds_rows(
                    prep@,
                    em,
                    true,
                    step,
                    active(csr.row(b)),
                    out@[b],
                );
            }
        }
        out
    }

    /// The sums of every bin of a table of `bins` bins, as [`RowMath::csr_sums`] has them.
    pub fn lut_sums(&self, lut: &Lut, bins: usize, prep: &[u32], em: ErrorModel) -> (out: Vec<Sums>)
        requires
            self.total(),
            lut.covers(bins as int),
            forall|b: int|
                0 <= b < bins ==> names_rows(
                    active(#[trigger] lut.row(b)),
                    prep@.len() as int / 4,
                ),
        ensures
            out@.len() == bins,
            forall|b: int|
                0 <= b < bins ==> self.sums_rows(
                    prep@,
                    em,
                    false,
                    active(lut.row(b)),
                    #[trigger] out@[b],
                ),
            forall|b: int|
                0 <= b < out@.len() ==> self.is_lut_bin(prep@, em, *lut, b, #[trigger] out@[b]),
    {
        let n: usize = prep.len() / 4;
        let step = |t: Sums, e: Entry| -> (r: Sums)
            ensures
                names_row(e, n as int) ==> self.adds_row(
                    em,
                    false,
                    t,
                    e.1,
                    row_at(prep@, e.0 as int),
                    r,
                ),
            {
                if 0 <= e.0 && (e.0 as usize) < n {
                    self.add_row(em, false, t, e.1, row_of(prep, e.0 as usize))
                } else {
                    t
                }
            };
        let same = |t: Sums| -> (r: Sums)
            ensures
                r == t,
            { t };
        let start = Sums { signal: 0, norm: 0, count: 0, variance: 0, norm2: 0 };
        let out: Vec<Sums> = lut_integrate1d(lut, bins, start, step, same);
        proof {
            assert forall|b: int| 0 <= b < bins implies self.sums_rows(
                prep@,
                em,
                false,
                active(lut.row(b)),
                #[trigger] out@[b],
            ) by {
                self.lemma_fold_adds_rows(prep@, em, false, step, active(lut.row(b)), out@[b]);
            }
        }
        out
    }

    /// The sums of the `n_bins` bins of a transposed matrix: the columns of the pixels that
    /// count are walked in order, and every entry adds the row of its pixel to its bin.
    pub fn csc_sums(&self, csc: &Csc, n_bins: usize, prep: &[u32], em: ErrorModel) -> (out: Vec<
        Sums,
    >)
        requires
            self.total(),
            prep@.len() % 4 == 0,
            prep@.len() / 4 <= i32::MAX,
            csc.wf(prep@.len() as int / 4),
            csc.bins_below(n_bins as int),
        ensures
            out@.len() == n_bins,
            forall|b: int|
                0 <= b < n_bins ==> self.sums_rows(
                    internal_prep(prep@, em),
                    em,
                    false,
                    scattered_valid(*csc, counting(prep@), b, prep@.len() as int / 4),
                    #[trigger] out@[b],
                ),
            forall|b: int|
                0 <= b < n_bins ==> self.is_csc_bin(prep@, em, *csc, b, #[trigger] out@[b]),
    {
        let n: usize = prep.len() / 4;
        let inner: Vec<u32> = repeat_preproc(prep, em);
        let valid: Vec<bool> = counting_pixels(prep);
        let step = |t: Sums, e: Entry| -> (r: Sums)
            ensures
                names_row(e, n as int) ==> self.adds_row(
                    em,
                    false,
                    t,
                    e.1,
                    row_at(inner@, e.0 as int),
                    r,
                ),
            {
                if 0 <= e.0 && (e.0 as usize) < n {
                    self.add_row(em, false, t, e.1, row_of(inner.as_slice(), e.0 as usize))
                } else {
                    t
                }
            };
        let start = Sums { signal: 0, norm: 0, count: 0, variance: 0, norm2: 0 };
        let out: Vec<Sums> = csc_reduce(csc, valid.as_slice(), n_bins, start, &step);
        proof {
            assert forall|b: int| 0 <= b < n_bins implies self.sums_rows(
                internal_prep(prep@, em),
                em,
                false,
                scattered_valid(*csc, counting(prep@), b, prep@.len() as int / 4),
                #[trigger] out@[b],
            ) by {
                let items = scattered_valid(*csc, counting(prep@), b, n as int);
                lemma_scattered_pixels(*csc, counting(prep@), b, n as int);
                self.lemma_fold_adds_rows(inner@, em, false, step, items, out@[b]);
            }
        }
        out
    }
}

/// For each pixel whether it counts.
pub open spec fn counting(prep: Seq<u32>) -> Seq<bool> {
    Seq::new(prep.len() / 4, |p: int| magnitude(row_at(prep, p).count) != 0)
}

/// The value of [`counting`].
pub fn counting_pixels(prep: &[u32]) -> (valid: Vec<bool>)
    ensures
        valid@ == counting(prep@),
{
    let n: usize = prep.len() / 4;
    let mut valid: Vec<bool> = Vec::new();
    let mut p: usize = 0;
    while p < n
        invariant
            p <= n == prep@.len() / 4,
            valid@.len() == p,
            forall|k: int| 0 <= k < p ==> #[trigger] valid@[k] == counting(prep@)[k],
        decreases n - p,
    {
        valid.push(!zero(row_of(prep, p).count));
        p = p + 1;
    }
    assert(valid@ =~= counting(prep@));
    valid
}

/// The rows with the variances of a repeated preprocessing, see [`internal_variance`].
pub open spec fn internal_prep(prep: Seq<u32>, em: ErrorModel) -> Seq<u32> {
    Seq::new(
        prep.len(),
        |i: int|
            if i % 4 == 1 {
                internal_variance(em, prep[i])
            } else {
                prep[i]
            },
    )
}

/// The value of [`internal_prep`].
fn repeat_preproc(prep: &[u32], em: ErrorModel) -> (out: Vec<u32>)
    ensures
        out@ == internal_prep(prep@, em),
{
    let mut out: Vec<u32> = Vec::new();
    let mut i: usize = 0;
    while i < prep.len()
        invariant
            i <= prep@.len(),
            out@.len() == i,
            forall|k: int| 0 <= k < i ==> #[trigger] out@[k] == internal_prep(prep@, em)[k],
        decreases prep@.len() - i,
    {
        if i % 4 == 1 {
            out.push(internal_preproc_variance(em, prep[i]));
        } else {
            out.push(prep[i]);
        }
        i = i + 1;
    }
    assert(out@ =~= internal_prep(prep@, em));
    out
}

proof fn lemma_picked_pixels(column: Seq<Entry>, b: int, p: int, k: int)
    requires
        0 <= k < picked(column, b, p).len(),
        0 <= p <= i32::MAX,
    ensures
        picked(column, b, p)[k].0 == p,
    decreases column.len(),
{
    if column.len() > 0 {
        if k < picked(column.drop_last(), b, p).len() {
            lemma_picked_pixels(column.drop_last(), b, p, k);
        }
    }
}

/// What is scattered comes from the pixels that were walked.
proof fn lemma_scattered_pixels(csc: Csc, valid: Seq<bool>, b: int, n: int)
    requires
        0 <= n <= i32::MAX,
    ensures
        names_rows(scattered_valid(csc, valid, b, n), n),
    decreases n,
{
    if n > 0 {
        lemma_scattered_pixels(csc, valid, b, n - 1);
        let before = scattered_valid(csc, valid, b, n - 1);
        let more = picked(csc.column(n - 1), b, n - 1);
        assert forall|k: int| 0 <= k < scattered_valid(csc, valid, b, n).len() implies names_row(
            #[trigger] scattered_valid(csc, valid, b, n)[k],
            n,
        ) by {
            if k < before.len() {
                assert(names_row(before[k], n - 1));
            } else {
                lemma_picked_pixels(csc.column(n - 1), b, n - 1, k - before.len());
            }
        }
    }
}

/// The entry names one of `n` rows.
pub open spec fn names_row(e: Entry, n: int) -> bool {
    0 <= e.0 < n
}

/// Every entry names one of `n` rows.
pub open spec fn names_rows(items: Seq<Entry>, n: int) -> bool {
    forall|k: int| 0 <= k < items.len() ==> #[trigger] names_row(items[k], n)
}

/// A zero of either sign.
pub open spec fn is_zero(x: u64) -> bool {
    double::magnitude(x) == 0
}

/// A finite number.
pub open spec fn is_finite(x: u64) -> bool {
    double::magnitude(x) < 0x7ff0_0000_0000_0000
}

/// A row of zeros, as a pixel has that is not valid.
pub open spec fn is_zero_row(row: PrepRow) -> bool {
    &&& magnitude(row.signal) == 0
    &&& magnitude(row.variance) == 0
    &&& magnitude(row.norm) == 0
    &&& magnitude(row.count) == 0
}

/// A row of finite numbers.
pub open spec fn is_finite_row(row: PrepRow) -> bool {
    &&& ieee::is_finite(row.signal)
    &&& ieee::is_finite(row.variance)
    &&& ieee::is_finite(row.norm)
    &&& ieee::is_finite(row.count)
}

/// All sums are among the numbers that `kept` describes.
pub open spec fn all_kept(kept: spec_fn(u64) -> bool, sums: Sums) -> bool {
    &&& kept(sums.signal)
    &&& kept(sums.norm)
    &&& kept(sums.count)
    &&& kept(sums.variance)
    &&& kept(sums.norm2)
}

/// The error model only adds products up, and takes the variances as they are given.
pub open spec fn is_linear(em: ErrorModel) -> bool {
    em == ErrorModel::No || em == ErrorModel::Variance || em == ErrorModel::Poisson
}

/// A contribution of nothing: a finite coefficient and a row of zeros, or a zero and a
/// finite row.
pub open spec fn is_nothing(coef: u32, row: PrepRow) -> bool {
    ||| ieee::is_finite(coef) && is_zero_row(row)
    ||| magnitude(coef) == 0 && is_finite_row(row)
}

impl<
    W: Fn(u32) -> u64,
    M: Fn(u64, u64) -> u64,
    P: Fn(u64, u64) -> u64,
    B: Fn(PrepRow) -> u64,
    A: Fn(Sums, WelfordStep, Weighed) -> Sums,
> RowMath<W, M, P, B, A> {
    /// The arithmetic gives one result each.
    pub open spec fn definite(&self) -> bool {
        &&& forall|x: u32, a: u64, b: u64| #[trigger]
            self.widen.ensures((x,), a) && #[trigger] self.widen.ensures((x,), b) ==> a == b
        &&& forall|x: u64, y: u64, a: u64, b: u64| #[trigger]
            self.times.ensures((x, y), a) && #[trigger] self.times.ensures((x, y), b) ==> a == b
        &&& forall|x: u64, y: u64, a: u64, b: u64| #[trigger]
            self.plus.ensures((x, y), a) && #[trigger] self.plus.ensures((x, y), b) ==> a == b
    }

    /// The arithmetic treats zeros as floating point does. A zero stays a zero in double
    /// precision, a finite number stays finite, and so does its square; the product of a
    /// zero and a finite number is a zero. Sums stay among the numbers that `kept`
    /// describes, `0.0` among them, and a zero leaves each of these as it is.
    pub open spec fn respects_zeros(&self, kept: spec_fn(u64) -> bool) -> bool {
        &&& forall|x: u32, a: u64| #[trigger]
            self.widen.ensures((x,), a) && magnitude(x) == 0 ==> is_zero(a)
        &&& forall|x: u32, a: u64| #[trigger]
            self.widen.ensures((x,), a) && ieee::is_finite(x) ==> is_finite(a)
        &&& forall|x: u32, a: u64, q: u64| #[trigger]
            self.widen.ensures((x,), a) && #[trigger] self.times.ensures((a, a), q)
                && ieee::is_finite(x) ==> is_finite(q)
        &&& forall|x: u64, y: u64, a: u64| #[trigger]
            self.times.ensures((x, y), a) && (is_zero(x) && is_finite(y) || is_finite(x)
                && is_zero(y)) ==> is_zero(a)
        &&& kept(0)
        &&& forall|x: u64, y: u64, a: u64| #[trigger]
            self.plus.ensures((x, y), a) && kept(x) ==> kept(a) && (is_zero(y) ==> a == x)
    }

    /// Sums stay among the kept numbers, and a contribution of nothing changes no sum.
    proof fn lemma_adds_nothing(
        &self,
        kept: spec_fn(u64) -> bool,
        em: ErrorModel,
        guarded: bool,
        sums: Sums,
        coef: u32,
        row: PrepRow,
        out: Sums,
    )
        requires
            self.respects_zeros(kept),
            is_linear(em),
            all_kept(kept, sums),
            self.adds_row(em, guarded, sums, coef, row, out),
        ensures
            all_kept(kept, out),
            is_nothing(coef, row) ==> out == sums,
    {
        let wide = choose|wide: Wide| #[trigger]
            self.is_widened(coef, row, wide) && self.adds_wide(em, guarded, sums, wide, row, out);
        let q = choose|q: u64| #[trigger]
            self.times.ensures((wide.coef, wide.coef), q) && self.adds_product(
                sums.variance,
                q,
                wide.variance,
                out.variance,
            );
        let w = choose|w: u64| #[trigger]
            self.times.ensures((wide.coef, wide.norm), w) && self.plus.ensures(
                (sums.norm, w),
                out.norm,
            ) && self.adds_product(sums.norm2, w, w, out.norm2);
        assert(is_nothing(coef, row) ==> is_zero(w));
        assert(is_zero(w) ==> is_finite(w));
    }

    /// Without the spread within a bin, adding a row gives one result, whichever way the
    /// engine is guarded and whatever intensity it takes.
    proof fn lemma_adds_one_result<B2: Fn(PrepRow) -> u64, A2: Fn(Sums, WelfordStep, Weighed) -> Sums>(
        &self,
        other: RowMath<W, M, P, B2, A2>,
        em: ErrorModel,
        g: bool,
        h: bool,
        sums: Sums,
        coef: u32,
        row: PrepRow,
        x: Sums,
        y: Sums,
    )
        requires
            self.definite(),
            self.widen == other.widen,
            self.times == other.times,
            self.plus == other.plus,
            is_linear(em),
            self.adds_row(em, g, sums, coef, row, x),
            other.adds_row(em, h, sums, coef, row, y),
        ensures
            x == y,
    {
        let a = choose|wide: Wide| #[trigger]
            self.is_widened(coef, row, wide) && self.adds_wide(em, g, sums, wide, row, x);
        let b = choose|wide: Wide| #[trigger]
            other.is_widened(coef, row, wide) && other.adds_wide(em, h, sums, wide, row, y);
        assert(a == b);
    }

    /// What the gathered entries of a row add up to, those of counting pixels add up to.
    proof fn lemma_gathered(
        &self,
        kept: spec_fn(u64) -> bool,
        prep: Seq<u32>,
        em: ErrorModel,
        guarded: bool,
        row: Seq<Entry>,
        sums: Sums,
    )
        requires
            self.respects_zeros(kept),
            is_linear(em),
            weighs_rows(row, prep),
            self.sums_rows(prep, em, guarded, active(row), sums),
        ensures
            all_kept(kept, sums),
            self.sums_rows(prep, em, guarded, taking_part(row, counting(prep)), sums),
        decreases row.len(),
    {
        if row.len() > 0 {
            let before = row.drop_last();
            let e = row.last();
            lemma_weighs_before(row, prep);
            if counts(e) {
                let items = active(row);
                assert(items.drop_last() =~= active(before));
                let mid = choose|mid: Sums|
                    self.sums_rows(prep, em, guarded, items.drop_last(), mid)
                        && #[trigger] self.adds_row(
                        em,
                        guarded,
                        mid,
                        items.last().1,
                        row_at(prep, items.last().0 as int),
                        sums,
                    );
                self.lemma_gathered(kept, prep, em, guarded, before, mid);
                self.lemma_adds_nothing(
                    kept,
                    em,
                    guarded,
                    mid,
                    e.1,
                    row_at(prep, e.0 as int),
                    sums,
                );
                self.lemma_part_taken(prep, em, guarded, row, mid, sums);
            } else {
                self.lemma_gathered(kept, prep, em, guarded, before, sums);
            }
        }
    }

    /// What the entries of counting pixels add up to, those that take part add up to.
    proof fn lemma_scattered(
        &self,
        kept: spec_fn(u64) -> bool,
        prep: Seq<u32>,
        em: ErrorModel,
        guarded: bool,
        row: Seq<Entry>,
        sums: Sums,
    )
        requires
            self.respects_zeros(kept),
            is_linear(em),
            weighs_rows(row, prep),
            self.sums_rows(prep, em, guarded, of_valid(row, counting(prep)), sums),
        ensures
            all_kept(kept, sums),
            self.sums_rows(prep, em, guarded, taking_part(row, counting(prep)), sums),
        decreases row.len(),
    {
        if row.len() > 0 {
            let before = row.drop_last();
            let e = row.last();
            lemma_weighs_before(row, prep);
            if counting(prep)[e.0 as int] {
                let items = of_valid(row, counting(prep));
                assert(items.drop_last() =~= of_valid(before, counting(prep)));
                let mid = choose|mid: Sums|
                    self.sums_rows(prep, em, guarded, items.drop_last(), mid)
                        && #[trigger] self.adds_row(
                        em,
                        guarded,
                        mid,
                        items.last().1,
                        row_at(prep, items.last().0 as int),
                        sums,
                    );
                self.lemma_scattered(kept, prep, em, guarded, before, mid);
                self.lemma_adds_nothing(
                    kept,
                    em,
                    guarded,
                    mid,
                    e.1,
                    row_at(prep, e.0 as int),
                    sums,
                );
                self.lemma_part_taken(prep, em, guarded, row, mid, sums);
            } else {
                self.lemma_scattered(kept, prep, em, guarded, before, sums);
            }
        }
    }

    /// The last entry of a row, added to what the entries before it that take part add up
    /// to: it takes part itself, or changes nothing.
    proof fn lemma_part_taken(
        &self,
        prep: Seq<u32>,
        em: ErrorModel,
        guarded: bool,
        row: Seq<Entry>,
        mid: Sums,
        sums: Sums,
    )
        requires
            row.len() > 0,
            weighs_rows(row, prep),
            self.sums_rows(
                prep,
                em,
                guarded,
                taking_part(row.drop_last(), counting(prep)),
                mid,
            ),
            self.adds_row(
                em,
                guarded,
                mid,
                row.last().1,
                row_at(prep, row.last().0 as int),
                sums,
            ),
            is_nothing(row.last().1, row_at(prep, row.last().0 as int)) ==> sums == mid,
        ensures
            self.sums_rows(prep, em, guarded, taking_part(row, counting(prep)), sums),
    {
        let e = row.last();
        let part = taking_part(row, counting(prep));
        assert(weighs_row(row[row.len() - 1], prep));
        if takes_part(e, counting(prep)) {
            assert(part.drop_last() =~= taking_part(row.drop_last(), counting(prep)));
            assert(self.adds_row(
                em,
                guarded,
                mid,
                part.last().1,
                row_at(prep, part.last().0 as int),
                sums,
            ));
        } else {
            assert(is_nothing(e.1, row_at(prep, e.0 as int)));
        }
    }

    /// Without the spread within a bin, rows add up to one result.
    proof fn lemma_sums_one_result<B2: Fn(PrepRow) -> u64, A2: Fn(Sums, WelfordStep, Weighed) -> Sums>(
        &self,
        other: RowMath<W, M, P, B2, A2>,
        prep: Seq<u32>,
        em: ErrorModel,
        g: bool,
        h: bool,
        items: Seq<Entry>,
        x: Sums,
        y: Sums,
    )
        requires
            self.definite(),
            self.widen == other.widen,
            self.times == other.times,
            self.plus == other.plus,
            is_linear(em),
            self.sums_rows(prep, em, g, items, x),
            other.sums_rows(prep, em, h, items, y),
        ensures
            x == y,
        decreases items.len(),
    {
        if items.len() > 0 {
            let (coef, row) = (items.last().1, row_at(prep, items.last().0 as int));
            let a = choose|mid: Sums|
                self.sums_rows(prep, em, g, items.drop_last(), mid) && #[trigger] self.adds_row(
                    em,
                    g,
                    mid,
                    coef,
                    row,
                    x,
                );
            let b = choose|mid: Sums|
                other.sums_rows(prep, em, h, items.drop_last(), mid) && #[trigger] other.adds_row(
                    em,
                    h,
                    mid,
                    coef,
                    row,
                    y,
                );
            self.lemma_sums_one_result(other, prep, em, g, h, items.drop_last(), a, b);
            self.lemma_adds_one_result(other, em, g, h, a, coef, row, x, y);
        }
    }
}

/// The entry has a finite coefficient and names a row: one of zeros, unless its pixel
/// counts, and one of finite numbers where the coefficient is zero.
pub open spec fn weighs_row(e: Entry, prep: Seq<u32>) -> bool {
    &&& names_row(e, prep.len() as int / 4)
    &&& ieee::is_finite(e.1)
    &&& counting(prep)[e.0 as int] || is_zero_row(row_at(prep, e.0 as int))
    &&& magnitude(e.1) == 0 ==> is_finite_row(row_at(prep, e.0 as int))
}

/// Every entry has a finite coefficient and names a row, see [`weighs_row`].
pub open spec fn weighs_rows(row: Seq<Entry>, prep: Seq<u32>) -> bool {
    forall|k: int| 0 <= k < row.len() ==> #[trigger] weighs_row(row[k], prep)
}

proof fn lemma_weighs_before(row: Seq<Entry>, prep: Seq<u32>)
    requires
        row.len() > 0,
        weighs_rows(row, prep),
    ensures
        weighs_rows(row.drop_last(), prep),
{
    assert forall|k: int| 0 <= k < row.drop_last().len() implies #[trigger] weighs_row(
        row.drop_last()[k],
        prep,
    ) by {
        assert(weighs_row(row[k], prep));
    }
}

/// The sums of a bin are the same, bit for bit, by the matrix, by the table made of it and
/// by the transposed matrix, under the error models that only add products up: what
/// [`RowMath::csr_sums`], [`RowMath::lut_sums`] and [`RowMath::csc_sums`] return. Pixels that
/// do not count have rows of zeros; the coefficients are finite. The engines multiply and
/// add alike; they need not take the same intensity of a row.
pub proof fn lemma_sparse_sums_agree<
    W: Fn(u32) -> u64,
    M: Fn(u64, u64) -> u64,
    P: Fn(u64, u64) -> u64,
    B: Fn(PrepRow) -> u64,
    A: Fn(Sums, WelfordStep, Weighed) -> Sums,
    B2: Fn(PrepRow) -> u64,
    A2: Fn(Sums, WelfordStep, Weighed) -> Sums,
>(
    csr: Csr,
    lut: Lut,
    csc: Csc,
    prep: Seq<u32>,
    n_bins: int,
    b: int,
    em: ErrorModel,
    gathering: RowMath<W, M, P, B, A>,
    scattering: RowMath<W, M, P, B2, A2>,
    kept: spec_fn(u64) -> bool,
    by_row: Sums,
    by_table: Sums,
    by_column: Sums,
)
    requires
        csr.wf(n_bins),
        csr.pixels_below(prep.len() as int / 4),
        n_bins <= i32::MAX,
        prep.len() / 4 <= i32::MAX,
        is_table_of(lut, csr, n_bins),
        lut.lut_size == widest(csr, n_bins),
        forall|p: int|
            0 <= p < prep.len() / 4 ==> #[trigger] csc.column(p) == csr.column_entries(
                n_bins,
                p,
                csr.data@.len() as int,
            ),
        0 <= b < n_bins,
        ascending(csr.row(b)),
        weighs_rows(csr.row(b), prep),
        is_linear(em),
        gathering.widen == scattering.widen,
        gathering.times == scattering.times,
        gathering.plus == scattering.plus,
        gathering.definite(),
        gathering.respects_zeros(kept),
        gathering.sums_rows(prep, em, true, active(csr.row(b)), by_row),
        gathering.sums_rows(prep, em, false, active(lut.row(b)), by_table),
        scattering.sums_rows(
            internal_prep(prep, em),
            em,
            false,
            scattered_valid(csc, counting(prep), b, prep.len() as int / 4),
            by_column,
        ),
    ensures
        by_row == by_table,
        by_row == by_column,
{
    let row = csr.row(b);
    let part = taking_part(row, counting(prep));
    assert(internal_prep(prep, em) =~= prep);
    lemma_table_gathers_as_matrix(lut, csr, n_bins, b);
    gathering.lemma_sums_one_result(gathering, prep, em, true, false, active(row), by_row, by_table);
    lemma_columns_add_rows(csr, csc, counting(prep), n_bins, b);
    gathering.lemma_gathered(kept, prep, em, true, row, by_row);
    scattering.lemma_scattered(kept, prep, em, false, row, by_column);
    gathering.lemma_sums_one_result(scattering, prep, em, true, false, part, by_row, by_column);
}

impl<
    W: Fn(u32) -> u64,
    M: Fn(u64, u64) -> u64,
    P: Fn(u64, u64) -> u64,
    B: Fn(PrepRow) -> u64,
    A: Fn(Sums, WelfordStep, Weighed) -> Sums,
> RowMath<W, M, P, B, A> {
    /// The arithmetic is that of whole numbers: `single` and `val` are what a number in
    /// single and in double precision is worth.
    pub open spec fn is_exact(&self, single: spec_fn(u32) -> int, val: spec_fn(u64) -> int) -> bool {
        &&& val(0) == 0
        &&& forall|x: u32, r: u64| #[trigger] self.widen.ensures((x,), r) ==> val(r) == single(x)
        &&& forall|x: u64, y: u64, r: u64| #[trigger]
            self.times.ensures((x, y), r) ==> val(r) == val(x) * val(y)
        &&& forall|x: u64, y: u64, r: u64| #[trigger]
            self.plus.ensures((x, y), r) ==> val(r) == val(x) + val(y)
    }

    /// A row adds its count, weighed, under every error model. Unless the variance is that
    /// of the spread within a bin it adds its signal and its normalization too, weighed,
    /// the square of the weighed normalization, and with an error model its variance,
    /// weighed by the square of the coefficient.
    pub proof fn lemma_one_row(
        &self,
        em: ErrorModel,
        guarded: bool,
        sums: Sums,
        coef: u32,
        row: PrepRow,
        out: Sums,
        single: spec_fn(u32) -> int,
        val: spec_fn(u64) -> int,
    )
        requires
            self.adds_row(em, guarded, sums, coef, row, out),
            self.is_exact(single, val),
        ensures
            val(out.count) == val(sums.count) + single(coef) * single(row.count),
            em != ErrorModel::Azimuthal ==> {
                &&& val(out.signal) == val(sums.signal) + single(coef) * single(row.signal)
                &&& val(out.norm) == val(sums.norm) + single(coef) * single(row.norm)
                &&& val(out.norm2) == val(sums.norm2) + (single(coef) * single(row.norm)) * (single(
                    coef,
                ) * single(row.norm))
                &&& val(out.variance) == val(sums.variance) + if em == ErrorModel::No {
                    0
                } else {
                    (single(coef) * single(coef)) * single(row.variance)
                }
            },
    {
    }

    /// What the rows of a bin add up to: the sums over its entries of coefficient times
    /// signal, coefficient times normalization, its square, coefficient times count, and
    /// with an error model squared coefficient times variance. Each pixel has four numbers
    /// in a row: signal, variance, normalization and count.
    pub proof fn lemma_sums_of_a_bin(
        &self,
        prep: Seq<u32>,
        em: ErrorModel,
        guarded: bool,
        items: Seq<Entry>,
        end: Sums,
        single: spec_fn(u32) -> int,
        val: spec_fn(u64) -> int,
    )
        requires
            self.sums_rows(prep, em, guarded, items, end),
            self.is_exact(single, val),
            names_rows(items, prep.len() as int / 4),
        ensures
            val(end.count) == worth_of(
                items,
                |e: Entry| single(e.1) * single(prep[4 * e.0 + 3]),
            ),
            em != ErrorModel::Azimuthal ==> {
                &&& val(end.signal) == worth_of(
                    items,
                    |e: Entry| single(e.1) * single(prep[4 * e.0]),
                )
                &&& val(end.norm) == worth_of(
                    items,
                    |e: Entry| single(e.1) * single(prep[4 * e.0 + 2]),
                )
                &&& val(end.norm2) == worth_of(
                    items,
                    |e: Entry|
                        (single(e.1) * single(prep[4 * e.0 + 2])) * (single(e.1) * single(
                            prep[4 * e.0 + 2],
                        )),
                )
                &&& em != ErrorModel::No ==> val(end.variance) == worth_of(
                    items,
                    |e: Entry| (single(e.1) * single(e.1)) * single(prep[4 * e.0 + 1]),
                )
                &&& em == ErrorModel::No ==> val(end.variance) == 0
            },
        decreases items.len(),
    {
        if items.len() > 0 {
            let before = items.drop_last();
            let last = items.last();
            let mid = choose|mid: Sums|
                self.sums_rows(prep, em, guarded, before, mid) && #[trigger] self.adds_row(
                    em,
                    guarded,
                    mid,
                    last.1,
                    row_at(prep, last.0 as int),
                    end,
                );
            assert forall|k: int| 0 <= k < before.len() implies #[trigger] names_row(
                before[k],
                prep.len() as int / 4,
            ) by {
                assert(names_row(items[k], prep.len() as int / 4));
            }
            self.lemma_sums_of_a_bin(prep, em, guarded, before, mid, single, val);
            self.lemma_one_row(
                em,
                guarded,
                mid,
                last.1,
                row_at(prep, last.0 as int),
                end,
                single,
                val,
            );
        }
    }

    /// The spread within a bin is told the weighed normalization and the weighed signal of
    /// a row and the row's intensity, and whether the row is the first of the bin. What it
    /// gives becomes the sums of the bin, but for the count.
    pub proof fn lemma_spread_of_a_row(
        &self,
        guarded: bool,
        sums: Sums,
        coef: u32,
        row: PrepRow,
        out: Sums,
        single: spec_fn(u32) -> int,
        val: spec_fn(u64) -> int,
    ) -> (r: (WelfordStep, Weighed, Sums))
        requires
            self.adds_row(ErrorModel::Azimuthal, guarded, sums, coef, row, out),
            self.is_exact(single, val),
        ensures
            self.spread.ensures((sums, r.0, r.1), r.2),
            val(r.1.weight) == single(coef) * single(row.norm),
            val(r.1.signal) == single(coef) * single(row.signal),
            self.intensity.ensures((row,), r.1.intensity),
            r.0 == WelfordStep::Seed <==> !has_data(sums),
            r.0 == WelfordStep::Skip <==> has_data(sums) && magnitude(row.norm) == 0 && guarded,
            out.signal == r.2.signal,
            out.norm == r.2.norm,
            out.variance == r.2.variance,
            out.norm2 == r.2.norm2,
    {
        let wide = choose|wide: Wide| #[trigger]
            self.is_widened(coef, row, wide) && self.adds_wide(
                ErrorModel::Azimuthal,
                guarded,
                sums,
                wide,
                row,
                out,
            );
        let step = step_of(has_data(sums), magnitude(row.norm) == 0, guarded);
        let (x, s) = choose|x: Weighed, s: Sums| #[trigger]
            self.is_weighed(wide, row, x) && #[trigger] self.spread.ensures((sums, step, x), s)
                && out == (Sums { count: out.count, ..s });
        (step, x, s)
    }
}

/// Preprocessing rows a second time changes their variances alone.
pub proof fn lemma_repeated_rows(prep: Seq<u32>, em: ErrorModel, p: int)
    requires
        0 <= p < prep.len() / 4,
    ensures
        row_at(internal_prep(prep, em), p).signal == prep[4 * p],
        row_at(internal_prep(prep, em), p).norm == prep[4 * p + 2],
        row_at(internal_prep(prep, em), p).count == prep[4 * p + 3],
        row_at(internal_prep(prep, em), p).variance == if em == ErrorModel::Hybrid {
            0
        } else {
            prep[4 * p + 1]
        },
        counting(internal_prep(prep, em))[p] == counting(prep)[p],
        counting(prep)[p] <==> prep[4 * p + 3] != 0 && prep[4 * p + 3] != 0x8000_0000,
{
    ieee::lemma_order(prep[4 * p + 3], 0);
}

impl<
    W: Fn(u32) -> u64,
    M: Fn(u64, u64) -> u64,
    P: Fn(u64, u64) -> u64,
    B: Fn(PrepRow) -> u64,
    A: Fn(Sums, WelfordStep, Weighed) -> Sums,
> RowMath<W, M, P, B, A> {
    /// What a bin of each kind of matrix adds up, whatever the kind: coefficient times
    /// signal, and coefficient times count, over the entries that contribute. In a
    /// transposed matrix these are the entries of pixels that count.
    pub proof fn lemma_sums_of_every_kind(
        &self,
        prep: Seq<u32>,
        em: ErrorModel,
        csr: Csr,
        lut: Lut,
        csc: Csc,
        b: int,
        sums: (Sums, Sums, Sums),
        single: spec_fn(u32) -> int,
        val: spec_fn(u64) -> int,
    )
        requires
            self.is_csr_bin(prep, em, csr, b, sums.0),
            self.is_lut_bin(prep, em, lut, b, sums.1),
            self.is_csc_bin(prep, em, csc, b, sums.2),
            self.is_exact(single, val),
            names_rows(active(csr.row(b)), prep.len() as int / 4),
            names_rows(active(lut.row(b)), prep.len() as int / 4),
            prep.len() / 4 <= i32::MAX,
        ensures
            ({
                let signal = |e: Entry| single(e.1) * single(prep[4 * e.0]);
                let count = |e: Entry| single(e.1) * single(prep[4 * e.0 + 3]);
                let valid = scattered_valid(csc, counting(prep), b, prep.len() as int / 4);
                &&& val(sums.0.count) == worth_of(active(csr.row(b)), count)
                &&& val(sums.1.count) == worth_of(active(lut.row(b)), count)
                &&& val(sums.2.count) == worth_of(valid, count)
                &&& em != ErrorModel::Azimuthal ==> val(sums.0.signal) == worth_of(
                    active(csr.row(b)),
                    signal,
                ) && val(sums.1.signal) == worth_of(active(lut.row(b)), signal) && val(
                    sums.2.signal,
                ) == worth_of(valid, signal)
            }),
    {
        let n = prep.len() as int / 4;
        let inner = internal_prep(prep, em);
        let valid = scattered_valid(csc, counting(prep), b, n);
        let signal = |e: Entry| single(e.1) * single(prep[4 * e.0]);
        let count = |e: Entry| single(e.1) * single(prep[4 * e.0 + 3]);
        self.lemma_sums_of_a_bin(prep, em, true, active(csr.row(b)), sums.0, single, val);
        self.lemma_sums_of_a_bin(prep, em, false, active(lut.row(b)), sums.1, single, val);
        lemma_scattered_pixels(csc, counting(prep), b, n);
        self.lemma_sums_of_a_bin(inner, em, false, valid, sums.2, single, val);
        lemma_same_worth(
            valid,
            |e: Entry| single(e.1) * single(inner[4 * e.0]),
            signal,
            prep.len() as int,
        );
        lemma_same_worth(
            valid,
            |e: Entry| single(e.1) * single(inner[4 * e.0 + 3]),
            count,
            prep.len() as int,
        );
    }

    /// Under the azimuthal model a row without normalization that is not the first of its
    /// bin is passed over in a matrix, and in a matrix only: in a table and in a transposed
    /// matrix it updates the spread like any other.
    pub proof fn lemma_who_passes_over(
        &self,
        prep: Seq<u32>,
        items: Seq<Entry>,
        guarded: bool,
        s: Sums,
        single: spec_fn(u32) -> int,
        val: spec_fn(u64) -> int,
    ) -> (r: (Sums, WelfordStep, Weighed, Sums))
        requires
            ({
                let em = ErrorModel::Azimuthal;
                let n = prep.len() as int / 4;
                ||| guarded && exists|csr: Csr, b: int| #[trigger]
                    self.is_csr_bin(prep, em, csr, b, s) && items == active(csr.row(b))
                ||| !guarded && exists|lut: Lut, b: int| #[trigger]
                    self.is_lut_bin(prep, em, lut, b, s) && items == active(lut.row(b))
                ||| !guarded && exists|csc: Csc, b: int| #[trigger]
                    self.is_csc_bin(prep, em, csc, b, s) && items == scattered_valid(
                        csc,
                        counting(prep),
                        b,
                        n,
                    )
            }),
            items.len() > 0,
            self.is_exact(single, val),
        ensures
            self.spread.ensures((r.0, r.1, r.2), r.3),
            s == (Sums { count: s.count, ..r.3 }),
            r.1 == WelfordStep::Skip <==> guarded && has_data(r.0) && magnitude(
                row_at(prep, items.last().0 as int).norm,
            ) == 0,
            r.1 == WelfordStep::Seed <==> !has_data(r.0),
    {
        let em = ErrorModel::Azimuthal;
        assert(internal_prep(prep, em) =~= prep);
        assert(self.sums_rows(prep, em, guarded, items, s));
        let last = items.last();
        let row = row_at(prep, last.0 as int);
        let mid = choose|mid: Sums|
            self.sums_rows(prep, em, guarded, items.drop_last(), mid) && #[trigger] self.adds_row(
                em,
                guarded,
                mid,
                last.1,
                row,
                s,
            );
        let (step, x, t) = self.lemma_spread_of_a_row(guarded, mid, last.1, row, s, single, val);
        (mid, step, x, t)
    }
}

proof fn lemma_same_worth(
    items: Seq<Entry>,
    f: spec_fn(Entry) -> int,
    g: spec_fn(Entry) -> int,
    n: int,
)
    requires
        names_rows(items, n / 4),
        forall|e: Entry| names_row(e, n / 4) ==> #[trigger] f(e) == g(e),
    ensures
        worth_of(items, f) == worth_of(items, g),
    decreases items.len(),
{
    if items.len() > 0 {
        let before = items.drop_last();
        assert forall|k: int| 0 <= k < before.len() implies #[trigger] names_row(
            before[k],
            n / 4,
        ) by {
            assert(names_row(items[k], n / 4));
        }
        lemma_same_worth(before, f, g, n);
        assert(names_row(items[items.len() - 1], n / 4));
        assert(f(items.last()) == g(items.last()));
    }
}

} // verus!
