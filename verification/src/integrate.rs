//! Integration with a sparse matrix: every bin adds the contributions of its pixels
//! up and is reduced to a result. How a contribution is added and a sum reduced is
//! left to the caller.

use crate::accumulate::{
    bins_reduce_to, filled, fold, folds_to, lemma_empty_bin, lemma_fold_concat, lemma_fold_push, lemma_fold_unique,
    reduces_to,
};
use crate::histogram::{
    cells_reduce_to, lemma_transpose_twice, reduce_1d, reduce_2d, source_cell, transposed_bin,
};
use crate::sparse::{
    active, ascending, counts, is_table_of, lemma_active_of_both, lemma_active_of_one,
    lemma_scatter_equals_gather,
    lemma_table_gathers_as_matrix, picked, widest, Csc, Csr, Entry, Lut,
};
use vstd::prelude::*;

verus! {

/// The entries that contribute to each bin of a matrix.
pub open spec fn row_items(csr: Csr) -> spec_fn(int) -> Seq<Entry> {
    |b: int| active(csr.row(b))
}

/// The entries that contribute to each bin of a table.
pub open spec fn table_items(lut: Lut) -> spec_fn(int) -> Seq<Entry> {
    |b: int| active(lut.row(b))
}

/// The entries that contribute to each bin of a transposed matrix.
pub open spec fn column_items(csc: Csc, valid: Seq<bool>) -> spec_fn(int) -> Seq<Entry> {
    |b: int| scattered_valid(csc, valid, b, valid.len() as int)
}

/// Applies a matrix: each bin adds the entries of its row up, those of coefficient
/// zero left out.
pub fn csr_integrate1d<T: Copy, R, F: Fn(T, Entry) -> T, G: Fn(T) -> R>(
    csr: &Csr,
    start: T,
    step: F,
    finish: G,
) -> (out: Vec<R>)
    requires
        csr.wf(csr.indptr@.len() - 1),
        forall|t: T, c: Entry| #[trigger] step.requires((t, c)),
        forall|t: T| #[trigger] finish.requires((t,)),
    ensures
        out@.len() == csr.indptr@.len() - 1,
        forall|b: int|
            0 <= b < out@.len() ==> reduces_to(
                step,
                finish,
                start,
                active(csr.row(b)),
                #[trigger] out@[b],
            ),
        bins_reduce_to(step, finish, start, row_items(*csr), csr.indptr@.len() - 1, out@),
{
    let bins: usize = csr.indptr.len() - 1;
    let mut out: Vec<R> = Vec::new();
    let mut b: usize = 0;
    while b < bins
        invariant
            b <= bins == csr.indptr@.len() - 1,
            csr.wf(bins as int),
            forall|t: T, c: Entry| #[trigger] step.requires((t, c)),
            forall|t: T| #[trigger] finish.requires((t,)),
            out@.len() == b,
            forall|i: int|
                0 <= i < b ==> reduces_to(
                    step,
                    finish,
                    start,
                    active(csr.row(i)),
                    #[trigger] out@[i],
                ),
        decreases bins - b,
    {
        let t: T = fold(start, &csr.gather(b), &step);
        out.push(finish(t));
        b = b + 1;
    }
    out
}

/// Applies a matrix of `bins.0` by `bins.1` cells: as [`csr_integrate1d`], with the
/// cells in azimuthal-major order.
pub fn csr_integrate2d<T: Copy, R, F: Fn(T, Entry) -> T, G: Fn(T) -> R>(
    csr: &Csr,
    bins: (usize, usize),
    start: T,
    step: F,
    finish: G,
) -> (out: Vec<R>)
    requires
        csr.wf(bins.0 * bins.1),
        forall|t: T, c: Entry| #[trigger] step.requires((t, c)),
        forall|t: T| #[trigger] finish.requires((t,)),
    ensures
        out@.len() == bins.0 * bins.1,
        forall|i: int|
            0 <= i < out@.len() ==> reduces_to(
                step,
                finish,
                start,
                active(csr.row(source_cell(i, bins.0 as int, bins.1 as int))),
                #[trigger] out@[i],
            ),
        cells_reduce_to(
            step,
            finish,
            start,
            row_items(*csr),
            (bins.0 as int, bins.1 as int),
            out@,
        ),
{
    let n: usize = csr.indptr.len() - 1;
    let mut out: Vec<R> = Vec::new();
    let mut i: usize = 0;
    while i < n
        invariant
            i <= n == bins.0 * bins.1 == csr.indptr@.len() - 1,
            csr.wf(n as int),
            forall|t: T, c: Entry| #[trigger] step.requires((t, c)),
            forall|t: T| #[trigger] finish.requires((t,)),
            out@.len() == i,
            forall|k: int|
                0 <= k < i ==> reduces_to(
                    step,
                    finish,
                    start,
                    active(csr.row(source_cell(k, bins.0 as int, bins.1 as int))),
                    #[trigger] out@[k],
                ),
        decreases n - i,
    {
        let b: usize = transposed_bin(i, bins.0, bins.1);
        let t: T = fold(start, &csr.gather(b), &step);
        out.push(finish(t));
        i = i + 1;
    }
    out
}

/// Applies a table of `bins` bins: each bin adds the entries of its row up, padding and
/// entries of coefficient zero left out. In a table without slots every bin is empty.
pub fn lut_integrate1d<T: Copy, R, F: Fn(T, Entry) -> T, G: Fn(T) -> R>(
    lut: &Lut,
    bins: usize,
    start: T,
    step: F,
    finish: G,
) -> (out: Vec<R>)
    requires
        lut.covers(bins as int),
        forall|t: T, c: Entry| #[trigger] step.requires((t, c)),
        forall|t: T| #[trigger] finish.requires((t,)),
    ensures
        out@.len() == bins,
        forall|b: int|
            0 <= b < out@.len() ==> reduces_to(
                step,
                finish,
                start,
                active(lut.row(b)),
                #[trigger] out@[b],
            ),
        bins_reduce_to(step, finish, start, table_items(*lut), bins as int, out@),
        lut.lut_size == 0 ==> forall|b: int|
            0 <= b < out@.len() ==> reduces_to(
                step,
                finish,
                start,
                Seq::<Entry>::empty(),
                #[trigger] out@[b],
            ) && finish.ensures((start,), out@[b]),
{
    let mut out: Vec<R> = Vec::new();
    let mut b: usize = 0;
    while b < bins
        invariant
            b <= bins,
            lut.covers(bins as int),
            forall|t: T, c: Entry| #[trigger] step.requires((t, c)),
            forall|t: T| #[trigger] finish.requires((t,)),
            out@.len() == b,
            forall|i: int|
                0 <= i < b ==> reduces_to(
                    step,
                    finish,
                    start,
                    active(lut.row(i)),
                    #[trigger] out@[i],
                ),
        decreases bins - b,
    {
        let t: T = fold(start, &lut.gather(b), &step);
        out.push(finish(t));
        b = b + 1;
    }
    proof {
        lemma_no_slots(*lut);
        if lut.lut_size == 0 {
            assert forall|k: int| 0 <= k < out@.len() implies finish.ensures(
                (start,),
                #[trigger] out@[k],
            ) by {
                lemma_empty_bin(step, finish, start, Seq::<Entry>::empty(), out@[k]);
            }
        }
    }
    out
}

/// In a table without slots nothing contributes.
proof fn lemma_no_slots(lut: Lut)
    ensures
        lut.lut_size == 0 ==> forall|b: int| active(#[trigger] lut.row(b)) == Seq::<Entry>::empty(),
{
}

/// Applies a table of `bins.0` by `bins.1` cells into `out`: as [`lut_integrate2d`].
pub fn lut_integrate2d_into<T: Copy, R, F: Fn(T, Entry) -> T, G: Fn(T) -> R>(
    lut: &Lut,
    bins: (usize, usize),
    start: T,
    step: F,
    finish: G,
    out: &mut Vec<R>,
)
    requires
        bins.0 * bins.1 <= usize::MAX,
        lut.covers(bins.0 * bins.1),
        old(out)@.len() == bins.0 * bins.1,
        forall|t: T, c: Entry| #[trigger] step.requires((t, c)),
        forall|t: T| #[trigger] finish.requires((t,)),
    ensures
        final(out)@.len() == old(out)@.len(),
        forall|i: int|
            0 <= i < final(out)@.len() ==> reduces_to(
                step,
                finish,
                start,
                active(lut.row(source_cell(i, bins.0 as int, bins.1 as int))),
                #[trigger] final(out)@[i],
            ),
        cells_reduce_to(
            step,
            finish,
            start,
            table_items(*lut),
            (bins.0 as int, bins.1 as int),
            final(out)@,
        ),
        lut.lut_size == 0 ==> forall|i: int|
            0 <= i < final(out)@.len() ==> reduces_to(
                step,
                finish,
                start,
                Seq::<Entry>::empty(),
                #[trigger] final(out)@[i],
            ) && finish.ensures((start,), final(out)@[i]),
{
    let n: usize = bins.0 * bins.1;
    let mut i: usize = 0;
    while i < n
        invariant
            i <= n == bins.0 * bins.1,
            lut.covers(n as int),
            out@.len() == n,
            forall|t: T, c: Entry| #[trigger] step.requires((t, c)),
            forall|t: T| #[trigger] finish.requires((t,)),
            forall|k: int|
                0 <= k < i ==> reduces_to(
                    step,
                    finish,
                    start,
                    active(lut.row(source_cell(k, bins.0 as int, bins.1 as int))),
                    #[trigger] out@[k],
                ),
        decreases n - i,
    {
        let b: usize = transposed_bin(i, bins.0, bins.1);
        let t: T = fold(start, &lut.gather(b), &step);
        let r: R = finish(t);
        out.set(i, r);
        i = i + 1;
    }
    proof {
        lemma_no_slots(*lut);
        if lut.lut_size == 0 {
            assert forall|k: int| 0 <= k < out@.len() implies finish.ensures(
                (start,),
                #[trigger] out@[k],
            ) by {
                lemma_empty_bin(step, finish, start, Seq::<Entry>::empty(), out@[k]);
            }
        }
    }
}

/// Applies a table of `bins.0` by `bins.1` cells: as [`lut_integrate1d`], with the
/// cells in azimuthal-major order.
pub fn lut_integrate2d<T: Copy, R, F: Fn(T, Entry) -> T, G: Fn(T) -> R>(
    lut: &Lut,
    bins: (usize, usize),
    start: T,
    step: F,
    finish: G,
) -> (out: Vec<R>)
    requires
        bins.0 * bins.1 <= usize::MAX,
        lut.covers(bins.0 * bins.1),
        forall|t: T, c: Entry| #[trigger] step.requires((t, c)),
        forall|t: T| #[trigger] finish.requires((t,)),
    ensures
        out@.len() == bins.0 * bins.1,
        forall|i: int|
            0 <= i < out@.len() ==> reduces_to(
                step,
                finish,
                start,
                active(lut.row(source_cell(i, bins.0 as int, bins.1 as int))),
                #[trigger] out@[i],
            ),
        cells_reduce_to(
            step,
            finish,
            start,
            table_items(*lut),
            (bins.0 as int, bins.1 as int),
            out@,
        ),
        lut.lut_size == 0 ==> forall|i: int|
            0 <= i < out@.len() ==> reduces_to(
                step,
                finish,
                start,
                Seq::<Entry>::empty(),
                #[trigger] out@[i],
            ) && finish.ensures((start,), out@[i]),
{
    let n: usize = bins.0 * bins.1;
    let mut out: Vec<R> = Vec::new();
    let mut i: usize = 0;
    while i < n
        invariant
            i <= n == bins.0 * bins.1,
            lut.covers(n as int),
            out@.len() == i,
            forall|t: T, c: Entry| #[trigger] step.requires((t, c)),
            forall|t: T| #[trigger] finish.requires((t,)),
            forall|k: int|
                0 <= k < i ==> reduces_to(
                    step,
                    finish,
                    start,
                    active(lut.row(source_cell(k, bins.0 as int, bins.1 as int))),
                    #[trigger] out@[k],
                ),
        decreases n - i,
    {
        let b: usize = transposed_bin(i, bins.0, bins.1);
        let t: T = fold(start, &lut.gather(b), &step);
        out.push(finish(t));
        i = i + 1;
    }
    proof {
        lemma_no_slots(*lut);
        if lut.lut_size == 0 {
            assert forall|k: int| 0 <= k < out@.len() implies finish.ensures(
                (start,),
                #[trigger] out@[k],
            ) by {
                lemma_empty_bin(step, finish, start, Seq::<Entry>::empty(), out@[k]);
            }
        }
    }
    out
}

/// What the valid pixels among the first `n` contribute to bin `b`, in the order in
/// which the columns are walked: for each contribution its pixel and its coefficient.
pub open spec fn scattered_valid(csc: Csc, valid: Seq<bool>, b: int, n: int) -> Seq<Entry>
    decreases n,
{
    if n <= 0 {
        Seq::empty()
    } else if valid[n - 1] {
        scattered_valid(csc, valid, b, n - 1) + picked(csc.column(n - 1), b, n - 1)
    } else {
        scattered_valid(csc, valid, b, n - 1)
    }
}

/// Adds the contributions of one pixel up, those of its column.
fn scatter_column<T: Copy, F: Fn(T, Entry) -> T>(
    column: &Vec<Entry>,
    pixel: i32,
    acc: &mut Vec<T>,
    step: &F,
)
    requires
        0 <= pixel,
        forall|t: T, c: Entry| #[trigger] step.requires((t, c)),
        forall|k: int|
            0 <= k < column@.len() ==> 0 <= (#[trigger] column@[k]).0 < old(acc)@.len(),
    ensures
        final(acc)@.len() == old(acc)@.len(),
        forall|b: int|
            0 <= b < old(acc)@.len() ==> folds_to(
                *step,
                old(acc)@[b],
                picked(column@, b, pixel as int),
                #[trigger] final(acc)@[b],
            ),
{
    let ghost first = acc@;
    let mut k: usize = 0;
    assert(column@.take(0) =~= Seq::<Entry>::empty());
    while k < column.len()
        invariant
            0 <= pixel,
            k <= column@.len(),
            acc@.len() == first.len(),
            forall|t: T, c: Entry| #[trigger] step.requires((t, c)),
            forall|l: int| 0 <= l < column@.len() ==> 0 <= (#[trigger] column@[l]).0 < first.len(),
            forall|b: int|
                0 <= b < first.len() ==> folds_to(
                    *step,
                    first[b],
                    picked(column@.take(k as int), b, pixel as int),
                    #[trigger] acc@[b],
                ),
        decreases column@.len() - k,
    {
        let (bin, coef): Entry = column[k];
        let ghost before = acc@;
        let ghost taken = column@.take(k as int);
        proof {
            assert(column@.take(k + 1).drop_last() =~= taken);
            assert(column@.take(k + 1).last() == column@[k as int]);
        }
        let i: usize = bin as usize;
        let sum: T = step(acc[i], (pixel, coef));
        acc.set(i, sum);
        proof {
            assert forall|b: int| 0 <= b < first.len() implies folds_to(
                *step,
                first[b],
                picked(column@.take(k + 1), b, pixel as int),
                #[trigger] acc@[b],
            ) by {
                assert(folds_to(*step, first[b], picked(taken, b, pixel as int), before[b]));
                if b == bin {
                    lemma_fold_push(
                        *step,
                        first[b],
                        picked(taken, b, pixel as int),
                        before[b],
                        (pixel, coef),
                        sum,
                    );
                }
            }
        }
        k = k + 1;
    }
    assert(column@.take(column@.len() as int) =~= column@);
}

/// The sums of the `n_bins` bins of a transposed matrix: the columns of the valid
/// pixels are walked in order, and every entry is added to its bin.
pub fn csc_reduce<T: Copy, F: Fn(T, Entry) -> T>(
    csc: &Csc,
    valid: &[bool],
    n_bins: usize,
    start: T,
    step: &F,
) -> (acc: Vec<T>)
    requires
        csc.wf(valid@.len() as int),
        csc.bins_below(n_bins as int),
        valid@.len() <= i32::MAX,
        forall|t: T, c: Entry| #[trigger] step.requires((t, c)),
    ensures
        acc@.len() == n_bins,
        forall|b: int|
            0 <= b < n_bins ==> folds_to(
                *step,
                start,
                scattered_valid(*csc, valid@, b, valid@.len() as int),
                #[trigger] acc@[b],
            ),
{
    let n: usize = valid.len();
    let mut acc: Vec<T> = filled(start, n_bins);
    let mut p: usize = 0;
    while p < n
        invariant
            p <= n == valid@.len() <= i32::MAX,
            csc.wf(n as int),
            csc.bins_below(n_bins as int),
            forall|t: T, c: Entry| #[trigger] step.requires((t, c)),
            acc@.len() == n_bins,
            forall|b: int|
                0 <= b < n_bins ==> folds_to(
                    *step,
                    start,
                    scattered_valid(*csc, valid@, b, p as int),
                    #[trigger] acc@[b],
                ),
        decreases n - p,
    {
        if valid[p] {
            let ghost before = acc@;
            let column: Vec<Entry> = csc.column_of(p);
            proof {
                lemma_column_bins(*csc, n as int, n_bins as int, p as int);
            }
            scatter_column(&column, p as i32, &mut acc, step);
            proof {
                assert forall|b: int| 0 <= b < n_bins implies folds_to(
                    *step,
                    start,
                    scattered_valid(*csc, valid@, b, p + 1),
                    #[trigger] acc@[b],
                ) by {
                    assert(folds_to(
                        *step,
                        start,
                        scattered_valid(*csc, valid@, b, p as int),
                        before[b],
                    ));
                    lemma_fold_concat(
                        *step,
                        start,
                        scattered_valid(*csc, valid@, b, p as int),
                        before[b],
                        picked(column@, b, p as int),
                        acc@[b],
                    );
                }
            }
        }
        p = p + 1;
    }
    acc
}

/// The bins of a column are bins of the matrix.
proof fn lemma_column_bins(csc: Csc, n_pixels: int, n_bins: int, p: int)
    requires
        csc.wf(n_pixels),
        csc.bins_below(n_bins),
        0 <= p < n_pixels,
    ensures
        forall|k: int|
            0 <= k < csc.column(p).len() ==> 0 <= (#[trigger] csc.column(p)[k]).0 < n_bins,
{
    assert(csc.indptr@[0] <= csc.indptr@[p] <= csc.indptr@[p + 1] <= csc.indptr@[n_pixels]);
    assert forall|k: int| 0 <= k < csc.column(p).len() implies 0 <= (#[trigger] csc.column(
        p,
    )[k]).0 < n_bins by {
        assert(0 <= csc.indices@[csc.indptr@[p] + k] < n_bins);
    }
}

/// Applies a transposed matrix of `n_bins` bins, see [`csc_reduce`].
pub fn csc_integrate1d<T: Copy, R, F: Fn(T, Entry) -> T, G: Fn(T) -> R>(
    csc: &Csc,
    valid: &[bool],
    n_bins: usize,
    start: T,
    step: F,
    finish: G,
) -> (out: Vec<R>)
    requires
        csc.wf(valid@.len() as int),
        csc.bins_below(n_bins as int),
        valid@.len() <= i32::MAX,
        forall|t: T, c: Entry| #[trigger] step.requires((t, c)),
        forall|t: T| #[trigger] finish.requires((t,)),
    ensures
        out@.len() == n_bins,
        forall|b: int|
            0 <= b < n_bins ==> reduces_to(
                step,
                finish,
                start,
                scattered_valid(*csc, valid@, b, valid@.len() as int),
                #[trigger] out@[b],
            ),
        bins_reduce_to(
            step,
            finish,
            start,
            column_items(*csc, valid@),
            n_bins as int,
            out@,
        ),
{
    let acc: Vec<T> = csc_reduce(csc, valid, n_bins, start, &step);
    let out: Vec<R> = reduce_1d(&acc, &finish);
    proof {
        assert forall|b: int| 0 <= b < n_bins implies reduces_to(
            step,
            finish,
            start,
            scattered_valid(*csc, valid@, b, valid@.len() as int),
            #[trigger] out@[b],
        ) by {
            assert(finish.ensures((acc@[b],), out@[b]));
        }
    }
    out
}

/// Applies a transposed matrix of `bins.0` by `bins.1` cells: as [`csc_integrate1d`],
/// with the cells in azimuthal-major order.
pub fn csc_integrate2d<T: Copy, R, F: Fn(T, Entry) -> T, G: Fn(T) -> R>(
    csc: &Csc,
    valid: &[bool],
    bins: (usize, usize),
    start: T,
    step: F,
    finish: G,
) -> (out: Vec<R>)
    requires
        csc.wf(valid@.len() as int),
        bins.0 * bins.1 <= usize::MAX,
        csc.bins_below(bins.0 * bins.1),
        valid@.len() <= i32::MAX,
        forall|t: T, c: Entry| #[trigger] step.requires((t, c)),
        forall|t: T| #[trigger] finish.requires((t,)),
    ensures
        out@.len() == bins.0 * bins.1,
        forall|i: int|
            0 <= i < out@.len() ==> reduces_to(
                step,
                finish,
                start,
                scattered_valid(
                    *csc,
                    valid@,
                    source_cell(i, bins.0 as int, bins.1 as int),
                    valid@.len() as int,
                ),
                #[trigger] out@[i],
            ),
        cells_reduce_to(
            step,
            finish,
            start,
            column_items(*csc, valid@),
            (bins.0 as int, bins.1 as int),
            out@,
        ),
{
    let acc: Vec<T> = csc_reduce(csc, valid, bins.0 * bins.1, start, &step);
    let out: Vec<R> = reduce_2d(&acc, bins, &finish);
    proof {
        assert forall|i: int| 0 <= i < out@.len() implies reduces_to(
            step,
            finish,
            start,
            scattered_valid(
                *csc,
                valid@,
                source_cell(i, bins.0 as int, bins.1 as int),
                valid@.len() as int,
            ),
            #[trigger] out@[i],
        ) by {
            let b = source_cell(i, bins.0 as int, bins.1 as int);
            lemma_transpose_twice(i, bins.0 as int, bins.1 as int);
            assert(finish.ensures((acc@[b],), out@[i]));
        }
    }
    out
}

/// The entries of valid pixels.
pub open spec fn of_valid(row: Seq<Entry>, valid: Seq<bool>) -> Seq<Entry>
    decreases row.len(),
{
    if row.len() == 0 {
        Seq::empty()
    } else if valid[row.last().0 as int] {
        of_valid(row.drop_last(), valid).push(row.last())
    } else {
        of_valid(row.drop_last(), valid)
    }
}

proof fn lemma_of_valid_concat(a: Seq<Entry>, b: Seq<Entry>, valid: Seq<bool>)
    ensures
        of_valid(a + b, valid) == of_valid(a, valid) + of_valid(b, valid),
    decreases b.len(),
{
    if b.len() == 0 {
        assert(a + b =~= a);
    } else {
        lemma_of_valid_concat(a, b.drop_last(), valid);
        assert((a + b).drop_last() =~= a + b.drop_last());
        assert((a + b).last() == b.last());
    }
    assert(of_valid(a + b, valid) =~= of_valid(a, valid) + of_valid(b, valid));
}

proof fn lemma_of_valid_picked(column: Seq<Entry>, b: int, p: int, valid: Seq<bool>)
    requires
        0 <= p <= i32::MAX,
    ensures
        of_valid(picked(column, b, p), valid) == if valid[p] {
            picked(column, b, p)
        } else {
            Seq::empty()
        },
    decreases column.len(),
{
    if column.len() > 0 {
        lemma_of_valid_picked(column.drop_last(), b, p, valid);
        if column.last().0 == b {
            let before = picked(column.drop_last(), b, p);
            assert(picked(column, b, p).drop_last() =~= before);
        }
    }
}

proof fn lemma_scattered_valid(csc: Csc, valid: Seq<bool>, b: int, n: int)
    requires
        n <= i32::MAX + 1,
    ensures
        scattered_valid(csc, valid, b, n) == of_valid(csc.scattered(b, n), valid),
    decreases n,
{
    if n > 0 {
        lemma_scattered_valid(csc, valid, b, n - 1);
        lemma_of_valid_concat(csc.scattered(b, n - 1), picked(csc.column(n - 1), b, n - 1), valid);
        lemma_of_valid_picked(csc.column(n - 1), b, n - 1, valid);
        assert(scattered_valid(csc, valid, b, n) =~= of_valid(csc.scattered(b, n), valid));
    }
}

/// Walking the columns of the transposed matrix adds to every bin, in the same order,
/// what its row holds of valid pixels.
pub proof fn lemma_columns_add_rows(
    csr: Csr,
    csc: Csc,
    valid: Seq<bool>,
    n_bins: int,
    b: int,
)
    requires
        csr.wf(n_bins),
        csr.pixels_below(valid.len() as int),
        n_bins <= i32::MAX,
        valid.len() <= i32::MAX + 1,
        forall|p: int|
            0 <= p < valid.len() ==> #[trigger] csc.column(p) == csr.column_entries(
                n_bins,
                p,
                csr.data@.len() as int,
            ),
        0 <= b < n_bins,
        ascending(csr.row(b)),
    ensures
        scattered_valid(csc, valid, b, valid.len() as int) == of_valid(csr.row(b), valid),
{
    lemma_scattered_valid(csc, valid, b, valid.len() as int);
    lemma_scatter_equals_gather(csr, csc, n_bins, valid.len() as int, b);
}

/// A row without zero coefficients loses nothing when it is gathered.
proof fn lemma_active_all(row: Seq<Entry>)
    requires
        forall|k: int| 0 <= k < row.len() ==> counts(#[trigger] row[k]),
    ensures
        active(row) == row,
    decreases row.len(),
{
    if row.len() > 0 {
        assert forall|k: int| 0 <= k < row.drop_last().len() implies counts(
            #[trigger] row.drop_last()[k],
        ) by {
            assert(counts(row[k]));
        }
        assert(counts(row[row.len() - 1]));
        lemma_active_all(row.drop_last());
        assert(active(row) =~= row);
    }
}

/// A row of valid pixels loses nothing when the valid ones are taken.
proof fn lemma_of_valid_all(row: Seq<Entry>, valid: Seq<bool>)
    requires
        forall|k: int| 0 <= k < row.len() ==> valid[(#[trigger] row[k]).0 as int],
    ensures
        of_valid(row, valid) == row,
    decreases row.len(),
{
    if row.len() > 0 {
        assert forall|k: int| 0 <= k < row.drop_last().len() implies valid[(
        #[trigger] row.drop_last()[k]).0 as int] by {
            assert(valid[row[k].0 as int]);
        }
        assert(valid[row[row.len() - 1].0 as int]);
        lemma_of_valid_all(row.drop_last(), valid);
        assert(of_valid(row, valid) =~= row);
    }
}

/// The three engines agree: where no coefficient of a bin is zero and its pixels are
/// valid, the matrix, the table made of it and the transposed matrix add up the same
/// contributions in the same order.
pub proof fn lemma_engines_agree(
    csr: Csr,
    lut: Lut,
    csc: Csc,
    valid: Seq<bool>,
    n_bins: int,
    b: int,
)
    requires
        csr.wf(n_bins),
        csr.pixels_below(valid.len() as int),
        n_bins <= i32::MAX,
        valid.len() <= i32::MAX + 1,
        is_table_of(lut, csr, n_bins),
        lut.lut_size == widest(csr, n_bins),
        forall|p: int|
            0 <= p < valid.len() ==> #[trigger] csc.column(p) == csr.column_entries(
                n_bins,
                p,
                csr.data@.len() as int,
            ),
        0 <= b < n_bins,
        ascending(csr.row(b)),
        forall|k: int| 0 <= k < csr.row(b).len() ==> counts(#[trigger] csr.row(b)[k]),
        forall|k: int|
            0 <= k < csr.row(b).len() ==> valid[(#[trigger] csr.row(b)[k]).0 as int],
    ensures
        active(csr.row(b)) == csr.row(b),
        active(lut.row(b)) == csr.row(b),
        scattered_valid(csc, valid, b, valid.len() as int) == csr.row(b),
{
    lemma_active_all(csr.row(b));
    lemma_table_gathers_as_matrix(lut, csr, n_bins, b);
    lemma_columns_add_rows(csr, csc, valid, n_bins, b);
    lemma_of_valid_all(csr.row(b), valid);
}

/// The entry names a valid pixel and has a coefficient other than zero.
pub open spec fn takes_part(e: Entry, valid: Seq<bool>) -> bool {
    counts(e) && valid[e.0 as int]
}

/// The entries that name a valid pixel and have a coefficient other than zero.
pub open spec fn taking_part(row: Seq<Entry>, valid: Seq<bool>) -> Seq<Entry>
    decreases row.len(),
{
    if row.len() == 0 {
        Seq::empty()
    } else if takes_part(row.last(), valid) {
        taking_part(row.drop_last(), valid).push(row.last())
    } else {
        taking_part(row.drop_last(), valid)
    }
}

/// Among the sums that `kept` describes, every entry of `row` leads to another one, and
/// one that does not take part leaves the sum as it is.
pub open spec fn sums_kept<T, F: Fn(T, Entry) -> T>(
    step: F,
    kept: spec_fn(T) -> bool,
    row: Seq<Entry>,
    valid: Seq<bool>,
) -> bool {
    forall|k: int, t: T, r: T|
        0 <= k < row.len() && kept(t) && #[trigger] step.ensures((t, row[k]), r) ==> kept(r) && (
        takes_part(row[k], valid) || r == t)
}

proof fn lemma_sums_kept_before<T, F: Fn(T, Entry) -> T>(
    step: F,
    kept: spec_fn(T) -> bool,
    row: Seq<Entry>,
    valid: Seq<bool>,
)
    requires
        row.len() > 0,
        sums_kept(step, kept, row, valid),
    ensures
        sums_kept(step, kept, row.drop_last(), valid),
{
    assert forall|k: int, t: T, r: T|
        0 <= k < row.drop_last().len() && kept(t) && #[trigger] step.ensures(
            (t, row.drop_last()[k]),
            r,
        ) implies kept(r) && (takes_part(row.drop_last()[k], valid) || r == t) by {
        assert(step.ensures((t, row[k]), r));
    }
}

/// What a gathered row adds up to, the entries that take part add up to.
proof fn lemma_active_taking_part<T, F: Fn(T, Entry) -> T>(
    step: F,
    kept: spec_fn(T) -> bool,
    start: T,
    row: Seq<Entry>,
    valid: Seq<bool>,
    sum: T,
)
    requires
        kept(start),
        sums_kept(step, kept, row, valid),
        folds_to(step, start, active(row), sum),
    ensures
        kept(sum),
        folds_to(step, start, taking_part(row, valid), sum),
    decreases row.len(),
{
    if row.len() > 0 {
        let before = row.drop_last();
        let e = row.last();
        lemma_sums_kept_before(step, kept, row, valid);
        if counts(e) {
            let items = active(row);
            assert(items.drop_last() =~= active(before));
            let mid = choose|mid: T|
                folds_to(step, start, items.drop_last(), mid) && #[trigger] step.ensures(
                    (mid, items.last()),
                    sum,
                );
            lemma_active_taking_part(step, kept, start, before, valid, mid);
            assert(step.ensures((mid, row[row.len() - 1]), sum));
            if takes_part(e, valid) {
                lemma_fold_push(step, start, taking_part(before, valid), mid, e, sum);
            }
        } else {
            lemma_active_taking_part(step, kept, start, before, valid, sum);
        }
    }
}

/// What the entries of valid pixels add up to, the entries that take part add up to.
proof fn lemma_valid_taking_part<T, F: Fn(T, Entry) -> T>(
    step: F,
    kept: spec_fn(T) -> bool,
    start: T,
    row: Seq<Entry>,
    valid: Seq<bool>,
    sum: T,
)
    requires
        kept(start),
        sums_kept(step, kept, row, valid),
        folds_to(step, start, of_valid(row, valid), sum),
    ensures
        kept(sum),
        folds_to(step, start, taking_part(row, valid), sum),
    decreases row.len(),
{
    if row.len() > 0 {
        let before = row.drop_last();
        let e = row.last();
        lemma_sums_kept_before(step, kept, row, valid);
        if valid[e.0 as int] {
            let items = of_valid(row, valid);
            assert(items.drop_last() =~= of_valid(before, valid));
            let mid = choose|mid: T|
                folds_to(step, start, items.drop_last(), mid) && #[trigger] step.ensures(
                    (mid, items.last()),
                    sum,
                );
            lemma_valid_taking_part(step, kept, start, before, valid, mid);
            assert(step.ensures((mid, row[row.len() - 1]), sum));
            if takes_part(e, valid) {
                lemma_fold_push(step, start, taking_part(before, valid), mid, e, sum);
            }
        } else {
            lemma_valid_taking_part(step, kept, start, before, valid, sum);
        }
    }
}

/// The three engines give the same sums: where an entry of an invalid pixel and an entry
/// of coefficient zero leave a sum as it is, what a bin adds up to by the matrix, by the
/// table made of it and by the transposed matrix is one value. That need hold only of the
/// sums that `kept` describes, among which is the start.
pub proof fn lemma_engines_sum_alike<T, F: Fn(T, Entry) -> T>(
    csr: Csr,
    lut: Lut,
    csc: Csc,
    valid: Seq<bool>,
    n_bins: int,
    b: int,
    step: F,
    start: T,
    kept: spec_fn(T) -> bool,
    by_row: T,
    by_table: T,
    by_column: T,
)
    requires
        csr.wf(n_bins),
        csr.pixels_below(valid.len() as int),
        n_bins <= i32::MAX,
        valid.len() <= i32::MAX + 1,
        is_table_of(lut, csr, n_bins),
        lut.lut_size == widest(csr, n_bins),
        forall|p: int|
            0 <= p < valid.len() ==> #[trigger] csc.column(p) == csr.column_entries(
                n_bins,
                p,
                csr.data@.len() as int,
            ),
        0 <= b < n_bins,
        ascending(csr.row(b)),
        forall|t: T, c: Entry, x: T, y: T| #[trigger]
            step.ensures((t, c), x) && #[trigger] step.ensures((t, c), y) ==> x == y,
        kept(start),
        sums_kept(step, kept, csr.row(b), valid),
        folds_to(step, start, active(csr.row(b)), by_row),
        folds_to(step, start, active(lut.row(b)), by_table),
        folds_to(
            step,
            start,
            scattered_valid(csc, valid, b, valid.len() as int),
            by_column,
        ),
    ensures
        by_row == by_table,
        by_row == by_column,
{
    let row = csr.row(b);
    lemma_table_gathers_as_matrix(lut, csr, n_bins, b);
    lemma_fold_unique(step, start, active(row), by_row, by_table);
    lemma_columns_add_rows(csr, csc, valid, n_bins, b);
    lemma_active_taking_part(step, kept, start, row, valid, by_row);
    lemma_valid_taking_part(step, kept, start, row, valid, by_column);
    lemma_fold_unique(step, start, taking_part(row, valid), by_row, by_column);
}

/// What [`csr_integrate1d`], [`lut_integrate1d`] and [`csc_integrate1d`] return for a bin is
/// one result, see [`lemma_engines_sum_alike`].
pub proof fn lemma_engines_reduce_alike<T, R, F: Fn(T, Entry) -> T, G: Fn(T) -> R>(
    csr: Csr,
    lut: Lut,
    csc: Csc,
    valid: Seq<bool>,
    n_bins: int,
    b: int,
    step: F,
    finish: G,
    start: T,
    kept: spec_fn(T) -> bool,
    by_row: R,
    by_table: R,
    by_column: R,
)
    requires
        csr.wf(n_bins),
        csr.pixels_below(valid.len() as int),
        n_bins <= i32::MAX,
        valid.len() <= i32::MAX + 1,
        is_table_of(lut, csr, n_bins),
        lut.lut_size == widest(csr, n_bins),
        forall|p: int|
            0 <= p < valid.len() ==> #[trigger] csc.column(p) == csr.column_entries(
                n_bins,
                p,
                csr.data@.len() as int,
            ),
        0 <= b < n_bins,
        ascending(csr.row(b)),
        forall|t: T, c: Entry, x: T, y: T| #[trigger]
            step.ensures((t, c), x) && #[trigger] step.ensures((t, c), y) ==> x == y,
        forall|t: T, x: R, y: R| #[trigger]
            finish.ensures((t,), x) && #[trigger] finish.ensures((t,), y) ==> x == y,
        kept(start),
        sums_kept(step, kept, csr.row(b), valid),
        reduces_to(step, finish, start, active(csr.row(b)), by_row),
        reduces_to(step, finish, start, active(lut.row(b)), by_table),
        reduces_to(
            step,
            finish,
            start,
            scattered_valid(csc, valid, b, valid.len() as int),
            by_column,
        ),
    ensures
        by_row == by_table,
        by_row == by_column,
{
    let column = scattered_valid(csc, valid, b, valid.len() as int);
    let x = choose|t: T|
        folds_to(step, start, active(csr.row(b)), t) && #[trigger] finish.ensures((t,), by_row);
    let y = choose|t: T|
        folds_to(step, start, active(lut.row(b)), t) && #[trigger] finish.ensures((t,), by_table);
    let z = choose|t: T|
        folds_to(step, start, column, t) && #[trigger] finish.ensures((t,), by_column);
    lemma_engines_sum_alike(csr, lut, csc, valid, n_bins, b, step, start, kept, x, y, z);
}

/// A bin is given the entries of the valid pixels in it, and no others.
pub proof fn lemma_scattered_entries(csc: Csc, valid: Seq<bool>, b: int, n: int, p: int, coef: u32)
    requires
        0 <= n <= i32::MAX + 1,
        0 <= p < n,
        0 <= b <= i32::MAX,
    ensures
        scattered_valid(csc, valid, b, n).contains((p as i32, coef)) <==> valid[p] && csc.column(
            p,
        ).contains((b as i32, coef)),
        forall|k: int|
            0 <= k < scattered_valid(csc, valid, b, n).len() ==> 0 <= (#[trigger] scattered_valid(
                csc,
                valid,
                b,
                n,
            )[k]).0 < n,
    decreases n,
{
    let m = n - 1;
    let before = scattered_valid(csc, valid, b, m);
    let all = scattered_valid(csc, valid, b, n);
    let more = picked(csc.column(m), b, m);
    let e = (p as i32, coef);
    lemma_picked_entries(csc.column(m), b, m, coef);
    if m > 0 {
        lemma_scattered_entries(csc, valid, b, m, if p < m { p } else { 0 }, coef);
    }
    if before.contains(e) {
        let k = choose|k: int| 0 <= k < before.len() && before[k] == e;
        assert(all[k] == e);
        assert(0 <= before[k].0 < m);
    }
    if valid[m] && more.contains(e) {
        let k = choose|k: int| 0 <= k < more.len() && more[k] == e;
        assert(all[before.len() + k] == e);
        assert(more[k].0 == m);
    }
    if all.contains(e) {
        let k = choose|k: int| 0 <= k < all.len() && all[k] == e;
        if k < before.len() {
            assert(before[k] == e);
        } else {
            assert(more[k - before.len()] == e);
        }
    }
    assert forall|k: int| 0 <= k < all.len() implies 0 <= (#[trigger] all[k]).0 < n by {
        if k < before.len() {
            assert(all[k] == before[k]);
        } else {
            assert(all[k] == more[k - before.len()]);
        }
    }
}

proof fn lemma_picked_entries(column: Seq<Entry>, b: int, p: int, coef: u32)
    requires
        0 <= p <= i32::MAX,
        0 <= b <= i32::MAX,
    ensures
        picked(column, b, p).contains((p as i32, coef)) <==> column.contains((b as i32, coef)),
        forall|k: int|
            0 <= k < picked(column, b, p).len() ==> (#[trigger] picked(column, b, p)[k]).0 == p,
    decreases column.len(),
{
    if column.len() > 0 {
        let rest = column.drop_last();
        lemma_picked_entries(rest, b, p, coef);
        let before = picked(rest, b, p);
        let all = picked(column, b, p);
        let e = (p as i32, coef);
        let want = (b as i32, coef);
        if before.contains(e) {
            let k = choose|k: int| 0 <= k < before.len() && before[k] == e;
            assert(all[k] == e);
        }
        if rest.contains(want) {
            let k = choose|k: int| 0 <= k < rest.len() && rest[k] == want;
            assert(column[k] == want);
        }
        if column.last() == want {
            assert(all[before.len() as int] == e);
            assert(column[column.len() - 1] == want);
        }
        if all.contains(e) {
            let k = choose|k: int| 0 <= k < all.len() && all[k] == e;
            if k < before.len() {
                assert(before[k] == e);
            } else {
                assert(column[column.len() - 1] == want);
            }
        }
        if column.contains(want) {
            let k = choose|k: int| 0 <= k < column.len() && column[k] == want;
            if k < rest.len() {
                assert(rest[k] == want);
            }
        }
    }
}

proof fn lemma_active_members(entries: Seq<Entry>, e: Entry)
    ensures
        active(entries).contains(e) <==> entries.contains(e) && e.0 >= 0 && e.1 != 0 && e.1
            != 0x8000_0000,
    decreases entries.len(),
{
    if entries.len() > 0 {
        let rest = entries.drop_last();
        let last = seq![entries.last()];
        assert(rest + last =~= entries);
        lemma_active_members(rest, e);
        lemma_active_of_both(rest, last);
        lemma_active_of_one(entries.last());
        let (a, b) = (active(rest), active(last));
        if a.contains(e) {
            let k = choose|k: int| 0 <= k < a.len() && a[k] == e;
            assert((a + b)[k] == e);
        }
        if b.contains(e) {
            let k = choose|k: int| 0 <= k < b.len() && b[k] == e;
            assert((a + b)[a.len() + k] == e);
        }
        if (a + b).contains(e) {
            let k = choose|k: int| 0 <= k < (a + b).len() && (a + b)[k] == e;
            if k < a.len() {
                assert(a[k] == e);
            } else {
                assert(b[k - a.len()] == e);
            }
        }
        if rest.contains(e) {
            let k = choose|k: int| 0 <= k < rest.len() && rest[k] == e;
            assert(entries[k] == e);
        }
        if entries.contains(e) {
            let k = choose|k: int| 0 <= k < entries.len() && entries[k] == e;
            if k < rest.len() {
                assert(rest[k] == e);
            } else {
                assert(last[0] == e);
                assert(b =~= if e.0 >= 0 && e.1 != 0 && e.1 != 0x8000_0000 {
                    seq![e]
                } else {
                    Seq::<Entry>::empty()
                });
                if e.0 >= 0 && e.1 != 0 && e.1 != 0x8000_0000 {
                    assert(b[0] == e);
                }
            }
        }
        if entries.last() == e {
            assert(entries[entries.len() - 1] == e);
        }
    } else {
        assert(active(entries) == Seq::<Entry>::empty());
    }
}

/// What contributes to a bin: of a matrix and of a table the entries of its row that name a
/// pixel and whose coefficient is not zero, of a transposed matrix the entries of the valid
/// pixels that name it.
pub proof fn lemma_what_contributes(
    csr: Csr,
    lut: Lut,
    csc: Csc,
    valid: Seq<bool>,
    b: int,
    p: int,
    coef: u32,
)
    requires
        valid.len() <= i32::MAX,
        0 <= p < valid.len(),
        0 <= b <= i32::MAX,
    ensures
        ({
            let e = (p as i32, coef);
            let weighs = coef != 0 && coef != 0x8000_0000;
            &&& row_items(csr)(b).contains(e) <==> csr.row(b).contains(e) && weighs
            &&& table_items(lut)(b).contains(e) <==> lut.row(b).contains(e) && weighs
            &&& column_items(csc, valid)(b).contains(e) <==> valid[p] && csc.column(p).contains(
                (b as i32, coef),
            )
        }),
{
    let e = (p as i32, coef);
    lemma_active_members(csr.row(b), e);
    lemma_active_members(lut.row(b), e);
    lemma_scattered_entries(csc, valid, b, valid.len() as int, p, coef);
}

} // verus!
