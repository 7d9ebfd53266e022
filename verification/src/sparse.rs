//! Sparse matrices of overlap coefficients between bins and pixels.
//!
//! A matrix has one row per bin and one column per pixel. It is held row by row
//! ([`Csr`]), column by column ([`Csc`]) or as a dense table with padding
//! ([`Lut`]). Coefficients are single-precision numbers, given as bit patterns:
//! they are moved about and compared with zero, never computed here.

use crate::grid::{flat, lemma_flat_bound, lemma_flat_inverse};
use crate::ieee::{lemma_order, magnitude, zero};
use vstd::prelude::*;

verus! {

/// An entry of a row or column: the index of the pixel or bin, and the coefficient.
pub type Entry = (i32, u32);

/// A sparse matrix, row by row: for bin `b`, the entries `indptr[b]..indptr[b+1]`
/// give the contributing pixel index and the overlap coefficient.
#[derive(Debug)]
pub struct Csr {
    /// Overlap coefficients.
    pub data: Vec<u32>,
    /// Pixel indices.
    pub indices: Vec<i32>,
    /// Bin pointers, one more than there are bins.
    pub indptr: Vec<i32>,
}

/// Pointers into `nnz` entries: they start at 0, do not go back and end at `nnz`.
pub open spec fn pointers_wf(indptr: Seq<i32>, n: int, nnz: int) -> bool {
    &&& n >= 0
    &&& indptr.len() == n + 1
    &&& indptr[0] == 0
    &&& indptr[n] == nnz
    &&& forall|i: int, j: int| 0 <= i <= j <= n ==> #[trigger] indptr[i] <= #[trigger] indptr[j]
}

/// The entries between two positions.
pub open spec fn entries_between(indices: Seq<i32>, data: Seq<u32>, lo: int, hi: int) -> Seq<
    Entry,
> {
    Seq::new(
        (if hi > lo {
            hi - lo
        } else {
            0
        }) as nat,
        |k: int| (indices[lo + k], data[lo + k]),
    )
}

impl Csr {
    /// The matrix has `n_bins` rows.
    pub open spec fn wf(&self, n_bins: int) -> bool {
        &&& pointers_wf(self.indptr@, n_bins, self.data@.len() as int)
        &&& self.indices@.len() == self.data@.len()
    }

    /// The pixels are numbered below `n_pixels`.
    pub open spec fn pixels_below(&self, n_pixels: int) -> bool {
        forall|k: int|
            0 <= k < self.indices@.len() ==> 0 <= #[trigger] self.indices@[k] < n_pixels
    }

    /// The entries of bin `b`.
    pub open spec fn row(&self, b: int) -> Seq<Entry> {
        entries_between(
            self.indices@,
            self.data@,
            self.indptr@[b] as int,
            self.indptr@[b + 1] as int,
        )
    }
}

/// Tests [`pointers_wf`].
fn check_pointers(indptr: &Vec<i32>, n: usize, nnz: usize) -> (b: bool)
    ensures
        b == pointers_wf(indptr@, n as int, nnz as int),
{
    if indptr.len() == 0 || indptr.len() - 1 != n {
        return false;
    }
    if indptr[0] != 0 || indptr[n] < 0 || indptr[n] as usize != nnz {
        return false;
    }
    let mut i: usize = 0;
    while i < n
        invariant
            i <= n,
            indptr@.len() == n + 1,
            forall|j: int, k: int|
                0 <= j <= k <= i ==> #[trigger] indptr@[j] <= #[trigger] indptr@[k],
        decreases n - i,
    {
        if indptr[i] > indptr[i + 1] {
            return false;
        }
        i = i + 1;
    }
    true
}

impl Csr {
    /// Tests [`Csr::wf`].
    pub fn check(&self, n_bins: usize) -> (b: bool)
        ensures
            b == self.wf(n_bins as int),
    {
        self.indices.len() == self.data.len() && check_pointers(
            &self.indptr,
            n_bins,
            self.data.len(),
        )
    }

    /// Tests [`Csr::pixels_below`].
    pub fn check_pixels(&self, n_pixels: usize) -> (b: bool)
        ensures
            b == self.pixels_below(n_pixels as int),
    {
        let mut k: usize = 0;
        while k < self.indices.len()
            invariant
                k <= self.indices@.len(),
                forall|j: int| 0 <= j < k ==> 0 <= #[trigger] self.indices@[j] < n_pixels,
            decreases self.indices@.len() - k,
        {
            if self.indices[k] < 0 || self.indices[k] as usize >= n_pixels {
                return false;
            }
            k = k + 1;
        }
        true
    }
}

/// How many entries the first `n` lists hold.
pub open spec fn total_entries(lists: Seq<Seq<Entry>>, n: int) -> int
    decreases n,
{
    if n <= 0 {
        0
    } else {
        total_entries(lists, n - 1) + lists[n - 1].len()
    }
}

/// The lists of entries, one per bin.
pub open spec fn lists_view(lists: Seq<Vec<Entry>>) -> Seq<Seq<Entry>> {
    Seq::new(lists.len(), |b: int| lists[b]@)
}

/// Later totals are not smaller.
proof fn lemma_total_monotone(lists: Seq<Seq<Entry>>, i: int, j: int)
    requires
        i <= j,
    ensures
        0 <= total_entries(lists, i) <= total_entries(lists, j),
    decreases j,
{
    if i < j && j > 0 {
        lemma_total_monotone(lists, i, j - 1);
    } else if i == j && i > 0 {
        lemma_total_monotone(lists, i - 1, i - 1);
    }
}

/// Flattens the lists of entries of the bins into a matrix. Within each bin the
/// entries keep their order.
pub fn flatten_csr(lists: &Vec<Vec<Entry>>) -> (csr: Csr)
    requires
        total_entries(lists_view(lists@), lists@.len() as int) <= i32::MAX,
    ensures
        csr.wf(lists@.len() as int),
        forall|b: int| 0 <= b < lists@.len() ==> #[trigger] csr.row(b) == lists@[b]@,
{
    let ghost rows = lists_view(lists@);
    let ghost n = lists@.len() as int;
    let mut data: Vec<u32> = Vec::new();
    let mut indices: Vec<i32> = Vec::new();
    let mut indptr: Vec<i32> = vec![0i32];
    let mut b: usize = 0;
    while b < lists.len()
        invariant
            n == lists@.len(),
            rows == lists_view(lists@),
            total_entries(rows, n) <= i32::MAX,
            b <= n,
            indptr@.len() == b + 1,
            indptr@[0] == 0,
            data@.len() == indices@.len() == total_entries(rows, b as int),
            forall|i: int| 0 <= i <= b ==> #[trigger] indptr@[i] == total_entries(rows, i),
            forall|i: int, k: int|
                0 <= i < b && 0 <= k < rows[i].len() ==> #[trigger] rows[i][k] == (
                    indices@[total_entries(rows, i) + k],
                    data@[total_entries(rows, i) + k],
                ),
        decreases n - b,
    {
        let list: &Vec<Entry> = &lists[b];
        let ghost start = total_entries(rows, b as int);
        let mut k: usize = 0;
        proof {
            lemma_total_monotone(rows, b + 1, n);
            lemma_total_monotone(rows, b as int, b + 1);
        }
        while k < list.len()
            invariant
                n == lists@.len(),
                rows == lists_view(lists@),
                b < n,
                list@ == rows[b as int],
                k <= list@.len(),
                0 <= start == total_entries(rows, b as int),
                data@.len() == indices@.len() == start + k,
                forall|i: int, l: int|
                    0 <= i < b && 0 <= l < rows[i].len() ==> #[trigger] rows[i][l] == (
                        indices@[total_entries(rows, i) + l],
                        data@[total_entries(rows, i) + l],
                    ),
                forall|l: int|
                    0 <= l < k ==> #[trigger] rows[b as int][l] == (
                        indices@[start + l],
                        data@[start + l],
                    ),
            decreases list@.len() - k,
        {
            let (i, c): Entry = list[k];
            proof {
                assert forall|p: int, l: int| 0 <= p < b && 0 <= l < rows[p].len() implies #[trigger] rows[p][l]
                    == (
                    indices@.push(i)[total_entries(rows, p) + l],
                    data@.push(c)[total_entries(rows, p) + l],
                ) by {
                    lemma_total_monotone(rows, p + 1, b as int);
                    lemma_total_monotone(rows, p, p + 1);
                }
            }
            assert(rows[b as int][k as int] == (i, c));
            indices.push(i);
            data.push(c);
            k = k + 1;
        }
        let last: i32 = indptr[b];
        indptr.push(last + list.len() as i32);
        b = b + 1;
    }
    let csr = Csr { data, indices, indptr };
    proof {
        assert forall|i: int, j: int| 0 <= i <= j <= n implies #[trigger] csr.indptr@[i]
            <= #[trigger] csr.indptr@[j] by {
            lemma_total_monotone(rows, i, j);
        }
        assert forall|i: int| 0 <= i < n implies #[trigger] csr.row(i) == lists@[i]@ by {
            assert(csr.indptr@[i + 1] == total_entries(rows, i + 1));
            assert(csr.indptr@[i] == total_entries(rows, i));
            assert forall|k: int| 0 <= k < rows[i].len() implies csr.row(i)[k] == rows[i][k] by {
                assert(rows[i][k] == (
                    csr.indices@[total_entries(rows, i) + k],
                    csr.data@[total_entries(rows, i) + k],
                ));
            }
            assert(csr.row(i) =~= rows[i]);
        }
    }
    csr
}

/// A sparse matrix, column by column: for pixel `p`, the entries
/// `indptr[p]..indptr[p+1]` give the contributing bin and the overlap coefficient.
#[derive(Debug)]
pub struct Csc {
    /// Overlap coefficients.
    pub data: Vec<u32>,
    /// Bin indices.
    pub indices: Vec<i32>,
    /// Pixel pointers, one more than there are pixels.
    pub indptr: Vec<i32>,
}

impl Csc {
    /// The matrix has `n_pixels` columns.
    pub open spec fn wf(&self, n_pixels: int) -> bool {
        &&& pointers_wf(self.indptr@, n_pixels, self.data@.len() as int)
        &&& self.indices@.len() == self.data@.len()
    }

    /// The entries of pixel `p`.
    pub open spec fn column(&self, p: int) -> Seq<Entry> {
        entries_between(
            self.indices@,
            self.data@,
            self.indptr@[p] as int,
            self.indptr@[p + 1] as int,
        )
    }
}

/// The last of the rows `0..=b` that starts at or before entry `k`.
pub open spec fn row_of(indptr: Seq<i32>, k: int, b: int) -> int
    decreases b,
{
    if b <= 0 || indptr[b] <= k {
        b
    } else {
        row_of(indptr, k, b - 1)
    }
}

/// The row that entry `k` lies in.
proof fn lemma_row_of(indptr: Seq<i32>, n: int, nnz: int, k: int, row: int, b: int)
    requires
        pointers_wf(indptr, n, nnz),
        0 <= row <= b < n,
        indptr[row] <= k < indptr[row + 1],
    ensures
        row_of(indptr, k, b) == row,
    decreases b,
{
    if row < b {
        assert(indptr[row + 1] <= indptr[b]);
        lemma_row_of(indptr, n, nnz, k, row, b - 1);
    }
}

impl Csr {
    /// What the first `k` entries contribute to column `p`, in order: for each entry
    /// of pixel `p` its bin and its coefficient.
    pub open spec fn column_entries(&self, n_bins: int, p: int, k: int) -> Seq<Entry>
        decreases k,
    {
        if k <= 0 {
            Seq::empty()
        } else if self.indices@[k - 1] == p {
            self.column_entries(n_bins, p, k - 1).push(
                (row_of(self.indptr@, k - 1, n_bins - 1) as i32, self.data@[k - 1]),
            )
        } else {
            self.column_entries(n_bins, p, k - 1)
        }
    }

    /// How many of the first `k` entries lie in the columns before `p`.
    spec fn entries_before(&self, p: int, k: int) -> int
        decreases k,
    {
        if k <= 0 {
            0
        } else {
            self.entries_before(p, k - 1) + if self.indices@[k - 1] < p {
                1int
            } else {
                0
            }
        }
    }

    /// The columns before `p + 1` are those before `p` and column `p`.
    proof fn lemma_before_step(&self, n_bins: int, p: int, k: int)
        ensures
            self.entries_before(p + 1, k) == self.entries_before(p, k) + self.column_entries(
                n_bins,
                p,
                k,
            ).len(),
            0 <= self.entries_before(p, k),
        decreases k,
    {
        if k > 0 {
            self.lemma_before_step(n_bins, p, k - 1);
        }
    }

    /// All entries lie in the columns below the number of pixels, none before column 0.
    proof fn lemma_before_ends(&self, n_pixels: int, k: int)
        requires
            self.pixels_below(n_pixels),
            k <= self.indices@.len(),
        ensures
            self.entries_before(0, k) == 0,
            0 <= k ==> self.entries_before(n_pixels, k) == k,
        decreases k,
    {
        if k > 0 {
            self.lemma_before_ends(n_pixels, k - 1);
            assert(0 <= self.indices@[k - 1] < n_pixels);
        }
    }

    /// The number of entries before a column grows with the column and with the
    /// entries looked at.
    proof fn lemma_before_monotone(&self, p: int, q: int, k: int, m: int)
        requires
            p <= q,
            k <= m,
        ensures
            0 <= self.entries_before(p, k) <= self.entries_before(q, m),
        decreases m,
    {
        if m > 0 {
            if k == m {
                self.lemma_before_monotone(p, q, k - 1, m - 1);
            } else {
                self.lemma_before_monotone(p, q, k, m - 1);
            }
        }
    }

    /// What has been found of a column is the head of the whole column.
    proof fn lemma_column_prefix(&self, n_bins: int, p: int, k: int, m: int)
        requires
            k <= m,
        ensures
            self.column_entries(n_bins, p, k).len() <= self.column_entries(n_bins, p, m).len(),
            forall|i: int|
                0 <= i < self.column_entries(n_bins, p, k).len() ==> self.column_entries(
                    n_bins,
                    p,
                    k,
                )[i] == #[trigger] self.column_entries(n_bins, p, m)[i],
        decreases m,
    {
        if k < m && m > 0 {
            self.lemma_column_prefix(n_bins, p, k, m - 1);
        }
    }
}

/// Where each column starts: the number of entries in the columns before it.
fn column_starts(csr: &Csr, n_pixels: usize, Ghost(n_bins): Ghost<int>) -> (indptr: Vec<i32>)
    requires
        csr.wf(n_bins),
        csr.pixels_below(n_pixels as int),
        n_pixels < usize::MAX,
        csr.data@.len() <= i32::MAX,
    ensures
        indptr@.len() == n_pixels + 1,
        forall|p: int|
            0 <= p <= n_pixels ==> #[trigger] indptr@[p] == csr.entries_before(
                p,
                csr.data@.len() as int,
            ),
{
    let nnz: usize = csr.data.len();
    let mut indptr: Vec<i32> = vec![0i32;n_pixels + 1];
    let mut k: usize = 0;
    while k < nnz
        invariant
            nnz == csr.data@.len() <= i32::MAX,
            k <= nnz,
            csr.wf(n_bins),
            csr.pixels_below(n_pixels as int),
            indptr@.len() == n_pixels + 1,
            forall|p: int|
                0 <= p < n_pixels ==> 0 <= #[trigger] indptr@[p] <= k && indptr@[p]
                    == csr.column_entries(n_bins, p, k as int).len(),
        decreases nnz - k,
    {
        let col: usize = csr.indices[k] as usize;
        indptr[col] = indptr[col] + 1;
        k = k + 1;
    }
    let ghost counts = indptr@;
    let mut cumsum: i32 = 0;
    let mut p: usize = 0;
    proof {
        csr.lemma_before_ends(n_pixels as int, nnz as int);
    }
    while p < n_pixels
        invariant
            nnz == csr.data@.len() <= i32::MAX,
            csr.wf(n_bins),
            csr.pixels_below(n_pixels as int),
            p <= n_pixels,
            indptr@.len() == n_pixels + 1,
            counts.len() == n_pixels + 1,
            forall|q: int|
                0 <= q < n_pixels ==> #[trigger] counts[q] == csr.column_entries(
                    n_bins,
                    q,
                    nnz as int,
                ).len(),
            cumsum == csr.entries_before(p as int, nnz as int),
            csr.entries_before(n_pixels as int, nnz as int) == nnz,
            forall|q: int|
                0 <= q < p ==> #[trigger] indptr@[q] == csr.entries_before(q, nnz as int),
            forall|q: int| p <= q < n_pixels ==> #[trigger] indptr@[q] == counts[q],
        decreases n_pixels - p,
    {
        proof {
            csr.lemma_before_step(n_bins, p as int, nnz as int);
            csr.lemma_before_monotone(p + 1, n_pixels as int, nnz as int, nnz as int);
        }
        let count: i32 = indptr[p];
        indptr[p] = cumsum;
        cumsum = cumsum + count;
        p = p + 1;
    }
    indptr[n_pixels] = nnz as i32;
    indptr
}

/// Transposes a matrix of `n_bins` rows and `n_pixels` columns. Within each column
/// the bins come in ascending order; the coefficients are the same, permuted.
pub fn csr_to_csc(csr: &Csr, n_bins: usize, n_pixels: usize) -> (csc: Csc)
    requires
        csr.wf(n_bins as int),
        csr.pixels_below(n_pixels as int),
        n_pixels < usize::MAX,
        n_bins <= i32::MAX,
    ensures
        csc.wf(n_pixels as int),
        forall|p: int|
            0 <= p < n_pixels ==> #[trigger] csc.column(p) == csr.column_entries(
                n_bins as int,
                p,
                csr.data@.len() as int,
            ),
        csc.bins_below(n_bins as int),
{
    let nnz: usize = csr.data.len();
    let ghost nb = n_bins as int;
    let indptr: Vec<i32> = column_starts(csr, n_pixels, Ghost(nb));
    let mut indices: Vec<i32> = vec![0i32;nnz];
    let mut data: Vec<u32> = vec![0u32;nnz];
    let mut next: Vec<i32> = indptr.clone();
    let mut row: usize = 0;
    let mut jj: usize = 0;
    assert(next@ =~= indptr@);
    while row < n_bins
        invariant
            nnz == csr.data@.len() <= i32::MAX,
            nb == n_bins <= i32::MAX,
            csr.wf(nb),
            csr.pixels_below(n_pixels as int),
            row <= n_bins,
            jj == csr.indptr@[row as int],
            indptr@.len() == n_pixels + 1,
            next@.len() == n_pixels + 1,
            indices@.len() == nnz,
            data@.len() == nnz,
            forall|p: int|
                0 <= p <= n_pixels ==> #[trigger] indptr@[p] == csr.entries_before(p, nnz as int),
            forall|p: int|
                0 <= p < n_pixels ==> #[trigger] next@[p] == indptr@[p] + csr.column_entries(
                    nb,
                    p,
                    jj as int,
                ).len(),
            forall|p: int, i: int|
                0 <= p < n_pixels && 0 <= i < csr.column_entries(nb, p, jj as int).len() ==> (
                #[trigger] csr.column_entries(nb, p, jj as int)[i]) == (
                    indices@[indptr@[p] + i],
                    data@[indptr@[p] + i],
                ),
        decreases n_bins - row,
    {
        let hi: usize = csr.indptr[row + 1] as usize;
        proof {
            assert(csr.indptr@[row as int] <= csr.indptr@[row + 1] <= csr.indptr@[nb]);
        }
        while jj < hi
            invariant
                nnz == csr.data@.len() <= i32::MAX,
                nb == n_bins <= i32::MAX,
                csr.wf(nb),
                csr.pixels_below(n_pixels as int),
                row < n_bins,
                csr.indptr@[row as int] <= jj <= hi <= nnz,
                hi == csr.indptr@[row + 1],
                indptr@.len() == n_pixels + 1,
                next@.len() == n_pixels + 1,
                indices@.len() == nnz,
                data@.len() == nnz,
                forall|p: int|
                    0 <= p <= n_pixels ==> #[trigger] indptr@[p] == csr.entries_before(
                        p,
                        nnz as int,
                    ),
                forall|p: int|
                    0 <= p < n_pixels ==> #[trigger] next@[p] == indptr@[p] + csr.column_entries(
                        nb,
                        p,
                        jj as int,
                    ).len(),
                forall|p: int, i: int|
                    0 <= p < n_pixels && 0 <= i < csr.column_entries(nb, p, jj as int).len() ==> (
                    #[trigger] csr.column_entries(nb, p, jj as int)[i]) == (
                        indices@[indptr@[p] + i],
                        data@[indptr@[p] + i],
                    ),
            decreases hi - jj,
        {
            let col: usize = csr.indices[jj] as usize;
            let ghost c = col as int;
            let ghost k = jj as int;
            let ghost indices0 = indices@;
            let ghost data0 = data@;
            proof {
                assert(0 <= csr.indices@[k] < n_pixels);
                csr.lemma_column_prefix(nb, c, k + 1, nnz as int);
                csr.lemma_before_step(nb, c, nnz as int);
                csr.lemma_before_monotone(c + 1, n_pixels as int, nnz as int, nnz as int);
                csr.lemma_before_ends(n_pixels as int, nnz as int);
                lemma_row_of(csr.indptr@, nb, nnz as int, k, row as int, nb - 1);
            }
            let dest: usize = next[col] as usize;
            indices[dest] = row as i32;
            data[dest] = csr.data[jj];
            next[col] = next[col] + 1;
            proof {
                assert forall|p: int, i: int|
                    0 <= p < n_pixels && 0 <= i < csr.column_entries(nb, p, k + 1).len() implies (
                #[trigger] csr.column_entries(nb, p, k + 1)[i]) == (
                    indices@[indptr@[p] + i],
                    data@[indptr@[p] + i],
                ) by {
                    csr.lemma_column_prefix(nb, p, k + 1, nnz as int);
                    csr.lemma_before_step(nb, p, nnz as int);
                    csr.lemma_before_monotone(p + 1, n_pixels as int, nnz as int, nnz as int);
                    assert(indptr@[p] == csr.entries_before(p, nnz as int));
                    assert(0 <= indptr@[p] + i < nnz);
                    assert(indptr@[c] == csr.entries_before(c, nnz as int));
                    if p == c {
                        if i < csr.column_entries(nb, p, k).len() {
                            assert(csr.column_entries(nb, p, k)[i] == (
                                indices0[indptr@[p] + i],
                                data0[indptr@[p] + i],
                            ));
                            assert(indptr@[p] + i != dest);
                        } else {
                            assert(indptr@[p] + i == dest);
                            assert(csr.column_entries(nb, p, k + 1)[i] == (
                                row as i32,
                                csr.data@[k],
                            ));
                        }
                    } else {
                        if p < c {
                            csr.lemma_before_monotone(p + 1, c, nnz as int, nnz as int);
                        } else {
                            csr.lemma_before_monotone(c + 1, p, nnz as int, nnz as int);
                        }
                        assert(indptr@[p] + i != dest);
                        assert(csr.column_entries(nb, p, k)[i] == (
                            indices0[indptr@[p] + i],
                            data0[indptr@[p] + i],
                        ));
                    }
                }
            }
            jj = jj + 1;
        }
        row = row + 1;
    }
    let csc = Csc { data, indices, indptr };
    proof {
        csr.lemma_before_ends(n_pixels as int, nnz as int);
        assert forall|p: int, q: int| 0 <= p <= q <= n_pixels implies #[trigger] csc.indptr@[p]
            <= #[trigger] csc.indptr@[q] by {
            csr.lemma_before_monotone(p, q, nnz as int, nnz as int);
        }
        assert forall|p: int| 0 <= p < n_pixels implies #[trigger] csc.column(p)
            == csr.column_entries(nb, p, nnz as int) by {
            csr.lemma_before_step(nb, p, nnz as int);
            assert(csc.indptr@[p] == csr.entries_before(p, nnz as int));
            assert(csc.indptr@[p + 1] == csr.entries_before(p + 1, nnz as int));
            let want = csr.column_entries(nb, p, nnz as int);
            assert forall|i: int| 0 <= i < want.len() implies csc.column(p)[i] == want[i] by {
                assert(want[i] == (csc.indices@[csc.indptr@[p] + i], csc.data@[csc.indptr@[p] + i]));
            }
            assert(csc.column(p) =~= want);
        }
    }
    proof {
        lemma_transposed_bins(*csr, csc, nb, n_pixels as int);
    }
    csc
}

/// A dense look-up table of overlap coefficients, row-major over bins and slots:
/// bin `b` holds the slots `b * lut_size .. (b + 1) * lut_size` of `coef` and `idx`.
/// Real entries occupy the leading slots of each row, the trailing slots are
/// padding (index 0, coefficient 0).
#[derive(Debug)]
pub struct Lut {
    /// Overlap coefficients.
    pub coef: Vec<u32>,
    /// Pixel indices.
    pub idx: Vec<i32>,
    /// Slots per bin.
    pub lut_size: usize,
    /// For each bin the number of slots up to the last one that is not padding, as
    /// [`Lut::new`] finds it.
    pub sizes: Vec<i32>,
}

/// The slot holds neither a pixel index nor a coefficient.
pub open spec fn is_padding(idx: i32, coef: u32) -> bool {
    idx == 0 && magnitude(coef) == 0
}

/// `size` is the position just past the last slot of row `b` that is not padding.
pub open spec fn is_trimmed_size(
    coef: Seq<u32>,
    idx: Seq<i32>,
    lut_size: int,
    b: int,
    size: int,
) -> bool {
    &&& 0 <= size <= lut_size
    &&& forall|c: int|
        size <= c < lut_size ==> is_padding(
            #[trigger] idx[flat(b, c, lut_size)],
            coef[flat(b, c, lut_size)],
        )
    &&& size > 0 ==> !is_padding(
        idx[flat(b, size - 1, lut_size)],
        coef[flat(b, size - 1, lut_size)],
    )
}

impl Lut {
    /// The table holds `n_bins` rows, and their sizes are those of the data.
    pub open spec fn wf(&self, n_bins: int) -> bool {
        &&& self.sizes@.len() == n_bins
        &&& n_bins * self.lut_size <= self.coef@.len()
        &&& n_bins * self.lut_size <= self.idx@.len()
        &&& forall|b: int|
            0 <= b < n_bins ==> is_trimmed_size(
                self.coef@,
                self.idx@,
                self.lut_size as int,
                b,
                #[trigger] self.sizes@[b] as int,
            )
    }

    /// The table has `n_bins` bins: as many rows, or no slots at all where every bin is
    /// empty.
    pub open spec fn covers(&self, n_bins: int) -> bool {
        if self.lut_size == 0 {
            self.coef@.len() == 0
        } else {
            self.coef@.len() == n_bins * self.lut_size && self.wf(n_bins)
        }
    }

    /// The table of the given row-major slots. A table without slots stands for any number
    /// of empty bins.
    pub fn new(coef: Vec<u32>, idx: Vec<i32>, lut_size: usize) -> (lut: Self)
        requires
            lut_size <= i32::MAX,
            lut_size > 0 ==> (coef@.len() / lut_size as nat) * lut_size <= idx@.len(),
        ensures
            lut.coef@ == coef@,
            lut.idx@ == idx@,
            lut.lut_size == lut_size,
            lut.wf(
                if lut_size == 0 {
                    0
                } else {
                    coef@.len() as int / lut_size as int
                },
            ),
            lut_size == 0 && coef@.len() == 0 ==> forall|n: int| #[trigger] lut.covers(n),
            lut_size > 0 ==> forall|n: int|
                coef@.len() == n * lut_size ==> #[trigger] lut.covers(n),
    {
        let n_bins: usize = if lut_size == 0 {
            0
        } else {
            coef.len() / lut_size
        };
        proof {
            if lut_size > 0 {
                crate::grid::lemma_flat_of(coef@.len() as int, lut_size as int);
            }
        }
        let mut sizes: Vec<i32> = Vec::new();
        let mut b: usize = 0;
        while b < n_bins
            invariant
                b <= n_bins,
                lut_size <= i32::MAX,
                b < n_bins ==> lut_size > 0,
                n_bins * lut_size <= coef@.len(),
                n_bins * lut_size <= idx@.len(),
                sizes@.len() == b,
                forall|i: int|
                    0 <= i < b ==> is_trimmed_size(
                        coef@,
                        idx@,
                        lut_size as int,
                        i,
                        #[trigger] sizes@[i] as int,
                    ),
            decreases n_bins - b,
        {
            let size: usize = trimmed_size(&coef, &idx, lut_size, b, Ghost(n_bins as int));
            sizes.push(size as i32);
            b = b + 1;
        }
        let lut = Lut { coef, idx, lut_size, sizes };
        proof {
            assert forall|n: int|
                lut_size > 0 && coef@.len() == n * lut_size implies #[trigger] lut.covers(n) by {
                lemma_flat_inverse(n, 0, lut_size as int);
            }
        }
        lut
    }
}

/// Finds the size of row `b`, scanning from its end back to the last slot that is
/// not padding.
fn trimmed_size(
    coef: &Vec<u32>,
    idx: &Vec<i32>,
    lut_size: usize,
    b: usize,
    Ghost(n_bins): Ghost<int>,
) -> (size: usize)
    requires
        b < n_bins,
        lut_size > 0,
        n_bins * lut_size <= coef@.len(),
        n_bins * lut_size <= idx@.len(),
    ensures
        is_trimmed_size(coef@, idx@, lut_size as int, b as int, size as int),
{
    let n: usize = coef.len();
    let mut size: usize = lut_size;
    proof {
        lemma_flat_bound(b as int, 0, n_bins, lut_size as int);
    }
    let row: usize = b * lut_size;
    while size > 0
        invariant_except_break
            size <= lut_size,
        invariant
            n == coef@.len(),
            b < n_bins,
            lut_size > 0,
            row == b * lut_size,
            n_bins * lut_size <= coef@.len(),
            n_bins * lut_size <= idx@.len(),
            size <= lut_size,
            forall|c: int|
                size <= c < lut_size ==> is_padding(
                    #[trigger] idx@[flat(b as int, c, lut_size as int)],
                    coef@[flat(b as int, c, lut_size as int)],
                ),
        ensures
            is_trimmed_size(coef@, idx@, lut_size as int, b as int, size as int),
        decreases size,
    {
        proof {
            lemma_flat_bound(b as int, size - 1, n_bins, lut_size as int);
        }
        if idx[row + (size - 1)] != 0 || !zero(coef[row + (size - 1)]) {
            break ;
        }
        size = size - 1;
    }
    size
}

/// The number of entries of the longest of the first `n` rows.
pub open spec fn widest(csr: Csr, n: int) -> int
    decreases n,
{
    if n <= 0 {
        0
    } else if csr.row(n - 1).len() > widest(csr, n - 1) {
        csr.row(n - 1).len() as int
    } else {
        widest(csr, n - 1)
    }
}

/// No row is longer than the longest.
pub proof fn lemma_widest(csr: Csr, n: int, b: int)
    requires
        0 <= b < n,
    ensures
        csr.row(b).len() <= widest(csr, n),
    decreases n,
{
    if b < n - 1 {
        lemma_widest(csr, n - 1, b);
    }
}

/// `lut` holds the rows of `csr` in its leading slots and zeros behind them.
pub open spec fn is_table_of(lut: Lut, csr: Csr, n_bins: int) -> bool {
    &&& lut.coef@.len() == n_bins * lut.lut_size
    &&& lut.idx@.len() == n_bins * lut.lut_size
    &&& forall|b: int, c: int|
        0 <= b < n_bins && 0 <= c < lut.lut_size ==> ({
            let at = #[trigger] flat(b, c, lut.lut_size as int);
            (lut.idx@[at], lut.coef@[at]) == if c < csr.row(b).len() {
                csr.row(b)[c]
            } else {
                (0i32, 0u32)
            }
        })
}

/// Converts a matrix into the dense table. The width of the table is the largest
/// number of entries of a bin; the entries of each bin are copied into the leading
/// slots of its row, in their order.
pub fn csr_to_lut(csr: &Csr, n_bins: usize) -> (lut: Lut)
    requires
        csr.wf(n_bins as int),
        n_bins * widest(*csr, n_bins as int) <= usize::MAX,
    ensures
        lut.lut_size == widest(*csr, n_bins as int),
        is_table_of(lut, *csr, n_bins as int),
        lut.covers(n_bins as int),
{
    let nnz: usize = csr.data.len();
    let ghost nb = n_bins as int;
    let mut lut_size: usize = 0;
    let mut b: usize = 0;
    while b < n_bins
        invariant
            nb == n_bins,
            csr.wf(nb),
            b <= n_bins,
            lut_size == widest(*csr, b as int),
            lut_size <= i32::MAX,
        decreases n_bins - b,
    {
        proof {
            assert(csr.indptr@[b as int] <= csr.indptr@[b + 1]);
            assert(0 == csr.indptr@[0] <= csr.indptr@[b as int]);
        }
        let size: usize = (csr.indptr[b + 1] - csr.indptr[b]) as usize;
        assert(csr.row(b as int).len() == size);
        if size > lut_size {
            lut_size = size;
        }
        b = b + 1;
    }
    let ghost w = lut_size as int;
    let total: usize = n_bins * lut_size;
    let mut coef: Vec<u32> = vec![0u32;total];
    let mut idx: Vec<i32> = vec![0i32;total];
    proof {
        assert forall|i: int, c: int| 0 <= i < nb && 0 <= c < w implies ({
            let at = #[trigger] flat(i, c, w);
            (idx@[at], coef@[at]) == (0i32, 0u32)
        }) by {
            lemma_flat_bound(i, c, nb, w);
        }
    }
    let mut b: usize = 0;
    while b < n_bins
        invariant
            nb == n_bins,
            w == lut_size,
            csr.wf(nb),
            nnz == csr.data@.len(),
            w == widest(*csr, nb),
            b <= n_bins,
            total == n_bins * lut_size,
            coef@.len() == total,
            idx@.len() == total,
            forall|i: int, c: int|
                0 <= i < nb && 0 <= c < w ==> ({
                    let at = #[trigger] flat(i, c, w);
                    (idx@[at], coef@[at]) == if i < b && c < csr.row(i).len() {
                        csr.row(i)[c]
                    } else {
                        (0i32, 0u32)
                    }
                }),
        decreases n_bins - b,
    {
        proof {
            assert(csr.indptr@[b as int] <= csr.indptr@[b + 1] <= csr.indptr@[nb]);
            assert(0 == csr.indptr@[0] <= csr.indptr@[b as int]);
            lemma_widest(*csr, nb, b as int);
        }
        let lo: usize = csr.indptr[b] as usize;
        let hi: usize = csr.indptr[b + 1] as usize;
        let mut col: usize = 0;
        while col < hi - lo
            invariant
                nb == n_bins,
                w == lut_size,
                csr.wf(nb),
                nnz == csr.data@.len(),
                b < n_bins,
                lo <= hi <= nnz,
                lo == csr.indptr@[b as int],
                hi == csr.indptr@[b + 1],
                hi - lo <= w,
                col <= hi - lo,
                total == n_bins * lut_size,
                coef@.len() == total,
                idx@.len() == total,
                forall|i: int, c: int|
                    0 <= i < nb && 0 <= c < w ==> ({
                        let at = #[trigger] flat(i, c, w);
                        (idx@[at], coef@[at]) == if (i < b || (i == b && c < col)) && c < csr.row(
                            i,
                        ).len() {
                            csr.row(i)[c]
                        } else {
                            (0i32, 0u32)
                        }
                    }),
            decreases hi - lo - col,
        {
            let ghost idx0 = idx@;
            let ghost coef0 = coef@;
            proof {
                lemma_flat_bound(b as int, col as int, nb, w);
            }
            let at: usize = b * lut_size + col;
            idx[at] = csr.indices[lo + col];
            coef[at] = csr.data[lo + col];
            proof {
                assert forall|i: int, c: int| 0 <= i < nb && 0 <= c < w implies ({
                    let at = #[trigger] flat(i, c, w);
                    (idx@[at], coef@[at]) == if (i < b || (i == b && c < col + 1)) && c < csr.row(
                        i,
                    ).len() {
                        csr.row(i)[c]
                    } else {
                        (0i32, 0u32)
                    }
                }) by {
                    lemma_flat_inverse(i, c, w);
                    lemma_flat_inverse(b as int, col as int, w);
                    lemma_flat_bound(i, c, nb, w);
                    let there = flat(i, c, w);
                    if there != at {
                        assert(idx@[there] == idx0[there] && coef@[there] == coef0[there]);
                    }
                }
            }
            col = col + 1;
        }
        b = b + 1;
    }
    proof {
        if lut_size > 0 {
            lemma_flat_inverse(nb, 0, w);
        }
    }
    Lut::new(coef, idx, lut_size)
}

/// The entry names a pixel and has a coefficient other than zero.
pub open spec fn counts(e: Entry) -> bool {
    e.0 >= 0 && magnitude(e.1) != 0
}

/// The entries that contribute, in their order.
pub open spec fn active(entries: Seq<Entry>) -> Seq<Entry>
    decreases entries.len(),
{
    if entries.len() == 0 {
        Seq::empty()
    } else if counts(entries.last()) {
        active(entries.drop_last()).push(entries.last())
    } else {
        active(entries.drop_last())
    }
}

/// Entries that do not count add nothing.
proof fn lemma_active_tail(a: Seq<Entry>, b: Seq<Entry>)
    requires
        forall|k: int| 0 <= k < b.len() ==> !counts(#[trigger] b[k]),
    ensures
        active(a + b) == active(a),
    decreases b.len(),
{
    if b.len() == 0 {
        assert(a + b =~= a);
    } else {
        assert((a + b).drop_last() =~= a + b.drop_last());
        assert((a + b).last() == b.last());
        assert(!counts(b[b.len() - 1]));
        assert forall|k: int| 0 <= k < b.drop_last().len() implies !counts(
            #[trigger] b.drop_last()[k],
        ) by {
            assert(!counts(b[k]));
        }
        lemma_active_tail(a, b.drop_last());
    }
}

impl Csr {
    /// The contributions to bin `bin`, in the order in which they are added up.
    pub fn gather(&self, bin: usize) -> (out: Vec<Entry>)
        requires
            self.wf(self.indptr@.len() - 1),
            bin < self.indptr@.len() - 1,
        ensures
            out@ == active(self.row(bin as int)),
    {
        let ghost n_bins = self.indptr@.len() - 1;
        let pointers: usize = self.indptr.len();
        proof {
            assert(0 == self.indptr@[0] <= self.indptr@[bin as int]);
            assert(self.indptr@[bin as int] <= self.indptr@[bin + 1] <= self.indptr@[n_bins]);
        }
        let nnz: usize = self.data.len();
        let lo: usize = self.indptr[bin] as usize;
        let hi: usize = self.indptr[bin + 1] as usize;
        let ghost row = self.row(bin as int);
        let mut out: Vec<Entry> = Vec::new();
        let mut j: usize = lo;
        assert(row.take(0) =~= Seq::<Entry>::empty());
        while j < hi
            invariant
                lo <= j <= hi <= nnz,
                nnz == self.data@.len() == self.indices@.len(),
                row == entries_between(self.indices@, self.data@, lo as int, hi as int),
                out@ == active(row.take(j - lo)),
            decreases hi - j,
        {
            let idx: i32 = self.indices[j];
            let coef: u32 = self.data[j];
            proof {
                let k = j - lo;
                assert(row.take(k + 1).drop_last() =~= row.take(k));
                assert(row.take(k + 1).last() == (idx, coef));
            }
            if idx >= 0 && !zero(coef) {
                out.push((idx, coef));
            }
            j = j + 1;
        }
        assert(row.take(hi - lo) =~= row);
        out
    }
}

impl Lut {
    /// All slots of bin `b`.
    pub open spec fn row(&self, b: int) -> Seq<Entry> {
        Seq::new(
            self.lut_size as nat,
            |c: int|
                (
                    self.idx@[flat(b, c, self.lut_size as int)],
                    self.coef@[flat(b, c, self.lut_size as int)],
                ),
        )
    }

    /// The contributions to bin `bin`, in the order in which they are added up. Only
    /// the leading slots of the row are looked at; the ones behind them are padding
    /// and contribute nothing. In a table without slots every bin is empty.
    pub fn gather(&self, bin: usize) -> (out: Vec<Entry>)
        requires
            self.lut_size > 0 ==> self.wf(self.sizes@.len() as int) && bin < self.sizes@.len(),
        ensures
            out@ == active(self.row(bin as int)),
    {
        if self.lut_size == 0 {
            return Vec::new();
        }
        let ghost n_bins = self.sizes@.len() as int;
        let ghost w = self.lut_size as int;
        let ghost b = bin as int;
        let ghost row = self.row(b);
        let n: usize = self.coef.len();
        proof {
            assert(is_trimmed_size(self.coef@, self.idx@, w, b, self.sizes@[b] as int));
        }
        let size: usize = self.sizes[bin] as usize;
        let mut out: Vec<Entry> = Vec::new();
        let mut c: usize = 0;
        assert(row.take(0) =~= Seq::<Entry>::empty());
        while c < size
            invariant
                c <= size <= w,
                n == self.coef@.len(),
                w == self.lut_size,
                b == bin < n_bins,
                n_bins * w <= self.coef@.len(),
                n_bins * w <= self.idx@.len(),
                row == self.row(b),
                out@ == active(row.take(c as int)),
            decreases size - c,
        {
            proof {
                lemma_flat_bound(b, c as int, n_bins, w);
            }
            let at: usize = bin * self.lut_size + c;
            let idx: i32 = self.idx[at];
            let coef: u32 = self.coef[at];
            proof {
                assert(row.take(c + 1).drop_last() =~= row.take(c as int));
                assert(row.take(c + 1).last() == (idx, coef));
            }
            if idx >= 0 && !zero(coef) {
                out.push((idx, coef));
            }
            c = c + 1;
        }
        proof {
            let head = row.take(size as int);
            let tail = row.subrange(size as int, w);
            assert(row =~= head + tail);
            assert forall|k: int| 0 <= k < tail.len() implies !counts(#[trigger] tail[k]) by {
                assert(is_padding(self.idx@[flat(b, size + k, w)], self.coef@[flat(b, size + k, w)]));
            }
            lemma_active_tail(head, tail);
        }
        out
    }
}

/// The table gives every bin the same contributions, in the same order, as the
/// matrix it was made of.
pub proof fn lemma_table_gathers_as_matrix(lut: Lut, csr: Csr, n_bins: int, b: int)
    requires
        csr.wf(n_bins),
        is_table_of(lut, csr, n_bins),
        lut.lut_size == widest(csr, n_bins),
        0 <= b < n_bins,
    ensures
        active(lut.row(b)) == active(csr.row(b)),
{
    lemma_widest(csr, n_bins, b);
    let row = csr.row(b);
    let tail = lut.row(b).subrange(row.len() as int, lut.lut_size as int);
    assert(lut.row(b) =~= row + tail) by {
        assert forall|c: int| 0 <= c < row.len() implies lut.row(b)[c] == row[c] by {
            let at = flat(b, c, lut.lut_size as int);
            assert((lut.idx@[at], lut.coef@[at]) == row[c]);
        }
    }
    assert forall|k: int| 0 <= k < tail.len() implies !counts(#[trigger] tail[k]) by {
        let at = flat(b, row.len() + k, lut.lut_size as int);
        assert((lut.idx@[at], lut.coef@[at]) == (0i32, 0u32));
    }
    lemma_active_tail(row, tail);
}

impl Csc {
    /// The matrix has `n_bins` bins: every entry names one of them.
    pub open spec fn bins_below(&self, n_bins: int) -> bool {
        forall|k: int|
            0 <= k < self.indices@.len() ==> 0 <= #[trigger] self.indices@[k] < n_bins
    }

    /// Tests [`Csc::bins_below`].
    pub fn check_bins(&self, n_bins: usize) -> (b: bool)
        ensures
            b == self.bins_below(n_bins as int),
    {
        let mut k: usize = 0;
        while k < self.indices.len()
            invariant
                k <= self.indices@.len(),
                forall|i: int| 0 <= i < k ==> 0 <= #[trigger] self.indices@[i] < n_bins,
            decreases self.indices@.len() - k,
        {
            if self.indices[k] < 0 || self.indices[k] as usize >= n_bins {
                return false;
            }
            k = k + 1;
        }
        true
    }

    /// Tests [`Csc::wf`].
    pub fn check(&self, n_pixels: usize) -> (b: bool)
        ensures
            b == self.wf(n_pixels as int),
    {
        self.indices.len() == self.data.len() && check_pointers(
            &self.indptr,
            n_pixels,
            self.data.len(),
        )
    }

    /// The bins that pixel `p` contributes to, with the coefficients, in the order
    /// in which the contributions are added.
    pub fn column_of(&self, p: usize) -> (out: Vec<Entry>)
        requires
            self.wf(self.indptr@.len() - 1),
            p < self.indptr@.len() - 1,
        ensures
            out@ == self.column(p as int),
    {
        let ghost n_pixels = self.indptr@.len() - 1;
        let pointers: usize = self.indptr.len();
        proof {
            assert(0 == self.indptr@[0] <= self.indptr@[p as int]);
            assert(self.indptr@[p as int] <= self.indptr@[p + 1] <= self.indptr@[n_pixels]);
        }
        let nnz: usize = self.data.len();
        let lo: usize = self.indptr[p] as usize;
        let hi: usize = self.indptr[p + 1] as usize;
        let ghost column = self.column(p as int);
        let mut out: Vec<Entry> = Vec::new();
        let mut j: usize = lo;
        while j < hi
            invariant
                lo <= j <= hi <= nnz,
                nnz == self.data@.len() == self.indices@.len(),
                column == entries_between(self.indices@, self.data@, lo as int, hi as int),
                out@ =~= column.take(j - lo),
            decreases hi - j,
        {
            out.push((self.indices[j], self.data[j]));
            j = j + 1;
        }
        assert(out@ =~= column);
        out
    }

    /// What the first `n` columns contribute to bin `b`, in the order in which the
    /// columns are walked: for each contribution its pixel and its coefficient.
    pub open spec fn scattered(&self, b: int, n: int) -> Seq<Entry>
        decreases n,
    {
        if n <= 0 {
            Seq::empty()
        } else {
            self.scattered(b, n - 1) + picked(self.column(n - 1), b, n - 1)
        }
    }
}

/// The entries with index `i`, their index replaced by `j`.
pub open spec fn picked(entries: Seq<Entry>, i: int, j: int) -> Seq<Entry>
    decreases entries.len(),
{
    if entries.len() == 0 {
        Seq::empty()
    } else if entries.last().0 == i {
        picked(entries.drop_last(), i, j).push((j as i32, entries.last().1))
    } else {
        picked(entries.drop_last(), i, j)
    }
}

/// The pixels of a row come in strictly ascending order.
pub open spec fn ascending(row: Seq<Entry>) -> bool {
    forall|i: int, j: int| 0 <= i < j < row.len() ==> (#[trigger] row[i]).0 < (#[trigger] row[j]).0
}

/// What the first entries of column `p` give bin `b` is what the first entries of
/// row `b` give pixel `p`.
proof fn lemma_picked_both_ways(csr: Csr, n_bins: int, p: int, b: int, k: int)
    requires
        csr.wf(n_bins),
        n_bins <= i32::MAX,
        0 <= b < n_bins,
        0 <= p <= i32::MAX,
        0 <= k <= csr.data@.len(),
    ensures
        ({
            let lo = csr.indptr@[b] as int;
            let hi = csr.indptr@[b + 1] as int;
            let upto = if k < lo {
                lo
            } else if k > hi {
                hi
            } else {
                k
            };
            picked(csr.column_entries(n_bins, p, k), b, p) == picked(
                entries_between(csr.indices@, csr.data@, lo, upto),
                p,
                p,
            )
        }),
    decreases k,
{
    let lo = csr.indptr@[b] as int;
    let hi = csr.indptr@[b + 1] as int;
    assert(csr.indptr@[0] <= csr.indptr@[b] <= csr.indptr@[b + 1]);
    if k > 0 {
        lemma_picked_both_ways(csr, n_bins, p, b, k - 1);
        let e = k - 1;
        let before = csr.column_entries(n_bins, p, e);
        let after = csr.column_entries(n_bins, p, k);
        let row = row_of(csr.indptr@, e, n_bins - 1);
        lemma_row_of_holds(csr.indptr@, n_bins, csr.data@.len() as int, e, n_bins - 1);
        if csr.indices@[e] == p {
            assert(after.drop_last() =~= before);
        }
        if lo <= e < hi {
            lemma_row_of(csr.indptr@, n_bins, csr.data@.len() as int, e, b, n_bins - 1);
            let part = entries_between(csr.indices@, csr.data@, lo, k);
            assert(part.drop_last() =~= entries_between(csr.indices@, csr.data@, lo, e));
        } else {
            assert(row != b);
        }
    }
}

/// The row found for an entry holds it.
pub proof fn lemma_row_of_holds(indptr: Seq<i32>, n: int, nnz: int, k: int, b: int)
    requires
        pointers_wf(indptr, n, nnz),
        0 <= k < nnz,
        0 <= b < n,
        k < indptr[b + 1],
    ensures
        0 <= row_of(indptr, k, b) <= b,
        indptr[row_of(indptr, k, b)] <= k < indptr[row_of(indptr, k, b) + 1],
    decreases b,
{
    if b > 0 && indptr[b] > k {
        lemma_row_of_holds(indptr, n, nnz, k, b - 1);
    }
}

/// The entries of a row, pixel by pixel.
spec fn by_pixel(row: Seq<Entry>, n: int) -> Seq<Entry>
    decreases n,
{
    if n <= 0 {
        Seq::empty()
    } else {
        by_pixel(row, n - 1) + picked(row, n - 1, n - 1)
    }
}

/// No entry is picked for a pixel that does not occur.
proof fn lemma_picked_none(row: Seq<Entry>, p: int, j: int)
    requires
        forall|k: int| 0 <= k < row.len() ==> (#[trigger] row[k]).0 != p,
    ensures
        picked(row, p, j) == Seq::<Entry>::empty(),
    decreases row.len(),
{
    if row.len() > 0 {
        assert(row[row.len() - 1].0 != p);
        assert forall|k: int| 0 <= k < row.drop_last().len() implies (
        #[trigger] row.drop_last()[k]).0 != p by {
            assert(row[k].0 != p);
        }
        lemma_picked_none(row.drop_last(), p, j);
    }
}

/// Pixel by pixel, an entry of a pixel not yet reached changes nothing.
proof fn lemma_by_pixel_before(row: Seq<Entry>, n: int)
    requires
        row.len() > 0,
        row.last().0 >= n,
    ensures
        by_pixel(row, n) == by_pixel(row.drop_last(), n),
    decreases n,
{
    if n > 0 {
        lemma_by_pixel_before(row, n - 1);
    }
}

/// An ascending row, taken pixel by pixel, is itself.
proof fn lemma_by_pixel_ascending(row: Seq<Entry>, n: int)
    requires
        ascending(row),
        forall|k: int| 0 <= k < row.len() ==> 0 <= (#[trigger] row[k]).0 < n,
        n <= i32::MAX + 1,
    ensures
        by_pixel(row, n) == row,
    decreases row.len(), n,
{
    if n <= 0 {
        if row.len() > 0 {
            assert(0 <= row[0].0 < n);
        }
        assert(row =~= Seq::<Entry>::empty());
    } else if row.len() == 0 || row.last().0 < n - 1 {
        assert forall|k: int| 0 <= k < row.len() implies 0 <= (#[trigger] row[k]).0 < n - 1 by {
            if k < row.len() - 1 {
                assert(row[k].0 < row[row.len() - 1].0);
            }
        }
        lemma_by_pixel_ascending(row, n - 1);
        lemma_picked_none(row, n - 1, n - 1);
        assert(by_pixel(row, n) =~= row);
    } else {
        let rest = row.drop_last();
        assert(row[row.len() - 1].0 == n - 1);
        assert forall|k: int| 0 <= k < rest.len() implies 0 <= (#[trigger] rest[k]).0 < n - 1 by {
            assert(row[k].0 < row[row.len() - 1].0);
        }
        lemma_by_pixel_ascending(rest, n - 1);
        lemma_by_pixel_before(row, n - 1);
        lemma_picked_none(rest, n - 1, n - 1);
        assert(picked(row, n - 1, n - 1) =~= seq![row.last()]);
        assert(by_pixel(row, n) =~= row);
    }
}

/// What the columns give bin `b`, walked in order, is what its row gives, pixel by
/// pixel.
proof fn lemma_scattered_by_pixel(csr: Csr, csc: Csc, n_bins: int, n_pixels: int, b: int, n: int)
    requires
        csr.wf(n_bins),
        n_bins <= i32::MAX,
        forall|p: int|
            0 <= p < n_pixels ==> #[trigger] csc.column(p) == csr.column_entries(
                n_bins,
                p,
                csr.data@.len() as int,
            ),
        0 <= b < n_bins,
        n <= n_pixels <= i32::MAX + 1,
    ensures
        csc.scattered(b, n) == by_pixel(csr.row(b), n),
    decreases n,
{
    if n > 0 {
        lemma_scattered_by_pixel(csr, csc, n_bins, n_pixels, b, n - 1);
        let p = n - 1;
        assert(csc.column(p) == csr.column_entries(n_bins, p, csr.data@.len() as int));
        lemma_picked_both_ways(csr, n_bins, p, b, csr.data@.len() as int);
        assert(csr.indptr@[b + 1] <= csr.indptr@[n_bins]);
    }
}

/// Walking the columns of the transposed matrix gives every bin the same
/// contributions, in the same order, as its row does, when the row lists its
/// pixels in ascending order.
pub proof fn lemma_scatter_equals_gather(csr: Csr, csc: Csc, n_bins: int, n_pixels: int, b: int)
    requires
        csr.wf(n_bins),
        csr.pixels_below(n_pixels),
        n_bins <= i32::MAX,
        n_pixels <= i32::MAX + 1,
        forall|p: int|
            0 <= p < n_pixels ==> #[trigger] csc.column(p) == csr.column_entries(
                n_bins,
                p,
                csr.data@.len() as int,
            ),
        0 <= b < n_bins,
        ascending(csr.row(b)),
    ensures
        csc.scattered(b, n_pixels) == csr.row(b),
{
    lemma_scattered_by_pixel(csr, csc, n_bins, n_pixels, b, n_pixels);
    assert(csr.indptr@[0] <= csr.indptr@[b] <= csr.indptr@[b + 1] <= csr.indptr@[n_bins]);
    assert forall|k: int| 0 <= k < csr.row(b).len() implies 0 <= (#[trigger] csr.row(b)[k]).0
        < n_pixels by {
        assert(0 <= csr.indices@[csr.indptr@[b] + k] < n_pixels);
    }
    lemma_by_pixel_ascending(csr.row(b), n_pixels);
}

/// Within a column of the transposed matrix the bins do not go back.
pub proof fn lemma_columns_are_sorted(csr: Csr, n_bins: int, p: int, i: int, j: int)
    requires
        csr.wf(n_bins),
        0 < n_bins <= i32::MAX,
        0 <= i <= j < csr.column_entries(n_bins, p, csr.data@.len() as int).len(),
    ensures
        0 <= csr.column_entries(n_bins, p, csr.data@.len() as int)[i].0 <= csr.column_entries(
            n_bins,
            p,
            csr.data@.len() as int,
        )[j].0 < n_bins,
{
    lemma_columns_sorted_upto(csr, n_bins, p, csr.data@.len() as int);
}

/// The entries of the transposed matrix name bins of the matrix.
proof fn lemma_transposed_bins(csr: Csr, csc: Csc, n_bins: int, n_pixels: int)
    requires
        csr.wf(n_bins),
        n_bins <= i32::MAX,
        csc.wf(n_pixels),
        csc.data@.len() == csr.data@.len(),
        csr.pixels_below(n_pixels),
        forall|p: int|
            0 <= p < n_pixels ==> #[trigger] csc.column(p) == csr.column_entries(
                n_bins,
                p,
                csr.data@.len() as int,
            ),
    ensures
        csc.bins_below(n_bins),
{
    let nnz = csc.data@.len() as int;
    assert forall|k: int| 0 <= k < csc.indices@.len() implies 0 <= #[trigger] csc.indices@[k]
        < n_bins by {
        assert(0 <= csr.indices@[k] < n_pixels);
        lemma_row_of_holds(csc.indptr@, n_pixels, nnz, k, n_pixels - 1);
        let p = row_of(csc.indptr@, k, n_pixels - 1);
        let i = k - csc.indptr@[p];
        assert(csc.column(p)[i].0 == csc.indices@[k]);
        if n_bins == 0 {
            assert(csr.indptr@[0] == csr.data@.len());
        }
        lemma_columns_are_sorted(csr, n_bins, p, i, i);
    }
}

proof fn lemma_columns_sorted_upto(csr: Csr, n_bins: int, p: int, k: int)
    requires
        csr.wf(n_bins),
        0 < n_bins <= i32::MAX,
        0 <= k <= csr.data@.len(),
    ensures
        ({
            let col = csr.column_entries(n_bins, p, k);
            &&& forall|i: int, j: int|
                0 <= i <= j < col.len() ==> (#[trigger] col[i]).0 <= (#[trigger] col[j]).0
            &&& forall|i: int|
                0 <= i < col.len() ==> 0 <= (#[trigger] col[i]).0 < n_bins && csr.indptr@[col[i].0 as int]
                    < k
        }),
    decreases k,
{
    if k > 0 {
        lemma_columns_sorted_upto(csr, n_bins, p, k - 1);
        lemma_row_of_holds(csr.indptr@, n_bins, csr.data@.len() as int, k - 1, n_bins - 1);
        let row = row_of(csr.indptr@, k - 1, n_bins - 1);
        let before = csr.column_entries(n_bins, p, k - 1);
        let col = csr.column_entries(n_bins, p, k);
        assert forall|i: int, j: int| 0 <= i <= j < col.len() implies (#[trigger] col[i]).0 <= (
        #[trigger] col[j]).0 by {
            if i < before.len() {
                assert(col[i] == before[i]);
                if j == before.len() {
                    // An entry of a later row would start after entry `k - 1`.
                    if before[i].0 > row {
                        assert(csr.indptr@[row + 1] <= csr.indptr@[before[i].0 as int]);
                    }
                } else {
                    assert(col[j] == before[j]);
                }
            }
        }
        assert forall|i: int| 0 <= i < col.len() implies 0 <= (#[trigger] col[i]).0 < n_bins
            && csr.indptr@[col[i].0 as int] < k by {
            if i < before.len() {
                assert(col[i] == before[i]);
            }
        }
    }
}

/// What contributes of two lists in turn is what contributes of the first, then what
/// contributes of the second.
pub proof fn lemma_active_of_both(a: Seq<Entry>, b: Seq<Entry>)
    ensures
        active(a + b) == active(a) + active(b),
    decreases b.len(),
{
    if b.len() == 0 {
        assert(a + b =~= a);
        assert(active(a) + active(b) =~= active(a));
    } else {
        assert((a + b).drop_last() =~= a + b.drop_last());
        assert((a + b).last() == b.last());
        lemma_active_of_both(a, b.drop_last());
        assert(active(a + b) =~= active(a) + active(b));
    }
}

/// An entry contributes where it names a pixel and its coefficient is neither of the zeros.
pub proof fn lemma_active_of_one(e: Entry)
    ensures
        active(seq![e]) == if e.0 >= 0 && e.1 != 0 && e.1 != 0x8000_0000 {
            seq![e]
        } else {
            Seq::<Entry>::empty()
        },
{
    lemma_order(e.1, 0);
    assert(seq![e].drop_last() =~= Seq::<Entry>::empty());
    assert(active(Seq::<Entry>::empty()) == Seq::<Entry>::empty());
    assert(active(seq![e]) =~= if e.0 >= 0 && e.1 != 0 && e.1 != 0x8000_0000 {
        seq![e]
    } else {
        Seq::<Entry>::empty()
    });
}

/// Some row is as long as the longest.
pub proof fn lemma_widest_is_reached(csr: Csr, n: int)
    ensures
        0 <= widest(csr, n),
        widest(csr, n) > 0 ==> exists|b: int|
            0 <= b < n && (#[trigger] csr.row(b)).len() == widest(csr, n),
    decreases n,
{
    if n > 0 {
        lemma_widest_is_reached(csr, n - 1);
        if csr.row(n - 1).len() <= widest(csr, n - 1) && widest(csr, n) > 0 {
            let b = choose|b: int|
                0 <= b < n - 1 && (#[trigger] csr.row(b)).len() == widest(csr, n - 1);
            assert(csr.row(b).len() == widest(csr, n));
        }
    }
}

proof fn lemma_column_holds(csr: Csr, n_bins: int, p: int, k: int, b: int, coef: u32)
    requires
        csr.wf(n_bins),
        0 <= k <= csr.data@.len(),
        0 <= b < n_bins <= i32::MAX,
    ensures
        csr.column_entries(n_bins, p, k).contains((b as i32, coef)) <==> exists|j: int|
            0 <= j < k && csr.indptr@[b] <= j < csr.indptr@[b + 1] && #[trigger] csr.indices@[j]
                == p && csr.data@[j] == coef,
    decreases k,
{
    if k > 0 {
        lemma_column_holds(csr, n_bins, p, k - 1, b, coef);
        let before = csr.column_entries(n_bins, p, k - 1);
        let all = csr.column_entries(n_bins, p, k);
        let e = (b as i32, coef);
        let at = k - 1;
        let row = row_of(csr.indptr@, at, n_bins - 1);
        lemma_row_of_holds(csr.indptr@, n_bins, csr.data@.len() as int, at, n_bins - 1);
        if csr.indptr@[b] <= at < csr.indptr@[b + 1] {
            lemma_row_of(csr.indptr@, n_bins, csr.data@.len() as int, at, b, n_bins - 1);
        }
        if before.contains(e) {
            let i = choose|i: int| 0 <= i < before.len() && before[i] == e;
            assert(all[i] == e);
        }
        if csr.indices@[at] == p && row == b && csr.data@[at] == coef {
            assert(all[before.len() as int] == e);
        }
        if all.contains(e) {
            let i = choose|i: int| 0 <= i < all.len() && all[i] == e;
            if i < before.len() {
                assert(before[i] == e);
            } else {
                assert(csr.indices@[at] == p);
            }
        }
    }
}

/// A transposed matrix has the entries of the matrix: pixel `p` has an entry for bin `b`
/// where bin `b` has one for pixel `p`, with the same coefficient.
pub proof fn lemma_transpose_entries(csr: Csr, n_bins: int, p: int, b: int, coef: u32)
    requires
        csr.wf(n_bins),
        0 <= p <= i32::MAX,
        0 <= b < n_bins <= i32::MAX,
    ensures
        csr.column_entries(n_bins, p, csr.data@.len() as int).contains((b as i32, coef))
            <==> csr.row(b).contains((p as i32, coef)),
{
    lemma_column_holds(csr, n_bins, p, csr.data@.len() as int, b, coef);
    let row = csr.row(b);
    let (lo, hi) = (csr.indptr@[b] as int, csr.indptr@[b + 1] as int);
    assert(csr.indptr@[0] <= csr.indptr@[b] <= csr.indptr@[b + 1] <= csr.indptr@[n_bins]);
    if row.contains((p as i32, coef)) {
        let k = choose|k: int| 0 <= k < row.len() && row[k] == (p as i32, coef);
        assert(csr.indices@[lo + k] == p && csr.data@[lo + k] == coef);
    }
    if exists|j: int|
        0 <= j < csr.data@.len() && lo <= j < hi && #[trigger] csr.indices@[j] == p && csr.data@[j]
            == coef {
        let j = choose|j: int|
            0 <= j < csr.data@.len() && lo <= j < hi && #[trigger] csr.indices@[j] == p
                && csr.data@[j] == coef;
        assert(row[j - lo] == (p as i32, coef));
    }
}

} // verus!
