//! What the host does with the results and the tables of a device: the values are
//! single-precision bit patterns that are picked out, reordered and handed on.

use crate::grid::{flat, lemma_flat_bound};
use crate::histogram::{source_cell, transposed_bin};
use vstd::prelude::*;

verus! {

/// Output of a device run, one value per bin. For two dimensions a bin is a cell,
/// radial-major. `merged8` holds eight lanes per bin.
#[derive(Debug)]
pub struct PipelineOutput {
    /// Average intensity.
    pub intensity: Vec<u32>,
    /// Standard deviation.
    pub std: Vec<u32>,
    /// Standard error of the mean.
    pub sem: Vec<u32>,
    /// The sums of each bin, eight lanes to a bin: signal, variance, normalization and
    /// count in the even lanes, the squared normalization in the last one.
    pub merged8: Vec<u32>,
}

/// One-dimensional result, one value per radial bin.
#[derive(Debug)]
pub struct Result1d {
    /// Average intensity.
    pub intensity: Vec<u32>,
    /// Standard deviation.
    pub std: Vec<u32>,
    /// Standard error of the mean.
    pub sem: Vec<u32>,
    /// Sum of the signal.
    pub signal: Vec<u32>,
    /// Sum of the variance.
    pub variance: Vec<u32>,
    /// Sum of the normalization.
    pub normalization: Vec<u32>,
    /// Number of pixels.
    pub count: Vec<u32>,
    /// Sum of the squared normalization.
    pub norm_sq: Vec<u32>,
}

/// Two-dimensional result, each field azimuthal-major.
#[derive(Debug)]
pub struct Result2d {
    /// Average intensity.
    pub intensity: Vec<u32>,
    /// Standard deviation.
    pub std: Vec<u32>,
    /// Standard error of the mean.
    pub sem: Vec<u32>,
    /// Sum of the signal.
    pub signal: Vec<u32>,
    /// Sum of the variance.
    pub variance: Vec<u32>,
    /// Sum of the normalization.
    pub normalization: Vec<u32>,
    /// Number of pixels.
    pub count: Vec<u32>,
    /// Sum of the squared normalization.
    pub norm_sq: Vec<u32>,
}

/// Every `stride`-th value, starting at `lane`.
pub open spec fn lane_of(values: Seq<u32>, bins: int, stride: int, lane: int) -> Seq<u32> {
    Seq::new(bins as nat, |b: int| values[stride * b + lane])
}

/// A radial-major field of `bins_rad` by `bins_azim` cells in azimuthal-major order.
pub open spec fn azim_rad(v: Seq<u32>, bins_rad: int, bins_azim: int) -> Seq<u32> {
    Seq::new((bins_rad * bins_azim) as nat, |t: int| v[source_cell(t, bins_rad, bins_azim)])
}

/// Picks lane `c` of the eight lanes of each bin.
pub fn merged_col(merged8: &[u32], bins: usize, c: usize) -> (out: Vec<u32>)
    requires
        c < 8,
        8 * bins <= merged8@.len(),
    ensures
        out@ == lane_of(merged8@, bins as int, 8, c as int),
{
    let n: usize = merged8.len();
    let mut out: Vec<u32> = Vec::new();
    let mut b: usize = 0;
    while b < bins
        invariant
            n == merged8@.len(),
            c < 8,
            8 * bins <= n,
            b <= bins,
            out@.len() == b,
            forall|k: int| 0 <= k < b ==> #[trigger] out@[k] == merged8@[8 * k + c],
        decreases bins - b,
    {
        out.push(merged8[8 * b + c]);
        b = b + 1;
    }
    assert(out@ =~= lane_of(merged8@, bins as int, 8, c as int));
    out
}

/// Takes the first of the two lanes of each bin.
pub fn high_lane(histo: &[u32], bins: usize) -> (out: Vec<u32>)
    requires
        2 * bins <= histo@.len(),
    ensures
        out@ == lane_of(histo@, bins as int, 2, 0),
{
    let n: usize = histo.len();
    let mut out: Vec<u32> = Vec::new();
    let mut b: usize = 0;
    while b < bins
        invariant
            n == histo@.len(),
            2 * bins <= n,
            b <= bins,
            out@.len() == b,
            forall|k: int| 0 <= k < b ==> #[trigger] out@[k] == histo@[2 * k],
        decreases bins - b,
    {
        out.push(histo[2 * b]);
        b = b + 1;
    }
    assert(out@ =~= lane_of(histo@, bins as int, 2, 0));
    out
}

/// Reorders a radial-major field into azimuthal-major order.
pub fn transpose_u32_to_azim_rad(v: &[u32], bins_rad: usize, bins_azim: usize) -> (out: Vec<u32>)
    requires
        bins_rad * bins_azim <= v@.len(),
    ensures
        out@ == azim_rad(v@, bins_rad as int, bins_azim as int),
{
    let n: usize = v.len();
    let total: usize = bins_rad * bins_azim;
    let mut out: Vec<u32> = Vec::new();
    let mut t: usize = 0;
    while t < total
        invariant
            n == v@.len(),
            total == bins_rad * bins_azim <= n,
            t <= total,
            out@.len() == t,
            forall|k: int|
                0 <= k < t ==> #[trigger] out@[k] == v@[source_cell(
                    k,
                    bins_rad as int,
                    bins_azim as int,
                )],
        decreases total - t,
    {
        out.push(v[transposed_bin(t, bins_rad, bins_azim)]);
        t = t + 1;
    }
    assert(out@ =~= azim_rad(v@, bins_rad as int, bins_azim as int));
    out
}

/// Reorders a radial-major field of single-precision patterns, see
/// [`transpose_u32_to_azim_rad`].
pub fn transpose_to_azim_rad(v: &[u32], bins_rad: usize, bins_azim: usize) -> (out: Vec<u32>)
    requires
        bins_rad * bins_azim <= v@.len(),
    ensures
        out@ == azim_rad(v@, bins_rad as int, bins_azim as int),
{
    transpose_u32_to_azim_rad(v, bins_rad, bins_azim)
}

/// `r` is the output of a device run as a one-dimensional result.
pub open spec fn packs_1d(out: PipelineOutput, r: Result1d) -> bool {
    let n = out.intensity@.len() as int;
    &&& r.intensity@ == out.intensity@
    &&& r.std@ == out.std@
    &&& r.sem@ == out.sem@
    &&& r.signal@ == lane_of(out.merged8@, n, 8, 0)
    &&& r.variance@ == lane_of(out.merged8@, n, 8, 2)
    &&& r.normalization@ == lane_of(out.merged8@, n, 8, 4)
    &&& r.count@ == lane_of(out.merged8@, n, 8, 6)
    &&& r.norm_sq@ == lane_of(out.merged8@, n, 8, 7)
}

/// `r` is the output of a device run as a two-dimensional result.
pub open spec fn packs_2d(out: PipelineOutput, nr: int, na: int, r: Result2d) -> bool {
    let n = out.intensity@.len() as int;
    &&& r.intensity@ == azim_rad(out.intensity@, nr, na)
    &&& r.std@ == azim_rad(out.std@, nr, na)
    &&& r.sem@ == azim_rad(out.sem@, nr, na)
    &&& r.signal@ == azim_rad(lane_of(out.merged8@, n, 8, 0), nr, na)
    &&& r.variance@ == azim_rad(lane_of(out.merged8@, n, 8, 2), nr, na)
    &&& r.normalization@ == azim_rad(lane_of(out.merged8@, n, 8, 4), nr, na)
    &&& r.count@ == azim_rad(lane_of(out.merged8@, n, 8, 6), nr, na)
    &&& r.norm_sq@ == azim_rad(lane_of(out.merged8@, n, 8, 7), nr, na)
}

/// Packages the output of a device run as a one-dimensional result.
pub fn pack_1d(out: PipelineOutput) -> (r: Result1d)
    requires
        8 * out.intensity@.len() <= out.merged8@.len(),
    ensures
        r.intensity@ == out.intensity@,
        r.std@ == out.std@,
        r.sem@ == out.sem@,
        r.signal@ == lane_of(out.merged8@, out.intensity@.len() as int, 8, 0),
        r.variance@ == lane_of(out.merged8@, out.intensity@.len() as int, 8, 2),
        r.normalization@ == lane_of(out.merged8@, out.intensity@.len() as int, 8, 4),
        r.count@ == lane_of(out.merged8@, out.intensity@.len() as int, 8, 6),
        r.norm_sq@ == lane_of(out.merged8@, out.intensity@.len() as int, 8, 7),
        packs_1d(out, r),
{
    let bins: usize = out.intensity.len();
    let merged: &[u32] = out.merged8.as_slice();
    let signal: Vec<u32> = merged_col(merged, bins, 0);
    let variance: Vec<u32> = merged_col(merged, bins, 2);
    let normalization: Vec<u32> = merged_col(merged, bins, 4);
    let count: Vec<u32> = merged_col(merged, bins, 6);
    let norm_sq: Vec<u32> = merged_col(merged, bins, 7);
    Result1d {
        intensity: out.intensity,
        std: out.std,
        sem: out.sem,
        signal,
        variance,
        normalization,
        count,
        norm_sq,
    }
}

/// Packages the output of a device run as a two-dimensional result.
pub fn pack_2d(out: PipelineOutput, bins_rad: usize, bins_azim: usize) -> (r: Result2d)
    requires
        out.intensity@.len() == bins_rad * bins_azim,
        out.intensity@.len() <= out.std@.len(),
        out.intensity@.len() <= out.sem@.len(),
        8 * out.intensity@.len() <= out.merged8@.len(),
    ensures
        ({
            let (nr, na) = (bins_rad as int, bins_azim as int);
            let n = out.intensity@.len() as int;
            &&& r.intensity@ == azim_rad(out.intensity@, nr, na)
            &&& r.std@ == azim_rad(out.std@, nr, na)
            &&& r.sem@ == azim_rad(out.sem@, nr, na)
            &&& r.signal@ == azim_rad(lane_of(out.merged8@, n, 8, 0), nr, na)
            &&& r.variance@ == azim_rad(lane_of(out.merged8@, n, 8, 2), nr, na)
            &&& r.normalization@ == azim_rad(lane_of(out.merged8@, n, 8, 4), nr, na)
            &&& r.count@ == azim_rad(lane_of(out.merged8@, n, 8, 6), nr, na)
            &&& r.norm_sq@ == azim_rad(lane_of(out.merged8@, n, 8, 7), nr, na)
        }),
        packs_2d(out, bins_rad as int, bins_azim as int, r),
{
    let bins: usize = out.intensity.len();
    let merged: &[u32] = out.merged8.as_slice();
    Result2d {
        intensity: transpose_to_azim_rad(out.intensity.as_slice(), bins_rad, bins_azim),
        std: transpose_to_azim_rad(out.std.as_slice(), bins_rad, bins_azim),
        sem: transpose_to_azim_rad(out.sem.as_slice(), bins_rad, bins_azim),
        signal: transpose_to_azim_rad(
            merged_col(merged, bins, 0).as_slice(),
            bins_rad,
            bins_azim,
        ),
        variance: transpose_to_azim_rad(
            merged_col(merged, bins, 2).as_slice(),
            bins_rad,
            bins_azim,
        ),
        normalization: transpose_to_azim_rad(
            merged_col(merged, bins, 4).as_slice(),
            bins_rad,
            bins_azim,
        ),
        count: transpose_to_azim_rad(
            merged_col(merged, bins, 6).as_slice(),
            bins_rad,
            bins_azim,
        ),
        norm_sq: transpose_to_azim_rad(
            merged_col(merged, bins, 7).as_slice(),
            bins_rad,
            bins_azim,
        ),
    }
}

/// Output of a histogram run on a device. The sums are pairs of lanes per bin.
#[derive(Debug)]
pub struct HistogramOutput {
    /// Average intensity.
    pub intensity: Vec<u32>,
    /// Standard deviation.
    pub std: Vec<u32>,
    /// Standard error of the mean.
    pub sem: Vec<u32>,
    /// Sum of the signal, two lanes per bin.
    pub histo_sig: Vec<u32>,
    /// Sum of the variance, two lanes per bin.
    pub histo_var: Vec<u32>,
    /// Sum of the normalization, two lanes per bin.
    pub histo_nrm: Vec<u32>,
    /// Sum of the squared normalization, two lanes per bin.
    pub histo_nrm2: Vec<u32>,
    /// Number of pixels, an integer per bin.
    pub count: Vec<u32>,
}

/// One-dimensional histogram result. The sums keep both lanes of each bin.
#[derive(Debug)]
pub struct HistResult1d {
    /// Average intensity.
    pub intensity: Vec<u32>,
    /// Standard error of the mean.
    pub sigma: Vec<u32>,
    /// Number of pixels.
    pub count: Vec<u32>,
    /// Sum of the signal.
    pub signal: Vec<u32>,
    /// Sum of the variance.
    pub variance: Vec<u32>,
    /// Sum of the normalization.
    pub normalization: Vec<u32>,
}

/// Two-dimensional histogram result, azimuthal-major. The sums are first lanes, but
/// `norm_sq` holds both lanes, one plane after the other.
#[derive(Debug)]
pub struct HistResult2d {
    /// Average intensity.
    pub intensity: Vec<u32>,
    /// Standard error of the mean.
    pub sigma: Vec<u32>,
    /// Standard deviation.
    pub std: Vec<u32>,
    /// Standard error of the mean.
    pub sem: Vec<u32>,
    /// Number of pixels.
    pub count: Vec<u32>,
    /// Sum of the signal.
    pub signal: Vec<u32>,
    /// Sum of the variance.
    pub variance: Vec<u32>,
    /// Sum of the normalization.
    pub normalization: Vec<u32>,
    /// Sum of the squared normalization.
    pub norm_sq: Vec<u32>,
}

/// `r` is the output of a histogram run as a one-dimensional result.
pub open spec fn packs_histogram_1d(out: HistogramOutput, r: HistResult1d) -> bool {
    &&& r.intensity@ == out.intensity@
    &&& r.sigma@ == out.sem@
    &&& r.count@ == out.count@
    &&& r.signal@ == out.histo_sig@
    &&& r.variance@ == out.histo_var@
    &&& r.normalization@ == out.histo_nrm@
}

/// `r` is the output of a histogram run as a two-dimensional result.
pub open spec fn packs_histogram_2d(out: HistogramOutput, nr: int, na: int, r: HistResult2d) -> bool {
    let n = nr * na;
    &&& r.intensity@ == azim_rad(out.intensity@, nr, na)
    &&& r.sigma@ == azim_rad(out.sem@, nr, na)
    &&& r.std@ == azim_rad(out.std@, nr, na)
    &&& r.sem@ == azim_rad(out.sem@, nr, na)
    &&& r.count@ == azim_rad(out.count@, nr, na)
    &&& r.signal@ == azim_rad(lane_of(out.histo_sig@, n, 2, 0), nr, na)
    &&& r.variance@ == azim_rad(lane_of(out.histo_var@, n, 2, 0), nr, na)
    &&& r.normalization@ == azim_rad(lane_of(out.histo_nrm@, n, 2, 0), nr, na)
    &&& r.norm_sq@ == lane_planes(out.histo_nrm2@, nr, na)
}

/// Packages the output of a histogram run as a one-dimensional result.
pub fn pack_histogram_1d(out: HistogramOutput) -> (r: HistResult1d)
    ensures
        r.intensity@ == out.intensity@,
        r.sigma@ == out.sem@,
        r.count@ == out.count@,
        r.signal@ == out.histo_sig@,
        r.variance@ == out.histo_var@,
        r.normalization@ == out.histo_nrm@,
        packs_histogram_1d(out, r),
{
    HistResult1d {
        intensity: out.intensity,
        sigma: out.sem,
        count: out.count,
        signal: out.histo_sig,
        variance: out.histo_var,
        normalization: out.histo_nrm,
    }
}

/// The two lanes of each cell of a radial-major field as two azimuthal-major planes.
pub open spec fn lane_planes(v: Seq<u32>, bins_rad: int, bins_azim: int) -> Seq<u32> {
    let bins = bins_rad * bins_azim;
    azim_rad(lane_of(v, bins, 2, 0), bins_rad, bins_azim) + azim_rad(
        lane_of(v, bins, 2, 1),
        bins_rad,
        bins_azim,
    )
}

/// Takes the second of the two lanes of each bin.
fn low_lane(histo: &[u32], bins: usize) -> (out: Vec<u32>)
    requires
        2 * bins <= histo@.len(),
    ensures
        out@ == lane_of(histo@, bins as int, 2, 1),
{
    let n: usize = histo.len();
    let mut out: Vec<u32> = Vec::new();
    let mut b: usize = 0;
    while b < bins
        invariant
            n == histo@.len(),
            2 * bins <= n,
            b <= bins,
            out@.len() == b,
            forall|k: int| 0 <= k < b ==> #[trigger] out@[k] == histo@[2 * k + 1],
        decreases bins - b,
    {
        out.push(histo[2 * b + 1]);
        b = b + 1;
    }
    assert(out@ =~= lane_of(histo@, bins as int, 2, 1));
    out
}

/// Packages the output of a histogram run as a two-dimensional result.
pub fn pack_histogram_2d(out: HistogramOutput, bins_rad: usize, bins_azim: usize) -> (r:
    HistResult2d)
    requires
        bins_rad * bins_azim <= out.intensity@.len(),
        bins_rad * bins_azim <= out.std@.len(),
        bins_rad * bins_azim <= out.sem@.len(),
        bins_rad * bins_azim <= out.count@.len(),
        2 * (bins_rad * bins_azim) <= out.histo_sig@.len(),
        2 * (bins_rad * bins_azim) <= out.histo_var@.len(),
        2 * (bins_rad * bins_azim) <= out.histo_nrm@.len(),
        2 * (bins_rad * bins_azim) <= out.histo_nrm2@.len(),
    ensures
        ({
            let (nr, na) = (bins_rad as int, bins_azim as int);
            let n = nr * na;
            &&& r.intensity@ == azim_rad(out.intensity@, nr, na)
            &&& r.sigma@ == azim_rad(out.sem@, nr, na)
            &&& r.std@ == azim_rad(out.std@, nr, na)
            &&& r.sem@ == azim_rad(out.sem@, nr, na)
            &&& r.count@ == azim_rad(out.count@, nr, na)
            &&& r.signal@ == azim_rad(lane_of(out.histo_sig@, n, 2, 0), nr, na)
            &&& r.variance@ == azim_rad(lane_of(out.histo_var@, n, 2, 0), nr, na)
            &&& r.normalization@ == azim_rad(lane_of(out.histo_nrm@, n, 2, 0), nr, na)
            &&& r.norm_sq@ == lane_planes(out.histo_nrm2@, nr, na)
        }),
        packs_histogram_2d(out, bins_rad as int, bins_azim as int, r),
{
    let limit: usize = out.intensity.len();
    let bins: usize = bins_rad * bins_azim;
    let mut norm_sq: Vec<u32> = transpose_to_azim_rad(
        high_lane(out.histo_nrm2.as_slice(), bins).as_slice(),
        bins_rad,
        bins_azim,
    );
    let mut low: Vec<u32> = transpose_to_azim_rad(
        low_lane(out.histo_nrm2.as_slice(), bins).as_slice(),
        bins_rad,
        bins_azim,
    );
    norm_sq.append(&mut low);
    HistResult2d {
        intensity: transpose_to_azim_rad(out.intensity.as_slice(), bins_rad, bins_azim),
        sigma: transpose_to_azim_rad(out.sem.as_slice(), bins_rad, bins_azim),
        std: transpose_to_azim_rad(out.std.as_slice(), bins_rad, bins_azim),
        sem: transpose_to_azim_rad(out.sem.as_slice(), bins_rad, bins_azim),
        count: transpose_u32_to_azim_rad(out.count.as_slice(), bins_rad, bins_azim),
        signal: transpose_to_azim_rad(
            high_lane(out.histo_sig.as_slice(), bins).as_slice(),
            bins_rad,
            bins_azim,
        ),
        variance: transpose_to_azim_rad(
            high_lane(out.histo_var.as_slice(), bins).as_slice(),
            bins_rad,
            bins_azim,
        ),
        normalization: transpose_to_azim_rad(
            high_lane(out.histo_nrm.as_slice(), bins).as_slice(),
            bins_rad,
            bins_azim,
        ),
        norm_sq,
    }
}

/// An entry of the device's look-up table.
#[derive(Debug, Clone, Copy, PartialEq, Eq, Structural)]
pub struct LutPoint {
    /// Pixel index.
    pub idx: i32,
    /// Coefficient.
    pub coef: u32,
}

/// `lut` is a table turned over as the device reads it.
pub open spec fn is_gpu_lut(
    idx: Seq<i32>,
    coef: Seq<u32>,
    bins: int,
    lut_size: int,
    lut: Seq<LutPoint>,
) -> bool {
    &&& lut.len() == bins * lut_size
    &&& forall|j: int, bin: int|
        0 <= j < lut_size && 0 <= bin < bins ==> lut[#[trigger] flat(j, bin, bins)] == (LutPoint {
            idx: idx[flat(bin, j, lut_size)],
            coef: coef[flat(bin, j, lut_size)],
        })
}

/// Turns a table of `bins` rows of `lut_size` slots over, so that the slots with one
/// number stand together, bin by bin, as the device reads them.
pub fn build_gpu_lut(lut_idx: &[i32], lut_coef: &[u32], bins: usize, lut_size: usize) -> (lut: Vec<
    LutPoint,
>)
    requires
        lut_idx@.len() == bins * lut_size,
        lut_coef@.len() == bins * lut_size,
    ensures
        lut@.len() == bins * lut_size,
        forall|j: int, bin: int|
            0 <= j < lut_size && 0 <= bin < bins ==> lut@[#[trigger] flat(j, bin, bins as int)] == (
            LutPoint {
                idx: lut_idx@[flat(bin, j, lut_size as int)],
                coef: lut_coef@[flat(bin, j, lut_size as int)],
            }),
        is_gpu_lut(lut_idx@, lut_coef@, bins as int, lut_size as int, lut@),
{
    let total: usize = lut_idx.len();
    let mut lut: Vec<LutPoint> = Vec::new();
    let mut t: usize = 0;
    proof {
        assert(lut_size * bins == bins * lut_size) by (nonlinear_arith);
    }
    while t < total
        invariant
            total == bins * lut_size,
            lut_idx@.len() == total,
            lut_coef@.len() == total,
            t <= total,
            lut@.len() == t,
            forall|k: int|
                0 <= k < t ==> #[trigger] lut@[k] == (LutPoint {
                    idx: lut_idx@[source_cell(k, bins as int, lut_size as int)],
                    coef: lut_coef@[source_cell(k, bins as int, lut_size as int)],
                }),
        decreases total - t,
    {
        let src: usize = transposed_bin(t, bins, lut_size);
        lut.push(LutPoint { idx: lut_idx[src], coef: lut_coef[src] });
        t = t + 1;
    }
    proof {
        assert forall|j: int, bin: int| 0 <= j < lut_size && 0 <= bin < bins implies lut@[
        #[trigger] flat(j, bin, bins as int)] == (LutPoint {
            idx: lut_idx@[flat(bin, j, lut_size as int)],
            coef: lut_coef@[flat(bin, j, lut_size as int)],
        }) by {
            lemma_flat_bound(j, bin, lut_size as int, bins as int);
            crate::histogram::lemma_source_cell(bin, j, bins as int, lut_size as int);
        }
    }
    lut
}

/// The eight lanes of a bin hold signal, variance, normalization and count, every other
/// one, and the squared normalization at the end; the averages stand where they stood.
pub proof fn lemma_packed_bin(out: PipelineOutput, r: Result1d, b: int, k: int)
    requires
        packs_1d(out, r),
        0 <= b < out.intensity@.len(),
        0 <= k < 4,
    ensures
        seq![r.signal@[b], r.variance@[b], r.normalization@[b], r.count@[b]][k] == out.merged8@[8
            * b + 2 * k],
        r.norm_sq@[b] == out.merged8@[8 * b + 7],
        seq![r.intensity@[b], r.std@[b], r.sem@[b]] == seq![
            out.intensity@[b],
            out.std@[b],
            out.sem@[b],
        ],
{
}

/// The value of the cell at radial bin `i` and azimuthal bin `j` is read after `i` rows of
/// azimuthal bins and written after `j` rows of radial bins.
pub proof fn lemma_turned_over(v: Seq<u32>, nr: int, na: int, i: int, j: int)
    requires
        0 <= i < nr,
        0 <= j < na,
    ensures
        azim_rad(v, nr, na).len() == nr * na,
        0 <= j * nr + i < nr * na,
        azim_rad(v, nr, na)[j * nr + i] == v[i * na + j],
{
    assert(na * nr == nr * na) by (nonlinear_arith);
    lemma_flat_bound(j, i, na, nr);
    crate::histogram::lemma_source_cell(i, j, nr, na);
}

/// The fields of a cell of a two-dimensional result are those of the same cell of the
/// output, whose eight lanes are laid out as in one dimension.
pub proof fn lemma_packed_cell(
    out: PipelineOutput,
    nr: int,
    na: int,
    r: Result2d,
    i: int,
    j: int,
    k: int,
)
    requires
        packs_2d(out, nr, na, r),
        out.intensity@.len() == nr * na,
        0 <= i < nr,
        0 <= j < na,
        0 <= k < 4,
    ensures
        ({
            let (from, to) = (i * na + j, j * nr + i);
            &&& seq![r.signal@[to], r.variance@[to], r.normalization@[to], r.count@[to]][k]
                == out.merged8@[8 * from + 2 * k]
            &&& r.norm_sq@[to] == out.merged8@[8 * from + 7]
            &&& r.intensity@[to] == out.intensity@[from]
            &&& r.std@[to] == out.std@[from]
            &&& r.sem@[to] == out.sem@[from]
        }),
{
    let n = nr * na;
    lemma_flat_bound(i, j, nr, na);
    lemma_turned_over(out.intensity@, nr, na, i, j);
    lemma_turned_over(out.std@, nr, na, i, j);
    lemma_turned_over(out.sem@, nr, na, i, j);
    lemma_turned_over(lane_of(out.merged8@, n, 8, 0), nr, na, i, j);
    lemma_turned_over(lane_of(out.merged8@, n, 8, 2), nr, na, i, j);
    lemma_turned_over(lane_of(out.merged8@, n, 8, 4), nr, na, i, j);
    lemma_turned_over(lane_of(out.merged8@, n, 8, 6), nr, na, i, j);
    lemma_turned_over(lane_of(out.merged8@, n, 8, 7), nr, na, i, j);
}

/// A one-dimensional histogram hands each of its buffers on as it is; the error of the
/// intensity is the standard error.
pub proof fn lemma_packed_histogram_bin(out: HistogramOutput, r: HistResult1d, b: int)
    requires
        packs_histogram_1d(out, r),
        0 <= b,
    ensures
        b < out.sem@.len() ==> r.sigma@[b] == out.sem@[b],
        b < out.intensity@.len() ==> r.intensity@[b] == out.intensity@[b],
        b < out.count@.len() ==> r.count@[b] == out.count@[b],
        b < out.histo_sig@.len() ==> r.signal@[b] == out.histo_sig@[b],
        b < out.histo_var@.len() ==> r.variance@[b] == out.histo_var@[b],
        b < out.histo_nrm@.len() ==> r.normalization@[b] == out.histo_nrm@[b],
{
}

/// The fields of a cell of a two-dimensional histogram are those of the same cell of the
/// output: of the sums the first of two lanes, but for the squared normalization, whose
/// second lanes follow its first ones.
pub proof fn lemma_packed_histogram_cell(
    out: HistogramOutput,
    nr: int,
    na: int,
    r: HistResult2d,
    i: int,
    j: int,
)
    requires
        packs_histogram_2d(out, nr, na, r),
        0 <= i < nr,
        0 <= j < na,
    ensures
        ({
            let (from, to) = (i * na + j, j * nr + i);
            &&& r.intensity@[to] == out.intensity@[from]
            &&& r.sigma@[to] == out.sem@[from]
            &&& r.std@[to] == out.std@[from]
            &&& r.sem@[to] == out.sem@[from]
            &&& r.count@[to] == out.count@[from]
            &&& r.signal@[to] == out.histo_sig@[2 * from]
            &&& r.variance@[to] == out.histo_var@[2 * from]
            &&& r.normalization@[to] == out.histo_nrm@[2 * from]
            &&& r.norm_sq@[to] == out.histo_nrm2@[2 * from]
            &&& r.norm_sq@[nr * na + to] == out.histo_nrm2@[2 * from + 1]
        }),
{
    let n = nr * na;
    lemma_flat_bound(i, j, nr, na);
    lemma_turned_over(out.intensity@, nr, na, i, j);
    lemma_turned_over(out.std@, nr, na, i, j);
    lemma_turned_over(out.sem@, nr, na, i, j);
    lemma_turned_over(out.count@, nr, na, i, j);
    lemma_turned_over(lane_of(out.histo_sig@, n, 2, 0), nr, na, i, j);
    lemma_turned_over(lane_of(out.histo_var@, n, 2, 0), nr, na, i, j);
    lemma_turned_over(lane_of(out.histo_nrm@, n, 2, 0), nr, na, i, j);
    lemma_turned_over(lane_of(out.histo_nrm2@, n, 2, 0), nr, na, i, j);
    lemma_turned_over(lane_of(out.histo_nrm2@, n, 2, 1), nr, na, i, j);
}

/// The device finds the slots of a bin one row of bins apart: slot `t` belongs to bin
/// `t % bins`, and it is that of the bin's slots that has as many slots before it as there
/// are whole rows of bins before `t`.
pub proof fn lemma_gpu_lut(
    idx: Seq<i32>,
    coef: Seq<u32>,
    bins: int,
    lut_size: int,
    lut: Seq<LutPoint>,
    t: int,
)
    requires
        is_gpu_lut(idx, coef, bins, lut_size, lut),
        0 <= t < lut.len(),
        0 <= bins,
        0 <= lut_size,
    ensures
        lut[t].idx == idx[(t % bins) * lut_size + t / bins],
        lut[t].coef == coef[(t % bins) * lut_size + t / bins],
{
    assert(lut_size * bins == bins * lut_size) by (nonlinear_arith);
    crate::grid::lemma_flat_cell(t, lut_size, bins);
    assert(lut[flat(t / bins, t % bins, bins)].idx == idx[flat(t % bins, t / bins, lut_size)]);
}

} // verus!
