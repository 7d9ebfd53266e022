use rsfai::boundaries::{calc_boundaries_1d, calc_boundaries_full_1d, numpy_linspace};
use rsfai::builder::{
    build_bbox_csc_1d, build_bbox_csc_2d, build_bbox_csr_1d, build_bbox_csr_2d, build_bbox_lut_1d,
    build_bbox_lut_2d, build_full_csc_1d, build_full_csc_2d, build_full_csr_1d, build_full_csr_2d,
    build_full_lut_1d, build_full_lut_2d, is_masked, PixelArea, PixelBox, PixelPatch, PixelSpan,
    SparseBuilder,
};
use rsfai::edge::{Edge, EdgeStep, Stretch};
use rsfai::histogram::{outcome_by_norm, Fill};
use rsfai::integrate::{
    csc_integrate1d, csc_integrate2d, csr_integrate1d, csr_integrate2d, lut_integrate1d,
    lut_integrate2d, lut_integrate2d_into,
};
use rsfai::model::ErrorModel;
use rsfai::quad::{LineSweeper, Quad, SweepMath, Turn, TurnMath};
use rsfai::sparse::{csr_to_csc, csr_to_lut, flatten_csr, Csr, Entry, Lut};
use rsfai::split::Part;
use rsfai::split_histogram::{
    histogram1d_bbox, histogram1d_full, histogram2d_bbox, histogram2d_full, histogram2d_pseudo,
    GridReach, GridSweep, LineReach, LineSweep, RawReach, DOUBLE_ONE,
};

/// The smallest value above which no pixel of the data lies, one single-precision step up.
fn upper_bound(x: f64) -> f64 {
    let eps = f64::from(f32::EPSILON);
    if x > 0.0 {
        x * (1.0 + eps)
    } else {
        x / (1.0 + eps)
    }
}

/// The start of the axis of pixels given by centre and half width, and the width of a bin.
fn axis_of(pos0: &[f64], delta: Option<&[f64]>, bins: usize) -> (f64, f64) {
    let d = |i: usize| delta.map_or(0.0, |d| d[i]);
    let lower: Vec<u64> = (0..pos0.len()).map(|i| (pos0[i] - d(i)).to_bits()).collect();
    let upper: Vec<u64> = (0..pos0.len()).map(|i| (pos0[i] + d(i)).to_bits()).collect();
    let (lo, hi) = calc_boundaries_1d(&lower, &upper, None, false);
    let lo = f64::from_bits(lo);
    (lo, (upper_bound(f64::from_bits(hi)) - lo) / bins as f64)
}

/// The centres of the bins of that axis.
fn centers_of(pos0: &[f64], delta: Option<&[f64]>, bins: usize) -> Vec<f64> {
    let (lo, step) = axis_of(pos0, delta, bins);
    let first = lo + 0.5 * step;
    let last = lo + (bins as f64 - 0.5) * step;
    let point = |j: usize| first + j as f64 * (last - first) / (bins - 1) as f64;
    numpy_linspace(first, last, bins, point)
}

/// The spans of pixels given by centre and half width, on `bins` bins.
fn spans_of(pos0: &[f64], delta: Option<&[f64]>, bins: usize) -> Vec<PixelSpan> {
    let d = |i: usize| delta.map_or(0.0, |d| d[i]);
    let (lo, step) = axis_of(pos0, delta, bins);
    let mut spans = Vec::new();
    for i in 0..pos0.len() {
        let fmin = (pos0[i] - d(i) - lo) / step;
        let fmax = (pos0[i] + d(i) - lo) / step;
        let inv_area = 1.0 / (fmax - fmin);
        let first_bin = (fmin as i64).max(0);
        let last_bin = (fmax as i64).min(bins as i64 - 1);
        spans.push(PixelSpan {
            bin_min: fmin as i64,
            bin_max: fmax as i64,
            first: ((inv_area * ((first_bin + 1) as f64 - fmin)) as f32).to_bits(),
            last: ((inv_area * (fmax - last_bin as f64)) as f32).to_bits(),
            inner: (inv_area as f32).to_bits(),
        });
    }
    spans
}

fn azimuths(q: Quad) -> [f64; 4] {
    [q.a, q.b, q.c, q.d].map(|c| f64::from_bits(c.azimuth))
}

fn signed_area(q: Quad) -> u64 {
    let r = [q.a, q.b, q.c, q.d].map(|c| f64::from_bits(c.radial));
    let z = azimuths(q);
    (0.5 * ((r[2] - r[0]) * (z[3] - z[1])) - (z[2] - z[0]) * (r[3] - r[1])).to_bits()
}

/// Adds the area under one stretch of an edge.
fn add_stretch(old: f32, edge: Edge, s: EdgeStep) -> f32 {
    let (x0, y0) = (f64::from_bits(edge.start.radial), f64::from_bits(edge.start.azimuth));
    let (x1, y1) = (f64::from_bits(edge.stop.radial), f64::from_bits(edge.stop.azimuth));
    let slope = (y1 - y0) / (x1 - x0);
    let intercept = y0 - slope * x0;
    let area = |a: f64, b: f64| (b - a) * (0.5 * slope * (a + b) + intercept);
    let (low, high) = (s.bin as f64, (s.bin + 1) as f64);
    let (near, far) = if x1 > x0 { (low, high) } else { (high, low) };
    let a = match s.stretch {
        Stretch::Within => area(x0, x1),
        Stretch::FromStart => area(x0, far),
        Stretch::Across => area(near, far),
        Stretch::ToStop => area(near, x1),
    };
    (old as f64 + a) as f32
}

/// The areas of pixels given by four corners (radial, azimuth), on `bins` bins.
fn areas_of(corners: &[f64], bins: usize) -> Vec<PixelArea> {
    let bits: Vec<u64> = corners.iter().map(|c| c.to_bits()).collect();
    let (lo, hi) = calc_boundaries_full_1d(&bits, None, false);
    let lo = f64::from_bits(lo);
    let step = (upper_bound(f64::from_bits(hi)) - lo) / bins as f64;
    let tau = std::f64::consts::TAU;
    let sweeper = LineSweeper {
        turn: Turn { period: tau.to_bits(), half: (0.5 * tau).to_bits(), chi_disc_at_pi: true },
        turning: TurnMath {
            area: signed_area,
            lift: |x: u64| (f64::from_bits(x) + tau).to_bits(),
            mean: |q: Quad| (0.25 * azimuths(q).iter().sum::<f64>()).to_bits(),
            lower: |x: u64| (f64::from_bits(x) - tau).to_bits(),
        },
        place: |x: u64| ((f64::from_bits(x) - lo) / step).to_bits(),
        sweeping: SweepMath {
            bin: |x: u64| f64::from_bits(x).floor() as i64,
            step: add_stretch,
            plus: |s: f64, a: f32| s + f64::from(a),
            zero: 0.0f32,
            none: 0.0f64,
        },
    };
    let scale = |a: f32, sum: f64| ((f64::from(a) * (1.0 / sum)) as f32).to_bits();
    let swept = sweeper.sweep_pixels(&bits, None, bins);
    swept.iter().map(|s| PixelArea::of(s, &scale)).collect()
}

fn coefs_of(csr: &Csr, pixel: i32) -> Vec<f32> {
    (0..csr.data.len())
        .filter(|k| csr.indices[*k] == pixel)
        .map(|k| f32::from_bits(csr.data[k]))
        .collect()
}

fn two_pixel_corners() -> Vec<f64> {
    vec![
        0.5, 0.0, 0.5, 0.1, 0.5, 0.1, 0.5, 0.0, 0.0, 0.0, 4.0, 0.0, 4.0, 0.5, 0.0, 0.5,
    ]
}

#[test]
fn single_bin_no_split_has_unit_coef() {
    let csr = build_bbox_csr_1d(&spans_of(&[1.0, 2.0], None, 4), None, 4);
    assert_eq!(centers_of(&[1.0, 2.0], None, 4).len(), 4);
    assert_eq!(csr.indptr.len() - 1, 4);
    assert_eq!(csr.indptr[0], 0);
    assert_eq!(*csr.indptr.last().unwrap(), 2);
    assert!(csr.data.iter().all(|&c| f32::from_bits(c) == 1.0));
}

#[test]
fn split_pixel_coefs_sum_to_one() {
    let csr = build_bbox_csr_1d(&spans_of(&[5.0], Some(&[3.0]), 10), None, 10);
    let s: f32 = csr.data.iter().map(|&c| f32::from_bits(c)).sum();
    assert!((s - 1.0).abs() < 1e-6, "split coefs sum to ~1, got {s}");
}

#[test]
fn full_split_single_bin_pixel_keeps_unit_coef() {
    let csr = build_full_csr_1d(&areas_of(&two_pixel_corners(), 8), None, 8);
    assert_eq!(coefs_of(&csr, 0), vec![1.0]);
}

#[test]
fn full_split_coefs_sum_to_one() {
    let csr = build_full_csr_1d(&areas_of(&two_pixel_corners(), 8), None, 8);
    let s: f32 = coefs_of(&csr, 1).iter().sum();
    assert!((s - 1.0).abs() < 1e-5, "split coefs sum to ~1, got {s}");
}

#[test]
fn apply_weighted_mean_and_f64_sums() {
    let csr = build_bbox_csr_1d(&spans_of(&[1.0, 1.0], None, 3), None, 3);
    let prep = [10.0f32, 0.0, 2.0, 1.0, 20.0, 0.0, 2.0, 1.0];
    let sums = csr_integrate1d(
        &csr,
        [0.0f64; 4],
        |acc: [f64; 4], entry: Entry| {
            let coef = f32::from_bits(entry.1) as f64;
            let i = entry.0 as usize;
            let w = coef * prep[4 * i + 2] as f64;
            [
                acc[0] + coef * prep[4 * i] as f64,
                acc[1] + w,
                acc[2] + w * w,
                acc[3] + coef * prep[4 * i + 3] as f64,
            ]
        },
        |acc: [f64; 4]| acc,
    );
    let [signal, norm, norm2, count] = sums[0];
    let outcome = outcome_by_norm(norm2 > 0.0, ErrorModel::No.do_variance());
    assert!(outcome.intensity == Fill::Value);
    assert!(outcome.errors == Fill::Empty);
    assert_eq!(signal, 30.0);
    assert_eq!(norm, 4.0);
    assert_eq!(count, 2.0);
    assert_eq!((signal / norm) as f32, 7.5);
    assert_eq!(norm2, 8.0);
}

const A: u32 = 0x3e80_0000;
const B: u32 = 0x3f00_0000;
const ONE: u32 = 0x3f80_0000;

fn span(bin_min: i64, bin_max: i64) -> PixelSpan {
    PixelSpan { bin_min, bin_max, first: A, last: B, inner: 7 }
}

#[test]
fn spans_are_clipped_and_masked() {
    let spans = [span(-3, 1), span(2, 2), span(0, 9), span(4, 5), span(-4, -1), span(1, 2)];
    let mask = [0i8, 0, 0, 0, 0, 1];
    let csr = build_bbox_csr_1d(&spans, Some(&mask), 4);
    assert_eq!(csr.indptr, vec![0, 2, 4, 6, 7]);
    assert_eq!(csr.indices, vec![0, 2, 0, 2, 1, 2, 2]);
    assert_eq!(csr.data, vec![A, A, B, 7, ONE, 7, B]);
    assert!(csr.check(4));
    assert!(!csr.check(3));
    assert!(csr.check_pixels(3));
    assert!(!csr.check_pixels(2));
    assert!(is_masked(Some(&mask), 5));
    assert!(!is_masked(Some(&mask), 4));
    assert!(!is_masked(None, 4));
}

#[test]
fn sparse_builder_appends_in_insertion_order() {
    let mut b = SparseBuilder::new(3);
    b.insert_pixel(0, &vec![(2, A), (0, B)]);
    b.insert_pixel(4, &vec![(0, ONE)]);
    let csr = b.to_csr();
    assert_eq!(csr.indptr, vec![0, 2, 2, 3]);
    assert_eq!(csr.indices, vec![0, 4, 0]);
    assert_eq!(csr.data, vec![B, ONE, A]);
}

#[test]
fn flattening_keeps_the_lists() {
    let csr = flatten_csr(&vec![vec![(3, A), (5, B)], vec![], vec![(1, ONE)]]);
    assert_eq!(csr.indptr, vec![0, 2, 2, 3]);
    assert_eq!(csr.gather(0), vec![(3, A), (5, B)]);
    assert_eq!(csr.gather(1), vec![]);
    assert_eq!(csr.gather(2), vec![(1, ONE)]);
    let none = flatten_csr(&vec![]);
    assert_eq!(none.indptr, vec![0]);
    assert!(none.check(0));
}

#[test]
fn zero_coefficients_are_not_gathered() {
    let csr = flatten_csr(&vec![vec![(3, 0), (5, B), (6, 0x8000_0000)]]);
    assert_eq!(csr.gather(0), vec![(5, B)]);
}

#[test]
fn columns_list_the_bins_of_each_pixel() {
    let csr = flatten_csr(&vec![vec![(0, A), (2, B)], vec![(0, 7)], vec![(2, 8), (3, 9)]]);
    let csc = csr_to_csc(&csr, 3, 4);
    assert_eq!(csc.indptr, vec![0, 2, 2, 4, 5]);
    assert_eq!(csc.indices, vec![0, 1, 0, 2, 2]);
    assert_eq!(csc.data, vec![A, 7, B, 8, 9]);
    assert!(csc.check(4));
    assert!(!csc.check(5));
    assert_eq!(csc.column_of(2), vec![(0, B), (2, 8)]);
    assert_eq!(csc.column_of(1), vec![]);
}

#[test]
fn table_gathers_what_the_matrix_gathers() {
    let csr = flatten_csr(&vec![vec![(0, A), (2, B), (5, 7)], vec![], vec![(2, 8)]]);
    let lut = csr_to_lut(&csr, 3);
    assert_eq!(lut.lut_size, 3);
    assert_eq!(lut.coef, vec![A, B, 7, 0, 0, 0, 8, 0, 0]);
    assert_eq!(lut.idx, vec![0, 2, 5, 0, 0, 0, 2, 0, 0]);
    assert_eq!(lut.sizes, vec![3, 0, 1]);
    for b in 0..3 {
        assert_eq!(lut.gather(b), csr.gather(b));
    }
}

#[test]
fn table_sizes_drop_trailing_padding_only() {
    let lut = Lut::new(vec![A, 0, B, 0, 0, 0], vec![1, 0, 2, 0, 0, 4], 3);
    assert_eq!(lut.sizes, vec![3, 3]);
    let padded = Lut::new(vec![A, 0, 0, 0, 0, 0], vec![1, 0, 0, 0, 0, 0], 3);
    assert_eq!(padded.sizes, vec![1, 0]);
}

#[test]
fn a_table_without_slots_has_empty_bins() {
    let nothing = Lut::new(vec![], vec![], 0);
    let start = (0, [(0, 0); 4]);
    assert_eq!(lut_integrate1d(&nothing, 2, start, trace, listed), vec![vec![], vec![]]);
    assert!(nothing.gather(1).is_empty());
    let matrix = flatten_csr(&vec![vec![], vec![], vec![], vec![], vec![], vec![]]);
    let table = csr_to_lut(&matrix, 6);
    assert_eq!((table.lut_size, table.coef.len()), (0, 0));
    let empty = |acc: f64| if acc > 0.0 { acc } else { -1.0 };
    let add = |acc: f64, e: Entry| acc + f64::from(f32::from_bits(e.1));
    assert_eq!(lut_integrate1d(&table, 2, 0.0, add, empty), vec![-1.0, -1.0]);
    assert_eq!(
        lut_integrate1d(&table, 6, 0.0, add, empty),
        csr_integrate1d(&matrix, 0.0, add, empty)
    );
    assert_eq!(
        lut_integrate2d(&table, (2, 3), 0.0, add, empty),
        csr_integrate2d(&matrix, (2, 3), 0.0, add, empty)
    );
    let mut out = vec![7.0; 6];
    lut_integrate2d_into(&table, (2, 3), 0.0, add, empty, &mut out);
    assert_eq!(out, vec![-1.0; 6]);
}

#[test]
fn broken_matrices_are_recognised() {
    let good = Csr { data: vec![A, B], indices: vec![0, 1], indptr: vec![0, 1, 2] };
    assert!(good.check(2));
    let descending = Csr { data: vec![A, B], indices: vec![0, 1], indptr: vec![0, 2, 1] };
    assert!(!descending.check(2));
    let short = Csr { data: vec![A, B], indices: vec![0], indptr: vec![0, 1, 2] };
    assert!(!short.check(2));
    let negative = Csr { data: vec![A], indices: vec![-1], indptr: vec![0, 1] };
    assert!(!negative.check_pixels(9));
}

#[test]
fn areas_cover_their_bins_in_order() {
    let areas = [
        PixelArea { bin_min: 1, bin_max: 1, coefs: vec![ONE] },
        PixelArea { bin_min: -2, bin_max: 1, coefs: vec![A, B] },
        PixelArea { bin_min: 2, bin_max: 7, coefs: vec![7] },
    ];
    let csr = build_full_csr_1d(&areas, None, 3);
    assert_eq!(csr.indptr, vec![0, 1, 3, 4]);
    assert_eq!(csr.indices, vec![1, 0, 1, 2]);
    assert_eq!(csr.data, vec![A, ONE, B, 7]);
    let csc = build_full_csc_1d(&areas, None, 3);
    assert_eq!(csc.indptr, vec![0, 1, 3, 4]);
    assert_eq!(csc.indices, vec![1, 0, 1, 2]);
    let lut = build_full_lut_1d(&areas, None, 3);
    assert_eq!(lut.sizes, vec![1, 2, 1]);
}

#[test]
fn boxes_weigh_corners_sides_and_inside() {
    let coefs: [u32; 16] = [
        100, 101, 102, 103, 110, 111, 112, 113, 120, 121, 122, 123, 130, 131, 132, 133,
    ];
    let boxes = [
        PixelBox { bin0: (0, 2), bin1: (0, 2), bins: (3, 3), coefs },
        PixelBox { bin0: (1, 1), bin1: (-1, 1), bins: (3, 3), coefs },
    ];
    let csr = build_bbox_csr_2d(&boxes, None, 9);
    let expected = [
        vec![(0, 111)],
        vec![(0, 113)],
        vec![(0, 112)],
        vec![(0, 131), (1, 101)],
        vec![(0, 133), (1, 102)],
        vec![(0, 132)],
        vec![(0, 121)],
        vec![(0, 123)],
        vec![(0, 122)],
    ];
    for cell in 0..9 {
        assert_eq!(csr.gather(cell), expected[cell]);
    }
    let csc = build_bbox_csc_2d(&boxes, None, 9);
    assert_eq!(csc.column_of(1), vec![(3, 101), (4, 102)]);
    let lut = build_bbox_lut_2d(&boxes, Some(&[0, 1]), 9);
    assert_eq!(lut.lut_size, 1);
}

#[test]
fn patches_skip_the_cells_they_do_not_reach() {
    let patches = [PixelPatch {
        offset: (1, 0),
        size: (1, 2),
        bins: (2, 3),
        coefs: vec![A, 0, 0, 0, 0, 0],
    }];
    let csr = build_full_csr_2d(&patches, None, 6);
    assert_eq!(csr.gather(3), vec![(0, A)]);
    let csc = build_full_csc_2d(&patches, None, 6);
    assert_eq!(csc.indptr.len(), 2);
    let lut = build_full_lut_2d(&patches, None, 6);
    assert_eq!(lut.gather(3), vec![(0, A)]);
    let csc = build_bbox_csc_1d(&[span(0, 1)], None, 2);
    assert_eq!(csc.column_of(0), vec![(0, A), (1, B)]);
    let lut = build_bbox_lut_1d(&[span(0, 1)], None, 2);
    assert_eq!(lut.sizes, vec![1, 1]);
}

/// The entries added to a bin, first to last.
type Trace = [(i32, u32); 4];

fn trace(acc: (usize, Trace), e: Entry) -> (usize, Trace) {
    let (n, mut t) = acc;
    t[n] = e;
    (n + 1, t)
}

fn listed(acc: (usize, Trace)) -> Vec<Entry> {
    acc.1[..acc.0].to_vec()
}

#[test]
fn the_three_engines_agree() {
    let csr = flatten_csr(&vec![
        vec![(0, A), (2, B)],
        vec![(1, 7)],
        vec![],
        vec![(0, 8), (1, 9), (2, 6)],
    ]);
    let start = (0, [(0, 0); 4]);
    let by_row = csr_integrate1d(&csr, start, trace, listed);
    assert_eq!(by_row[3], vec![(0, 8), (1, 9), (2, 6)]);
    assert_eq!(by_row[2], vec![]);
    let lut = csr_to_lut(&csr, 4);
    assert_eq!(lut_integrate1d(&lut, 4, start, trace, listed), by_row);
    let csc = csr_to_csc(&csr, 4, 3);
    assert!(csc.check_bins(4) && !csc.check_bins(3));
    assert_eq!(csc_integrate1d(&csc, &[true; 3], 4, start, trace, listed), by_row);
    let without = csc_integrate1d(&csc, &[true, false, true], 4, start, trace, listed);
    assert_eq!(without[3], vec![(0, 8), (2, 6)]);
    assert_eq!(without[1], vec![]);

    let grid = csr_integrate2d(&csr, (2, 2), start, trace, listed);
    assert_eq!(grid[1], by_row[2]);
    assert_eq!(grid[2], by_row[1]);
    assert_eq!(grid[3], by_row[3]);
    assert_eq!(lut_integrate2d(&lut, (2, 2), start, trace, listed), grid);
    assert_eq!(csc_integrate2d(&csc, &[true; 3], (2, 2), start, trace, listed), grid);
    let mut out = vec![vec![(5, 5)]; 4];
    lut_integrate2d_into(&lut, (2, 2), start, trace, listed, &mut out);
    assert_eq!(out, grid);
}

#[test]
fn invalid_pixels_and_zero_coefficients_change_no_sum() {
    let half = 0.5f32.to_bits();
    let csr = flatten_csr(&vec![vec![(0, half), (1, 0), (2, half)], vec![(1, half), (2, ONE)]]);
    // The pixel in the middle is invalid: its row is zero.
    let signal = [3.0f64, 0.0, 5.0];
    let valid = [true, false, true];
    let add = |acc: f64, e: Entry| {
        acc + f64::from(f32::from_bits(e.1)) * signal[e.0 as usize]
    };
    let same = |acc: f64| acc.to_bits();
    let by_row = csr_integrate1d(&csr, 0.0, add, same);
    assert_eq!(by_row, vec![4.0f64.to_bits(), 5.0f64.to_bits()]);
    let lut = csr_to_lut(&csr, 2);
    assert_eq!(lut_integrate1d(&lut, 2, 0.0, add, same), by_row);
    let csc = csr_to_csc(&csr, 2, 3);
    assert_eq!(csc_integrate1d(&csc, &valid, 2, 0.0, add, same), by_row);
}

#[test]
fn direct_histograms_add_what_the_matrix_holds() {
    let spans = [span(-3, 1), span(2, 2), span(0, 9), span(1, 2)];
    let mask = [0i8, 0, 0, 1];
    let csr = build_bbox_csr_1d(&spans, Some(&mask), 4);
    let reaches: Vec<LineReach> = spans
        .iter()
        .map(|s| LineReach { bins: Some((s.bin_min, s.bin_max)) })
        .collect();
    let rows = histogram1d_bbox(
        &reaches,
        Some(&mask),
        4,
        (0, [(0, 0); 4]),
        |acc: (usize, Trace), part: (usize, Part)| {
            trace(acc, (part.0 as i32, spans[part.0].weigh(part.1)))
        },
        listed,
    );
    for b in 0..4 {
        assert_eq!(rows[b], csr.gather(b));
    }
    let away = [LineReach { bins: None }];
    let none = histogram1d_bbox(&away, None, 2, 0, |acc: i32, _: (usize, Part)| acc + 1, |x: i32| x);
    assert_eq!(none, vec![0, 0]);
}

#[test]
fn swept_pixels_weigh_by_area() {
    let pixels = [
        LineSweep { bin_min: 1, bin_max: 1, weights: None },
        LineSweep { bin_min: -1, bin_max: 1, weights: Some(vec![3, 4]) },
        LineSweep { bin_min: 0, bin_max: 2, weights: None },
        LineSweep { bin_min: 3, bin_max: 5, weights: Some(vec![9]) },
    ];
    let out = histogram1d_full(
        &pixels,
        None,
        3,
        vec_start(),
        |acc: [u64; 3], part: (usize, u64)| note(acc, part),
        |acc: [u64; 3]| acc,
    );
    assert_eq!(out, vec![[1, 1, 3], [2, 1, 4], [0, 0, 0]]);
    assert_eq!(f64::from_bits(DOUBLE_ONE), 1.0);
}

/// Number of parts, sum of their pixels, and weight of the last one.
fn note(acc: [u64; 3], part: (usize, u64)) -> [u64; 3] {
    [acc[0] + 1, acc[1] + part.0 as u64, part.1]
}

fn vec_start() -> [u64; 3] {
    [0, 0, 0]
}

#[test]
fn boxes_spread_over_the_grid() {
    let shape = (2, 3);
    let pixels = [
        GridReach { bins: Some(((0, 0), (1, 1))), shape },
        GridReach { bins: Some(((0, 1), (0, 1))), shape },
        GridReach { bins: None, shape },
    ];
    let count = |acc: u32, part: (usize, (Part, Part))| {
        acc * 10 + if part.1 == (Part::Whole, Part::Whole) { 1 } else { 2 }
    };
    let out = histogram2d_bbox(&pixels, None, shape, 0, count, |x: u32| x);
    assert_eq!(out, vec![2, 2, 12, 2, 0, 0]);
    let raw: Vec<RawReach> =
        pixels.iter().map(|p| RawReach { bins: p.bins, shape }).collect();
    assert!(raw.iter().all(|r| r.check()));
    assert_eq!(histogram2d_pseudo(&raw, None, shape, 0, count, |x: u32| x), out);
    let masked = histogram2d_bbox(&pixels, Some(&[0, 1, 0]), shape, 0, count, |x: u32| x);
    assert_eq!(masked, vec![0, 0, 1, 0, 0, 0]);
    let swept = [GridSweep {
        offset: (1, 1),
        size: (1, 2),
        shape,
        weights: vec![7, 8, 0, 0, 0, 0],
    }];
    let out = histogram2d_full(
        &swept,
        None,
        shape,
        vec_start(),
        |acc: [u64; 3], part: (usize, u64)| note(acc, part),
        |acc: [u64; 3]| acc[2],
    );
    assert_eq!(out, vec![0, 0, 0, 7, 0, 8]);
}

#[test]
fn raw_bins_run_over_into_the_next_row() {
    let shape = (2, 3);
    let raw = |bin0: (i64, i64), bin1: (i64, i64)| RawReach { bins: Some((bin0, bin1)), shape };
    let count = |acc: u32, _: (usize, (Part, Part))| acc + 1;
    let over = raw((0, 0), (2, 3));
    assert!(over.check());
    let out = histogram2d_pseudo(&[over], None, shape, 0, count, |x: u32| x);
    assert_eq!(out, vec![0, 1, 0, 0, 1, 0]);
    assert!(!raw((1, 1), (2, 3)).check());
    assert!(!raw((0, 0), (-1, 0)).check());
    assert!(raw((1, 1), (-1, 0)).check());
    let clamped = GridReach { bins: Some(((0, 0), (2, 3))), shape };
    let out = histogram2d_bbox(&[clamped], None, shape, 0, count, |x: u32| x);
    assert_eq!(out, vec![0, 0, 0, 0, 1, 0]);
}

#[test]
fn reaches_off_the_axis_are_told_apart() {
    assert!(LineReach { bins: Some((-2, 0)) }.check(3));
    assert!(LineReach { bins: Some((2, 9)) }.check(3));
    assert!(LineReach { bins: None }.check(3));
    assert!(!LineReach { bins: Some((3, 2)) }.check(3));
    assert!(!LineReach { bins: Some((-4, -1)) }.check(3));
    assert!(!LineReach { bins: None }.check(0));
    let range = (1.0f64.to_bits(), 4.0f64.to_bits());
    let of = |a: f64, b: f64| LineReach::of(a.to_bits(), b.to_bits(), range, (2, 3)).bins;
    assert_eq!(of(4.0, 5.0), Some((2, 3)));
    assert_eq!(of(0.0, 0.5), None);
    assert_eq!(of(4.5, 5.0), None);
}
