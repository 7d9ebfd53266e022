use rsfai::boundaries::bin_range;
use rsfai::histogram::{
    contribution, histogram1d, histogram2d, histogram_preproc, outcome_by_count, outcome_by_norm,
    pixel_bins, pixel_cells, reduce_1d, reduce_2d, transposed_bin, welford_step, Contribution,
    Fill, WelfordStep,
};
use rsfai::model::{internal_preproc_variance, ErrorModel};
use rsfai::parallel::{add_pixel, merge_bins};
use rsfai::preproc::{
    dummy_ok, finish_pixel, preproc4, Correction, DummyDistance, Finish, Numbers, PreprocOptions,
};

fn bits(values: &[f32]) -> Vec<u32> {
    values.iter().map(|v| v.to_bits()).collect()
}

/// Carries one correction out.
fn correct(n: Numbers, c: Correction) -> Numbers {
    let f = f32::from_bits;
    match c {
        Correction::Dark(x) => ((f(n.0) - f(x)).to_bits(), n.1, n.2),
        Correction::DarkVariance(x) => (n.0, (f(n.1) + f(x)).to_bits(), n.2),
        Correction::Flat(x)
        | Correction::Polarization(x)
        | Correction::SolidAngle(x)
        | Correction::Absorption(x) => (n.0, n.1, (f(n.2) * f(x)).to_bits()),
    }
}

/// Divides by the normalization.
fn divide(n: Numbers) -> (u32, u32) {
    let (s, v, d) = (f32::from_bits(n.0), f32::from_bits(n.1), f32::from_bits(n.2));
    ((s / d).to_bits(), (v / (d * d)).to_bits())
}

/// The preprocessed rows of a frame, one after the other.
fn rows_of(data: &[f32], opt: &PreprocOptions) -> Vec<f32> {
    let far = vec![DummyDistance { signal: true, flat: true }; data.len()];
    let rows = preproc4(&bits(data), opt, &far, correct, divide);
    rows.iter().map(|b| f32::from_bits(*b)).collect()
}

#[test]
fn poisson_variance_is_max_data_one() {
    let mut opt = PreprocOptions::plain(1.0f32.to_bits());
    opt.poissonian = true;
    let r = rows_of(&[0.5, 1.0, 4.0], &opt);
    assert_eq!(r[1], 1.0);
    assert_eq!(r[5], 1.0);
    assert_eq!(r[9], 4.0);
    assert_eq!(r[0], 0.5);
    assert_eq!(r[2], 1.0);
    assert_eq!(r[3], 1.0);
}

#[test]
fn masked_and_nonfinite_pixels_are_zeroed() {
    let mask = [0i8, 0, 1];
    let mut opt = PreprocOptions::plain(1.0f32.to_bits());
    opt.mask = Some(&mask);
    let r = rows_of(&[10.0, f32::NAN, 20.0], &opt);
    assert_eq!(&r[0..4], &[10.0, 0.0, 1.0, 1.0]);
    assert_eq!(&r[4..8], &[0.0, 0.0, 0.0, 0.0]);
    assert_eq!(&r[8..12], &[0.0, 0.0, 0.0, 0.0]);
}

#[test]
fn zero_normalization_invalidates() {
    let sa = bits(&[0.0]);
    let mut opt = PreprocOptions::plain(1.0f32.to_bits());
    opt.solidangle = Some(&sa);
    let r = rows_of(&[10.0], &opt);
    assert_eq!(&r[0..4], &[0.0, 0.0, 0.0, 0.0]);
}

#[test]
fn corrections_follow_in_a_fixed_order() {
    let dark = bits(&[1.0]);
    let dark_variance = bits(&[0.5]);
    let flat = bits(&[2.0]);
    let pol = bits(&[3.0]);
    let sa = bits(&[5.0]);
    let ab = bits(&[7.0]);
    let variance = bits(&[4.0]);
    let mut opt = PreprocOptions::plain(1.0f32.to_bits());
    opt.dark = Some(&dark);
    opt.dark_variance = Some(&dark_variance);
    opt.flat = Some(&flat);
    opt.polarization = Some(&pol);
    opt.solidangle = Some(&sa);
    opt.absorption = Some(&ab);
    opt.variance = Some(&variance);
    let far = DummyDistance { signal: true, flat: true };
    let start = opt.start_pixel(&bits(&[9.0]), 0, far).unwrap();
    assert!(start.corrections
        == vec![
            Correction::Dark(dark[0]),
            Correction::DarkVariance(dark_variance[0]),
            Correction::Flat(flat[0]),
            Correction::Polarization(pol[0]),
            Correction::SolidAngle(sa[0]),
            Correction::Absorption(ab[0]),
        ]);
    assert_eq!(rows_of(&[9.0], &opt), vec![8.0, 4.5, 210.0, 1.0]);
    opt.apply_normalization = true;
    opt.flat = None;
    opt.polarization = None;
    opt.absorption = None;
    assert_eq!(rows_of(&[11.0], &opt), vec![2.0, 4.5 / 25.0, 1.0, 1.0]);
    opt.dark = None;
    let start = opt.start_pixel(&bits(&[9.0]), 0, far).unwrap();
    assert!(start.corrections == vec![Correction::SolidAngle(sa[0])]);
}

#[test]
fn rows_without_count_are_zero() {
    let sa = bits(&[1.0, 0.0, f32::INFINITY, 3.0]);
    let mut opt = PreprocOptions::plain(2.0f32.to_bits());
    opt.solidangle = Some(&sa);
    let rows = rows_of(&[5.0, 6.0, 7.0, f32::NEG_INFINITY], &opt);
    assert_eq!(rows[0..4], [5.0, 0.0, 2.0, 1.0]);
    for row in rows[4..].chunks(4) {
        assert_eq!(row, &[0.0, 0.0, 0.0, 0.0]);
    }
}

#[test]
fn dummy_values_are_invalid() {
    let (two, three, zero) = (2.0f32.to_bits(), 3.0f32.to_bits(), 0.0f32.to_bits());
    assert!(!dummy_ok(two, two, zero, false));
    assert!(dummy_ok(three, two, zero, false));
    assert!(!dummy_ok(zero, (-0.0f32).to_bits(), zero, true));
    assert!(dummy_ok(f32::NAN.to_bits(), f32::NAN.to_bits(), zero, false));
    assert!(dummy_ok(two, two, three, true));
    assert!(!dummy_ok(three, two, three, false));

    let mut opt = PreprocOptions::plain(1.0f32.to_bits());
    opt.check_dummy = true;
    opt.dummy = two;
    assert_eq!(rows_of(&[2.0, 3.0], &opt), vec![0.0, 0.0, 0.0, 0.0, 3.0, 0.0, 1.0, 1.0]);
    let flat = bits(&[1.0, 2.0]);
    opt.check_dummy = false;
    opt.flat = Some(&flat);
    assert_eq!(rows_of(&[2.0, 3.0], &opt), vec![2.0, 0.0, 1.0, 1.0, 0.0, 0.0, 0.0, 0.0]);
}

#[test]
fn overflowing_corrections_drop_the_pixel() {
    let big = f32::MAX.to_bits();
    let inf = f32::INFINITY.to_bits();
    let one = 1.0f32.to_bits();
    assert!(finish_pixel(big, one, one, false) == Finish::Keep);
    assert!(finish_pixel(inf, one, one, false) == Finish::Drop);
    assert!(finish_pixel(one, inf, one, false) == Finish::Drop);
    assert!(finish_pixel(one, one, inf, true) == Finish::Drop);
    assert!(finish_pixel(one, one, 0x8000_0000, true) == Finish::Drop);
    assert!(finish_pixel(one, one, one, true) == Finish::Divide);
}

/// What a bin of a one-dimensional histogram gives.
struct Bin {
    signal: f32,
    normalization: f32,
    count: f32,
    norm_sq: f32,
    intensity: f32,
    sigma: f32,
    std: f32,
    sem: f32,
}

fn profile(radial: &[f64], prep: &[f32], npt: usize, em: ErrorModel, empty: f32) -> Vec<Bin> {
    let positions: Vec<u64> = radial.iter().map(|r| r.to_bits()).collect();
    let (lo, hi) = bin_range(&positions, None);
    let lo = f64::from_bits(lo);
    let hi = f64::from_bits(hi) * (1.0 + f64::from(f32::EPSILON));
    let delta = (hi - lo) / npt as f64;
    let bins: Vec<i64> = radial.iter().map(|r| ((r - lo) / delta) as i64).collect();
    histogram1d(
        &bins,
        npt,
        [0.0f64; 5],
        |acc: [f64; 5], i: usize| {
            let n = prep[4 * i + 2];
            [
                acc[0] + prep[4 * i] as f64,
                acc[1] + prep[4 * i + 1] as f64,
                acc[2] + n as f64,
                acc[3] + prep[4 * i + 3] as f64,
                acc[4] + (n * n) as f64,
            ]
        },
        |acc: [f64; 5]| {
            let a: Vec<f32> = acc.iter().map(|x| *x as f32).collect();
            let outcome = outcome_by_norm(a[4] > 0.0, em.do_variance());
            let fill = |f: Fill, value: f32| match f {
                Fill::Value => value,
                Fill::Empty => empty,
                Fill::Zero => 0.0,
            };
            let sem = fill(outcome.errors, a[1].sqrt() / a[2]);
            Bin {
                signal: a[0],
                normalization: a[2],
                count: a[3],
                norm_sq: a[4],
                intensity: fill(outcome.intensity, a[0] / a[2]),
                std: fill(outcome.errors, (a[1] / a[4]).sqrt()),
                sigma: sem,
                sem,
            }
        },
    )
}

#[test]
fn single_pixel_lands_in_first_bin() {
    let prep = [10.0f32, 0.0, 2.0, 1.0, 5.0, 0.0, 1.0, 1.0];
    let r = profile(&[1.0, 2.0], &prep, 4, ErrorModel::No, 0.0);
    assert_eq!(r[0].signal, 10.0);
    assert_eq!(r[0].normalization, 2.0);
    assert_eq!(r[0].count, 1.0);
    assert_eq!(r[0].intensity, 5.0);
    assert_eq!(r[0].norm_sq, 4.0);
}

#[test]
fn empty_bins_get_empty_fill() {
    let prep = [1.0f32, 0.0, 1.0, 1.0, 1.0, 0.0, 1.0, 1.0];
    let empty = -1.0f32;
    let r = profile(&[0.0, 10.0], &prep, 5, ErrorModel::No, empty);
    assert!(r.iter().any(|b| b.intensity == empty));
}

#[test]
fn no_error_model_zeroes_sigma() {
    let prep = [
        5.0f32, 0.0, 1.0, 1.0, 6.0, 0.0, 1.0, 1.0, 7.0, 0.0, 1.0, 1.0,
    ];
    let r = profile(&[1.0, 2.0, 3.0], &prep, 4, ErrorModel::No, 0.0);
    assert!(r.iter().all(|b| b.sigma == 0.0));
    assert!(r.iter().all(|b| b.std == 0.0));
    assert!(r.iter().all(|b| b.sem == 0.0));
}

/// The pixels of a bin as decimal digits, first to last.
fn digits(acc: u64, pixel: usize) -> u64 {
    10 * acc + pixel as u64 + 1
}

#[test]
fn bins_add_their_pixels_in_order() {
    let out = histogram_preproc(&[2, 0, -1, 2, 3, 1, 2], 3, 0u64, &digits);
    assert_eq!(out, vec![2, 6, 147]);
    let halves = histogram1d(&[1, 1, 0], 2, 0u64, digits, |x: u64| x as f64 / 2.0);
    assert_eq!(halves, vec![1.5, 6.0]);
}

#[test]
fn cells_come_in_azimuthal_major_order() {
    let grid = histogram2d(
        &[0, 1, 0, 2, -1, 0],
        &[1, 2, 1, 0, 0, 3],
        Some(&[0, 0, 1, 0, 0, 0]),
        (2, 3),
        0u64,
        digits,
        |x: u64| x,
    );
    assert_eq!(grid, vec![0, 0, 1, 0, 0, 2]);
    let bare = histogram2d(&[0, 0], &[0, 0], None, (1, 1), 0u64, digits, |x: u64| x);
    assert_eq!(bare, vec![12]);
}

#[test]
fn transposing_twice_gives_the_grid_back() {
    let cells = vec![10, 11, 12, 20, 21, 22];
    let same = |x: i32| x;
    let turned = reduce_2d(&cells, (2, 3), &same);
    assert_eq!(turned, vec![10, 20, 11, 21, 12, 22]);
    assert_eq!(reduce_2d(&turned, (3, 2), &same), cells);
    assert_eq!(transposed_bin(1, 2, 3), 3);
    assert_eq!(transposed_bin(4, 2, 3), 2);
    assert_eq!(reduce_1d(&vec![1, 2], &|x: i32| x + 1), vec![2, 3]);
}

#[test]
fn outcomes_of_bins() {
    let o = outcome_by_norm(true, true);
    assert!(o.intensity == Fill::Value && o.errors == Fill::Value);
    let o = outcome_by_norm(true, false);
    assert!(o.intensity == Fill::Value && o.errors == Fill::Empty);
    let o = outcome_by_norm(false, true);
    assert!(o.intensity == Fill::Empty && o.errors == Fill::Empty);
    let o = outcome_by_count(true, false);
    assert!(o.intensity == Fill::Value && o.errors == Fill::Zero);
    let o = outcome_by_count(true, true);
    assert!(o.intensity == Fill::Value && o.errors == Fill::Value);
    let o = outcome_by_count(false, true);
    assert!(o.intensity == Fill::Empty && o.errors == Fill::Empty);
    let o = outcome_by_count(false, false);
    assert!(o.intensity == Fill::Empty && o.errors == Fill::Zero);
}

#[test]
fn welford_steps() {
    assert!(welford_step(false, false, true) == WelfordStep::Seed);
    assert!(welford_step(false, true, true) == WelfordStep::Seed);
    assert!(welford_step(true, false, true) == WelfordStep::Update);
    assert!(welford_step(true, true, true) == WelfordStep::Skip);
    assert!(welford_step(true, true, false) == WelfordStep::Update);
}

#[test]
fn error_models_by_code() {
    assert!(ErrorModel::from_code(0) == Some(ErrorModel::No));
    assert!(ErrorModel::from_code(1) == Some(ErrorModel::Variance));
    assert!(ErrorModel::from_code(2) == Some(ErrorModel::Poisson));
    assert!(ErrorModel::from_code(3) == Some(ErrorModel::Azimuthal));
    assert!(ErrorModel::from_code(-1) == None);
    assert!(!ErrorModel::No.do_variance());
    assert!(ErrorModel::Azimuthal.do_variance());
    assert!(ErrorModel::Poisson.poissonian());
    assert!(!ErrorModel::Variance.poissonian());
    assert!(ErrorModel::from_code(4) == Some(ErrorModel::Hybrid));
    assert!(ErrorModel::Hybrid.poissonian());
    assert_eq!(internal_preproc_variance(ErrorModel::Hybrid, 5), 0);
    assert_eq!(internal_preproc_variance(ErrorModel::Poisson, 5), 5);
}

#[test]
fn ranges_are_ordered() {
    let b = |x: f64| x.to_bits();
    assert_eq!(bin_range(&[], Some((b(3.0), b(1.0)))), (b(1.0), b(3.0)));
    assert_eq!(bin_range(&[b(2.0), b(-1.0), b(5.0)], None), (b(-1.0), b(5.0)));
}

#[test]
fn parts_merge_to_the_whole() {
    let bins = [2i64, 0, 5, 2, -1, 1, 2, 0];
    let cells = pixel_bins(&bins, 3);
    assert_eq!(cells[2], None);
    assert_eq!(cells[3], Some(2));
    let step = |acc: u64, i: usize| acc + (1 << i);
    let plus = |a: u64, b: u64| a + b;
    let part = |from: usize, to: usize| {
        let mut acc = vec![0u64; 3];
        for i in from..to {
            add_pixel(&mut acc, &cells, i, &step);
        }
        acc
    };
    let whole = histogram_preproc(&bins, 3, 0, &step);
    assert_eq!(whole, vec![0b1000_0010, 0b0010_0000, 0b0100_1001]);
    let left = merge_bins(&part(0, 3), &part(3, 3), &plus);
    let right = merge_bins(&part(3, 4), &part(4, 8), &plus);
    assert_eq!(merge_bins(&left, &right, &plus), whole);
    assert!(ErrorModel::Poisson.mergeable() && !ErrorModel::Azimuthal.mergeable());
    let grid = pixel_cells(&[0, 1, 2, 1], &[1, 1, 0, 3], Some(&[0, 1, 0, 0]), (3, 2));
    assert_eq!(grid, vec![Some(1), None, Some(4), None]);
}

#[test]
fn contributions_follow_the_error_model() {
    assert!(contribution(ErrorModel::No, true, true, true)
        == Contribution::Sums { variance: false });
    assert!(contribution(ErrorModel::Hybrid, false, false, true)
        == Contribution::Sums { variance: true });
    let spread = |started: bool, zero_norm: bool, guarded: bool| {
        contribution(ErrorModel::Azimuthal, started, zero_norm, guarded)
    };
    assert!(spread(false, true, true) == Contribution::Spread(WelfordStep::Seed));
    assert!(spread(true, true, true) == Contribution::Spread(WelfordStep::Skip));
    assert!(spread(true, true, false) == Contribution::Spread(WelfordStep::Update));
}
