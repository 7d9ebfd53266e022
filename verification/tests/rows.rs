use rsfai::combine::Sums;
use rsfai::histogram::WelfordStep;
use rsfai::model::ErrorModel;
use rsfai::rows::{counting_pixels, row_of, PrepRow, RowMath, Weighed};
use rsfai::sparse::{csr_to_csc, csr_to_lut, flatten_csr, Csr, Entry};

fn f(x: u64) -> f64 {
    f64::from_bits(x)
}

fn widen(x: u32) -> u64 {
    f64::from(f32::from_bits(x)).to_bits()
}

fn times(x: u64, y: u64) -> u64 {
    (f(x) * f(y)).to_bits()
}

fn plus(x: u64, y: u64) -> u64 {
    (f(x) + f(y)).to_bits()
}

fn ratio(row: PrepRow) -> u64 {
    (f(widen(row.signal)) / f(widen(row.norm))).to_bits()
}

/// Counts the steps in the variance.
fn spread(s: Sums, step: WelfordStep, x: Weighed) -> Sums {
    let code = match step {
        WelfordStep::Seed => 1.0,
        WelfordStep::Update => 10.0,
        WelfordStep::Skip => 100.0,
    };
    Sums {
        signal: plus(s.signal, x.signal),
        norm: x.intensity,
        count: 7,
        variance: (f(s.variance) + code).to_bits(),
        norm2: plus(s.norm2, x.weight),
    }
}

fn floats(s: &Sums) -> [f64; 5] {
    [s.signal, s.variance, s.norm, s.count, s.norm2].map(f64::from_bits)
}

fn bits(values: &[f32]) -> Vec<u32> {
    values.iter().map(|v| v.to_bits()).collect()
}

fn none() -> Sums {
    Sums { signal: 0, norm: 0, count: 0, variance: 0, norm2: 0 }
}

fn matrix(rows: Vec<Vec<(i32, f32)>>) -> Csr {
    let lists: Vec<Vec<Entry>> = rows
        .into_iter()
        .map(|row| row.into_iter().map(|(p, c)| (p, c.to_bits())).collect())
        .collect();
    flatten_csr(&lists)
}

#[test]
fn rows_are_weighed_by_their_coefficient() {
    let math = RowMath { widen, times, plus, intensity: ratio, spread };
    let prep = bits(&[9.0, 9.0, 9.0, 9.0, 3.0, 5.0, 2.0, 1.0]);
    let row = row_of(&prep, 1);
    let half = 0.5f32.to_bits();
    let no = math.add_row(ErrorModel::No, true, none(), half, row);
    assert_eq!(floats(&no), [1.5, 0.0, 1.0, 0.5, 1.0]);
    let poisson = math.add_row(ErrorModel::Poisson, false, no, half, row);
    assert_eq!(floats(&poisson), [3.0, 1.25, 2.0, 1.0, 2.0]);
    let hybrid = math.add_row(ErrorModel::Hybrid, false, none(), half, row);
    assert_eq!(floats(&hybrid), [1.5, 1.25, 1.0, 0.5, 1.0]);
}

#[test]
fn the_spread_depends_on_what_came_before() {
    let math = RowMath { widen, times, plus, intensity: ratio, spread };
    let prep = bits(&[3.0, 5.0, 2.0, 1.0, 4.0, 0.0, 0.0, 1.0]);
    let one = 1.0f32.to_bits();
    let em = ErrorModel::Azimuthal;
    let first = math.add_row(em, true, none(), one, row_of(&prep, 0));
    assert_eq!(floats(&first), [3.0, 1.0, 1.5, 1.0, 2.0]);
    let next = math.add_row(em, true, first, one, row_of(&prep, 0));
    assert_eq!(floats(&next)[1], 11.0);
    let skipped = math.add_row(em, true, first, one, row_of(&prep, 1));
    assert_eq!(floats(&skipped)[1], 101.0);
    assert_eq!(floats(&skipped)[3], 2.0);
    let unguarded = math.add_row(em, false, first, one, row_of(&prep, 1));
    assert_eq!(floats(&unguarded)[1], 11.0);
    let seeded = math.add_row(em, true, none(), one, row_of(&prep, 1));
    assert_eq!(floats(&seeded)[1], 1.0);
}

#[test]
fn sparse_sums_agree_bit_for_bit() {
    let math = RowMath { widen, times, plus, intensity: ratio, spread };
    // The second pixel does not count; the third has a coefficient of zero somewhere.
    let prep = bits(&[
        0.1, 0.7, 1.3, 1.0, 0.0, 0.0, 0.0, 0.0, 2.7, 0.9, 0.3, 1.0, 5.1, 6.3, 1.7, 1.0,
    ]);
    assert_eq!(counting_pixels(&prep), vec![true, false, true, true]);
    let csr = matrix(vec![
        vec![(0, 0.3), (1, 0.7), (2, 0.0), (3, 0.9)],
        vec![],
        vec![(1, 0.3), (2, 0.1)],
    ]);
    let lut = csr_to_lut(&csr, 3);
    let csc = csr_to_csc(&csr, 3, 4);
    for em in [ErrorModel::No, ErrorModel::Variance, ErrorModel::Poisson] {
        let by_row = math.csr_sums(&csr, &prep, em);
        assert!(math.lut_sums(&lut, 3, &prep, em) == by_row);
        assert!(math.csc_sums(&csc, 3, &prep, em) == by_row);
        assert!(by_row[1] == none());
        let c = |x: f32| f64::from(x);
        let signal = c(0.3) * c(0.1) + c(0.9) * c(5.1);
        assert_eq!(f(by_row[0].signal), signal);
    }
}

#[test]
fn the_transposed_engine_repeats_the_preprocessing() {
    let math = RowMath { widen, times, plus, intensity: ratio, spread };
    let prep = bits(&[3.0, 5.0, 2.0, 1.0]);
    let csr = matrix(vec![vec![(0, 1.0)]]);
    let csc = csr_to_csc(&csr, 1, 1);
    let em = ErrorModel::Hybrid;
    assert_eq!(f(math.csr_sums(&csr, &prep, em)[0].variance), 5.0);
    assert_eq!(f(math.csc_sums(&csc, 1, &prep, em)[0].variance), 0.0);
    assert_eq!(f(math.csc_sums(&csc, 1, &prep, ErrorModel::Variance)[0].variance), 5.0);
}
