use rsfai::combine::{
    recalculate, union1d, union2d, union_gates_1d, union_gates_2d, union_sums, Integrated, Means,
    Sums,
};
use rsfai::method::{
    integration_options, parse_method, radial_unit, widths_agree, Algo, Method, MethodError,
    RadialUnit, Split,
};
use rsfai::model::ErrorModel;
use rsfai::multigeometry::{guess_range, FramesError, MultiGeometry};

fn words(list: &[&str]) -> Vec<String> {
    list.iter().map(|w| format!("{w}")).collect()
}

#[test]
fn methods_are_read_from_words() {
    let read = |list: &[&str]| parse_method(Some(&words(list)));
    assert!(parse_method(None) == Ok(Method { split: Split::No, algo: Algo::Histogram }));
    assert!(read(&["full", "csr"]) == Ok(Method { split: Split::Full, algo: Algo::Csr }));
    assert!(read(&["bbox", "lut", "x"]) == Ok(Method { split: Split::Bbox, algo: Algo::Lut }));
    assert!(read(&["no", "csc"]) == Ok(Method { split: Split::No, algo: Algo::Csc }));
    assert!(read(&["no"]) == Err(MethodError::TooShort));
    assert!(read(&["half", "csr"]) == Err(MethodError::UnknownSplit));
    assert!(read(&["no", "tree"]) == Err(MethodError::UnknownAlgo));
    assert!(Method { split: Split::No, algo: Algo::Histogram }.single_precision_sums());
    assert!(!Method { split: Split::Bbox, algo: Algo::Histogram }.single_precision_sums());
}

#[test]
fn units_are_read_by_name() {
    assert!(radial_unit("q_nm^-1") == Some(RadialUnit::QNmInv));
    assert!(radial_unit("q_A^-1") == Some(RadialUnit::QAInv));
    assert!(radial_unit("2th_deg") == Some(RadialUnit::TthDeg));
    assert!(radial_unit("2th_rad") == Some(RadialUnit::TthRad));
    assert!(radial_unit("r_mm") == Some(RadialUnit::RMm));
    assert!(radial_unit("r_m") == Some(RadialUnit::RM));
    assert!(radial_unit("chi_deg") == None);
}

#[test]
fn options_need_a_known_error_model() {
    let m = Method { split: Split::No, algo: Algo::Csr };
    let o = integration_options(true, None, 1, 3, m, Some((1, 2)), None).unwrap();
    assert!(o.error_model == ErrorModel::Azimuthal && o.method == m && o.correct_solid_angle);
    assert_eq!(o.radial_range, Some((1, 2)));
    assert!(integration_options(true, None, 1, 5, m, None, None).is_none());
    assert!(integration_options(true, None, 1, -1, m, None, None).is_none());
    assert!(widths_agree(true, true) && widths_agree(false, false) && !widths_agree(true, false));
}

fn b(x: f64) -> u64 {
    x.to_bits()
}

fn v(x: u64) -> f64 {
    f64::from_bits(x)
}

#[test]
fn common_ranges_cover_all_geometries() {
    let arrays = vec![vec![b(2.0), b(f64::NAN)], vec![], vec![b(-1.0), b(7.0)]];
    assert_eq!(guess_range(&arrays), (b(-1.0), b(7.0)));
    assert_eq!(guess_range(&vec![]), (b(f64::INFINITY), b(f64::NEG_INFINITY)));
    let mut mg = MultiGeometry::new(2);
    assert_eq!(mg.effective_radial_range(&arrays), (b(-1.0), b(7.0)));
    assert_eq!(mg.effective_azimuth_range(&arrays), (b(-1.0), b(7.0)));
    mg.radial_range = Some((b(5.0), b(6.0)));
    assert_eq!(mg.effective_radial_range(&arrays), (b(5.0), b(6.0)));
    assert_eq!(v(mg.empty), 0.0);
}

#[test]
fn results_are_joined_in_order() {
    let mg = MultiGeometry::new(3);
    let name = |k: usize| format!("{k}");
    let join = |a: String, b: String| format!("({a}{b})");
    assert_eq!(mg.integrate(3, name, join).unwrap(), "((01)2)");
    assert!(mg.integrate(0, name, join).unwrap_err() == FramesError::Empty);
    assert!(mg.integrate(2, name, join).unwrap_err() == FramesError::Mismatch);
    assert!(mg.check_frames(3) == Ok(()));
}

fn sums(signal: f64, norm: f64, count: f64, variance: f64, norm2: f64) -> Sums {
    Sums {
        signal: b(signal),
        norm: b(norm),
        count: b(count),
        variance: b(variance),
        norm2: b(norm2),
    }
}

fn plus(x: u64, y: u64) -> u64 {
    b(v(x) + v(y))
}

fn term(x: Sums, y: Sums, by_second: bool) -> Option<u64> {
    let delta = v(x.signal) * v(y.norm) - v(y.signal) * v(x.norm);
    let denom = (v(x.norm) + v(y.norm)) * v(x.norm) * v(y.norm);
    if denom == 0.0 {
        return None;
    }
    let minor = if by_second { v(y.norm2) / v(y.norm) } else { v(x.norm2) / v(x.norm) };
    Some(b(minor * (delta * delta) / denom))
}

fn means(s: Sums) -> Means {
    Means {
        intensity: ((v(s.signal) / v(s.norm)) as f32).to_bits(),
        std: ((v(s.variance) / v(s.norm2)).sqrt() as f32).to_bits(),
        sem: ((v(s.variance).sqrt() / v(s.norm)) as f32).to_bits(),
    }
}

#[test]
fn sums_are_joined_by_the_error_model() {
    let a = [sums(6.0, 2.0, 1.0, 4.0, 4.0)];
    let c = [sums(4.0, 4.0, 2.0, 5.0, 16.0)];
    let plain = union_sums(&a, &c, union_gates_1d(ErrorModel::No), &plus, &term);
    assert!(plain[0] == sums(10.0, 6.0, 3.0, 0.0, 0.0));
    let poisson = union_sums(&a, &c, union_gates_1d(ErrorModel::Poisson), &plus, &term);
    assert!(poisson[0] == sums(10.0, 6.0, 3.0, 9.0, 20.0));
    let azimuthal = union_sums(&a, &c, union_gates_1d(ErrorModel::Azimuthal), &plus, &term);
    let crossed = 2.0 * 256.0 / 48.0;
    assert!(azimuthal[0] == sums(10.0, 6.0, 3.0, 9.0 + crossed, 20.0));
    let swapped = union_sums(&c, &a, union_gates_1d(ErrorModel::Azimuthal), &plus, &term);
    assert!(swapped[0] == azimuthal[0]);
    let grid = union_sums(&a, &c, union_gates_2d(ErrorModel::Azimuthal), &plus, &term);
    assert!(grid[0] == poisson[0]);
    let empty = [sums(0.0, 0.0, 0.0, 0.0, 0.0)];
    let kept = union_sums(&empty, &c, union_gates_1d(ErrorModel::Azimuthal), &plus, &term);
    assert!(kept[0] == c[0]);
}

#[test]
fn bins_without_normalization_are_dummies() {
    let m = recalculate(
        &vec![sums(6.0, 2.0, 1.0, 4.0, 4.0), sums(1.0, -0.0, 1.0, 1.0, 1.0)],
        77,
        &means,
    );
    assert_eq!(f32::from_bits(m[0].intensity), 3.0);
    assert_eq!(f32::from_bits(m[0].std), 1.0);
    assert_eq!(f32::from_bits(m[0].sem), 1.0);
    assert!(m[1] == Means { intensity: 77, std: 77, sem: 77 });
}

fn result(s: Sums, radial: f64, mark: u32) -> Integrated {
    Integrated {
        radial: vec![b(radial)],
        azimuthal: vec![],
        intensity: vec![mark],
        sigma: vec![mark + 1],
        std: vec![mark + 2],
        sem: vec![mark + 3],
        sums: vec![s],
    }
}

#[test]
fn joined_results_keep_the_first_axes() {
    let x = result(sums(6.0, 2.0, 1.0, 4.0, 4.0), 1.5, 10);
    let y = result(sums(4.0, 4.0, 2.0, 5.0, 16.0), 2.5, 20);
    let plain = union1d(&x, &y, ErrorModel::No, 7, plus, term, means);
    assert_eq!(plain.radial, vec![b(1.5)]);
    assert_eq!((plain.sigma, plain.std, plain.sem), (vec![11], vec![12], vec![13]));
    assert_eq!(f32::from_bits(plain.intensity[0]), (10.0f64 / 6.0) as f32);
    let joined = union2d(&x, &y, ErrorModel::Variance, 7, plus, term, means);
    assert_eq!(f32::from_bits(joined.sem[0]), (3.0f64 / 6.0) as f32);
    assert_eq!(joined.sigma, joined.sem);
    assert!(joined.sums[0] == sums(10.0, 6.0, 3.0, 9.0, 20.0));
}
