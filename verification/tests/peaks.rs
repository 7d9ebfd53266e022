use rsfai::bilinear::Bilinear;
use rsfai::blob::{check_wide, local_max, refine_hessian, DogStack};
use rsfai::distance::{distance_transform_edt, NO_BACKGROUND};
use rsfai::ellipse::{
    after_inverse, choose_conic, fit_ellipse, order_axes, AxesSigns, Candidate, EllipseError, FitStep,
};
use rsfai::label::{label, Structure, UnionFind};
use rsfai::watershed::{get_bit, thin_peaks, InverseWatershed, Region};

fn bits(values: &[f32]) -> Vec<u32> {
    values.iter().map(|v| v.to_bits()).collect()
}

fn picture(rows: &[&str]) -> Vec<bool> {
    rows.iter().flat_map(|r| r.chars().map(|c| c == '#')).collect()
}

#[test]
fn structures_connect_as_drawn() {
    let full = Structure::full();
    let cross = Structure::cross();
    assert!(full.connects(-1, -1) && full.connects(-1, 0) && full.connects(1, 1));
    assert!(cross.connects(-1, 0) && cross.connects(0, -1) && cross.connects(0, 0));
    assert!(!cross.connects(-1, -1) && !cross.connects(1, -1));
}

#[test]
fn union_find_keeps_the_smaller_root() {
    let mut uf = UnionFind::new();
    let (a, b, c, d) = (uf.make(), uf.make(), uf.make(), uf.make());
    assert_eq!((a, b, c, d), (1, 2, 3, 4));
    assert_eq!(uf.union(c, b), 2);
    assert_eq!(uf.find(c), 2);
    assert_eq!(uf.union(a, c), 1);
    assert_eq!(uf.find(b), 1);
    assert_eq!(uf.find(c), 1);
    assert_eq!(uf.find(d), 4);
    assert_eq!(uf.union(d, d), 4);
}

#[test]
fn components_are_numbered_in_raster_order() {
    let img = picture(&["#.#..", ".#..#", "..#.#", "#...#"]);
    let (full, n) = label(&img, 4, 5, Structure::full());
    assert_eq!(n, 3);
    assert_eq!(full, vec![1, 0, 1, 0, 0, 0, 1, 0, 0, 2, 0, 0, 1, 0, 2, 3, 0, 0, 0, 2]);
    let (cross, n) = label(&img, 4, 5, Structure::cross());
    assert_eq!(n, 6);
    assert_eq!(cross, vec![1, 0, 2, 0, 0, 0, 3, 0, 0, 4, 0, 0, 5, 0, 4, 6, 0, 0, 0, 4]);
}

#[test]
fn merging_arms_share_one_number() {
    let img = picture(&["#.#", "#.#", "###"]);
    let (out, n) = label(&img, 3, 3, Structure::cross());
    assert_eq!(n, 1);
    assert_eq!(out, vec![1, 0, 1, 1, 0, 1, 1, 1, 1]);
    let (out, n) = label(&[], 0, 0, Structure::full());
    assert_eq!((out.len(), n), (0, 0));
}

#[test]
fn one_sided_structure_labels_are_causal() {
    let mut cells = [false; 9];
    cells[3] = true;
    let s = Structure { cells };
    let (out, n) = label(&picture(&["##", "##"]), 2, 2, s);
    assert_eq!(n, 2);
    assert_eq!(out, vec![1, 1, 2, 2]);
}

#[test]
fn distances_to_the_nearest_background() {
    let img = picture(&["###", "###", "#.#"]);
    let e = distance_transform_edt(&img, 3, 3);
    assert_eq!(e.dist2, vec![5, 4, 5, 2, 1, 2, 1, 0, 1]);
    assert_eq!(e.idx_row, vec![2; 9]);
    assert_eq!(e.idx_col, vec![1; 9]);
}

#[test]
fn distances_agree_with_a_search() {
    let (rows, cols) = (7, 9);
    let mut state = 12345u32;
    let mut img = Vec::new();
    for _ in 0..rows * cols {
        state = state.wrapping_mul(1664525).wrapping_add(1013904223);
        img.push(state >> 29 != 0);
    }
    assert!(img.contains(&false));
    let e = distance_transform_edt(&img, rows, cols);
    for i in 0..rows * cols {
        let (r, c) = ((i / cols) as i64, (i % cols) as i64);
        let mut best = i64::MAX;
        for j in 0..rows * cols {
            if !img[j] {
                let (a, b) = ((j / cols) as i64, (j % cols) as i64);
                best = best.min((r - a) * (r - a) + (c - b) * (c - b));
            }
        }
        assert_eq!(e.dist2[i], best);
        let f = (e.idx_row[i] as usize) * cols + e.idx_col[i] as usize;
        assert!(!img[f]);
        let (a, b) = (e.idx_row[i] as i64, e.idx_col[i] as i64);
        assert_eq!((r - a) * (r - a) + (c - b) * (c - b), best);
        assert_eq!(best == 0, !img[i]);
    }
}

#[test]
fn no_background_is_told() {
    let e = distance_transform_edt(&[true, true], 1, 2);
    assert_eq!(e.dist2, vec![NO_BACKGROUND, NO_BACKGROUND]);
}

#[test]
fn climbing_ends_on_a_summit() {
    let img = bits(&[
        0.0, 1.0, 2.0, 1.0, 0.0, 1.0, 2.0, 4.0, 2.0, 0.0, 0.0, 1.0, 2.0, 1.0, 9.0,
    ]);
    let b = Bilinear::new(&img, 3, 5);
    assert_eq!(b.at(1, 2), 4.0f32.to_bits());
    assert_eq!(b.local_maxi_index(0), 7);
    assert_eq!(b.local_maxi_index(7), 7);
    assert_eq!(b.local_maxi_index(9), 14);
    let m = b.local_maxi(0, 0);
    assert_eq!((m.row, m.col), (1, 2));
    assert_eq!(m.patch.unwrap(), bits(&[1.0, 2.0, 1.0, 2.0, 4.0, 2.0, 1.0, 2.0, 1.0])[..]);
    let m = b.local_maxi(2, 4);
    assert_eq!((m.row, m.col), (2, 4));
    assert!(m.patch.is_none());
}

#[test]
fn climbing_prefers_the_first_of_equals_and_stays_on_nan() {
    let img = bits(&[5.0, 0.0, 5.0, f32::NAN, f32::NEG_INFINITY, -1.0]);
    let b = Bilinear::new(&img, 2, 3);
    assert_eq!(b.local_maxi_index(1), 0);
    assert_eq!(b.local_maxi_index(3), 3);
    assert_eq!(b.local_maxi_index(4), 0);
    assert_eq!(b.local_maxi_index(5), 2);
}

#[test]
fn bits_are_read_one_by_one() {
    assert!(get_bit(0b1000_0001, 0));
    assert!(get_bit(0b1000_0001, 7));
    assert!(!get_bit(0b1000_0001, 3));
}

fn two_hills() -> InverseWatershed {
    let mut w = InverseWatershed::new(
        bits(&[
            1.0, 2.0, 1.0, 0.5, 1.0, 1.0, 2.0, 9.0, 2.0, 1.0, 7.0, 1.0, 1.0, 2.0, 1.0, 0.25, 1.0, 1.0,
        ]),
        3,
        6,
    );
    w.init();
    w
}

#[test]
fn segmenting_again_changes_nothing() {
    let once = two_hills();
    let mut twice = two_hills();
    twice.init();
    assert_eq!(twice.labels, once.labels);
    assert_eq!(twice.borders, once.borders);
    assert_eq!(twice.regions.len(), once.regions.len());
    for (p, g) in &once.regions {
        let h = twice.regions.get(p).unwrap();
        assert_eq!((h.index, h.size, h.pass_to), (g.index, g.size, g.pass_to));
        assert_eq!((h.mini, h.maxi, h.highest_pass), (g.mini, g.maxi, g.highest_pass));
        assert_eq!((&h.neighbors, &h.border, &h.peaks), (&g.neighbors, &g.border, &g.peaks));
    }
}

#[test]
fn nothing_is_found_before_segmenting() {
    let w = InverseWatershed::new(bits(&[1.0, 2.0, f32::NAN, 3.0]), 2, 2);
    let far = |_: usize, _: usize| false;
    assert!(w.peaks_from_area(&[true; 4], None, None, far).is_empty());
    assert!(w.peaks_from_area(&[true; 4], Some(0), Some(3), far).is_empty());
}

#[test]
fn the_centre_of_a_structure_is_unused() {
    let image = [true, false, true, true, true, false, false, true, true, true, false, false];
    for mut s in [Structure::full(), Structure::cross()] {
        let with = label(&image, 3, 4, s);
        s.cells[4] = !s.cells[4];
        assert_eq!(label(&image, 3, 4, s), with);
    }
}

#[test]
fn regions_of_two_hills() {
    let w = two_hills();
    assert_eq!(w.labels, vec![7, 7, 7, 10, 10, 10, 7, 7, 7, 10, 10, 10, 7, 7, 7, 10, 10, 10]);
    let hill = w.regions.get(&7).unwrap();
    assert_eq!(hill.index, 7);
    assert_eq!(hill.size, 9);
    assert_eq!(hill.neighbors.iter().filter(|n| **n != 10).count(), 0);
    assert_eq!(hill.pass_to, 10);
    assert_eq!(f32::from_bits(hill.maxi), 9.0);
    assert_eq!(f32::from_bits(hill.mini), 1.0);
    assert_eq!(f32::from_bits(hill.highest_pass), 2.0);
    let other = w.regions.get(&10).unwrap();
    assert_eq!(other.pass_to, 7);
    assert_eq!(f32::from_bits(other.mini), 0.25);
    assert_eq!(f32::from_bits(other.highest_pass), 1.0);
    assert_eq!(w.borders[0], 0);
    assert!(w.borders[2] != 0);
}

#[test]
fn peaks_of_an_area() {
    let w = two_hills();
    let all = [true; 18];
    let never = |_: usize, _: usize| false;
    assert_eq!(w.peaks_from_area(&all, None, None, never), vec![7, 10]);
    assert_eq!(w.peaks_from_area(&all, Some(8.0f32.to_bits()), None, never), vec![7]);
    assert_eq!(w.peaks_from_area(&all, Some(7.0f32.to_bits()), Some(1), never), vec![7]);
    assert_eq!(w.peaks_from_area(&all, None, Some(5), never), vec![7, 10]);
    assert_eq!(w.peaks_from_area(&all, None, Some(0), never), vec![]);
    let mut right = [false; 18];
    right[17] = true;
    right[10] = true;
    assert_eq!(w.peaks_from_area(&right, None, None, never), vec![10]);
    right[10] = false;
    assert_eq!(w.peaks_from_area(&right, None, None, never), vec![]);
    assert_eq!(w.peaks_from_area(&[false; 18], None, None, never), vec![]);
}

#[test]
fn fresh_regions_know_their_peak_only() {
    let r = Region::new(4);
    assert_eq!(r.index, 4);
    assert_eq!(r.peaks, vec![4]);
    assert_eq!(r.size, 0);
    assert!(r.neighbors.is_empty() && r.border.is_empty());
    let mut r = Region::new(0);
    r.border = vec![1, 2];
    r.neighbors = vec![5, 6];
    let dropped = r.init_values(&bits(&[4.0, 1.0, 3.0]));
    assert!(!dropped);
    assert_eq!(r.pass_to, 6);
    assert_eq!(f32::from_bits(r.highest_pass), 3.0);
}

#[test]
fn peaks_rank_by_value() {
    let mut data = vec![0.0f32; 49];
    for (p, v) in [(8, 3.0), (12, 5.0), (36, 5.0), (40, 9.0)] {
        data[p] = v;
    }
    let mut w = InverseWatershed::new(bits(&data), 7, 7);
    w.init();
    let mut mask = vec![false; 49];
    for p in [8, 12, 36, 40] {
        mask[p] = true;
    }
    let never = |_: usize, _: usize| false;
    assert_eq!(w.peaks_from_area(&mask, None, None, never), vec![8, 12, 36, 40]);
    assert_eq!(w.peaks_from_area(&mask, None, Some(9), never), vec![40, 12, 36, 8]);
    assert_eq!(w.peaks_from_area(&mask, None, Some(2), never), vec![40, 12]);
    let bottom = |a: usize, b: usize| a > 24 && b > 24;
    assert_eq!(w.peaks_from_area(&mask, None, Some(3), bottom), vec![40, 12, 8]);
    assert_eq!(w.peaks_from_area(&mask, Some(5.0f32.to_bits()), None, never), vec![40, 12, 36]);
}

#[test]
fn thinning_keeps_the_first_and_falls_back_on_the_rest() {
    let near = |a: usize, b: usize| a.abs_diff(b) <= 1;
    assert_eq!(thin_peaks(vec![5, 6, 9, 20], 2, near), vec![5, 9]);
    assert_eq!(thin_peaks(vec![5, 6, 7, 4], 3, near), vec![5, 7, 6]);
    assert_eq!(thin_peaks(vec![5, 6], 2, near), vec![5, 6]);
    assert_eq!(thin_peaks(vec![5, 6], 0, near), vec![]);
}

/// Four planes of five by five voxels with one bright voxel.
fn stack(s: usize, y: usize, x: usize) -> DogStack {
    let mut data = vec![0.0f32; 100];
    data[25 * s + 5 * y + x] = 4.0;
    DogStack::new(bits(&data), 4, 5, 5)
}

#[test]
fn a_bright_voxel_is_a_keypoint() {
    let d = stack(1, 2, 3);
    assert_eq!(d.at(1, 2, 3), 4.0f32.to_bits());
    assert_eq!(local_max(&d, None, false).len(), 1);
    assert_eq!(local_max(&d, None, true), local_max(&d, None, false));
    let mut mask = vec![false; 25];
    mask[13] = true;
    assert!(local_max(&d, Some(&mask), false).is_empty());
}

#[test]
fn the_rim_holds_no_keypoint() {
    assert!(local_max(&stack(0, 2, 2), None, false).is_empty());
    assert!(local_max(&stack(1, 0, 2), None, false).is_empty());
    assert!(local_max(&stack(3, 2, 2), None, false).is_empty());
    let small = DogStack::new(bits(&[1.0, 2.0]), 2, 1, 1);
    assert!(local_max(&small, None, true).is_empty());
}

#[test]
fn equal_neighbours_are_no_keypoint() {
    let mut data = vec![0.0f32; 100];
    data[25 + 12] = 4.0;
    data[25 + 13] = 4.0;
    let d = DogStack::new(bits(&data), 4, 5, 5);
    assert!(local_max(&d, None, false).is_empty());
}

#[test]
fn the_voxel_straight_above_counts() {
    let mut d = vec![0.0f32; 27];
    d[13] = 1.0;
    let alone = DogStack::new(bits(&d), 3, 3, 3);
    assert_eq!(local_max(&alone, None, false), vec![(1, 1, 1)]);
    d[22] = 5.0;
    let beaten = DogStack::new(bits(&d), 3, 3, 3);
    assert!(local_max(&beaten, None, false).is_empty());
    d[22] = 0.0;
    d[4] = 5.0;
    let below = DogStack::new(bits(&d), 3, 3, 3);
    assert!(local_max(&below, None, false).is_empty());
}

#[test]
fn keypoints_of_different_scales_keep_apart() {
    let mut data = vec![0.0f32; 100];
    data[25 + 12] = 4.0;
    data[50 + 12] = 5.0;
    let d = DogStack::new(bits(&data), 4, 5, 5);
    assert_eq!(local_max(&d, None, false), vec![(2, 2, 2)]);
}

#[test]
fn the_wide_test_may_run_out_of_data() {
    assert!(check_wide(&stack(2, 2, 2), None));
    assert!(check_wide(&stack(1, 3, 2), None));
    let last = stack(2, 3, 2);
    assert!(!check_wide(&last, None));
    let mut mask = vec![false; 25];
    mask[17] = true;
    assert!(check_wide(&last, Some(&mask)));
    assert!(local_max(&last, Some(&mask), true).is_empty());
    assert!(check_wide(&DogStack::new(bits(&[1.0, 2.0]), 2, 1, 1), None));
}

#[test]
fn the_wide_test_looks_two_cells_away() {
    let mut data = vec![0.0f32; 100];
    data[25 + 12] = 4.0;
    data[25 + 10] = 5.0;
    let d = DogStack::new(bits(&data), 4, 5, 5);
    assert_eq!(local_max(&d, None, false).len(), 1);
    assert!(local_max(&d, None, true).is_empty());
}

#[test]
fn refinement_reads_the_neighbours() {
    let data: Vec<f32> = (0..100).map(|i| i as f32).collect();
    let d = DogStack::new(bits(&data), 4, 5, 5);
    let h = refine_hessian(&d, 3, 2, 1);
    let v = |b: u32| f32::from_bits(b);
    assert_eq!(v(h.curr), 38.0);
    assert_eq!((v(h.nx) - v(h.px)).abs(), 2.0);
    assert_eq!((v(h.ny) - v(h.py)).abs(), 10.0);
    assert_eq!((v(h.ns) - v(h.ps)).abs(), 50.0);
    assert_eq!(v(h.nxny) + v(h.pxpy), 76.0);
    assert_eq!(v(h.nspy) + v(h.psny), 76.0);
    assert_eq!(v(h.nxps) + v(h.pxns), 76.0);
}

#[test]
fn a_singular_matrix_is_shifted_once() {
    assert!(after_inverse(true, false) == Ok(FitStep::Solve));
    assert!(after_inverse(false, false) == Ok(FitStep::Shift));
    assert!(after_inverse(true, true) == Ok(FitStep::Solve));
    assert!(after_inverse(false, true) == Err(EllipseError::SingularMatrix));
}

#[test]
fn the_last_elliptic_candidate_is_chosen() {
    let good = Candidate { usable: true, elliptic: true, proper: true, real: true };
    let bad = Candidate { usable: false, elliptic: true, proper: true, real: true };
    assert!(choose_conic(&[bad, good, good, bad]) == Ok(2));
    assert!(choose_conic(&[good]) == Ok(0));
    assert!(choose_conic(&[bad]) == Err(EllipseError::NoValidEigenvalue));
    assert!(choose_conic(&[]) == Err(EllipseError::NoValidEigenvalue));
}

#[test]
fn fits_fail_in_three_ways() {
    let good = Candidate { usable: true, elliptic: true, proper: true, real: true };
    let bad = Candidate { usable: true, elliptic: true, proper: true, real: false };
    let fine = AxesSigns {
        first_at_most_zero: false,
        second_at_most_zero: false,
        second_longer: true,
        upright: false,
    };
    let flat = AxesSigns { first_at_most_zero: true, ..fine };
    let f = fit_ellipse(|s: bool| Some(s), |_: &bool| vec![good, bad], |_: &bool, _: usize| fine);
    let f = f.unwrap();
    assert!(!f.inverse && !f.shifted && f.conic == 0 && f.axes.swap && !f.axes.upright);
    let f = fit_ellipse(
        |s: bool| if s { Some(s) } else { None },
        |_: &bool| vec![good, good],
        |_: &bool, _: usize| fine,
    );
    let f = f.unwrap();
    assert!(f.inverse && f.shifted && f.conic == 1);
    let none = fit_ellipse(|_: bool| None, |_: &bool| vec![good], |_: &bool, _: usize| fine);
    assert!(none.unwrap_err() == EllipseError::SingularMatrix);
    let none = fit_ellipse(|s: bool| Some(s), |_: &bool| vec![bad], |_: &bool, _: usize| fine);
    assert!(none.unwrap_err() == EllipseError::NoValidEigenvalue);
    let none = fit_ellipse(|s: bool| Some(s), |_: &bool| vec![good], |_: &bool, _: usize| flat);
    assert!(none.unwrap_err() == EllipseError::NegativeSqrt);
}

#[test]
fn maxima_are_refined_inside_the_image_only() {
    let img = bits(&[0.0, 0.0, 0.0, 0.0, 3.0, 1.0, 0.0, 0.0, 0.0]);
    let b = Bilinear::new(&img, 3, 3);
    let m = b.local_maxi(0, 0);
    let pixel = |r: usize, c: usize| (r as f32, c as f32);
    let half = |_: [u32; 9], r: usize, c: usize| Some((r as f32 + 0.5, c as f32));
    let none = |_: [u32; 9], _: usize, _: usize| None;
    assert_eq!(m.refine(half, none, pixel), (1.5, 1.0));
    assert_eq!(m.refine(none, half, pixel), (1.5, 1.0));
    assert_eq!(m.refine(none, none, pixel), (1.0, 1.0));
    let rim = bits(&[4.0, 0.0, 0.0, 0.0, 3.0, 1.0, 0.0, 0.0, 0.0]);
    let m = Bilinear::new(&rim, 3, 3).local_maxi(2, 2);
    assert_eq!(m.refine(half, half, pixel), (0.0, 0.0));
}

#[test]
fn axes_are_ordered_by_length() {
    let a = order_axes(false, false, true, false).unwrap();
    assert!(a.swap && !a.upright);
    let a = order_axes(false, false, false, true).unwrap();
    assert!(!a.swap && a.upright);
    assert!(order_axes(true, false, false, false) == Err(EllipseError::NegativeSqrt));
    assert!(order_axes(false, true, false, false) == Err(EllipseError::NegativeSqrt));
}
