use rsfai::boundaries::{
    calc_boundaries_1d, calc_boundaries_2d, calc_boundaries_full_1d, calc_boundaries_full_2d,
    corner_extremes, max4, min4, numpy_linspace, GridBounds, GridRange, PI_DOWN, PI_UP, TWO_PI_UP,
    ZERO_DOWN,
};
use rsfai::double;
use rsfai::edge::{
    box_cells, edge_walk, integrate1d, spread_1d, BoxCell, Corner, Edge, EdgeStep, Spread,
    Stretch,
};
use rsfai::builder::PixelPatch;
use rsfai::ieee;
use rsfai::patch::{BoxMath, BoxReach, GridLimits};
use rsfai::pseudo::{pseudo_pixels, PseudoOptions};
use rsfai::quad::{LineSweeper, Quad, SweepMath, Turn, TurnMath};
use rsfai::split::{clamp_range, cover_1d, cover_2d, BinShare, Part};
use rsfai::split_histogram::{GridSweep, LineSweep};
use rsfai::window::{clip_box, collapse, pseudo_box};

fn b(x: f64) -> u64 {
    x.to_bits()
}

fn v(x: u64) -> f64 {
    f64::from_bits(x)
}

fn bs(values: &[f64]) -> Vec<u64> {
    values.iter().map(|x| b(*x)).collect()
}

#[test]
fn ranges_are_clamped_to_the_axis() {
    assert_eq!(clamp_range(-3, 2, 5), Some((0, 2)));
    assert_eq!(clamp_range(3, 9, 5), Some((3, 4)));
    assert_eq!(clamp_range(5, 9, 5), None);
    assert_eq!(clamp_range(-4, -1, 5), None);
}

#[test]
fn covers_start_with_the_ends() {
    let share = |bin: usize, part: Part| BinShare { bin, part };
    assert!(cover_1d(1, 4, 6)
        == vec![
            share(1, Part::First),
            share(4, Part::Last),
            share(2, Part::Inner),
            share(3, Part::Inner),
        ]);
    assert!(cover_1d(2, 2, 6) == vec![share(2, Part::Whole)]);
    assert!(cover_1d(-2, 0, 6) == vec![share(0, Part::Whole)]);
    assert!(cover_1d(6, 7, 6).is_empty());
}

#[test]
fn parts_of_a_pixel_add_up_to_its_length() {
    let (lo, hi, bins) = (1.25f64, 4.5f64, 10);
    let mut sum = 0.0;
    for s in cover_1d(lo as i64, hi as i64, bins) {
        sum += match s.part {
            Part::Whole => hi - lo,
            Part::First => (s.bin + 1) as f64 - lo,
            Part::Last => hi - s.bin as f64,
            Part::Inner => 1.0,
        };
    }
    assert_eq!(sum, hi - lo);
}

#[test]
fn grid_covers_are_products() {
    let cells = cover_2d((0, 2), (1, 1), (3, 4));
    let got: Vec<(usize, Part, Part)> = cells.iter().map(|c| (c.cell, c.part0, c.part1)).collect();
    assert!(got
        == vec![
            (1, Part::First, Part::Whole),
            (9, Part::Last, Part::Whole),
            (5, Part::Inner, Part::Whole),
        ]);
    let cells = cover_2d((0, 2), (0, 2), (3, 3));
    let order: Vec<usize> = cells.iter().map(|c| c.cell).collect();
    assert_eq!(order, vec![0, 2, 6, 8, 3, 4, 5, 1, 7]);
    assert!(cover_2d((0, 2), (4, 5), (3, 4)).is_empty());
    let back: Vec<usize> = cover_2d((2, 1), (0, 0), (3, 1)).iter().map(|c| c.cell).collect();
    assert_eq!(back, vec![2, 1]);
}

#[test]
fn edges_visit_each_bin_once() {
    let step = |bin: usize, stretch: Stretch| EdgeStep { bin, stretch };
    assert!(edge_walk(1, 1, true, (true, true), 4) == vec![step(1, Stretch::Within)]);
    assert!(edge_walk(0, 3, true, (true, true), 4)
        == vec![
            step(0, Stretch::FromStart),
            step(1, Stretch::Across),
            step(2, Stretch::Across),
            step(3, Stretch::ToStop),
        ]);
    assert!(edge_walk(2, -1, false, (true, true), 4)
        == vec![
            step(2, Stretch::FromStart),
            step(1, Stretch::Across),
            step(0, Stretch::Across),
        ]);
    assert!(edge_walk(-2, 5, true, (true, true), 2) == vec![step(0, Stretch::Across), step(1, Stretch::Across)]);
    assert!(edge_walk(7, 9, true, (true, true), 4).is_empty());
    let mut buffer = vec![10, 20, 30, 40];
    let bin = |x: u64| v(x).floor() as i64;
    let step = |old: i32, _: Edge, s: EdgeStep| old + s.bin as i32;
    integrate1d(&mut buffer, edge(1.5, 2.5), &bin, &step);
    assert_eq!(buffer, vec![10, 21, 32, 40]);
    integrate1d(&mut buffer, edge(2.5, 2.5), &bin, &step);
    assert_eq!(buffer, vec![10, 21, 32, 40]);
    integrate1d(&mut buffer, edge(3.0, 0.5), &bin, &step);
    assert_eq!(buffer, vec![10, 22, 34, 43]);
}

fn edge(start: f64, stop: f64) -> Edge {
    Edge {
        start: Corner { radial: b(start), azimuth: 0 },
        stop: Corner { radial: b(stop), azimuth: 0 },
    }
}

#[test]
fn ends_that_are_no_numbers_are_left_out() {
    let step = |bin: usize, stretch: Stretch| EdgeStep { bin, stretch };
    assert!(edge_walk(2, 0, false, (true, false), 4)
        == vec![step(2, Stretch::FromStart), step(1, Stretch::Across)]);
    assert!(edge_walk(0, 2, false, (false, true), 4) == vec![step(2, Stretch::ToStop)]);
    assert!(edge_walk(0, 0, false, (false, false), 4) == vec![step(0, Stretch::Within)]);
}

fn corner(radial: f64, azimuth: f64) -> Corner {
    Corner { radial: b(radial), azimuth: b(azimuth) }
}

fn square(r: (f64, f64), z: (f64, f64)) -> Quad {
    Quad { a: corner(r.0, z.0), b: corner(r.1, z.0), c: corner(r.1, z.1), d: corner(r.0, z.1) }
}

fn corners_of(q: &Quad) -> Vec<u64> {
    [q.a, q.b, q.c, q.d].iter().flat_map(|c| [c.radial, c.azimuth]).collect()
}

#[test]
fn straddling_pixels_move_to_one_side() {
    let math = TurnMath {
        area: |q: Quad| b(v(q.a.azimuth)),
        lift: |x: u64| b(v(x) + 10.0),
        mean: |q: Quad| b((v(q.a.azimuth) + v(q.b.azimuth) + v(q.c.azimuth) + v(q.d.azimuth)) / 4.0),
        lower: |x: u64| b(v(x) - 10.0),
    };
    let turn = |period: f64, chi_disc_at_pi: bool| Turn {
        period: b(period),
        half: b(period / 2.0),
        chi_disc_at_pi,
    };
    let q = square((1.0, 2.0), (4.0, -5.0));
    assert!(math.recenter(&turn(10.0, true), q) == square((1.0, 2.0), (4.0, 5.0)));
    let far = square((1.0, 2.0), (4.0, -2.0));
    assert!(math.recenter(&turn(10.0, true), far) == square((1.0, 2.0), (-6.0, -2.0)));
    assert!(math.recenter(&turn(10.0, false), q) == square((1.0, 2.0), (14.0, 5.0)));
    assert!(math.recenter(&turn(0.0, true), q) == q);
    let upright = square((1.0, 2.0), (-1.0, 3.0));
    assert!(math.recenter(&turn(10.0, true), upright) == upright);
    assert_eq!(v(math.recenter_helper(&turn(10.0, false), b(4.5))), 14.5);
    assert_eq!(v(math.recenter_helper(&turn(10.0, false), b(5.0))), 5.0);
}

#[test]
fn pixels_sweep_clean_bins() {
    let still = |x: u64| x;
    let sweeper = LineSweeper {
        turn: Turn { period: 0, half: 0, chi_disc_at_pi: true },
        turning: TurnMath { area: |_: Quad| 0u64, lift: still, mean: |_: Quad| 0u64, lower: still },
        place: still,
        sweeping: SweepMath {
            bin: |x: u64| v(x).floor() as i64,
            step: |old: u32, _: Edge, _: EdgeStep| old + 1,
            plus: |sum: u32, area: u32| sum + area,
            zero: 0u32,
            none: 100u32,
        },
    };
    let wide = square((0.5, 2.5), (0.0, 1.0));
    let narrow = square((1.25, 1.75), (0.0, 1.0));
    let beyond = square((2.5, 9.5), (0.0, 1.0));
    let mut corners = Vec::new();
    for q in [wide, narrow, wide, beyond, wide] {
        corners.extend(corners_of(&q));
    }
    let out = sweeper.sweep_pixels(&corners, Some(&[0, 0, 1, 0, 0]), 4);
    let first = out[0].as_ref().unwrap();
    assert_eq!((first.bin_min, first.bin_max), (0, 2));
    assert_eq!((first.areas.clone(), first.sum), (vec![2, 2, 2], 106));
    let second = out[1].as_ref().unwrap();
    assert!(second.areas.is_empty() && second.sum == 100);
    assert!(out[2].is_none());
    assert_eq!(out[3].as_ref().unwrap().areas, vec![2, 2]);
    assert_eq!(out[4].as_ref().unwrap().areas, vec![2, 2, 2]);
    let none = |sum: u32| sum == 106;
    let scale = |area: u32, sum: u32| u64::from(area * 1000 + sum);
    assert!(LineSweep::of(&out[0], &none, &scale).weights.is_none());
    assert_eq!(LineSweep::of(&out[3], &none, &scale).weights, Some(vec![2104, 2104]));
    assert_eq!(LineSweep::of(&out[2], &none, &scale).bin_max, -1);
}

#[test]
fn patches_fit_the_grid() {
    let window = GridBounds { min0: b(0.0), max0: b(3.0), min1: b(0.0), max1: b(4.0) };
    let still = |x: u64| x;
    let turn = Turn { period: 0, half: 0, chi_disc_at_pi: true };
    let turning = TurnMath { area: |_: Quad| 0u64, lift: still, mean: |_: Quad| 0u64, lower: still };
    let math = BoxMath {
        place: |c: Corner| c,
        low: |x: u64| v(x).floor() as i64,
        high: |x: u64| v(x).ceil() as i64,
        shift: |c: Corner, _: (usize, usize)| c,
        edge: |areas: Vec<u32>, _: usize, _: Edge| {
            areas.iter().enumerate().map(|(k, a)| a + k as u32).collect::<Vec<u32>>()
        },
        plus: |sum: u32, area: u32| sum + area,
        zero: 0u32,
        none: 0u32,
    };
    let quads = [
        square((0.5, 1.5), (1.0, 2.5)),
        square((5.0, 6.0), (1.0, 2.0)),
        square((-1.0, 0.5), (3.5, 9.0)),
        square((0.0, 1.0), (4.0, 5.0)),
    ];
    let mut corners = Vec::new();
    for q in &quads {
        corners.extend(corners_of(q));
    }
    let limits = GridLimits { window, azimuth_end: None };
    let out = math.sweep_patches(&turn, &turning, &corners, None, &limits, (3, 4));
    let sweep = GridSweep::of(&out[0], (3, 4), &|a: u32, s: u32| u64::from(100 * a + s)).unwrap();
    assert_eq!((sweep.offset, sweep.size), ((0, 1), (2, 2)));
    assert_eq!(sweep.weights.len(), 9);
    // Four edges add 0, 1, 3 and 4 each to the cells of the box.
    assert_eq!(sweep.weights[4], 1632);
    assert!(matches!(out[1], BoxReach::Outside));
    let cut = PixelPatch::of(&out[2], (3, 4), &|a: u32, _: u32| a).unwrap();
    assert_eq!((cut.offset, cut.size, cut.coefs), ((0, 3), (1, 1), vec![0, 4, 8, 12]));
    assert!(matches!(&out[3], BoxReach::Within(x) if x.size == (1, 0) && x.sum == 0));
    let ended = GridLimits { window, azimuth_end: Some(b(4.0)) };
    let out = math.sweep_patches(&turn, &turning, &corners, Some(&[1, 0, 0, 0]), &ended, (3, 4));
    assert!(matches!(out[0], BoxReach::Outside) && matches!(out[3], BoxReach::Outside));
    let small = math.sweep_patches(&turn, &turning, &corners, None, &limits, (1, 4));
    assert!(matches!(small[0], BoxReach::Beyond));
    assert!(PixelPatch::of(&small[0], (1, 4), &|a: u32, _: u32| a).is_none());
    let away = PixelPatch::of(&out[0], (3, 4), &|a: u32, _: u32| a).unwrap();
    assert_eq!((away.size, away.coefs), ((0, 0), vec![0]));
}

#[test]
fn areas_spread_over_clamped_bins() {
    assert!(spread_1d(2, 2, 4) == Spread::Single(2));
    assert!(spread_1d(-1, 2, 4) == Spread::Over(0, 3));
    assert!(spread_1d(2, 9, 4) == Spread::Over(2, 4));
    assert!(spread_1d(-3, -1, 4) == Spread::Off);
    assert!(spread_1d(4, 4, 4) == Spread::Off);
}

#[test]
fn boxes_skip_their_extra_column() {
    let cell = |place: usize, cell: usize| BoxCell { place, cell };
    assert!(box_cells(1, 2, 2, 2, (4, 5))
        == vec![cell(0, 7), cell(1, 8), cell(3, 12), cell(4, 13)]);
    assert!(box_cells(0, 0, 0, 3, (4, 5)).is_empty());
}

#[test]
fn numbers_compare_by_their_patterns() {
    let f = |x: f32| x.to_bits();
    assert!(ieee::greater(f(1.0), f(-2.0)) && !ieee::greater(f(-2.0), f(1.0)));
    assert!(!ieee::greater(f(0.0), f(-0.0)) && !ieee::greater(f(-0.0), f(0.0)));
    assert!(!ieee::greater(f(f32::NAN), f(1.0)) && !ieee::at_least(f(1.0), f(f32::NAN)));
    assert!(ieee::at_least(f(3.0), f(3.0)) && ieee::same_number(f(0.0), f(-0.0)));
    assert!(ieee::nan(f(f32::NAN)) && ieee::finite(f(f32::MAX)) && !ieee::finite(f(f32::INFINITY)));
    assert!(ieee::zero(f(-0.0)) && !ieee::zero(f(1e-45)));
    assert!(double::greater(b(f64::INFINITY), b(1e300)));
    assert_eq!(v(double::max(b(f64::NAN), b(2.0))), 2.0);
    assert_eq!(v(double::min(b(3.0), b(f64::NAN))), 3.0);
    assert_eq!(v(double::min(b(-3.0), b(-2.0))), -3.0);
}

#[test]
fn boundaries_leave_masked_pixels_out() {
    let lower = bs(&[-1.0, 2.0, -9.0]);
    let upper = bs(&[1.0, 5.0, 99.0]);
    let mask = [0i8, 0, 1];
    let (lo, hi) = calc_boundaries_1d(&lower, &upper, Some(&mask), true);
    assert_eq!((v(lo), v(hi)), (-1.0, 5.0));
    let (lo, hi) = calc_boundaries_1d(&lower, &upper, Some(&mask), false);
    assert_eq!((v(lo), v(hi)), (0.0, 5.0));
    let (lo, hi) = calc_boundaries_1d(&lower, &upper, None, true);
    assert_eq!((v(lo), v(hi)), (-9.0, 99.0));
    let (lo, hi) = calc_boundaries_1d(&[], &[], None, true);
    assert_eq!((v(lo), v(hi)), (f64::INFINITY, f64::NEG_INFINITY));
}

#[test]
fn corner_boundaries_fold_four_corners() {
    let corners = bs(&[
        1.0, 0.1, 3.0, 0.2, 2.0, 0.3, -1.0, 0.4, 5.0, -4.0, 6.0, 0.0, 7.0, 0.0, 8.0, 7.0,
    ]);
    let (lo, hi) = calc_boundaries_full_1d(&corners, None, false);
    assert_eq!((v(lo), v(hi)), (0.0, 8.0));
    let (min1, max1) = corner_extremes(&corners, 1);
    assert_eq!(min1, bs(&[0.1, -4.0]));
    assert_eq!(max1, bs(&[0.4, 7.0]));
    assert_eq!(v(min4(b(3.0), b(1.0), b(2.0), b(4.0))), 1.0);
    assert_eq!(v(max4(b(3.0), b(1.0), b(2.0), b(4.0))), 4.0);
    let range = GridRange {
        allow_radial_neg: true,
        chi_disc_at_pi: true,
        clip_azimuth: true,
        radial_range: None,
        azimuth_range: None,
    };
    let g = calc_boundaries_full_2d(&corners, None, &range);
    assert_eq!((v(g.min0), v(g.max0)), (-1.0, 8.0));
    assert_eq!((g.min1, g.max1), (PI_DOWN, PI_UP));
    let open = GridRange { clip_azimuth: false, ..range };
    let g = calc_boundaries_full_2d(&corners, None, &open);
    assert_eq!((v(g.min1), v(g.max1)), (-4.0, 7.0));
}

#[test]
fn azimuths_are_clipped_to_single_precision_pi() {
    let pi = f64::from(std::f32::consts::PI);
    assert_eq!(v(PI_UP), pi);
    assert_eq!(v(PI_DOWN), -pi);
    assert_eq!(v(TWO_PI_UP), f64::from(2.0f32 * std::f32::consts::PI));
    assert_eq!(ZERO_DOWN, b(-0.0));
    let r = bs(&[1.0, 2.0]);
    let a = bs(&[-9.0, 9.0]);
    let range = GridRange {
        allow_radial_neg: false,
        chi_disc_at_pi: false,
        clip_azimuth: true,
        radial_range: Some((b(7.0), b(3.0))),
        azimuth_range: None,
    };
    let g = calc_boundaries_2d((&r, &r), (&a, &a), None, &range);
    assert_eq!((v(g.min0), v(g.max0)), (3.0, 7.0));
    assert_eq!(v(g.min1), 0.0);
    assert_eq!(g.max1, TWO_PI_UP);
    let given = GridRange { azimuth_range: Some((b(1.0), b(-1.0))), ..range };
    let g = calc_boundaries_2d((&r, &r), (&a, &a), None, &given);
    assert_eq!((v(g.min1), v(g.max1)), (-1.0, 1.0));
}

fn bounds(min0: f64, max0: f64, min1: f64, max1: f64) -> GridBounds {
    GridBounds { min0: b(min0), max0: b(max0), min1: b(min1), max1: b(max1) }
}

#[test]
fn boxes_are_cut_to_the_window() {
    let window = bounds(0.0, 10.0, -1.0, 1.0);
    let (c, cuts) = clip_box(bounds(-2.0, 12.0, 0.0, 3.0), &window);
    assert!(c == bounds(0.0, 10.0, 0.0, 1.0));
    let got: Vec<(f64, f64, f64, f64)> =
        cuts.iter().map(|c| (v(c.from), v(c.to), v(c.lo), v(c.hi))).collect();
    assert_eq!(
        got,
        vec![(-2.0, 0.0, -2.0, 12.0), (10.0, 12.0, 0.0, 12.0), (1.0, 3.0, 0.0, 3.0)]
    );
    let (same, none) = clip_box(window, &window);
    assert!(same == window && none.is_empty());
    assert!(bounds(11.0, 12.0, 0.0, 0.5).outside(&window));
    assert!(!bounds(10.0, 12.0, 0.0, 0.5).outside(&window));
    assert!(collapse(bounds(1.0, 2.0, -0.9, 0.8), &window, true) == bounds(1.0, 2.0, 0.8, 1.0));
    assert!(collapse(bounds(1.0, 2.0, -0.9, 0.8), &window, false) == bounds(1.0, 2.0, -1.0, -0.9));
}

#[test]
fn rectangles_beyond_the_bounding_box_are_dropped() {
    let bounding = bounds(-1.0, 4.0, -4.0, 1.0);
    let inside = bounds(0.5, 3.0, -2.0, 0.5);
    assert!(pseudo_box(bounding, inside, true, true) == inside);
    let wide = bounds(0.5, 5.0, -2.0, 0.5);
    let kept = pseudo_box(bounding, wide, true, true);
    assert!(kept == GridBounds { min1: PI_DOWN, ..bounding });
    let kept = pseudo_box(bounding, wide, false, false);
    assert_eq!((v(kept.min0), v(kept.min1)), (0.0, 0.0));
}

#[test]
fn flat_pixels_take_the_rectangle_before_them() {
    let window = bounds(0.0, 10.0, -3.0, 3.0);
    let opt = PseudoOptions { window, allow_pos0_neg: false, chi_disc_at_pi: true };
    let square = |r: f64, a: f64, w: f64, h: f64| {
        [r, a, r + w, a, r + w, a + h, r, a + h]
    };
    let mut corners = Vec::new();
    corners.extend(square(1.0, 0.0, 2.0, 2.0));
    corners.extend(square(0.0, -1.0, 4.0, 0.0));
    corners.extend(square(20.0, 0.0, 1.0, 1.0));
    corners.extend(square(5.0, 0.0, 1.0, 1.0));
    let mask = [0i8, 0, 0, 1];
    let half = |_: usize, x: GridBounds| {
        if v(x.max1) == v(x.min1) {
            return None;
        }
        Some(GridBounds { max0: b((v(x.min0) + v(x.max0)) / 2.0), ..x })
    };
    let boxes = pseudo_pixels(
        &bs(&corners),
        Some(&mask),
        &opt,
        half,
        |_: GridBounds| false,
        |_: GridBounds| false,
    );
    assert!(boxes[0].as_ref().unwrap().bounds == bounds(1.0, 2.0, 0.0, 2.0));
    assert!(boxes[1].as_ref().unwrap().bounds == bounds(0.0, 4.0, -1.0, -1.0));
    assert!(boxes[2].is_none() && boxes[3].is_none());
    let wide = pseudo_pixels(
        &bs(&corners),
        None,
        &opt,
        half,
        |_: GridBounds| true,
        |_: GridBounds| true,
    );
    assert!(wide[0].as_ref().unwrap().bounds == bounds(1.0, 2.0, 2.0, 3.0));
    assert!(wide[0].as_ref().unwrap().cuts.is_empty());
}

fn linspace(start: f64, stop: f64, num: usize) -> Vec<f64> {
    let step = (stop - start) / (num - 1) as f64;
    numpy_linspace(start, stop, num, |j: usize| j as f64 * step + start)
}

#[test]
fn linspace_matches_numpy_endpoint() {
    let y = linspace(0.0, 1.0, 5);
    assert_eq!(y, vec![0.0, 0.25, 0.5, 0.75, 1.0]);
    assert_eq!(y[4], 1.0);
    assert_eq!(linspace(3.0, 7.0, 1), vec![3.0]);
    let third = linspace(0.0, 0.3, 4);
    assert_eq!(third[3], 0.3);
    assert!(numpy_linspace(1, 2, 0, |j: usize| j).is_empty());
}

#[test]
fn edges_follow_each_other_in_a_box() {
    let math = BoxMath {
        place: |c: Corner| c,
        low: |x: u64| v(x).floor() as i64,
        high: |x: u64| v(x).ceil() as i64,
        shift: |c: Corner, at: (usize, usize)| {
            corner(v(c.radial) - at.0 as f64, v(c.azimuth) - at.1 as f64)
        },
        // Two digits for each edge: where it starts, in halves of a cell.
        edge: |areas: Vec<u64>, columns: usize, e: Edge| {
            assert_eq!(columns, 3);
            let digits = (20.0 * v(e.start.radial) + 2.0 * v(e.start.azimuth)) as u64;
            areas.iter().map(|a| 100 * a + digits).collect::<Vec<u64>>()
        },
        plus: |sum: u64, area: u64| sum + area,
        zero: 0u64,
        none: 1u64,
    };
    let window = GridBounds { min0: b(0.0), max0: b(9.0), min1: b(0.0), max1: b(9.0) };
    let limits = GridLimits { window, azimuth_end: None };
    let q = square((2.5, 3.5), (1.0, 2.5));
    match math.sweep_box(&limits, (9, 9), q) {
        BoxReach::Within(x) => {
            assert_eq!((x.offset, x.size), ((2, 1), (2, 2)));
            assert_eq!(x.areas, vec![10303313; 9]);
            assert_eq!(x.sum, 1 + 4 * 10303313);
        }
        _ => panic!("the pixel lies on the grid"),
    }
}
