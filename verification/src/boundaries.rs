//! The range of positions that the bins cover.
//!
//! Ranges are found by comparison alone: positions enter as double-precision bit
//! patterns, and every bound returned is one of them, a given one or a constant.

use crate::builder::{is_masked, mask_fits, masked_out};
use crate::double;
use crate::double::{
    greater, gt, is_largest, is_nan, is_smallest, max, max_of, min, min_of, rank, INFINITY,
    NEG_INFINITY, ZERO,
};
use vstd::prelude::*;

verus! {

/// Single-precision pi, widened.
pub const PI_UP: u64 = 0x4009_21fb_6000_0000;

/// Twice single-precision pi, widened.
pub const TWO_PI_UP: u64 = 0x4019_21fb_6000_0000;

/// Minus single-precision pi, widened.
pub const PI_DOWN: u64 = 0xc009_21fb_6000_0000;

/// Minus zero.
pub const ZERO_DOWN: u64 = 0x8000_0000_0000_0000;

/// The pixels that the mask leaves valid.
pub open spec fn valid(mask: Option<&[i8]>) -> spec_fn(int) -> bool {
    |i: int| !masked_out(mask, i)
}

/// The smallest and the largest of the values at the valid pixels, starting from
/// infinity; `lower` and `upper` hold the values to be compared.
fn fold_range(lower: &[u64], upper: &[u64], mask: Option<&[i8]>) -> (r: (u64, u64))
    requires
        lower@.len() == upper@.len(),
        mask_fits(mask, lower@.len() as int),
    ensures
        is_smallest(lower@, valid(mask), r.0),
        is_largest(upper@, valid(mask), r.1),
{
    let mut lo: u64 = INFINITY;
    let mut hi: u64 = NEG_INFINITY;
    let mut i: usize = 0;
    assert(lower@.take(0).len() == 0);
    while i < lower.len()
        invariant
            i <= lower@.len() == upper@.len(),
            mask_fits(mask, lower@.len() as int),
            is_smallest(lower@.take(i as int), valid(mask), lo),
            is_largest(upper@.take(i as int), valid(mask), hi),
        decreases lower@.len() - i,
    {
        let ghost lo0 = lo;
        let ghost hi0 = hi;
        if !is_masked(mask, i) {
            hi = max(hi, upper[i]);
            lo = min(lo, lower[i]);
        }
        proof {
            let a = lower@.take(i as int);
            let b = lower@.take(i + 1);
            let c = upper@.take(i as int);
            let d = upper@.take(i + 1);
            assert forall|k: int| 0 <= k < i implies b[k] == a[k] && d[k] == c[k] by {}
            assert(b[i as int] == lower@[i as int]);
            assert(d[i as int] == upper@[i as int]);
            assert forall|k: int| 0 <= k < b.len() && valid(mask)(k) implies is_nan(
                #[trigger] b[k],
            ) || crate::double::rank(b[k]) >= crate::double::rank(lo) by {
                if k < i {
                    assert(a[k] == b[k]);
                }
            }
            assert forall|k: int| 0 <= k < d.len() && valid(mask)(k) implies is_nan(
                #[trigger] d[k],
            ) || crate::double::rank(d[k]) <= crate::double::rank(hi) by {
                if k < i {
                    assert(c[k] == d[k]);
                }
            }
            if lo != INFINITY {
                if lo == lo0 {
                    let k = choose|k: int|
                        0 <= k < a.len() && valid(mask)(k) && #[trigger] a[k] == lo0;
                    assert(b[k] == lo);
                } else {
                    assert(b[i as int] == lo && valid(mask)(i as int));
                }
            }
            if hi != NEG_INFINITY {
                if hi == hi0 {
                    let k = choose|k: int|
                        0 <= k < c.len() && valid(mask)(k) && #[trigger] c[k] == hi0;
                    assert(d[k] == hi);
                } else {
                    assert(d[i as int] == hi && valid(mask)(i as int));
                }
            }
        }
        i = i + 1;
    }
    assert(lower@.take(i as int) =~= lower@);
    assert(upper@.take(i as int) =~= upper@);
    (lo, hi)
}

/// A bound, raised to zero unless negative positions are allowed.
pub open spec fn sign_clamped(x: u64, allow_neg: bool) -> u64 {
    if allow_neg {
        x
    } else {
        max_of(x, ZERO)
    }
}

/// The value of [`sign_clamped`].
fn clamp_sign(x: u64, allow_neg: bool) -> (y: u64)
    ensures
        y == sign_clamped(x, allow_neg),
{
    if allow_neg {
        x
    } else {
        max(x, ZERO)
    }
}

/// `r` holds the radial boundaries of pixels given by their lower and upper edges.
pub open spec fn are_radial_bounds(
    lower: Seq<u64>,
    upper: Seq<u64>,
    mask: Option<&[i8]>,
    allow_neg: bool,
    r: (u64, u64),
) -> bool {
    exists|lo: u64, hi: u64| #[trigger]
        is_smallest(lower, valid(mask), lo) && #[trigger] is_largest(upper, valid(mask), hi) && r
            == (sign_clamped(lo, allow_neg), sign_clamped(hi, allow_neg))
}

/// Radial boundaries of pixels given by their lower and upper edges: the smallest
/// lower edge and the largest upper edge of the unmasked pixels, both raised to zero
/// unless `allow_pos0_neg`.
pub fn calc_boundaries_1d(
    lower: &[u64],
    upper: &[u64],
    mask: Option<&[i8]>,
    allow_pos0_neg: bool,
) -> (r: (u64, u64))
    requires
        lower@.len() == upper@.len(),
        mask_fits(mask, lower@.len() as int),
    ensures
        exists|lo: u64, hi: u64| #[trigger]
            is_smallest(lower@, valid(mask), lo) && #[trigger] is_largest(upper@, valid(mask), hi)
                && r == (sign_clamped(lo, allow_pos0_neg), sign_clamped(hi, allow_pos0_neg)),
        are_radial_bounds(lower@, upper@, mask, allow_pos0_neg, r),
{
    let (lo, hi): (u64, u64) = fold_range(lower, upper, mask);
    (clamp_sign(lo, allow_pos0_neg), clamp_sign(hi, allow_pos0_neg))
}

/// The smaller of four values, compared in turn.
pub open spec fn min4_of(a: u64, b: u64, c: u64, d: u64) -> u64 {
    let m1 = if gt(a, b) {
        b
    } else {
        a
    };
    let m2 = if gt(m1, c) {
        c
    } else {
        m1
    };
    if gt(m2, d) {
        d
    } else {
        m2
    }
}

/// The larger of four values, compared in turn.
pub open spec fn max4_of(a: u64, b: u64, c: u64, d: u64) -> u64 {
    let m1 = if gt(b, a) {
        b
    } else {
        a
    };
    let m2 = if gt(c, m1) {
        c
    } else {
        m1
    };
    if gt(d, m2) {
        d
    } else {
        m2
    }
}

/// Minimum of four values; a NaN is kept only where it stands first.
pub fn min4(a: u64, b: u64, c: u64, d: u64) -> (m: u64)
    ensures
        m == min4_of(a, b, c, d),
{
    let mut m: u64 = a;
    if greater(m, b) {
        m = b;
    }
    if greater(m, c) {
        m = c;
    }
    if greater(m, d) {
        m = d;
    }
    m
}

/// Maximum of four values; a NaN is kept only where it stands first.
pub fn max4(a: u64, b: u64, c: u64, d: u64) -> (m: u64)
    ensures
        m == max4_of(a, b, c, d),
{
    let mut m: u64 = a;
    if greater(b, m) {
        m = b;
    }
    if greater(c, m) {
        m = c;
    }
    if greater(d, m) {
        m = d;
    }
    m
}

/// Of four numbers the minimum is one, and none is smaller; likewise the maximum.
pub proof fn lemma_extremes_of_four(a: u64, b: u64, c: u64, d: u64)
    requires
        !is_nan(a),
        !is_nan(b),
        !is_nan(c),
        !is_nan(d),
    ensures
        ({
            let lo = min4_of(a, b, c, d);
            let hi = max4_of(a, b, c, d);
            &&& lo == a || lo == b || lo == c || lo == d
            &&& hi == a || hi == b || hi == c || hi == d
            &&& !gt(lo, a) && !gt(lo, b) && !gt(lo, c) && !gt(lo, d)
            &&& !gt(a, hi) && !gt(b, hi) && !gt(c, hi) && !gt(d, hi)
        }),
{
}

/// For each pixel the smallest of the coordinates `axis` (0 or 1) of its corners,
/// which stand four pairs to a pixel.
pub open spec fn corner_minima(corners: Seq<u64>, axis: int) -> Seq<u64> {
    Seq::new(
        corners.len() / 8,
        |i: int|
            min4_of(
                corners[8 * i + axis],
                corners[8 * i + 2 + axis],
                corners[8 * i + 4 + axis],
                corners[8 * i + 6 + axis],
            ),
    )
}

/// For each pixel the largest of the coordinates `axis` (0 or 1) of its corners.
pub open spec fn corner_maxima(corners: Seq<u64>, axis: int) -> Seq<u64> {
    Seq::new(
        corners.len() / 8,
        |i: int|
            max4_of(
                corners[8 * i + axis],
                corners[8 * i + 2 + axis],
                corners[8 * i + 4 + axis],
                corners[8 * i + 6 + axis],
            ),
    )
}

/// The smallest and largest coordinate of the corners of each pixel.
pub fn corner_extremes(corners: &[u64], axis: usize) -> (r: (Vec<u64>, Vec<u64>))
    requires
        corners@.len() % 8 == 0,
        axis < 2,
    ensures
        r.0@ == corner_minima(corners@, axis as int),
        r.1@ == corner_maxima(corners@, axis as int),
{
    let n: usize = corners.len();
    let size: usize = n / 8;
    let mut minima: Vec<u64> = Vec::new();
    let mut maxima: Vec<u64> = Vec::new();
    let mut i: usize = 0;
    while i < size
        invariant
            axis < 2,
            n == corners@.len(),
            size == n / 8,
            n % 8 == 0,
            i <= size,
            minima@.len() == i,
            maxima@.len() == i,
            forall|k: int|
                0 <= k < i ==> #[trigger] minima@[k] == corner_minima(corners@, axis as int)[k],
            forall|k: int|
                0 <= k < i ==> #[trigger] maxima@[k] == corner_maxima(corners@, axis as int)[k],
        decreases size - i,
    {
        let base: usize = i * 8 + axis;
        let a: u64 = corners[base];
        let b: u64 = corners[base + 2];
        let c: u64 = corners[base + 4];
        let d: u64 = corners[base + 6];
        minima.push(min4(a, b, c, d));
        maxima.push(max4(a, b, c, d));
        i = i + 1;
    }
    assert(minima@ =~= corner_minima(corners@, axis as int));
    assert(maxima@ =~= corner_maxima(corners@, axis as int));
    (minima, maxima)
}

/// Radial boundaries of pixels given by their corners, four pairs of a radial and an
/// azimuthal coordinate to a pixel: the smallest and the largest radial coordinate
/// of the unmasked pixels, both raised to zero unless `allow_pos0_neg`.
pub fn calc_boundaries_full_1d(
    corners: &[u64],
    mask: Option<&[i8]>,
    allow_pos0_neg: bool,
) -> (r: (u64, u64))
    requires
        corners@.len() % 8 == 0,
        mask_fits(mask, corners@.len() as int / 8),
    ensures
        exists|lo: u64, hi: u64| #[trigger]
            is_smallest(corner_minima(corners@, 0), valid(mask), lo) && #[trigger] is_largest(
                corner_maxima(corners@, 0),
                valid(mask),
                hi,
            ) && r == (sign_clamped(lo, allow_pos0_neg), sign_clamped(hi, allow_pos0_neg)),
        are_radial_bounds(
            corner_minima(corners@, 0),
            corner_maxima(corners@, 0),
            mask,
            allow_pos0_neg,
            r,
        ),
{
    let (minima, maxima): (Vec<u64>, Vec<u64>) = corner_extremes(corners, 0);
    calc_boundaries_1d(minima.as_slice(), maxima.as_slice(), mask, allow_pos0_neg)
}

/// How the boundaries of the two axes of a grid are settled.
#[derive(Debug, Clone, Copy)]
pub struct GridRange {
    /// Allow the radial axis below 0.
    pub allow_radial_neg: bool,
    /// The azimuth jumps at pi rather than at 0.
    pub chi_disc_at_pi: bool,
    /// Clip the azimuth to one turn.
    pub clip_azimuth: bool,
    /// Explicit radial range, in any order.
    pub radial_range: Option<(u64, u64)>,
    /// Explicit azimuthal range, in any order.
    pub azimuth_range: Option<(u64, u64)>,
}

/// Boundaries of the two axes: radial from `min0` to `max0`, azimuthal from `min1`
/// to `max1`.
#[derive(Debug, Clone, Copy, PartialEq, Eq, Structural)]
pub struct GridBounds {
    /// Smallest radial position.
    pub min0: u64,
    /// Largest radial position.
    pub max0: u64,
    /// Smallest azimuthal position.
    pub min1: u64,
    /// Largest azimuthal position.
    pub max1: u64,
}

impl GridRange {
    /// The radial bounds, given those of the data.
    pub open spec fn radial(&self, lo: u64, hi: u64) -> (u64, u64) {
        match self.radial_range {
            Some((a, b)) => (min_of(a, b), max_of(a, b)),
            None => (
                sign_clamped(lo, self.allow_radial_neg),
                sign_clamped(hi, self.allow_radial_neg),
            ),
        }
    }

    /// The azimuthal bounds, given those of the data.
    pub open spec fn azimuthal(&self, lo: u64, hi: u64) -> (u64, u64) {
        match self.azimuth_range {
            Some((a, b)) => (min_of(a, b), max_of(a, b)),
            None => if !self.clip_azimuth {
                (lo, hi)
            } else if self.chi_disc_at_pi {
                (max_of(lo, PI_DOWN), min_of(hi, PI_UP))
            } else {
                (max_of(lo, ZERO_DOWN), min_of(hi, TWO_PI_UP))
            },
        }
    }

    /// Settles the boundaries, given those of the data.
    fn settle(&self, lo0: u64, hi0: u64, lo1: u64, hi1: u64) -> (g: GridBounds)
        ensures
            (g.min0, g.max0) == self.radial(lo0, hi0),
            (g.min1, g.max1) == self.azimuthal(lo1, hi1),
    {
        let (min0, max0): (u64, u64) = match self.radial_range {
            Some((a, b)) => (min(a, b), max(a, b)),
            None => (
                clamp_sign(lo0, self.allow_radial_neg),
                clamp_sign(hi0, self.allow_radial_neg),
            ),
        };
        let (min1, max1): (u64, u64) = match self.azimuth_range {
            Some((a, b)) => (min(a, b), max(a, b)),
            None => if !self.clip_azimuth {
                (lo1, hi1)
            } else if self.chi_disc_at_pi {
                (max(lo1, PI_DOWN), min(hi1, PI_UP))
            } else {
                (max(lo1, ZERO_DOWN), min(hi1, TWO_PI_UP))
            },
        };
        GridBounds { min0, max0, min1, max1 }
    }
}

/// `g` holds the boundaries of pixels given by their lower and upper edges on either axis:
/// those of the unmasked pixels, settled by `range`.
pub open spec fn are_bounds(
    lower0: Seq<u64>,
    upper0: Seq<u64>,
    lower1: Seq<u64>,
    upper1: Seq<u64>,
    mask: Option<&[i8]>,
    range: GridRange,
    g: GridBounds,
) -> bool {
    exists|lo0: u64, hi0: u64, lo1: u64, hi1: u64| #[trigger]
        is_smallest(lower0, valid(mask), lo0) && #[trigger] is_largest(upper0, valid(mask), hi0)
            && #[trigger] is_smallest(lower1, valid(mask), lo1) && #[trigger] is_largest(
            upper1,
            valid(mask),
            hi1,
        ) && (g.min0, g.max0) == range.radial(lo0, hi0) && (g.min1, g.max1) == range.azimuthal(
            lo1,
            hi1,
        )
}

/// Radial and azimuthal boundaries of pixels given by their lower and upper edges on
/// either axis (the two are the same where pixels are not split): those of the
/// unmasked pixels, the radial ones raised to zero unless negative positions are
/// allowed, the azimuthal ones clipped to one turn where that is asked for, and
/// explicit ranges in their place where they are given.
pub fn calc_boundaries_2d(
    radial: (&[u64], &[u64]),
    azimuthal: (&[u64], &[u64]),
    mask: Option<&[i8]>,
    range: &GridRange,
) -> (g: GridBounds)
    requires
        radial.0@.len() == radial.1@.len(),
        azimuthal.0@.len() == azimuthal.1@.len(),
        mask_fits(mask, radial.0@.len() as int),
        mask_fits(mask, azimuthal.0@.len() as int),
    ensures
        are_bounds(radial.0@, radial.1@, azimuthal.0@, azimuthal.1@, mask, *range, g),
{
    let (lo0, hi0): (u64, u64) = fold_range(radial.0, radial.1, mask);
    let (lo1, hi1): (u64, u64) = fold_range(azimuthal.0, azimuthal.1, mask);
    range.settle(lo0, hi0, lo1, hi1)
}

/// Radial and azimuthal boundaries of pixels given by their corners, settled as in
/// [`calc_boundaries_2d`].
pub fn calc_boundaries_full_2d(corners: &[u64], mask: Option<&[i8]>, range: &GridRange) -> (g:
    GridBounds)
    requires
        corners@.len() % 8 == 0,
        mask_fits(mask, corners@.len() as int / 8),
    ensures
        are_bounds(
            corner_minima(corners@, 0),
            corner_maxima(corners@, 0),
            corner_minima(corners@, 1),
            corner_maxima(corners@, 1),
            mask,
            *range,
            g,
        ),
{
    let (minima0, maxima0): (Vec<u64>, Vec<u64>) = corner_extremes(corners, 0);
    let (minima1, maxima1): (Vec<u64>, Vec<u64>) = corner_extremes(corners, 1);
    let (lo0, hi0): (u64, u64) = fold_range(minima0.as_slice(), maxima0.as_slice(), mask);
    let (lo1, hi1): (u64, u64) = fold_range(minima1.as_slice(), maxima1.as_slice(), mask);
    range.settle(lo0, hi0, lo1, hi1)
}

/// `r` is the range of the bins of a plain histogram.
pub open spec fn is_bin_range(values: Seq<u64>, range: Option<(u64, u64)>, r: (u64, u64)) -> bool {
    match range {
        Some((a, b)) => r == (min_of(a, b), max_of(a, b)),
        None => {
            let some = exists|k: int| 0 <= k < values.len() && !is_nan(#[trigger] values[k]);
            &&& some ==> is_smallest(values, |i: int| true, r.0) && is_largest(
                values,
                |i: int| true,
                r.1,
            )
            &&& !some ==> is_nan(r.0) && is_nan(r.1)
        },
    }
}

/// The range of the bins of a plain histogram: the explicit range where there is
/// one, else that of the data.
pub fn bin_range(values: &[u64], range: Option<(u64, u64)>) -> (r: (u64, u64))
    requires
        range is None ==> values@.len() > 0,
    ensures
        range is Some ==> r == (
            min_of((range->0).0, (range->0).1),
            max_of((range->0).0, (range->0).1),
        ),
        range is None && (exists|k: int| 0 <= k < values@.len() && !is_nan(#[trigger] values@[k]))
            ==> is_smallest(values@, |i: int| true, r.0) && is_largest(
            values@,
            |i: int| true,
            r.1,
        ),
        range is None && (forall|k: int| 0 <= k < values@.len() ==> is_nan(#[trigger] values@[k]))
            ==> is_nan(r.0) && is_nan(r.1),
        is_bin_range(values@, range, r),
{
    match range {
        Some((lo, hi)) => (min(lo, hi), max(lo, hi)),
        None => {
            let mut lo: u64 = values[0];
            let mut hi: u64 = values[0];
            let mut i: usize = 1;
            while i < values.len()
                invariant
                    1 <= i <= values@.len(),
                    exists|k: int| 0 <= k < i && #[trigger] values@[k] == lo,
                    exists|k: int| 0 <= k < i && #[trigger] values@[k] == hi,
                    is_nan(lo) <==> is_nan(hi),
                    forall|k: int|
                        0 <= k < i ==> is_nan(#[trigger] values@[k]) || (!is_nan(lo)
                            && crate::double::rank(lo) <= crate::double::rank(values@[k])
                            <= crate::double::rank(hi)),
                decreases values@.len() - i,
            {
                let ghost lo0 = lo;
                let ghost hi0 = hi;
                hi = max(hi, values[i]);
                lo = min(lo, values[i]);
                proof {
                    if lo == lo0 {
                        let k = choose|k: int| 0 <= k < i && #[trigger] values@[k] == lo0;
                        assert(values@[k] == lo);
                    } else {
                        assert(values@[i as int] == lo);
                    }
                    if hi == hi0 {
                        let k = choose|k: int| 0 <= k < i && #[trigger] values@[k] == hi0;
                        assert(values@[k] == hi);
                    } else {
                        assert(values@[i as int] == hi);
                    }
                }
                i = i + 1;
            }
            proof {
                let a = choose|k: int| 0 <= k < i && #[trigger] values@[k] == lo;
                let b = choose|k: int| 0 <= k < i && #[trigger] values@[k] == hi;
                assert(values@[a] == lo && values@[b] == hi);
            }
            (lo, hi)
        },
    }
}

/// `y` holds `num` positions from `start` to `stop`.
pub open spec fn are_positions<T, F: Fn(usize) -> T>(
    start: T,
    stop: T,
    num: int,
    point: F,
    y: Seq<T>,
) -> bool {
    &&& y.len() == num
    &&& num == 1 ==> y[0] == start
    &&& num > 1 ==> y[num - 1] == stop
    &&& forall|j: int| 0 <= j < num - 1 ==> point.ensures((j as usize,), #[trigger] y[j])
}

/// `num` positions from `start` to `stop`, both among them; one position is `start`.
/// `point` gives the positions between them by their number.
pub fn numpy_linspace<T: Copy, F: Fn(usize) -> T>(start: T, stop: T, num: usize, point: F) -> (y: Vec<
    T,
>)
    requires
        forall|j: usize| #[trigger] point.requires((j,)),
    ensures
        y@.len() == num,
        num == 1 ==> y@[0] == start,
        num > 1 ==> y@[num - 1] == stop,
        forall|j: int| 0 <= j < num - 1 ==> point.ensures((j as usize,), #[trigger] y@[j]),
        are_positions(start, stop, num as int, point, y@),
{
    let mut y: Vec<T> = Vec::new();
    if num == 0 {
        return y;
    }
    if num == 1 {
        y.push(start);
        return y;
    }
    let mut j: usize = 0;
    while j < num - 1
        invariant
            0 < num,
            j <= num - 1,
            forall|k: usize| #[trigger] point.requires((k,)),
            y@.len() == j,
            forall|k: int| 0 <= k < j ==> point.ensures((k as usize,), #[trigger] y@[k]),
        decreases num - j,
    {
        y.push(point(j));
        j = j + 1;
    }
    y.push(stop);
    y
}

/// The turns of the azimuth: half a turn has one sign or the other, and a whole turn is
/// twice as much.
pub proof fn lemma_turns()
    ensures
        rank(PI_DOWN) == -rank(PI_UP),
        rank(ZERO_DOWN) == 0,
        0 < rank(PI_UP) < rank(TWO_PI_UP),
        // Twice a number has the same fraction, and an exponent of one more.
        TWO_PI_UP == PI_UP + 0x0010_0000_0000_0000,
        // Half a turn lies between three and four.
        rank(0x4008_0000_0000_0000) < rank(PI_UP) < rank(0x4010_0000_0000_0000),
{
}

/// The azimuth lies in the turn to which `range` clips.
pub open spec fn in_turn(range: GridRange, x: u64) -> bool {
    &&& !is_nan(x)
    &&& if range.chi_disc_at_pi {
        rank(PI_DOWN) <= rank(x) <= rank(PI_UP)
    } else {
        0 <= rank(x) <= rank(TWO_PI_UP)
    }
}

/// Pixel `k` is one of `n` pixels and takes part.
pub open spec fn takes_part(mask: Option<&[i8]>, n: int, k: int) -> bool {
    0 <= k < n && !masked_out(mask, k)
}

/// Without an explicit range the azimuthal boundaries hold every pixel that takes part, as
/// far as it lies in the turn where the azimuth is clipped.
pub proof fn lemma_azimuth_holds_the_data(
    lower0: Seq<u64>,
    upper0: Seq<u64>,
    lower1: Seq<u64>,
    upper1: Seq<u64>,
    mask: Option<&[i8]>,
    range: GridRange,
    g: GridBounds,
    k: int,
)
    requires
        are_bounds(lower0, upper0, lower1, upper1, mask, range, g),
        range.azimuth_range is None,
        takes_part(mask, lower1.len() as int, k),
        upper1.len() == lower1.len(),
    ensures
        !is_nan(lower1[k]) && (range.clip_azimuth ==> in_turn(range, lower1[k])) ==> rank(g.min1)
            <= rank(lower1[k]),
        !is_nan(upper1[k]) && (range.clip_azimuth ==> in_turn(range, upper1[k])) ==> rank(
            upper1[k],
        ) <= rank(g.max1),
{
    lemma_turns();
    assert(valid(mask)(k));
}

/// Without an explicit range the azimuthal boundaries are the smallest and the largest
/// azimuth of the pixels that take part, where these lie in the turn or the azimuth is not
/// clipped: a detector that covers a part of the ring has boundaries of that part.
pub proof fn lemma_azimuth_is_of_the_data(
    lower0: Seq<u64>,
    upper0: Seq<u64>,
    lower1: Seq<u64>,
    upper1: Seq<u64>,
    mask: Option<&[i8]>,
    range: GridRange,
    g: GridBounds,
    i: int,
    j: int,
)
    requires
        are_bounds(lower0, upper0, lower1, upper1, mask, range, g),
        range.azimuth_range is None,
        takes_part(mask, lower1.len() as int, i) && double::is_finite(lower1[i]),
        takes_part(mask, upper1.len() as int, j) && double::is_finite(upper1[j]),
        // Pixel `i` has the smallest azimuth, pixel `j` the largest one.
        forall|k: int| #[trigger]
            takes_part(mask, lower1.len() as int, k) && !is_nan(lower1[k]) ==> rank(lower1[i])
                <= rank(lower1[k]),
        forall|k: int| #[trigger]
            takes_part(mask, upper1.len() as int, k) && !is_nan(upper1[k]) ==> rank(upper1[k])
                <= rank(upper1[j]),
        range.clip_azimuth ==> in_turn(range, lower1[i]) && in_turn(range, upper1[j]),
    ensures
        rank(g.min1) == rank(lower1[i]),
        rank(g.max1) == rank(upper1[j]),
{
    lemma_turns();
    let (lo0, hi0, lo1, hi1) = choose|lo0: u64, hi0: u64, lo1: u64, hi1: u64| #[trigger]
        is_smallest(lower0, valid(mask), lo0) && #[trigger] is_largest(upper0, valid(mask), hi0)
            && #[trigger] is_smallest(lower1, valid(mask), lo1) && #[trigger] is_largest(
            upper1,
            valid(mask),
            hi1,
        ) && (g.min0, g.max0) == range.radial(lo0, hi0) && (g.min1, g.max1) == range.azimuthal(
            lo1,
            hi1,
        );
    assert(valid(mask)(i) && valid(mask)(j));
    if lo1 != INFINITY {
        let k = choose|k: int|
            0 <= k < lower1.len() && valid(mask)(k) && #[trigger] lower1[k] == lo1;
        assert(takes_part(mask, lower1.len() as int, k));
    }
    if hi1 != NEG_INFINITY {
        let k = choose|k: int|
            0 <= k < upper1.len() && valid(mask)(k) && #[trigger] upper1[k] == hi1;
        assert(takes_part(mask, upper1.len() as int, k));
    }
}

/// Clipping never widens the range of the data, and leaves nothing beyond the turn.
pub proof fn lemma_clipping_never_widens(
    lower0: Seq<u64>,
    upper0: Seq<u64>,
    lower1: Seq<u64>,
    upper1: Seq<u64>,
    mask: Option<&[i8]>,
    range: GridRange,
    g: GridBounds,
    free: GridRange,
    h: GridBounds,
)
    requires
        are_bounds(lower0, upper0, lower1, upper1, mask, range, g),
        are_bounds(lower0, upper0, lower1, upper1, mask, free, h),
        range.azimuth_range is None,
        range.clip_azimuth,
        free.azimuth_range is None,
        !free.clip_azimuth,
    ensures
        rank(h.min1) <= rank(g.min1),
        rank(g.max1) <= rank(h.max1),
        range.chi_disc_at_pi ==> rank(PI_DOWN) <= rank(g.min1) && rank(g.max1) <= rank(PI_UP),
        !range.chi_disc_at_pi ==> 0 <= rank(g.min1) && rank(g.max1) <= rank(TWO_PI_UP),
{
    lemma_turns();
    let (lo0, hi0, lo1, hi1) = choose|lo0: u64, hi0: u64, lo1: u64, hi1: u64| #[trigger]
        is_smallest(lower0, valid(mask), lo0) && #[trigger] is_largest(upper0, valid(mask), hi0)
            && #[trigger] is_smallest(lower1, valid(mask), lo1) && #[trigger] is_largest(
            upper1,
            valid(mask),
            hi1,
        ) && (g.min0, g.max0) == range.radial(lo0, hi0) && (g.min1, g.max1) == range.azimuthal(
            lo1,
            hi1,
        );
    let (a0, b0, a1, b1) = choose|lo0: u64, hi0: u64, lo1: u64, hi1: u64| #[trigger]
        is_smallest(lower0, valid(mask), lo0) && #[trigger] is_largest(upper0, valid(mask), hi0)
            && #[trigger] is_smallest(lower1, valid(mask), lo1) && #[trigger] is_largest(
            upper1,
            valid(mask),
            hi1,
        ) && (h.min0, h.max0) == free.radial(lo0, hi0) && (h.min1, h.max1) == free.azimuthal(
            lo1,
            hi1,
        );
    double::lemma_smallest_unique(lower1, valid(mask), lo1, a1);
    double::lemma_largest_unique(upper1, valid(mask), hi1, b1);
}

/// Without an explicit range the radial boundaries are the smallest and the largest
/// position of the pixels that take part, neither below zero unless that is allowed.
pub proof fn lemma_radial_is_of_the_data(
    lower0: Seq<u64>,
    upper0: Seq<u64>,
    lower1: Seq<u64>,
    upper1: Seq<u64>,
    mask: Option<&[i8]>,
    range: GridRange,
    g: GridBounds,
    i: int,
    j: int,
)
    requires
        are_bounds(lower0, upper0, lower1, upper1, mask, range, g),
        range.radial_range is None,
        takes_part(mask, lower0.len() as int, i) && double::is_finite(lower0[i]),
        takes_part(mask, upper0.len() as int, j) && double::is_finite(upper0[j]),
        forall|k: int| #[trigger]
            takes_part(mask, lower0.len() as int, k) && !is_nan(lower0[k]) ==> rank(lower0[i])
                <= rank(lower0[k]),
        forall|k: int| #[trigger]
            takes_part(mask, upper0.len() as int, k) && !is_nan(upper0[k]) ==> rank(upper0[k])
                <= rank(upper0[j]),
    ensures
        range.allow_radial_neg || rank(lower0[i]) >= 0 ==> rank(g.min0) == rank(lower0[i]),
        range.allow_radial_neg || rank(upper0[j]) >= 0 ==> rank(g.max0) == rank(upper0[j]),
        !range.allow_radial_neg && rank(lower0[i]) < 0 ==> rank(g.min0) == 0,
        !range.allow_radial_neg && rank(upper0[j]) < 0 ==> rank(g.max0) == 0,
{
    let (lo0, hi0, lo1, hi1) = choose|lo0: u64, hi0: u64, lo1: u64, hi1: u64| #[trigger]
        is_smallest(lower0, valid(mask), lo0) && #[trigger] is_largest(upper0, valid(mask), hi0)
            && #[trigger] is_smallest(lower1, valid(mask), lo1) && #[trigger] is_largest(
            upper1,
            valid(mask),
            hi1,
        ) && (g.min0, g.max0) == range.radial(lo0, hi0) && (g.min1, g.max1) == range.azimuthal(
            lo1,
            hi1,
        );
    assert(valid(mask)(i) && valid(mask)(j));
    if lo0 != INFINITY {
        let k = choose|k: int|
            0 <= k < lower0.len() && valid(mask)(k) && #[trigger] lower0[k] == lo0;
        assert(takes_part(mask, lower0.len() as int, k));
    }
    if hi0 != NEG_INFINITY {
        let k = choose|k: int|
            0 <= k < upper0.len() && valid(mask)(k) && #[trigger] upper0[k] == hi0;
        assert(takes_part(mask, upper0.len() as int, k));
    }
}

/// An explicit range is taken as it is, in ascending order, whatever the data.
pub proof fn lemma_explicit_range_is_taken(
    lower0: Seq<u64>,
    upper0: Seq<u64>,
    lower1: Seq<u64>,
    upper1: Seq<u64>,
    mask: Option<&[i8]>,
    range: GridRange,
    g: GridBounds,
)
    requires
        are_bounds(lower0, upper0, lower1, upper1, mask, range, g),
    ensures
        range.radial_range matches Some(r) ==> (!is_nan(r.0) && !is_nan(r.1) ==> {
            ||| rank(r.0) <= rank(r.1) && rank(g.min0) == rank(r.0) && rank(g.max0) == rank(r.1)
            ||| rank(r.1) <= rank(r.0) && rank(g.min0) == rank(r.1) && rank(g.max0) == rank(r.0)
        }),
        range.azimuth_range matches Some(r) ==> (!is_nan(r.0) && !is_nan(r.1) ==> {
            ||| rank(r.0) <= rank(r.1) && rank(g.min1) == rank(r.0) && rank(g.max1) == rank(r.1)
            ||| rank(r.1) <= rank(r.0) && rank(g.min1) == rank(r.1) && rank(g.max1) == rank(r.0)
        }),
{
}

/// A radial bound is raised to zero where it lies below, unless that is allowed, and is
/// kept otherwise.
pub proof fn lemma_sign_clamp(x: u64, allow_neg: bool)
    requires
        !is_nan(x),
    ensures
        allow_neg || rank(x) >= 0 ==> rank(sign_clamped(x, allow_neg)) == rank(x),
        !allow_neg && rank(x) < 0 ==> rank(sign_clamped(x, allow_neg)) == 0,
        allow_neg ==> sign_clamped(x, allow_neg) == x,
{
}

/// Every position of an unmasked pixel lies between the radial bounds, but for negative
/// ones where those are not allowed, and each bound is a position of an unmasked pixel, or
/// zero in the place of a negative one.
pub proof fn lemma_radial_bounds(
    lower: Seq<u64>,
    upper: Seq<u64>,
    mask: Option<&[i8]>,
    allow_neg: bool,
    r: (u64, u64),
    i: int,
)
    requires
        are_radial_bounds(lower, upper, mask, allow_neg, r),
        lower.len() == upper.len(),
        takes_part(mask, lower.len() as int, i),
        double::is_finite(lower[i]) && double::is_finite(upper[i]),
    ensures
        allow_neg || rank(lower[i]) >= 0 ==> rank(r.0) <= rank(lower[i]),
        rank(upper[i]) <= rank(r.1),
        !allow_neg ==> rank(r.0) >= 0 && rank(r.1) >= 0,
        allow_neg || rank(r.0) != 0 ==> exists|k: int|
            takes_part(mask, lower.len() as int, k) && #[trigger] lower[k] == r.0,
        allow_neg || rank(r.1) != 0 ==> exists|k: int|
            takes_part(mask, lower.len() as int, k) && #[trigger] upper[k] == r.1,
{
    let (lo, hi) = choose|lo: u64, hi: u64| #[trigger]
        is_smallest(lower, valid(mask), lo) && #[trigger] is_largest(upper, valid(mask), hi) && r
            == (sign_clamped(lo, allow_neg), sign_clamped(hi, allow_neg));
    assert(valid(mask)(i));
    let k = choose|k: int| 0 <= k < lower.len() && valid(mask)(k) && #[trigger] lower[k] == lo;
    let l = choose|k: int| 0 <= k < upper.len() && valid(mask)(k) && #[trigger] upper[k] == hi;
    assert(lower[k] == lo && takes_part(mask, lower.len() as int, k));
    assert(upper[l] == hi && takes_part(mask, lower.len() as int, l));
}

/// The range of the bins of a histogram holds every value, and both its ends are values; an
/// explicit range is taken as it is, its smaller end first.
pub proof fn lemma_bin_range(values: Seq<u64>, range: Option<(u64, u64)>, r: (u64, u64), i: int)
    requires
        is_bin_range(values, range, r),
        0 <= i < values.len(),
        double::is_finite(values[i]),
        range matches Some((a, b)) ==> !is_nan(a) && !is_nan(b),
    ensures
        rank(r.0) <= rank(r.1),
        range is None ==> {
            &&& rank(r.0) <= rank(values[i]) <= rank(r.1)
            &&& values.contains(r.0)
            &&& values.contains(r.1)
        },
        range matches Some((a, b)) ==> (rank(r.0) == rank(a) && rank(r.1) == rank(b)) || (rank(r.0)
            == rank(b) && rank(r.1) == rank(a)),
{
    if range is None {
        assert(!is_nan(values[i]));
        let all = |j: int| true;
        assert(all(i));
        let k = choose|k: int| 0 <= k < values.len() && all(k) && #[trigger] values[k] == r.0;
        let l = choose|k: int| 0 <= k < values.len() && all(k) && #[trigger] values[k] == r.1;
        assert(values[k] == r.0 && values[l] == r.1);
    }
}

/// Positions are evenly spaced from the first to the last where the points between them
/// are.
pub proof fn lemma_even_positions<T, F: Fn(usize) -> T>(
    start: T,
    stop: T,
    num: int,
    point: F,
    y: Seq<T>,
    val: spec_fn(T) -> int,
    step: int,
    j: int,
)
    requires
        are_positions(start, stop, num, point, y),
        0 <= j < num <= usize::MAX,
        forall|k: usize, t: T| #[trigger]
            point.ensures((k,), t) ==> val(t) == val(start) + k * step,
        val(stop) == val(start) + (num - 1) * step,
    ensures
        y.len() == num,
        val(y[j]) == val(start) + j * step,
{
    assert(0 * step == 0) by (nonlinear_arith);
    if j < num - 1 {
        assert(point.ensures((j as usize,), y[j]));
    }
}

/// Values that are no numbers have no range: without any number both its ends are none.
pub proof fn lemma_bin_range_of_no_numbers(values: Seq<u64>, r: (u64, u64))
    requires
        is_bin_range(values, None, r),
        forall|k: int| 0 <= k < values.len() ==> is_nan(#[trigger] values[k]),
    ensures
        is_nan(r.0),
        is_nan(r.1),
{
}

} // verus!
