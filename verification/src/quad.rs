//! Quadrilateral pixels. A pixel that straddles the jump of the azimuth is moved to one
//! side of it; then its four edges are swept over the bins. The arithmetic is left to
//! the caller.

use crate::boundaries::{lemma_extremes_of_four, max4, max4_of, min4, min4_of};
use crate::accumulate::{filled, fold, folds_to};
use crate::builder::{is_masked, mask_fits, masked_out};
use crate::double::{greater, gt, is_nan, rank, ZERO};
use crate::edge::{
    area_range, integrate1d, is_integrated, is_walked, lemma_walk_visits_once, passes, spread,
    spread_1d, Corner, Edge, EdgeStep, Spread,
};
use vstd::prelude::*;

verus! {

/// The four corners of a pixel, in turn.
#[derive(Debug, Clone, Copy, PartialEq, Eq, Structural)]
pub struct Quad {
    /// First corner.
    pub a: Corner,
    /// Second corner.
    pub b: Corner,
    /// Third corner.
    pub c: Corner,
    /// Fourth corner.
    pub d: Corner,
}

/// Pixel `i` of a list of corners, four pairs of a radial position and an azimuth to a
/// pixel.
pub open spec fn quad_at(corners: Seq<u64>, i: int) -> Quad {
    Quad {
        a: Corner { radial: corners[8 * i], azimuth: corners[8 * i + 1] },
        b: Corner { radial: corners[8 * i + 2], azimuth: corners[8 * i + 3] },
        c: Corner { radial: corners[8 * i + 4], azimuth: corners[8 * i + 5] },
        d: Corner { radial: corners[8 * i + 6], azimuth: corners[8 * i + 7] },
    }
}

/// The value of [`quad_at`].
pub fn quad(corners: &[u64], i: usize) -> (q: Quad)
    requires
        corners@.len() % 8 == 0,
        i < corners@.len() / 8,
    ensures
        q == quad_at(corners@, i as int),
{
    let n: usize = corners.len();
    assert(8 * i + 8 <= n);
    let base: usize = 8 * i;
    Quad {
        a: Corner { radial: corners[base], azimuth: corners[base + 1] },
        b: Corner { radial: corners[base + 2], azimuth: corners[base + 3] },
        c: Corner { radial: corners[base + 4], azimuth: corners[base + 5] },
        d: Corner { radial: corners[base + 6], azimuth: corners[base + 7] },
    }
}

/// A turn of the azimuth.
#[derive(Debug, Clone, Copy)]
pub struct Turn {
    /// The azimuth of a whole turn.
    pub period: u64,
    /// The azimuth of half a turn.
    pub half: u64,
    /// The azimuth jumps at half a turn rather than at 0.
    pub chi_disc_at_pi: bool,
}

impl Turn {
    /// An azimuth lies in the half of the turn that is moved.
    pub open spec fn lifts(&self, azimuth: u64) -> bool {
        if self.chi_disc_at_pi {
            gt(ZERO, azimuth)
        } else {
            gt(self.half, azimuth)
        }
    }

    /// The largest azimuth.
    pub open spec fn upper(&self) -> u64 {
        if self.chi_disc_at_pi {
            self.half
        } else {
            self.period
        }
    }
}

/// The arithmetic of turning a pixel: the signed area of a pixel, an azimuth a turn up
/// or down, and the mean azimuth of the corners of a pixel.
pub struct TurnMath<A, P, M, D> {
    /// The signed area.
    pub area: A,
    /// One turn up.
    pub lift: P,
    /// The mean azimuth.
    pub mean: M,
    /// One turn down.
    pub lower: D,
}

impl<A: Fn(Quad) -> u64, P: Fn(u64) -> u64, M: Fn(Quad) -> u64, D: Fn(u64) -> u64> TurnMath<
    A,
    P,
    M,
    D,
> {
    /// The arithmetic takes any numbers.
    pub open spec fn total(&self) -> bool {
        &&& forall|q: Quad| #[trigger] self.area.requires((q,))
        &&& forall|x: u64| #[trigger] self.lift.requires((x,))
        &&& forall|q: Quad| #[trigger] self.mean.requires((q,))
        &&& forall|x: u64| #[trigger] self.lower.requires((x,))
    }

    /// `out` is the azimuth `x`, moved a turn up where it lies in the half that is moved.
    pub open spec fn is_lifted(&self, turn: Turn, x: u64, out: u64) -> bool {
        if turn.lifts(x) {
            self.lift.ensures((x,), out)
        } else {
            out == x
        }
    }

    /// `out` is the pixel `q` with every azimuth lifted.
    pub open spec fn lifts_all(&self, turn: Turn, q: Quad, out: Quad) -> bool {
        &&& same_radial(q, out)
        &&& self.is_lifted(turn, q.a.azimuth, out.a.azimuth)
        &&& self.is_lifted(turn, q.b.azimuth, out.b.azimuth)
        &&& self.is_lifted(turn, q.c.azimuth, out.c.azimuth)
        &&& self.is_lifted(turn, q.d.azimuth, out.d.azimuth)
    }

    /// `out` is the pixel `q` with every azimuth a turn down.
    pub open spec fn lowers_all(&self, q: Quad, out: Quad) -> bool {
        &&& same_radial(q, out)
        &&& self.lower.ensures((q.a.azimuth,), out.a.azimuth)
        &&& self.lower.ensures((q.b.azimuth,), out.b.azimuth)
        &&& self.lower.ensures((q.c.azimuth,), out.c.azimuth)
        &&& self.lower.ensures((q.d.azimuth,), out.d.azimuth)
    }

    /// `out` is the pixel `lifted`, a turn down where its mean azimuth is too large.
    pub open spec fn settles(&self, turn: Turn, lifted: Quad, out: Quad) -> bool {
        exists|mean: u64| #[trigger]
            self.mean.ensures((lifted,), mean) && if gt(mean, turn.upper()) {
                self.lowers_all(lifted, out)
            } else {
                out == lifted
            }
    }

    /// `out` is the pixel `q`, moved to one side of the jump of the azimuth. A pixel that
    /// straddles the jump has a positive area.
    pub open spec fn is_recentered(&self, turn: Turn, q: Quad, out: Quad) -> bool {
        exists|area: u64| #[trigger]
            self.area.ensures((q,), area) && if gt(turn.period, ZERO) && gt(area, ZERO) {
                exists|lifted: Quad| #[trigger]
                    self.lifts_all(turn, q, lifted) && self.settles(turn, lifted, out)
            } else {
                out == q
            }
    }

    /// Moves an azimuth a turn up where it lies in the half of the turn that is moved.
    pub fn recenter_helper(&self, turn: &Turn, x: u64) -> (out: u64)
        requires
            self.total(),
        ensures
            self.is_lifted(*turn, x, out),
    {
        let moved: bool = if turn.chi_disc_at_pi {
            greater(ZERO, x)
        } else {
            greater(turn.half, x)
        };
        if moved {
            (self.lift)(x)
        } else {
            x
        }
    }

    /// Moves a pixel that straddles the jump of the azimuth to one side of it. Radial
    /// positions are kept.
    pub fn recenter(&self, turn: &Turn, q: Quad) -> (out: Quad)
        requires
            self.total(),
        ensures
            self.is_recentered(*turn, q, out),
            same_radial(q, out),
    {
        let area: u64 = (self.area)(q);
        if !(greater(turn.period, ZERO) && greater(area, ZERO)) {
            return q;
        }
        let lifted: Quad = Quad {
            a: Corner { azimuth: self.recenter_helper(turn, q.a.azimuth), ..q.a },
            b: Corner { azimuth: self.recenter_helper(turn, q.b.azimuth), ..q.b },
            c: Corner { azimuth: self.recenter_helper(turn, q.c.azimuth), ..q.c },
            d: Corner { azimuth: self.recenter_helper(turn, q.d.azimuth), ..q.d },
        };
        assert(self.lifts_all(*turn, q, lifted));
        let mean: u64 = (self.mean)(lifted);
        let upper: u64 = if turn.chi_disc_at_pi {
            turn.half
        } else {
            turn.period
        };
        if greater(mean, upper) {
            Quad {
                a: Corner { azimuth: (self.lower)(lifted.a.azimuth), ..lifted.a },
                b: Corner { azimuth: (self.lower)(lifted.b.azimuth), ..lifted.b },
                c: Corner { azimuth: (self.lower)(lifted.c.azimuth), ..lifted.c },
                d: Corner { azimuth: (self.lower)(lifted.d.azimuth), ..lifted.d },
            }
        } else {
            lifted
        }
    }
}

/// The corners of two pixels have the same radial positions.
pub open spec fn same_radial(p: Quad, q: Quad) -> bool {
    &&& p.a.radial == q.a.radial
    &&& p.b.radial == q.b.radial
    &&& p.c.radial == q.c.radial
    &&& p.d.radial == q.d.radial
}

/// The radial positions of a pixel in units of bins.
pub open spec fn is_placed<L: Fn(u64) -> u64>(place: L, q: Quad, out: Quad) -> bool {
    &&& place.ensures((q.a.radial,), out.a.radial) && out.a.azimuth == q.a.azimuth
    &&& place.ensures((q.b.radial,), out.b.radial) && out.b.azimuth == q.b.azimuth
    &&& place.ensures((q.c.radial,), out.c.radial) && out.c.azimuth == q.c.azimuth
    &&& place.ensures((q.d.radial,), out.d.radial) && out.d.azimuth == q.d.azimuth
}

/// What the edges of a pixel sweep over the bins: the bins of its smallest and largest
/// radial position, the area in every bin of [`spread`]'s range, and the sum of the
/// areas.
#[derive(Debug)]
pub struct Swept<T, S> {
    /// The bin of the smallest position.
    pub bin_min: i64,
    /// The bin of the largest position.
    pub bin_max: i64,
    /// The areas.
    pub areas: Vec<T>,
    /// Their sum.
    pub sum: S,
}

impl<T, S> Swept<T, S> {
    /// There is an area for every bin that the pixel is split over.
    pub open spec fn fits(&self, bins: int) -> bool {
        match spread(self.bin_min as int, self.bin_max as int, bins) {
            Spread::Over(from, to) => from < to ==> self.areas@.len() == to - from,
            _ => true,
        }
    }
}

/// What the areas of a pixel weigh, given their sum.
pub fn weigh<T: Copy, S: Copy, W, C: Fn(T, S) -> W>(areas: &Vec<T>, sum: S, scale: &C) -> (out: Vec<
    W,
>)
    requires
        forall|t: T, s: S| #[trigger] scale.requires((t, s)),
    ensures
        out@.len() == areas@.len() <= usize::MAX,
        forall|k: int|
            0 <= k < areas@.len() ==> scale.ensures((areas@[k], sum), #[trigger] out@[k]),
{
    let mut out: Vec<W> = Vec::new();
    let mut k: usize = 0;
    while k < areas.len()
        invariant
            k <= areas@.len(),
            forall|t: T, s: S| #[trigger] scale.requires((t, s)),
            out@.len() == k,
            forall|l: int| 0 <= l < k ==> scale.ensures((areas@[l], sum), #[trigger] out@[l]),
        decreases areas@.len() - k,
    {
        out.push(scale(areas[k], sum));
        k = k + 1;
    }
    out
}

/// The smallest radial position of a pixel.
pub open spec fn nearest(q: Quad) -> u64 {
    min4_of(q.a.radial, q.b.radial, q.c.radial, q.d.radial)
}

/// The largest radial position of a pixel.
pub open spec fn farthest(q: Quad) -> u64 {
    max4_of(q.a.radial, q.b.radial, q.c.radial, q.d.radial)
}

/// `values` from place `from` to before `to`.
pub open spec fn piece<T>(values: Seq<T>, from: int, to: int) -> Seq<T> {
    if from < to {
        values.subrange(from, to)
    } else {
        Seq::empty()
    }
}

/// `values` with `zero` from place `from` to before `to`.
pub open spec fn cleared<T>(values: Seq<T>, from: int, to: int, zero: T) -> Seq<T> {
    Seq::new(
        values.len(),
        |b: int|
            if from <= b < to {
                zero
            } else {
                values[b]
            },
    )
}

/// The arithmetic of sweeping: the bin of a position, adding the area of one stretch of
/// an edge, and adding areas up. `zero` is the area of a bin that no edge passes, and
/// `none` the sum of no areas.
pub struct SweepMath<T, S, B, F, G> {
    /// The bin of a position.
    pub bin: B,
    /// Adds the area of a stretch.
    pub step: F,
    /// Adds an area to the sum.
    pub plus: G,
    /// No area.
    pub zero: T,
    /// No sum.
    pub none: S,
}

impl<
    T: Copy,
    S: Copy,
    B: Fn(u64) -> i64,
    F: Fn(T, Edge, EdgeStep) -> T,
    G: Fn(S, T) -> S,
> SweepMath<T, S, B, F, G> {
    /// The arithmetic takes any numbers.
    pub open spec fn total(&self) -> bool {
        &&& forall|x: u64| #[trigger] self.bin.requires((x,))
        &&& forall|t: T, e: Edge, s: EdgeStep| #[trigger] self.step.requires((t, e, s))
        &&& forall|s: S, t: T| #[trigger] self.plus.requires((s, t))
    }

    /// `after` is `before` with the area under one edge added.
    pub open spec fn adds(&self, before: Seq<T>, start: Corner, stop: Corner, after: Seq<T>) -> bool {
        is_integrated(before, Edge { start, stop }, self.bin, self.step, after)
    }

    /// `after` is `before` with the areas under the four edges of the pixel added, one
    /// after the other.
    pub open spec fn adds_all(&self, before: Seq<T>, q: Quad, after: Seq<T>) -> bool {
        exists|x: Seq<T>, y: Seq<T>, z: Seq<T>| #[trigger]
            self.adds(before, q.a, q.b, x) && #[trigger] self.adds(x, q.b, q.c, y)
                && #[trigger] self.adds(y, q.c, q.d, z) && self.adds(z, q.d, q.a, after)
    }

    /// `out` is what the edges of the pixel sweep over `bins` bins, whose areas are
    /// `before` at the start and `after` at the end. Where the pixel is split, the range
    /// of bins that it spans is cleared at the end.
    pub open spec fn is_swept(
        &self,
        before: Seq<T>,
        q: Quad,
        after: Seq<T>,
        out: Swept<T, S>,
    ) -> bool {
        &&& self.bin.ensures((nearest(q),), out.bin_min)
        &&& self.bin.ensures((farthest(q),), out.bin_max)
        &&& folds_to(self.plus, self.none, out.areas@, out.sum)
        &&& match spread(out.bin_min as int, out.bin_max as int, before.len() as int) {
            Spread::Over(from, to) => exists|swept: Seq<T>| #[trigger]
                self.adds_all(before, q, swept) && out.areas@ == piece(swept, from as int, to as int)
                    && after == cleared(swept, from as int, to as int, self.zero),
            _ => out.areas@.len() == 0 && after == before,
        }
    }

    /// Adds the area under the edges of a pixel.
    fn sweep_edges(&self, buffer: &mut Vec<T>, q: Quad)
        requires
            self.total(),
            old(buffer)@.len() <= i64::MAX,
        ensures
            final(buffer)@.len() == old(buffer)@.len(),
            self.adds_all(old(buffer)@, q, final(buffer)@),
    {
        integrate1d(buffer, Edge { start: q.a, stop: q.b }, &self.bin, &self.step);
        let ghost x = buffer@;
        integrate1d(buffer, Edge { start: q.b, stop: q.c }, &self.bin, &self.step);
        let ghost y = buffer@;
        integrate1d(buffer, Edge { start: q.c, stop: q.d }, &self.bin, &self.step);
        let ghost z = buffer@;
        integrate1d(buffer, Edge { start: q.d, stop: q.a }, &self.bin, &self.step);
        assert(self.adds(old(buffer)@, q.a, q.b, x) && self.adds(x, q.b, q.c, y) && self.adds(
            y,
            q.c,
            q.d,
            z,
        ));
    }

    /// Sweeps the edges of a pixel, whose radial positions are in units of bins.
    pub fn sweep(&self, buffer: &mut Vec<T>, q: Quad) -> (out: Swept<T, S>)
        requires
            self.total(),
            0 < old(buffer)@.len() <= i64::MAX,
        ensures
            final(buffer)@.len() == old(buffer)@.len(),
            self.is_swept(old(buffer)@, q, final(buffer)@, out),
            out.fits(old(buffer)@.len() as int),
    {
        let bins: usize = buffer.len();
        let bin_min: i64 = (self.bin)(min4(q.a.radial, q.b.radial, q.c.radial, q.d.radial));
        let bin_max: i64 = (self.bin)(max4(q.a.radial, q.b.radial, q.c.radial, q.d.radial));
        let mut areas: Vec<T> = Vec::new();
        if let Spread::Over(from, to) = spread_1d(bin_min, bin_max, bins) {
            self.sweep_edges(buffer, q);
            let ghost swept = buffer@;
            let mut b: usize = from;
            assert(buffer@ =~= cleared(swept, from as int, b as int, self.zero));
            while b < to
                invariant
                    from <= b,
                    b <= to || b == from,
                    to <= bins == swept.len(),
                    buffer@ == cleared(swept, from as int, b as int, self.zero),
                    areas@ == piece(swept, from as int, b as int),
                decreases to - b,
            {
                assert(buffer@[b as int] == swept[b as int]);
                areas.push(buffer[b]);
                buffer.set(b, self.zero);
                b = b + 1;
                assert(areas@ =~= piece(swept, from as int, b as int));
                assert(buffer@ =~= cleared(swept, from as int, b as int, self.zero));
            }
            assert(piece(swept, from as int, b as int) =~= piece(swept, from as int, to as int));
            assert(cleared(swept, from as int, b as int, self.zero) =~= cleared(
                swept,
                from as int,
                to as int,
                self.zero,
            ));
        }
        let sum: S = fold(self.none, &areas, &self.plus);
        Swept { bin_min, bin_max, areas, sum }
    }
}

/// Quadrilateral pixels along an axis: how they are turned, placed and swept.
pub struct LineSweeper<A, P, M, D, L, T, S, B, F, G> {
    /// The turn of the azimuth.
    pub turn: Turn,
    /// The arithmetic of turning.
    pub turning: TurnMath<A, P, M, D>,
    /// A radial position in units of bins.
    pub place: L,
    /// The arithmetic of sweeping.
    pub sweeping: SweepMath<T, S, B, F, G>,
}

impl<
    A: Fn(Quad) -> u64,
    P: Fn(u64) -> u64,
    M: Fn(Quad) -> u64,
    D: Fn(u64) -> u64,
    L: Fn(u64) -> u64,
    T: Copy,
    S: Copy,
    B: Fn(u64) -> i64,
    F: Fn(T, Edge, EdgeStep) -> T,
    G: Fn(S, T) -> S,
> LineSweeper<A, P, M, D, L, T, S, B, F, G> {
    /// The arithmetic takes any numbers.
    pub open spec fn total(&self) -> bool {
        &&& self.turning.total()
        &&& forall|x: u64| #[trigger] self.place.requires((x,))
        &&& self.sweeping.total()
    }

    /// `out` is what pixel `i` sweeps, none where it is masked; `before` and `after` are
    /// the areas of the bins around it.
    pub open spec fn sweeps_pixel(
        &self,
        corners: Seq<u64>,
        mask: Option<&[i8]>,
        i: int,
        before: Seq<T>,
        after: Seq<T>,
        out: Option<Swept<T, S>>,
    ) -> bool {
        if masked_out(mask, i) {
            after == before && out is None
        } else {
            out is Some && exists|q: Quad, p: Quad| #[trigger]
                self.turning.is_recentered(self.turn, quad_at(corners, i), q)
                    && #[trigger] is_placed(self.place, q, p) && self.sweeping.is_swept(
                    before,
                    p,
                    after,
                    out->0,
                )
        }
    }

    /// `out` is what the pixels sweep, one after the other; `states` are the areas of the
    /// bins before each of them and at the end.
    pub open spec fn runs(
        &self,
        corners: Seq<u64>,
        mask: Option<&[i8]>,
        bins: int,
        states: Seq<Seq<T>>,
        out: Seq<Option<Swept<T, S>>>,
    ) -> bool {
        &&& states.len() == out.len() + 1
        &&& states[0] == clean(bins, self.sweeping.zero)
        &&& forall|i: int|
            0 <= i < out.len() ==> self.sweeps_pixel(
                corners,
                mask,
                i,
                states[i],
                states[i + 1],
                #[trigger] out[i],
            )
    }

    /// Sweeps the edges of pixels over `bins` bins, pixel by pixel; masked pixels
    /// (`mask[i] != 0`) are left out.
    pub fn sweep_pixels(&self, corners: &[u64], mask: Option<&[i8]>, bins: usize) -> (out: Vec<
        Option<Swept<T, S>>,
    >)
        requires
            self.total(),
            corners@.len() % 8 == 0,
            mask_fits(mask, corners@.len() as int / 8),
            0 < bins <= i64::MAX,
        ensures
            out@.len() == corners@.len() / 8,
            exists|states: Seq<Seq<T>>| #[trigger]
                self.runs(corners@, mask, bins as int, states, out@),
            forall|i: int|
                0 <= i < out@.len() ==> (#[trigger] out@[i] matches Some(s) ==> s.fits(bins as int)),
    {
        let size: usize = corners.len() / 8;
        let mut buffer: Vec<T> = filled(self.sweeping.zero, bins);
        let mut out: Vec<Option<Swept<T, S>>> = Vec::new();
        let mut i: usize = 0;
        let ghost mut states: Seq<Seq<T>> = seq![buffer@];
        assert(buffer@ =~= clean(bins as int, self.sweeping.zero));
        while i < size
            invariant
                i <= size == corners@.len() / 8,
                self.total(),
                corners@.len() % 8 == 0,
                mask_fits(mask, size as int),
                0 < bins <= i64::MAX,
                buffer@.len() == bins,
                out@.len() == i,
                states.len() == i + 1,
                states[i as int] == buffer@,
                self.runs(corners@, mask, bins as int, states, out@),
                forall|k: int|
                    0 <= k < i ==> (#[trigger] out@[k] matches Some(s) ==> s.fits(bins as int)),
            decreases size - i,
        {
            let ghost before = buffer@;
            let ghost listed = out@;
            let ghost known = states;
            if is_masked(mask, i) {
                out.push(None);
            } else {
                let q: Quad = self.turning.recenter(&self.turn, quad(corners, i));
                let p: Quad = Quad {
                    a: Corner { radial: (self.place)(q.a.radial), ..q.a },
                    b: Corner { radial: (self.place)(q.b.radial), ..q.b },
                    c: Corner { radial: (self.place)(q.c.radial), ..q.c },
                    d: Corner { radial: (self.place)(q.d.radial), ..q.d },
                };
                assert(is_placed(self.place, q, p));
                let swept: Swept<T, S> = self.sweeping.sweep(&mut buffer, p);
                out.push(Some(swept));
            }
            proof {
                states = states.push(buffer@);
                assert(self.sweeps_pixel(
                    corners@,
                    mask,
                    i as int,
                    before,
                    buffer@,
                    out@[i as int],
                ));
                assert forall|k: int| 0 <= k < out@.len() implies self.sweeps_pixel(
                    corners@,
                    mask,
                    k,
                    states[k],
                    states[k + 1],
                    #[trigger] out@[k],
                ) by {
                    if k < i {
                        assert(out@[k] == listed[k]);
                        assert(states[k] == known[k] && states[k + 1] == known[k + 1]);
                    }
                }
            }
            i = i + 1;
        }
        out
    }
}

/// Bins without an area.
pub open spec fn clean<T>(bins: int, zero: T) -> Seq<T> {
    Seq::new(bins as nat, |b: int| zero)
}

/// A pixel of numbers.
pub open spec fn numeric(q: Quad) -> bool {
    !is_nan(q.a.radial) && !is_nan(q.b.radial) && !is_nan(q.c.radial) && !is_nan(q.d.radial)
}

/// The radial positions of a pixel lie between the smallest and the largest of them.
pub proof fn lemma_extremes_in_order(q: Quad)
    requires
        numeric(q),
    ensures
        !is_nan(nearest(q)),
        !is_nan(farthest(q)),
        rank(nearest(q)) <= rank(q.a.radial) <= rank(farthest(q)),
        rank(nearest(q)) <= rank(q.b.radial) <= rank(farthest(q)),
        rank(nearest(q)) <= rank(q.c.radial) <= rank(farthest(q)),
        rank(nearest(q)) <= rank(q.d.radial) <= rank(farthest(q)),
{
    lemma_extremes_of_four(q.a.radial, q.b.radial, q.c.radial, q.d.radial);
}

/// The bins of positions are in the order of the positions.
pub open spec fn in_order<B: Fn(u64) -> i64>(bin: B) -> bool {
    forall|x: u64, y: u64, i: i64, j: i64|
        !is_nan(x) && !is_nan(y) && rank(x) <= rank(y) && #[trigger] bin.ensures((x,), i)
            && #[trigger] bin.ensures((y,), j) ==> i <= j
}

/// `after` differs from `before` from place `from` to before `to` only.
pub open spec fn agree_outside<T>(before: Seq<T>, after: Seq<T>, from: int, to: int) -> bool {
    &&& after.len() == before.len()
    &&& forall|b: int|
        0 <= b < before.len() && !(from <= b < to) ==> #[trigger] after[b] == before[b]
}

impl<
    T: Copy,
    S: Copy,
    B: Fn(u64) -> i64,
    F: Fn(T, Edge, EdgeStep) -> T,
    G: Fn(S, T) -> S,
> SweepMath<T, S, B, F, G> {
    /// An edge of a pixel changes no bin outside of the range that the pixel spans.
    proof fn lemma_edge_within(
        &self,
        before: Seq<T>,
        start: Corner,
        stop: Corner,
        after: Seq<T>,
        nearest: u64,
        farthest: u64,
        lo: i64,
        hi: i64,
    )
        requires
            in_order(self.bin),
            self.adds(before, start, stop, after),
            before.len() <= i64::MAX,
            before.len() <= usize::MAX,
            !is_nan(nearest) && !is_nan(farthest) && !is_nan(start.radial) && !is_nan(stop.radial),
            rank(nearest) <= rank(start.radial) <= rank(farthest),
            rank(nearest) <= rank(stop.radial) <= rank(farthest),
            self.bin.ensures((nearest,), lo),
            self.bin.ensures((farthest,), hi),
        ensures
            agree_outside(
                before,
                after,
                area_range(lo as int, hi as int, before.len() as int).0,
                area_range(lo as int, hi as int, before.len() as int).1,
            ),
    {
        let edge = Edge { start, stop };
        let bins = before.len() as int;
        if !edge.is_flat() {
            let (i, j) = choose|i: i64, j: i64| #[trigger]
                self.bin.ensures((start.radial,), i) && #[trigger] self.bin.ensures(
                    (stop.radial,),
                    j,
                ) && is_walked(before, edge, edge.walk(i as int, j as int, bins), self.step, after);
            let steps = edge.walk(i as int, j as int, bins);
            let rising = gt(stop.radial, start.radial);
            lemma_walk_visits_once(i as int, j as int, rising, bins);
            let (from, to) = area_range(lo as int, hi as int, bins);
            assert forall|b: int| 0 <= b < bins && !(from <= b < to) implies #[trigger] after[b]
                == before[b] by {
                assert(!passes(steps, b));
            }
        }
    }

    /// The edges of a pixel change no bin outside of the range that the pixel spans.
    proof fn lemma_edges_within(&self, before: Seq<T>, q: Quad, swept: Seq<T>, lo: i64, hi: i64)
        requires
            in_order(self.bin),
            numeric(q),
            before.len() <= i64::MAX,
            before.len() <= usize::MAX,
            self.adds_all(before, q, swept),
            self.bin.ensures((nearest(q),), lo),
            self.bin.ensures((farthest(q),), hi),
        ensures
            agree_outside(
                before,
                swept,
                area_range(lo as int, hi as int, before.len() as int).0,
                area_range(lo as int, hi as int, before.len() as int).1,
            ),
    {
        let n = nearest(q);
        let f = farthest(q);
        lemma_extremes_in_order(q);
        let (x, y, z) = choose|x: Seq<T>, y: Seq<T>, z: Seq<T>| #[trigger]
            self.adds(before, q.a, q.b, x) && #[trigger] self.adds(x, q.b, q.c, y)
                && #[trigger] self.adds(y, q.c, q.d, z) && self.adds(z, q.d, q.a, swept);
        self.lemma_edge_within(before, q.a, q.b, x, n, f, lo, hi);
        self.lemma_edge_within(x, q.b, q.c, y, n, f, lo, hi);
        self.lemma_edge_within(y, q.c, q.d, z, n, f, lo, hi);
        self.lemma_edge_within(z, q.d, q.a, swept, n, f, lo, hi);
        let (from, to) = area_range(lo as int, hi as int, before.len() as int);
        assert forall|b: int| 0 <= b < before.len() && !(from <= b < to) implies #[trigger] swept[b]
            == before[b] by {
            assert(swept[b] == z[b] && z[b] == y[b] && y[b] == x[b] && x[b] == before[b]);
        }
    }

    /// A pixel leaves no area behind in bins that were clean before it.
    pub proof fn lemma_sweep_leaves_clean(
        &self,
        before: Seq<T>,
        q: Quad,
        after: Seq<T>,
        out: Swept<T, S>,
    )
        requires
            in_order(self.bin),
            numeric(q),
            before.len() <= i64::MAX,
            before.len() <= usize::MAX,
            before == clean(before.len() as int, self.zero),
            self.is_swept(before, q, after, out),
        ensures
            after == before,
    {
        let (lo, hi) = (out.bin_min, out.bin_max);
        let bins = before.len() as int;
        if let Spread::Over(from, to) = spread(lo as int, hi as int, bins) {
            let swept = choose|swept: Seq<T>| #[trigger]
                self.adds_all(before, q, swept) && out.areas@ == piece(swept, from as int, to as int)
                    && after == cleared(swept, from as int, to as int, self.zero);
            self.lemma_edges_within(before, q, swept, lo, hi);
            assert(after =~= before);
        }
    }
}

impl<
    A: Fn(Quad) -> u64,
    P: Fn(u64) -> u64,
    M: Fn(Quad) -> u64,
    D: Fn(u64) -> u64,
    L: Fn(u64) -> u64,
    T: Copy,
    S: Copy,
    B: Fn(u64) -> i64,
    F: Fn(T, Edge, EdgeStep) -> T,
    G: Fn(S, T) -> S,
> LineSweeper<A, P, M, D, L, T, S, B, F, G> {
    /// Every pixel meets clean bins: what it sweeps does not depend on the pixels before
    /// it.
    pub proof fn lemma_pixels_are_independent(
        &self,
        corners: Seq<u64>,
        mask: Option<&[i8]>,
        bins: int,
        states: Seq<Seq<T>>,
        out: Seq<Option<Swept<T, S>>>,
        i: int,
    )
        requires
            in_order(self.sweeping.bin),
            forall|x: u64, y: u64| #[trigger] self.place.ensures((x,), y) ==> !is_nan(y),
            0 < bins <= i64::MAX,
            bins <= usize::MAX,
            self.runs(corners, mask, bins, states, out),
            0 <= i <= out.len(),
        ensures
            states[i] == clean(bins, self.sweeping.zero),
        decreases i,
    {
        if i > 0 {
            let k = i - 1;
            self.lemma_pixels_are_independent(corners, mask, bins, states, out, k);
            assert(self.sweeps_pixel(corners, mask, k, states[k], states[k + 1], out[k]));
            if !masked_out(mask, k) {
                let (q, p) = choose|q: Quad, p: Quad| #[trigger]
                    self.turning.is_recentered(self.turn, quad_at(corners, k), q)
                        && #[trigger] is_placed(self.place, q, p) && self.sweeping.is_swept(
                        states[k],
                        p,
                        states[k + 1],
                        out[k]->0,
                    );
                assert(states[k] =~= clean(states[k].len() as int, self.sweeping.zero));
                self.sweeping.lemma_sweep_leaves_clean(states[k], p, states[k + 1], out[k]->0);
            }
        }
    }
}

/// Corner `k` of pixel `i` is pair `4 * i + k` of the list: its radial position, then its
/// azimuth.
pub proof fn lemma_corner_layout(corners: Seq<u64>, i: int, k: int)
    requires
        0 <= k < 4,
    ensures
        ({
            let q = quad_at(corners, i);
            let corner = seq![q.a, q.b, q.c, q.d][k];
            let pair = 4 * i + k;
            corner.radial == corners[2 * pair] && corner.azimuth == corners[2 * pair + 1]
        }),
{
}

/// What an azimuth is worth, and how numbers are compared.
pub open spec fn orders(val: spec_fn(u64) -> int) -> bool {
    &&& val(ZERO) == 0
    &&& forall|x: u64, y: u64|
        !is_nan(x) && !is_nan(y) ==> (#[trigger] val(x) <= #[trigger] val(y) <==> rank(x) <= rank(
            y,
        ))
}

/// The azimuth is a number within the turn.
pub open spec fn within_turn(turn: Turn, val: spec_fn(u64) -> int, x: u64) -> bool {
    &&& !is_nan(x)
    &&& if turn.chi_disc_at_pi {
        -val(turn.half) <= val(x) <= val(turn.half)
    } else {
        0 <= val(x) <= val(turn.period)
    }
}

impl<A: Fn(Quad) -> u64, P: Fn(u64) -> u64, M: Fn(Quad) -> u64, D: Fn(u64) -> u64> TurnMath<
    A,
    P,
    M,
    D,
> {
    /// A turn up adds the period, a turn down takes it away, and the mean is that of the
    /// four azimuths.
    pub open spec fn turns_exactly(&self, turn: Turn, val: spec_fn(u64) -> int) -> bool {
        &&& forall|x: u64, r: u64| #[trigger]
            self.lift.ensures((x,), r) ==> !is_nan(r) && val(r) == val(x) + val(turn.period)
        &&& forall|x: u64, r: u64| #[trigger]
            self.lower.ensures((x,), r) ==> !is_nan(r) && val(r) == val(x) - val(turn.period)
        &&& forall|q: Quad, r: u64| #[trigger]
            self.mean.ensures((q,), r) ==> !is_nan(r) && 4 * val(r) == val(q.a.azimuth) + val(
                q.b.azimuth,
            ) + val(q.c.azimuth) + val(q.d.azimuth)
    }

    /// A pixel that does not straddle the jump of the azimuth stays as it is. One that does
    /// keeps its radial positions, and every azimuth moves by a whole turn, or not at all.
    /// Afterwards no two corners are more than a turn apart, corners on one side of the
    /// jump are as far apart as before, corners on different sides are on one side now,
    /// and the mean azimuth lies within the turn.
    pub proof fn lemma_recentered_pixel(
        &self,
        turn: Turn,
        q: Quad,
        out: Quad,
        val: spec_fn(u64) -> int,
        straddles: bool,
    )
        requires
            self.is_recentered(turn, q, out),
            orders(val),
            self.turns_exactly(turn, val),
            !is_nan(turn.half),
            !is_nan(turn.period),
            0 < val(turn.half),
            val(turn.period) == 2 * val(turn.half),
            forall|area: u64| #[trigger]
                self.area.ensures((q,), area) ==> !is_nan(area) && (straddles <==> val(area) > 0),
            within_turn(turn, val, q.a.azimuth),
            within_turn(turn, val, q.b.azimuth),
            within_turn(turn, val, q.c.azimuth),
            within_turn(turn, val, q.d.azimuth),
        ensures
            same_radial(q, out),
            !straddles ==> out == q,
            straddles ==> {
                let h = val(turn.half);
                // the azimuths, seen from the jump
                let base = if turn.chi_disc_at_pi {
                    0
                } else {
                    h
                };
                let far = |x: u64|
                    if val(x) < base {
                        val(x) + 2 * h
                    } else {
                        val(x)
                    };
                let sum = val(out.a.azimuth) + val(out.b.azimuth) + val(out.c.azimuth) + val(
                    out.d.azimuth,
                );
                let down = val(out.a.azimuth) - far(q.a.azimuth);
                &&& down == 0 || down == -2 * h
                &&& val(out.b.azimuth) - far(q.b.azimuth) == down
                &&& val(out.c.azimuth) - far(q.c.azimuth) == down
                &&& val(out.d.azimuth) - far(q.d.azimuth) == down
                &&& 4 * (base - h) <= sum <= 4 * (base + h)
            },
    {
        let area = choose|area: u64| #[trigger]
            self.area.ensures((q,), area) && if gt(turn.period, ZERO) && gt(area, ZERO) {
                exists|lifted: Quad| #[trigger]
                    self.lifts_all(turn, q, lifted) && self.settles(turn, lifted, out)
            } else {
                out == q
            };
        assert(val(turn.period) <= val(ZERO) <==> rank(turn.period) <= rank(ZERO));
        assert(val(area) <= val(ZERO) <==> rank(area) <= rank(ZERO));
        if straddles {
            let lifted = choose|lifted: Quad| #[trigger]
                self.lifts_all(turn, q, lifted) && self.settles(turn, lifted, out);
            self.lemma_lifted_corner(turn, q.a.azimuth, lifted.a.azimuth, val);
            self.lemma_lifted_corner(turn, q.b.azimuth, lifted.b.azimuth, val);
            self.lemma_lifted_corner(turn, q.c.azimuth, lifted.c.azimuth, val);
            self.lemma_lifted_corner(turn, q.d.azimuth, lifted.d.azimuth, val);
            let mean = choose|mean: u64| #[trigger]
                self.mean.ensures((lifted,), mean) && if gt(mean, turn.upper()) {
                    self.lowers_all(lifted, out)
                } else {
                    out == lifted
                };
            assert(val(mean) <= val(turn.upper()) <==> rank(mean) <= rank(turn.upper()));
        }
    }

    proof fn lemma_lifted_corner(&self, turn: Turn, x: u64, out: u64, val: spec_fn(u64) -> int)
        requires
            self.is_lifted(turn, x, out),
            orders(val),
            self.turns_exactly(turn, val),
            !is_nan(turn.half),
            0 < val(turn.half),
            val(turn.period) == 2 * val(turn.half),
            within_turn(turn, val, x),
        ensures
            ({
                let base = if turn.chi_disc_at_pi {
                    0
                } else {
                    val(turn.half)
                };
                &&& !is_nan(out)
                &&& val(out) == if val(x) < base {
                    val(x) + 2 * val(turn.half)
                } else {
                    val(x)
                }
                &&& base <= val(out) <= base + 2 * val(turn.half)
            }),
    {
        assert(val(ZERO) <= val(x) <==> rank(ZERO) <= rank(x));
        assert(val(turn.half) <= val(x) <==> rank(turn.half) <= rank(x));
    }
}

/// An azimuth as seen from the side of the jump to which a pixel is moved.
pub open spec fn seen_from_one_side(turn: Turn, val: spec_fn(u64) -> int, x: u64) -> int {
    let base = if turn.chi_disc_at_pi {
        0
    } else {
        val(turn.half)
    };
    if val(x) < base {
        val(x) + val(turn.period)
    } else {
        val(x)
    }
}

/// The pixel `out` is `q` on one side of the jump: its azimuths as seen from there, all of
/// them a turn down or none.
pub open spec fn is_on_one_side(turn: Turn, val: spec_fn(u64) -> int, q: Quad, out: Quad) -> bool {
    let down = val(out.a.azimuth) - seen_from_one_side(turn, val, q.a.azimuth);
    &&& down == 0 || down == -val(turn.period)
    &&& val(out.b.azimuth) == seen_from_one_side(turn, val, q.b.azimuth) + down
    &&& val(out.c.azimuth) == seen_from_one_side(turn, val, q.c.azimuth) + down
    &&& val(out.d.azimuth) == seen_from_one_side(turn, val, q.d.azimuth) + down
}

impl<
    A: Fn(Quad) -> u64,
    P: Fn(u64) -> u64,
    M: Fn(Quad) -> u64,
    D: Fn(u64) -> u64,
    L: Fn(u64) -> u64,
    T: Copy,
    S: Copy,
    B: Fn(u64) -> i64,
    F: Fn(T, Edge, EdgeStep) -> T,
    G: Fn(S, T) -> S,
> LineSweeper<A, P, M, D, L, T, S, B, F, G> {
    /// A masked pixel sweeps nothing. Any other is swept with the radial positions of its
    /// corners in units of bins and with their azimuths, which are moved to one side of the
    /// jump where the pixel straddles it.
    pub proof fn lemma_which_pixel_is_swept(
        &self,
        corners: Seq<u64>,
        mask: Option<&[i8]>,
        i: int,
        before: Seq<T>,
        after: Seq<T>,
        out: Option<Swept<T, S>>,
        val: spec_fn(u64) -> int,
        straddles: bool,
    ) -> (p: Quad)
        requires
            self.sweeps_pixel(corners, mask, i, before, after, out),
            orders(val),
            self.turning.turns_exactly(self.turn, val),
            !is_nan(self.turn.half),
            !is_nan(self.turn.period),
            0 < val(self.turn.half),
            val(self.turn.period) == 2 * val(self.turn.half),
            forall|area: u64| #[trigger]
                self.turning.area.ensures((quad_at(corners, i),), area) ==> !is_nan(area) && (
                straddles <==> val(area) > 0),
            within_turn(self.turn, val, corners[8 * i + 1]),
            within_turn(self.turn, val, corners[8 * i + 3]),
            within_turn(self.turn, val, corners[8 * i + 5]),
            within_turn(self.turn, val, corners[8 * i + 7]),
        ensures
            mask is Some && (mask->0)@[i] != 0 ==> out is None && after == before,
            !(mask is Some && (mask->0)@[i] != 0) ==> {
                &&& out is Some && self.sweeping.is_swept(before, p, after, out->0)
                &&& self.place.ensures((corners[8 * i],), p.a.radial)
                &&& self.place.ensures((corners[8 * i + 2],), p.b.radial)
                &&& self.place.ensures((corners[8 * i + 4],), p.c.radial)
                &&& self.place.ensures((corners[8 * i + 6],), p.d.radial)
                &&& straddles ==> is_on_one_side(self.turn, val, quad_at(corners, i), p)
                &&& !straddles ==> p.a.azimuth == corners[8 * i + 1] && p.b.azimuth == corners[8
                    * i + 3] && p.c.azimuth == corners[8 * i + 5] && p.d.azimuth == corners[8 * i
                    + 7]
            },
    {
        if masked_out(mask, i) {
            quad_at(corners, i)
        } else {
            let (q, p) = choose|q: Quad, p: Quad| #[trigger]
                self.turning.is_recentered(self.turn, quad_at(corners, i), q)
                    && #[trigger] is_placed(self.place, q, p) && self.sweeping.is_swept(
                    before,
                    p,
                    after,
                    out->0,
                );
            self.turning.lemma_recentered_pixel(
                self.turn,
                quad_at(corners, i),
                q,
                val,
                straddles,
            );
            p
        }
    }
}

} // verus!
