//! The outline of a quadrilateral pixel. With exact arithmetic, what the edges of a pixel
//! sweep over a bin is the area of the pixel that lies in the bin.
//!
//! Positions are taken in units of which a bin is `unit` wide, so that they are integers.
//! The area under an edge is given by an antiderivative: `under(e, y) - under(e, x)` is the
//! area under the line of edge `e` from position `x` to position `y`.

use crate::double;
use crate::edge::{
    area_range, is_integrated, is_walked, larger, lemma_walk_visits_once, on_axis, passes, smaller,
    spread, walk, Corner, Edge, EdgeStep, Spread, Stretch,
};
use crate::patch::BoxMath;
use crate::quad::{clean, farthest, nearest, piece, Quad, SweepMath, Swept};
use vstd::prelude::*;

verus! {

/// `x`, or the end of the range from `lo` to `hi` that it lies beyond.
pub open spec fn clamped(x: int, lo: int, hi: int) -> int {
    if x < lo {
        lo
    } else if x > hi {
        hi
    } else {
        x
    }
}

/// `pos` measures positions: it orders them as the numbers are ordered.
pub open spec fn measures(pos: spec_fn(u64) -> int, unit: int) -> bool {
    &&& 0 < unit
    &&& forall|x: u64, y: u64|
        !double::is_nan(x) && !double::is_nan(y) ==> (#[trigger] pos(x) <= #[trigger] pos(y)
            <==> double::rank(x) <= double::rank(y))
}

/// The bin of position `x` is the one that holds it.
pub open spec fn lies_in_bin<B: Fn(u64) -> i64>(
    bin: B,
    pos: spec_fn(u64) -> int,
    unit: int,
    x: u64,
) -> bool {
    &&& !double::is_nan(x)
    &&& forall|i: i64| #[trigger] bin.ensures((x,), i) ==> i * unit <= pos(x) < (i + 1) * unit
}

/// The side of a bin by which an edge leaves it.
pub open spec fn way_out(pos: spec_fn(u64) -> int, unit: int, e: Edge, bin: int) -> int {
    if pos(e.stop.radial) > pos(e.start.radial) {
        (bin + 1) * unit
    } else {
        bin * unit
    }
}

/// The side of a bin by which an edge enters it.
pub open spec fn way_in(pos: spec_fn(u64) -> int, unit: int, e: Edge, bin: int) -> int {
    if pos(e.stop.radial) > pos(e.start.radial) {
        bin * unit
    } else {
        (bin + 1) * unit
    }
}

/// Where a stretch of an edge begins and ends.
pub open spec fn stretch_ends(
    pos: spec_fn(u64) -> int,
    unit: int,
    e: Edge,
    s: EdgeStep,
) -> (int, int) {
    match s.stretch {
        Stretch::Within => (pos(e.start.radial), pos(e.stop.radial)),
        Stretch::FromStart => (pos(e.start.radial), way_out(pos, unit, e, s.bin as int)),
        Stretch::Across => (way_in(pos, unit, e, s.bin as int), way_out(pos, unit, e, s.bin as int)),
        Stretch::ToStop => (way_in(pos, unit, e, s.bin as int), pos(e.stop.radial)),
    }
}

/// A step adds exactly the area under its stretch of the edge; `val` is what a number is
/// worth.
pub open spec fn adds_exactly<T, F: Fn(T, Edge, EdgeStep) -> T>(
    step: F,
    val: spec_fn(T) -> int,
    under: spec_fn(Edge, int) -> int,
    pos: spec_fn(u64) -> int,
    unit: int,
) -> bool {
    forall|t: T, e: Edge, s: EdgeStep, r: T| #[trigger]
        step.ensures((t, e, s), r) ==> val(r) == val(t) + under(
            e,
            stretch_ends(pos, unit, e, s).1,
        ) - under(e, stretch_ends(pos, unit, e, s).0)
}

/// The area under an edge within bin `b`: from where the edge is when it comes into the
/// bin to where it is when it leaves it.
pub open spec fn area_within(
    under: spec_fn(Edge, int) -> int,
    pos: spec_fn(u64) -> int,
    unit: int,
    e: Edge,
    b: int,
) -> int {
    under(e, clamped(pos(e.stop.radial), b * unit, (b + 1) * unit)) - under(
        e,
        clamped(pos(e.start.radial), b * unit, (b + 1) * unit),
    )
}

/// Where a position lies with regard to bin `b`, when it lies in bin `i`.
proof fn lemma_bin_sides(unit: int, x: int, i: int, b: int)
    requires
        0 < unit,
        i * unit <= x < (i + 1) * unit,
    ensures
        b < i ==> (b + 1) * unit <= x,
        b > i ==> x < b * unit,
        b * unit < (b + 1) * unit,
{
    if b < i {
        assert((b + 1) * unit <= i * unit) by (nonlinear_arith)
            requires
                b + 1 <= i,
                0 < unit,
        ;
    }
    if b > i {
        assert((i + 1) * unit <= b * unit) by (nonlinear_arith)
            requires
                i + 1 <= b,
                0 < unit,
        ;
    }
    assert((b + 1) * unit == b * unit + unit) by (nonlinear_arith);
}

/// The stretch of an edge that a walk assigns to bin `b` is the part of the edge that lies
/// in the bin; where the walk does not pass the bin, no part of the edge does.
proof fn lemma_walk_stretches(
    pos: spec_fn(u64) -> int,
    unit: int,
    e: Edge,
    start: int,
    stop: int,
    bins: int,
    b: int,
)
    requires
        measures(pos, unit),
        !double::is_nan(e.start.radial),
        !double::is_nan(e.stop.radial),
        start * unit <= pos(e.start.radial) < (start + 1) * unit,
        stop * unit <= pos(e.stop.radial) < (stop + 1) * unit,
        !e.is_flat(),
        0 <= b < bins <= usize::MAX,
    ensures
        ({
            let steps = e.walk(start, stop, bins);
            let lo = clamped(pos(e.start.radial), b * unit, (b + 1) * unit);
            let hi = clamped(pos(e.stop.radial), b * unit, (b + 1) * unit);
            &&& forall|k: int|
                0 <= k < steps.len() && (#[trigger] steps[k]).bin == b ==> stretch_ends(
                    pos,
                    unit,
                    e,
                    steps[k],
                ) == (lo, hi)
            &&& !passes(steps, b) ==> lo == hi
        }),
{
    let (x, y) = (pos(e.start.radial), pos(e.stop.radial));
    let steps = e.walk(start, stop, bins);
    let rising = double::gt(e.stop.radial, e.start.radial);
    assert(x <= y <==> double::rank(e.start.radial) <= double::rank(e.stop.radial));
    assert(y <= x <==> double::rank(e.stop.radial) <= double::rank(e.start.radial));
    assert(rising == (y > x));
    assert(x != y);
    lemma_bin_sides(unit, x, start, b);
    lemma_bin_sides(unit, y, stop, b);
    lemma_bin_sides(unit, x, start, stop);
    lemma_bin_sides(unit, y, stop, start);
    assert(rising ==> start <= stop);
    assert(!rising ==> stop <= start);
    lemma_walk_visits_once(start, stop, rising, bins);
    let first = larger(smaller(start, stop), 0);
    let last = smaller(larger(start, stop), bins - 1);
    if first <= b <= last {
        let k = if rising {
            b - first
        } else {
            last - b
        };
        assert(steps[k].bin == b);
    }
    assert forall|k: int| 0 <= k < steps.len() && (#[trigger] steps[k]).bin == b implies stretch_ends(
        pos,
        unit,
        e,
        steps[k],
    ) == (
        clamped(x, b * unit, (b + 1) * unit),
        clamped(y, b * unit, (b + 1) * unit),
    ) by {
        lemma_step_of_bin(start, stop, rising, bins, k);
    }
}

/// The stretch that a walk assigns to a bin, by where the bin lies.
proof fn lemma_step_of_bin(start: int, stop: int, rising: bool, bins: int, k: int)
    requires
        0 <= bins <= usize::MAX,
        rising ==> start <= stop,
        !rising ==> stop <= start,
        0 <= k < walk(start, stop, rising, (true, true), bins).len(),
    ensures
        ({
            let s = walk(start, stop, rising, (true, true), bins)[k];
            s.stretch == if start == stop {
                Stretch::Within
            } else if s.bin == start {
                Stretch::FromStart
            } else if s.bin == stop {
                Stretch::ToStop
            } else {
                Stretch::Across
            }
        }),
{
    lemma_walk_visits_once(start, stop, rising, bins);
    let steps = walk(start, stop, rising, (true, true), bins);
    if !(start == stop && on_axis(start, bins)) {
        let a = crate::edge::end_step(start, true, bins, Stretch::FromStart);
        let b = if rising {
            crate::edge::crossed_up(larger(start + 1, 0), smaller(stop, bins))
        } else {
            crate::edge::crossed_down(larger(stop, -1) + 1, smaller(start, bins))
        };
        let c = crate::edge::end_step(stop, true, bins, Stretch::ToStop);
        assert(steps == a + b + c);
        if k < a.len() {
            assert(steps[k] == a[k]);
        } else if k < a.len() + b.len() {
            assert(steps[k] == b[k - a.len()]);
        } else {
            assert(steps[k] == c[k - a.len() - b.len()]);
        }
    }
}

/// An edge adds to every bin exactly the area under the part of it that lies in the bin,
/// and nothing to a bin that it does not reach.
pub proof fn lemma_edge_adds_its_area<T, B: Fn(u64) -> i64, F: Fn(T, Edge, EdgeStep) -> T>(
    before: Seq<T>,
    e: Edge,
    bin: B,
    step: F,
    after: Seq<T>,
    val: spec_fn(T) -> int,
    under: spec_fn(Edge, int) -> int,
    pos: spec_fn(u64) -> int,
    unit: int,
    b: int,
)
    requires
        is_integrated(before, e, bin, step, after),
        measures(pos, unit),
        lies_in_bin(bin, pos, unit, e.start.radial),
        lies_in_bin(bin, pos, unit, e.stop.radial),
        adds_exactly(step, val, under, pos, unit),
        0 <= b < before.len() <= usize::MAX,
    ensures
        val(after[b]) == val(before[b]) + area_within(under, pos, unit, e, b),
{
    if e.is_flat() {
        assert(pos(e.start.radial) <= pos(e.stop.radial));
        assert(pos(e.stop.radial) <= pos(e.start.radial));
    } else {
        let bins = before.len() as int;
        let (start, stop) = choose|start: i64, stop: i64| #[trigger]
            bin.ensures((e.start.radial,), start) && #[trigger] bin.ensures(
                (e.stop.radial,),
                stop,
            ) && is_walked(before, e, e.walk(start as int, stop as int, bins), step, after);
        let steps = e.walk(start as int, stop as int, bins);
        lemma_walk_stretches(pos, unit, e, start as int, stop as int, bins, b);
        if passes(steps, b) {
            let k = choose|k: int| 0 <= k < steps.len() && (#[trigger] steps[k]).bin == b;
            assert(step.ensures((before[steps[k].bin as int], e, steps[k]), after[b]));
        }
    }
}

/// The four corners of a pixel lie in the bins that hold them.
pub open spec fn corners_lie_in_bins<B: Fn(u64) -> i64>(
    bin: B,
    pos: spec_fn(u64) -> int,
    unit: int,
    q: Quad,
) -> bool {
    &&& lies_in_bin(bin, pos, unit, q.a.radial)
    &&& lies_in_bin(bin, pos, unit, q.b.radial)
    &&& lies_in_bin(bin, pos, unit, q.c.radial)
    &&& lies_in_bin(bin, pos, unit, q.d.radial)
}

/// What goes once around a pixel: from its first corner to the second, the third, the
/// fourth and back to the first one.
pub open spec fn around(q: Quad, f: spec_fn(Edge) -> int) -> int {
    f(Edge { start: q.a, stop: q.b }) + f(Edge { start: q.b, stop: q.c }) + f(
        Edge { start: q.c, stop: q.d },
    ) + f(Edge { start: q.d, stop: q.a })
}

impl<
    T: Copy,
    S: Copy,
    B: Fn(u64) -> i64,
    F: Fn(T, Edge, EdgeStep) -> T,
    G: Fn(S, T) -> S,
> SweepMath<T, S, B, F, G> {
    /// What a pixel sweeps over a bin is the area of the outline of the pixel within the
    /// bin: the areas under its edges there, once around.
    pub proof fn lemma_areas_go_around(
        &self,
        before: Seq<T>,
        q: Quad,
        after: Seq<T>,
        out: Swept<T, S>,
        val: spec_fn(T) -> int,
        under: spec_fn(Edge, int) -> int,
        pos: spec_fn(u64) -> int,
        unit: int,
        k: int,
    )
        requires
            self.is_swept(before, q, after, out),
            before == clean(before.len() as int, self.zero),
            val(self.zero) == 0,
            measures(pos, unit),
            corners_lie_in_bins(self.bin, pos, unit, q),
            adds_exactly(self.step, val, under, pos, unit),
            before.len() <= usize::MAX,
            0 <= k < out.areas@.len(),
        ensures
            ({
                let b = larger(out.bin_min as int, 0) + k;
                val(out.areas@[k]) == around(q, |e: Edge| area_within(under, pos, unit, e, b))
            }),
    {
        let bins = before.len() as int;
        let b = larger(out.bin_min as int, 0) + k;
        match spread(out.bin_min as int, out.bin_max as int, bins) {
            Spread::Over(from, to) => {
                let swept = choose|swept: Seq<T>| #[trigger]
                    self.adds_all(before, q, swept) && out.areas@ == piece(
                        swept,
                        from as int,
                        to as int,
                    ) && after == crate::quad::cleared(swept, from as int, to as int, self.zero);
                assert(from == larger(out.bin_min as int, 0));
                self.lemma_swept_goes_around(before, q, swept, val, under, pos, unit, b);
                assert(out.areas@[k] == swept[b]);
            },
            _ => {},
        }
    }

    /// The edges of a pixel add to a bin the area of its outline within the bin.
    proof fn lemma_swept_goes_around(
        &self,
        before: Seq<T>,
        q: Quad,
        swept: Seq<T>,
        val: spec_fn(T) -> int,
        under: spec_fn(Edge, int) -> int,
        pos: spec_fn(u64) -> int,
        unit: int,
        b: int,
    )
        requires
            self.adds_all(before, q, swept),
            measures(pos, unit),
            corners_lie_in_bins(self.bin, pos, unit, q),
            adds_exactly(self.step, val, under, pos, unit),
            before.len() <= usize::MAX,
            0 <= b < before.len(),
        ensures
            swept.len() == before.len(),
            val(swept[b]) == val(before[b]) + around(
                q,
                |e: Edge| area_within(under, pos, unit, e, b),
            ),
    {
        let (x, y, z) = choose|x: Seq<T>, y: Seq<T>, z: Seq<T>| #[trigger]
            self.adds(before, q.a, q.b, x) && #[trigger] self.adds(x, q.b, q.c, y)
                && #[trigger] self.adds(y, q.c, q.d, z) && self.adds(z, q.d, q.a, swept);
        let (ab, bc) = (Edge { start: q.a, stop: q.b }, Edge { start: q.b, stop: q.c });
        let (cd, da) = (Edge { start: q.c, stop: q.d }, Edge { start: q.d, stop: q.a });
        lemma_edge_adds_its_area(before, ab, self.bin, self.step, x, val, under, pos, unit, b);
        lemma_edge_adds_its_area(x, bc, self.bin, self.step, y, val, under, pos, unit, b);
        lemma_edge_adds_its_area(y, cd, self.bin, self.step, z, val, under, pos, unit, b);
        lemma_edge_adds_its_area(z, da, self.bin, self.step, swept, val, under, pos, unit, b);
    }

    /// Raising the azimuths of all corners by one amount changes no area: the outline of a
    /// pixel is closed. `raised` is the pixel `q` with its azimuths raised; the area under
    /// an edge grows by the amount `rise` times its length.
    pub proof fn lemma_raised_pixel_keeps_its_areas(
        &self,
        before: Seq<T>,
        q: Quad,
        after: Seq<T>,
        out: Swept<T, S>,
        raised: Quad,
        after2: Seq<T>,
        out2: Swept<T, S>,
        val: spec_fn(T) -> int,
        under: spec_fn(Edge, int) -> int,
        pos: spec_fn(u64) -> int,
        unit: int,
        lift: spec_fn(u64) -> u64,
        rise: int,
        k: int,
    )
        requires
            self.is_swept(before, q, after, out),
            self.is_swept(before, raised, after2, out2),
            before == clean(before.len() as int, self.zero),
            val(self.zero) == 0,
            measures(pos, unit),
            corners_lie_in_bins(self.bin, pos, unit, q),
            adds_exactly(self.step, val, under, pos, unit),
            before.len() <= usize::MAX,
            is_raised(q, lift, raised),
            lifts_area(under, lift, rise),
            out2.bin_min == out.bin_min,
            0 <= k < out.areas@.len(),
            k < out2.areas@.len(),
        ensures
            val(out2.areas@[k]) == val(out.areas@[k]),
    {
        let b = larger(out.bin_min as int, 0) + k;
        self.lemma_areas_go_around(before, q, after, out, val, under, pos, unit, k);
        self.lemma_areas_go_around(before, raised, after2, out2, val, under, pos, unit, k);
        lemma_raised_outline(under, pos, unit, lift, rise, q, raised, b);
    }
}

/// Lifting the azimuths of an edge adds to the area under it `rise` times its length.
pub open spec fn lifts_area(
    under: spec_fn(Edge, int) -> int,
    lift: spec_fn(u64) -> u64,
    rise: int,
) -> bool {
    forall|e: Edge, x: int| #[trigger]
        under(raised_edge(e, lift), x) == under(e, x) + rise * x
}

/// Once around a pixel, what lifting the azimuths adds cancels.
proof fn lemma_raised_outline(
    under: spec_fn(Edge, int) -> int,
    pos: spec_fn(u64) -> int,
    unit: int,
    lift: spec_fn(u64) -> u64,
    rise: int,
    q: Quad,
    raised: Quad,
    b: int,
)
    requires
        is_raised(q, lift, raised),
        lifts_area(under, lift, rise),
    ensures
        around(raised, |e: Edge| area_within(under, pos, unit, e, b)) == around(
            q,
            |e: Edge| area_within(under, pos, unit, e, b),
        ),
{
    let (ab, bc) = (Edge { start: q.a, stop: q.b }, Edge { start: q.b, stop: q.c });
    let (cd, da) = (Edge { start: q.c, stop: q.d }, Edge { start: q.d, stop: q.a });
    assert(raised_edge(ab, lift) == (Edge { start: raised.a, stop: raised.b }));
    assert(raised_edge(bc, lift) == (Edge { start: raised.b, stop: raised.c }));
    assert(raised_edge(cd, lift) == (Edge { start: raised.c, stop: raised.d }));
    assert(raised_edge(da, lift) == (Edge { start: raised.d, stop: raised.a }));
}

/// An edge with both azimuths lifted.
pub open spec fn raised_edge(e: Edge, lift: spec_fn(u64) -> u64) -> Edge {
    Edge {
        start: Corner { radial: e.start.radial, azimuth: lift(e.start.azimuth) },
        stop: Corner { radial: e.stop.radial, azimuth: lift(e.stop.azimuth) },
    }
}

/// `out` is the pixel `q` with all azimuths lifted.
pub open spec fn is_raised(q: Quad, lift: spec_fn(u64) -> u64, out: Quad) -> bool {
    &&& out.a == (Corner { radial: q.a.radial, azimuth: lift(q.a.azimuth) })
    &&& out.b == (Corner { radial: q.b.radial, azimuth: lift(q.b.azimuth) })
    &&& out.c == (Corner { radial: q.c.radial, azimuth: lift(q.c.azimuth) })
    &&& out.d == (Corner { radial: q.d.radial, azimuth: lift(q.d.azimuth) })
}

/// The values of the first `n` numbers, added up.
pub open spec fn total<T>(values: Seq<T>, val: spec_fn(T) -> int, n: int) -> int
    decreases n,
{
    if n <= 0 {
        0
    } else {
        total(values, val, n - 1) + val(values[n - 1])
    }
}

/// The area under an edge in the first `n` bins from bin `from` on.
pub open spec fn area_over(
    under: spec_fn(Edge, int) -> int,
    pos: spec_fn(u64) -> int,
    unit: int,
    e: Edge,
    from: int,
    n: int,
) -> int
    decreases n,
{
    if n <= 0 {
        0
    } else {
        area_over(under, pos, unit, e, from, n - 1) + area_within(
            under,
            pos,
            unit,
            e,
            from + n - 1,
        )
    }
}

/// The areas under an edge in bins that follow each other add up.
proof fn lemma_area_over(
    under: spec_fn(Edge, int) -> int,
    pos: spec_fn(u64) -> int,
    unit: int,
    e: Edge,
    from: int,
    n: int,
)
    requires
        0 < unit,
        0 <= n,
    ensures
        area_over(under, pos, unit, e, from, n) == under(
            e,
            clamped(pos(e.stop.radial), from * unit, (from + n) * unit),
        ) - under(e, clamped(pos(e.start.radial), from * unit, (from + n) * unit)),
    decreases n,
{
    if n == 0 {
        assert((from + n) * unit == from * unit);
    } else {
        lemma_area_over(under, pos, unit, e, from, n - 1);
        let b = from + n - 1;
        assert(from * unit <= b * unit <= (b + 1) * unit) by (nonlinear_arith)
            requires
                from <= b,
                0 < unit,
        ;
        assert((from + n) * unit == (b + 1) * unit);
        assert((from + (n - 1)) * unit == b * unit);
        // Either position lies in one of the two ranges, and at an end of the other one.
        lemma_clamped_apart(pos(e.stop.radial), from * unit, b * unit, (b + 1) * unit);
        lemma_clamped_apart(pos(e.start.radial), from * unit, b * unit, (b + 1) * unit);
    }
}

/// Two ranges that follow each other: where a position lies with regard to them.
proof fn lemma_clamped_apart(x: int, lo: int, mid: int, hi: int)
    requires
        lo <= mid <= hi,
    ensures
        x <= mid ==> clamped(x, mid, hi) == mid && clamped(x, lo, mid) == clamped(x, lo, hi),
        x > mid ==> clamped(x, lo, mid) == mid && clamped(x, mid, hi) == clamped(x, lo, hi),
{
}

/// The area under the whole of an edge is that of the trapezoid below it, doubled to be an
/// integer; `height` measures azimuths.
pub open spec fn trapezoids(
    under: spec_fn(Edge, int) -> int,
    pos: spec_fn(u64) -> int,
    height: spec_fn(u64) -> int,
) -> bool {
    forall|e: Edge|
        #[trigger] under(e, pos(e.stop.radial)) - under(e, pos(e.start.radial)) == (pos(
            e.stop.radial,
        ) - pos(e.start.radial)) * (height(e.start.azimuth) + height(e.stop.azimuth))
}

/// The signed area of the triangle of two corners and the origin, doubled.
pub open spec fn cross(pos: spec_fn(u64) -> int, height: spec_fn(u64) -> int, p: Corner, r: Corner) -> int {
    pos(r.radial) * height(p.azimuth) - pos(p.radial) * height(r.azimuth)
}

/// The signed area of a pixel, doubled, by its corners.
pub open spec fn shoelace(pos: spec_fn(u64) -> int, height: spec_fn(u64) -> int, q: Quad) -> int {
    cross(pos, height, q.a, q.b) + cross(pos, height, q.b, q.c) + cross(pos, height, q.c, q.d)
        + cross(pos, height, q.d, q.a)
}

/// The trapezoids below a closed outline add up to the area inside it.
proof fn lemma_shoelace(ax: int, ay: int, bx: int, by_: int, cx: int, cy: int, dx: int, dy: int)
    ensures
        (bx - ax) * (ay + by_) + (cx - bx) * (by_ + cy) + (dx - cx) * (cy + dy) + (ax - dx) * (dy
            + ay) == (bx * ay - ax * by_) + (cx * by_ - bx * cy) + (dx * cy - cx * dy) + (ax * dy
            - dx * ay),
{
    assert((bx - ax) * (ay + by_) == bx * ay + bx * by_ - ax * ay - ax * by_) by (nonlinear_arith);
    assert((cx - bx) * (by_ + cy) == cx * by_ + cx * cy - bx * by_ - bx * cy) by (nonlinear_arith);
    assert((dx - cx) * (cy + dy) == dx * cy + dx * dy - cx * cy - cx * dy) by (nonlinear_arith);
    assert((ax - dx) * (dy + ay) == ax * dy + ax * ay - dx * dy - dx * ay) by (nonlinear_arith);
}

impl<
    T: Copy,
    S: Copy,
    B: Fn(u64) -> i64,
    F: Fn(T, Edge, EdgeStep) -> T,
    G: Fn(S, T) -> S,
> SweepMath<T, S, B, F, G> {
    /// The areas of the first `n` bins add up to the outline over these bins.
    proof fn lemma_total_goes_around(
        &self,
        before: Seq<T>,
        q: Quad,
        after: Seq<T>,
        out: Swept<T, S>,
        val: spec_fn(T) -> int,
        under: spec_fn(Edge, int) -> int,
        pos: spec_fn(u64) -> int,
        unit: int,
        n: int,
    )
        requires
            self.is_swept(before, q, after, out),
            before == clean(before.len() as int, self.zero),
            val(self.zero) == 0,
            measures(pos, unit),
            corners_lie_in_bins(self.bin, pos, unit, q),
            adds_exactly(self.step, val, under, pos, unit),
            before.len() <= usize::MAX,
            0 <= n <= out.areas@.len(),
        ensures
            total(out.areas@, val, n) == around(
                q,
                |e: Edge| area_over(under, pos, unit, e, larger(out.bin_min as int, 0), n),
            ),
        decreases n,
    {
        if n > 0 {
            self.lemma_total_goes_around(before, q, after, out, val, under, pos, unit, n - 1);
            self.lemma_areas_go_around(before, q, after, out, val, under, pos, unit, n - 1);
        }
    }

    /// The areas of a pixel on the axis add up to its signed area, which the shoelace
    /// formula gives from its corners.
    pub proof fn lemma_areas_add_up_to_the_pixel(
        &self,
        before: Seq<T>,
        q: Quad,
        after: Seq<T>,
        out: Swept<T, S>,
        val: spec_fn(T) -> int,
        under: spec_fn(Edge, int) -> int,
        pos: spec_fn(u64) -> int,
        height: spec_fn(u64) -> int,
        unit: int,
    )
        requires
            self.is_swept(before, q, after, out),
            before == clean(before.len() as int, self.zero),
            val(self.zero) == 0,
            measures(pos, unit),
            corners_lie_in_bins(self.bin, pos, unit, q),
            lies_in_bin(self.bin, pos, unit, nearest(q)),
            lies_in_bin(self.bin, pos, unit, farthest(q)),
            adds_exactly(self.step, val, under, pos, unit),
            trapezoids(under, pos, height),
            before.len() <= usize::MAX,
            0 <= out.bin_min < out.bin_max < before.len(),
        ensures
            out.areas@.len() == out.bin_max - out.bin_min + 1,
            total(out.areas@, val, out.areas@.len() as int) == shoelace(pos, height, q),
    {
        let (lo, hi) = (out.bin_min as int, out.bin_max as int);
        let bins = before.len() as int;
        let n = hi - lo + 1;
        assert(spread(lo, hi, bins) == Spread::Over(lo as usize, (hi + 1) as usize));
        let swept = choose|swept: Seq<T>| #[trigger]
            self.adds_all(before, q, swept) && out.areas@ == piece(swept, lo, hi + 1) && after
                == crate::quad::cleared(swept, lo, hi + 1, self.zero);
        self.lemma_swept_goes_around(before, q, swept, val, under, pos, unit, 0);
        self.lemma_total_goes_around(before, q, after, out, val, under, pos, unit, n);
        let (ab, bc) = (Edge { start: q.a, stop: q.b }, Edge { start: q.b, stop: q.c });
        let (cd, da) = (Edge { start: q.c, stop: q.d }, Edge { start: q.d, stop: q.a });
        lemma_area_over(under, pos, unit, ab, lo, n);
        lemma_area_over(under, pos, unit, bc, lo, n);
        lemma_area_over(under, pos, unit, cd, lo, n);
        lemma_area_over(under, pos, unit, da, lo, n);
        crate::quad::lemma_extremes_in_order(q);
        let (near, far) = (pos(nearest(q)), pos(farthest(q)));
        assert(lo * unit <= near && far < (lo + n) * unit);
        assert(near <= pos(q.a.radial) <= far);
        assert(near <= pos(q.b.radial) <= far);
        assert(near <= pos(q.c.radial) <= far);
        assert(near <= pos(q.d.radial) <= far);
        assert(under(ab, pos(ab.stop.radial)) - under(ab, pos(ab.start.radial)) == (pos(q.b.radial)
            - pos(q.a.radial)) * (height(q.a.azimuth) + height(q.b.azimuth)));
        assert(under(bc, pos(bc.stop.radial)) - under(bc, pos(bc.start.radial)) == (pos(q.c.radial)
            - pos(q.b.radial)) * (height(q.b.azimuth) + height(q.c.azimuth)));
        assert(under(cd, pos(cd.stop.radial)) - under(cd, pos(cd.start.radial)) == (pos(q.d.radial)
            - pos(q.c.radial)) * (height(q.c.azimuth) + height(q.d.azimuth)));
        assert(under(da, pos(da.stop.radial)) - under(da, pos(da.start.radial)) == (pos(q.a.radial)
            - pos(q.d.radial)) * (height(q.d.azimuth) + height(q.a.azimuth)));
        lemma_shoelace(
            pos(q.a.radial),
            height(q.a.azimuth),
            pos(q.b.radial),
            height(q.b.azimuth),
            pos(q.c.radial),
            height(q.c.azimuth),
            pos(q.d.radial),
            height(q.d.azimuth),
        );
    }
}

/// Sweeping an edge over a box adds exactly what the edge cuts out of every place.
pub open spec fn cuts_exactly<T, W: Fn(Vec<T>, usize, Edge) -> Vec<T>>(
    edge: W,
    val: spec_fn(T) -> int,
    cut: spec_fn(usize, Edge, int) -> int,
) -> bool {
    forall|v: Vec<T>, columns: usize, e: Edge, w: Vec<T>, k: int|
        #[trigger] edge.ensures((v, columns, e), w) && 0 <= k < v@.len() ==> w@.len() == v@.len()
            && val(#[trigger] w@[k]) == val(v@[k]) + cut(columns, e, k)
}

impl<
    T: Copy,
    S: Copy,
    L: Fn(Corner) -> Corner,
    N: Fn(u64) -> i64,
    C: Fn(u64) -> i64,
    H: Fn(Corner, (usize, usize)) -> Corner,
    W: Fn(Vec<T>, usize, Edge) -> Vec<T>,
    G: Fn(S, T) -> S,
> BoxMath<T, S, L, N, C, H, W, G> {
    /// What a pixel sweeps over a place of a box is what its edges cut out of it, once
    /// around.
    pub proof fn lemma_box_goes_around(
        &self,
        q: Quad,
        size: (usize, usize),
        areas: Vec<T>,
        val: spec_fn(T) -> int,
        cut: spec_fn(usize, Edge, int) -> int,
        k: int,
    )
        requires
            self.adds_all(q, size, areas),
            val(self.zero) == 0,
            cuts_exactly(self.edge, val, cut),
            size.1 < usize::MAX,
            0 <= k < (size.0 + 1) * (size.1 + 1),
        ensures
            areas@.len() == (size.0 + 1) * (size.1 + 1),
            val(areas@[k]) == around(q, |e: Edge| cut((size.1 + 1) as usize, e, k)),
    {
        let columns = (size.1 + 1) as usize;
        let (v, x, y, z) = choose|v: Vec<T>, x: Vec<T>, y: Vec<T>, z: Vec<T>|
            v@ == clean((size.0 + 1) * (size.1 + 1), self.zero) && #[trigger] self.adds(
                v,
                columns,
                q.a,
                q.b,
                x,
            ) && #[trigger] self.adds(x, columns, q.b, q.c, y) && #[trigger] self.adds(
                y,
                columns,
                q.c,
                q.d,
                z,
            ) && self.adds(z, columns, q.d, q.a, areas);
        let (ab, bc) = (Edge { start: q.a, stop: q.b }, Edge { start: q.b, stop: q.c });
        let (cd, da) = (Edge { start: q.c, stop: q.d }, Edge { start: q.d, stop: q.a });
        assert(self.edge.ensures((v, columns, ab), x));
        assert(val(x@[k]) == val(v@[k]) + cut(columns, ab, k));
        assert(self.edge.ensures((x, columns, bc), y));
        assert(val(y@[k]) == val(x@[k]) + cut(columns, bc, k));
        assert(self.edge.ensures((y, columns, cd), z));
        assert(val(z@[k]) == val(y@[k]) + cut(columns, cd, k));
        assert(self.edge.ensures((z, columns, da), areas));
        assert(val(areas@[k]) == val(z@[k]) + cut(columns, da, k));
    }

    /// The outline of a pixel is closed: where two pixels differ in what their edges cut
    /// out only by what the end of an edge has more than its start, they sweep the same.
    /// Raising the azimuths of all corners by one amount is such a difference.
    pub proof fn lemma_box_outline_is_closed(
        &self,
        q: Quad,
        other: Quad,
        size: (usize, usize),
        areas: Vec<T>,
        areas2: Vec<T>,
        val: spec_fn(T) -> int,
        cut: spec_fn(usize, Edge, int) -> int,
        lift: spec_fn(u64) -> u64,
        more: spec_fn(Corner, int) -> int,
        k: int,
    )
        requires
            self.adds_all(q, size, areas),
            self.adds_all(other, size, areas2),
            val(self.zero) == 0,
            cuts_exactly(self.edge, val, cut),
            size.1 < usize::MAX,
            0 <= k < (size.0 + 1) * (size.1 + 1),
            is_raised(q, lift, other),
            forall|columns: usize, e: Edge| #[trigger]
                cut(columns, raised_edge(e, lift), k) == cut(columns, e, k) + more(e.stop, k)
                    - more(e.start, k),
        ensures
            val(areas2@[k]) == val(areas@[k]),
    {
        self.lemma_box_goes_around(q, size, areas, val, cut, k);
        self.lemma_box_goes_around(other, size, areas2, val, cut, k);
        let (ab, bc) = (Edge { start: q.a, stop: q.b }, Edge { start: q.b, stop: q.c });
        let (cd, da) = (Edge { start: q.c, stop: q.d }, Edge { start: q.d, stop: q.a });
        assert(raised_edge(ab, lift) == (Edge { start: other.a, stop: other.b }));
        assert(raised_edge(bc, lift) == (Edge { start: other.b, stop: other.c }));
        assert(raised_edge(cd, lift) == (Edge { start: other.c, stop: other.d }));
        assert(raised_edge(da, lift) == (Edge { start: other.d, stop: other.a }));
    }
}

} // verus!
