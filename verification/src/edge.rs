//! Full pixel splitting: a pixel is a quadrilateral, and its overlap with the bins
//! is the area swept by its edges. This module decides which bins an edge crosses
//! and which stretch of the edge lies in each of them.

use crate::double::{greater, gt, is_nan, nan, rank, same_number};
use crate::grid::{flat, lemma_flat_bound, lemma_flat_inverse};
use crate::split::off_axis;
use vstd::prelude::*;

verus! {

/// The stretch of an edge that lies in one bin.
#[derive(Debug, Clone, Copy, PartialEq, Eq, Structural)]
pub enum Stretch {
    /// The whole edge, from its start to its end.
    Within,
    /// From the start of the edge to the side of the bin that it leaves by.
    FromStart,
    /// From one side of the bin to the other.
    Across,
    /// From the side of the bin that the edge enters by to its end.
    ToStop,
}

/// A bin and the stretch of the edge that lies in it.
#[derive(Debug, Clone, Copy, PartialEq, Eq, Structural)]
pub struct EdgeStep {
    /// The bin.
    pub bin: usize,
    /// The stretch.
    pub stretch: Stretch,
}

/// Bin `i` is on an axis of `bins` bins.
pub open spec fn on_axis(i: int, bins: int) -> bool {
    0 <= i < bins
}

/// The step for an end of an edge in bin `i`; none where the bin is off the axis or the
/// end is no number.
pub open spec fn end_step(i: int, numeric: bool, bins: int, stretch: Stretch) -> Seq<EdgeStep> {
    if numeric && on_axis(i, bins) {
        seq![EdgeStep { bin: i as usize, stretch }]
    } else {
        Seq::empty()
    }
}

/// The bins from `lo` to before `hi`, ascending, crossed from side to side.
pub open spec fn crossed_up(lo: int, hi: int) -> Seq<EdgeStep> {
    Seq::new(
        if hi > lo {
            (hi - lo) as nat
        } else {
            0
        },
        |k: int| EdgeStep { bin: (lo + k) as usize, stretch: Stretch::Across },
    )
}

/// The bins from `lo` to before `hi`, descending, crossed from side to side.
pub open spec fn crossed_down(lo: int, hi: int) -> Seq<EdgeStep> {
    Seq::new(
        if hi > lo {
            (hi - lo) as nat
        } else {
            0
        },
        |k: int| EdgeStep { bin: (hi - 1 - k) as usize, stretch: Stretch::Across },
    )
}

/// The smaller of two numbers.
pub open spec fn smaller(a: int, b: int) -> int {
    if a < b {
        a
    } else {
        b
    }
}

/// The larger of two numbers.
pub open spec fn larger(a: int, b: int) -> int {
    if a > b {
        a
    } else {
        b
    }
}

/// The walk of an edge that starts in bin `start` and ends in bin `stop` over an
/// axis of `bins` bins, in the direction of the edge. `rising` tells whether the
/// edge goes to larger positions, `numeric` whether its start and its end are numbers.
pub open spec fn walk(
    start: int,
    stop: int,
    rising: bool,
    numeric: (bool, bool),
    bins: int,
) -> Seq<EdgeStep> {
    if start == stop && on_axis(start, bins) {
        seq![EdgeStep { bin: start as usize, stretch: Stretch::Within }]
    } else if rising {
        end_step(start, numeric.0, bins, Stretch::FromStart) + crossed_up(
            larger(start + 1, 0),
            smaller(stop, bins),
        ) + end_step(stop, numeric.1, bins, Stretch::ToStop)
    } else {
        end_step(start, numeric.0, bins, Stretch::FromStart) + crossed_down(
            larger(stop, -1) + 1,
            smaller(start, bins),
        ) + end_step(stop, numeric.1, bins, Stretch::ToStop)
    }
}

/// Adds the end of an edge in bin `i` to the walk.
fn push_end(steps: &mut Vec<EdgeStep>, i: i64, numeric: bool, bins: usize, stretch: Stretch)
    requires
        bins <= i64::MAX,
    ensures
        final(steps)@ == old(steps)@ + end_step(i as int, numeric, bins as int, stretch),
{
    if numeric && i >= 0 && i < bins as i64 {
        steps.push(EdgeStep { bin: i as usize, stretch });
    }
    assert(steps@ =~= old(steps)@ + end_step(i as int, numeric, bins as int, stretch));
}

/// The bins that an edge crosses, see [`walk`]. `start` and `stop` are the bins in
/// which it starts and ends.
pub fn edge_walk(start: i64, stop: i64, rising: bool, numeric: (bool, bool), bins: usize) -> (steps:
    Vec<EdgeStep>)
    requires
        bins <= i64::MAX,
    ensures
        steps@ == walk(start as int, stop as int, rising, numeric, bins as int),
{
    let bins_i: i64 = bins as i64;
    let mut steps: Vec<EdgeStep> = Vec::new();
    if start == stop && start >= 0 && stop < bins_i {
        steps.push(EdgeStep { bin: start as usize, stretch: Stretch::Within });
        assert(steps@ =~= walk(start as int, stop as int, rising, numeric, bins as int));
        return steps;
    }
    push_end(&mut steps, start, numeric.0, bins, Stretch::FromStart);
    let ghost head = steps@;
    if rising {
        let lo: i64 = if start < 0 {
            0
        } else if start >= bins_i {
            bins_i
        } else {
            start + 1
        };
        let hi: i64 = if stop < bins_i {
            stop
        } else {
            bins_i
        };
        let mut i: i64 = lo;
        while i < hi
            invariant
                0 <= lo <= i,
                i <= hi || i == lo,
                hi <= bins_i,
                bins_i == bins,
                steps@ == head + crossed_up(lo as int, i as int),
            decreases hi - i,
        {
            steps.push(EdgeStep { bin: i as usize, stretch: Stretch::Across });
            i = i + 1;
            assert(steps@ =~= head + crossed_up(lo as int, i as int));
        }
        assert(crossed_up(lo as int, i as int) =~= crossed_up(
            larger(start + 1, 0),
            smaller(stop as int, bins as int),
        ));
    } else {
        let lo: i64 = if stop < 0 {
            0
        } else if stop >= bins_i {
            bins_i
        } else {
            stop + 1
        };
        let hi: i64 = if start < bins_i {
            start
        } else {
            bins_i
        };
        let mut i: i64 = hi;
        while i > lo
            invariant
                0 <= lo <= bins_i,
                i <= hi <= bins_i,
                i >= lo || i == hi,
                bins_i == bins,
                steps@ == head + crossed_down(i as int, hi as int),
            decreases i - lo,
        {
            i = i - 1;
            steps.push(EdgeStep { bin: i as usize, stretch: Stretch::Across });
            assert(steps@ =~= head + crossed_down(i as int, hi as int));
        }
        assert(crossed_down(i as int, hi as int) =~= crossed_down(
            larger(stop as int, -1) + 1,
            smaller(start as int, bins as int),
        ));
    }
    push_end(&mut steps, stop, numeric.1, bins, Stretch::ToStop);
    steps
}

/// The bins of a walk, taken apart: the start of the edge, the bins that it crosses and
/// its end.
proof fn lemma_walk_apart(
    start: int,
    stop: int,
    rising: bool,
    numeric: (bool, bool),
    bins: int,
    k: int,
)
    requires
        0 <= bins <= usize::MAX,
        0 <= k < walk(start, stop, rising, numeric, bins).len(),
    ensures
        ({
            let bin = walk(start, stop, rising, numeric, bins)[k].bin as int;
            let head = if start == stop && on_axis(start, bins) || numeric.0 && on_axis(start, bins) {
                1int
            } else {
                0
            };
            let crossed = if rising {
                crossed_up(larger(start + 1, 0), smaller(stop, bins)).len() as int
            } else {
                crossed_down(larger(stop, -1) + 1, smaller(start, bins)).len() as int
            };
            &&& on_axis(bin, bins)
            &&& if k < head {
                bin == start
            } else if k < head + crossed {
                bin == (if rising {
                    larger(start + 1, 0) + (k - head)
                } else {
                    smaller(start, bins) - 1 - (k - head)
                })
            } else {
                k == head + crossed && bin == stop && start != stop
            }
        }),
{
    let steps = walk(start, stop, rising, numeric, bins);
    if !(start == stop && on_axis(start, bins)) {
        let a = end_step(start, numeric.0, bins, Stretch::FromStart);
        let b = if rising {
            crossed_up(larger(start + 1, 0), smaller(stop, bins))
        } else {
            crossed_down(larger(stop, -1) + 1, smaller(start, bins))
        };
        let c = end_step(stop, numeric.1, bins, Stretch::ToStop);
        assert(steps == a + b + c);
        if k < a.len() {
            assert(steps[k] == a[k]);
        } else if k < a.len() + b.len() {
            assert(steps[k] == b[k - a.len()]);
        } else {
            assert(steps[k] == c[k - a.len() - b.len()]);
        }
    }
}

/// An edge visits no bin twice, and no bin off the axis.
pub proof fn lemma_walk_distinct(
    start: int,
    stop: int,
    rising: bool,
    numeric: (bool, bool),
    bins: int,
)
    requires
        0 <= bins <= usize::MAX,
    ensures
        ({
            let steps = walk(start, stop, rising, numeric, bins);
            &&& forall|k: int| 0 <= k < steps.len() ==> (#[trigger] steps[k]).bin < bins
            &&& forall|i: int, j: int|
                0 <= i < j < steps.len() ==> (#[trigger] steps[i]).bin != (#[trigger] steps[j]).bin
        }),
{
    let steps = walk(start, stop, rising, numeric, bins);
    assert forall|k: int| 0 <= k < steps.len() implies (#[trigger] steps[k]).bin < bins by {
        lemma_walk_apart(start, stop, rising, numeric, bins, k);
    }
    assert forall|i: int, j: int| 0 <= i < j < steps.len() implies (#[trigger] steps[i]).bin != (
    #[trigger] steps[j]).bin by {
        lemma_walk_apart(start, stop, rising, numeric, bins, i);
        lemma_walk_apart(start, stop, rising, numeric, bins, j);
    }
}

/// An edge between two numbers visits each bin on the axis between its two ends exactly
/// once, in the direction of the edge, and no other bin.
pub proof fn lemma_walk_visits_once(start: int, stop: int, rising: bool, bins: int)
    requires
        0 <= bins <= usize::MAX,
        rising ==> start <= stop,
        !rising ==> stop <= start,
    ensures
        ({
            let steps = walk(start, stop, rising, (true, true), bins);
            let lo = larger(smaller(start, stop), 0);
            let hi = smaller(larger(start, stop), bins - 1);
            &&& steps.len() == larger(hi - lo + 1, 0)
            &&& forall|k: int|
                0 <= k < steps.len() ==> (#[trigger] steps[k]).bin == if rising {
                    lo + k
                } else {
                    hi - k
                }
        }),
{
    let steps = walk(start, stop, rising, (true, true), bins);
    assert forall|k: int| 0 <= k < steps.len() implies (#[trigger] steps[k]).bin == if rising {
        larger(start, 0) + k
    } else {
        smaller(start, bins - 1) - k
    } by {
        lemma_walk_apart(start, stop, rising, (true, true), bins, k);
    }
}

/// A corner of a pixel.
#[derive(Debug, Clone, Copy, PartialEq, Eq, Structural)]
pub struct Corner {
    /// Its radial position.
    pub radial: u64,
    /// Its azimuth.
    pub azimuth: u64,
}

/// An edge of a pixel.
#[derive(Debug, Clone, Copy, PartialEq, Eq, Structural)]
pub struct Edge {
    /// Where the edge starts.
    pub start: Corner,
    /// Where it ends.
    pub stop: Corner,
}

impl Edge {
    /// Both ends have the same radial position.
    pub open spec fn is_flat(&self) -> bool {
        !is_nan(self.start.radial) && !is_nan(self.stop.radial) && rank(self.start.radial) == rank(self.stop.radial)
    }

    /// The walk of the edge, whose ends lie in the bins `start` and `stop`.
    pub open spec fn walk(&self, start: int, stop: int, bins: int) -> Seq<EdgeStep> {
        walk(
            start,
            stop,
            gt(self.stop.radial, self.start.radial),
            (!is_nan(self.start.radial), !is_nan(self.stop.radial)),
            bins,
        )
    }
}

/// `after` is `before` with every bin changed that a walk along the edge passes.
pub open spec fn is_walked<T, F: Fn(T, Edge, EdgeStep) -> T>(
    before: Seq<T>,
    edge: Edge,
    steps: Seq<EdgeStep>,
    step: F,
    after: Seq<T>,
) -> bool {
    &&& after.len() == before.len()
    &&& forall|k: int|
        0 <= k < steps.len() ==> step.ensures(
            (before[(#[trigger] steps[k]).bin as int], edge, steps[k]),
            after[steps[k].bin as int],
        )
    &&& forall|b: int|
        0 <= b < before.len() && !passes(steps, b) ==> #[trigger] after[b] == before[b]
}

/// A walk passes bin `b`.
pub open spec fn passes(steps: Seq<EdgeStep>, b: int) -> bool {
    exists|k: int| 0 <= k < steps.len() && (#[trigger] steps[k]).bin == b
}

/// `after` is `before` with the area under the edge added; `bin` tells the bin of a
/// position. An edge along a line of equal radial positions adds nothing.
pub open spec fn is_integrated<T, B: Fn(u64) -> i64, F: Fn(T, Edge, EdgeStep) -> T>(
    before: Seq<T>,
    edge: Edge,
    bin: B,
    step: F,
    after: Seq<T>,
) -> bool {
    if edge.is_flat() {
        after == before
    } else {
        exists|start: i64, stop: i64| #[trigger]
            bin.ensures((edge.start.radial,), start) && #[trigger] bin.ensures((edge.stop.radial,), stop)
                && is_walked(
                before,
                edge,
                edge.walk(start as int, stop as int, before.len() as int),
                step,
                after,
            )
    }
}

/// Adds the area under an edge to the bins that it passes, see [`walk`]. `bin` gives the
/// bin of a radial position, and `step` adds the area of one stretch of the edge.
pub fn integrate1d<T: Copy, B: Fn(u64) -> i64, F: Fn(T, Edge, EdgeStep) -> T>(
    buffer: &mut Vec<T>,
    edge: Edge,
    bin: &B,
    step: &F,
)
    requires
        old(buffer)@.len() <= i64::MAX,
        forall|x: u64| #[trigger] bin.requires((x,)),
        forall|t: T, e: Edge, s: EdgeStep| #[trigger] step.requires((t, e, s)),
    ensures
        is_integrated(old(buffer)@, edge, *bin, *step, final(buffer)@),
{
    if same_number(edge.start.radial, edge.stop.radial) {
        return;
    }
    let start: i64 = bin(edge.start.radial);
    let stop: i64 = bin(edge.stop.radial);
    let rising: bool = greater(edge.stop.radial, edge.start.radial);
    let numeric: (bool, bool) = (!nan(edge.start.radial), !nan(edge.stop.radial));
    let ghost first = buffer@;
    let bins: usize = buffer.len();
    let steps: Vec<EdgeStep> = edge_walk(start, stop, rising, numeric, bins);
    proof {
        lemma_walk_distinct(start as int, stop as int, rising, numeric, bins as int);
    }
    let mut k: usize = 0;
    while k < steps.len()
        invariant
            k <= steps@.len(),
            bins == first.len(),
            buffer@.len() == first.len(),
            forall|t: T, e: Edge, s: EdgeStep| #[trigger] step.requires((t, e, s)),
            forall|i: int| 0 <= i < steps@.len() ==> (#[trigger] steps@[i]).bin < bins,
            forall|i: int, j: int|
                0 <= i < j < steps@.len() ==> (#[trigger] steps@[i]).bin != (
                #[trigger] steps@[j]).bin,
            is_walked(first, edge, steps@.take(k as int), *step, buffer@),
        decreases steps@.len() - k,
    {
        let s: EdgeStep = steps[k];
        let ghost before = buffer@;
        let ghost done = steps@.take(k as int);
        proof {
            if passes(done, s.bin as int) {
                let i = choose|i: int| 0 <= i < done.len() && (#[trigger] done[i]).bin == s.bin;
                assert(steps@[i].bin != steps@[k as int].bin);
            }
            assert(before[s.bin as int] == first[s.bin as int]);
        }
        let v: T = step(buffer[s.bin], edge, s);
        buffer.set(s.bin, v);
        proof {
            let more = steps@.take(k + 1);
            assert(more =~= done.push(s));
            assert forall|i: int| 0 <= i < more.len() implies step.ensures(
                (first[(#[trigger] more[i]).bin as int], edge, more[i]),
                buffer@[more[i].bin as int],
            ) by {
                if i < k {
                    assert(done[i] == more[i]);
                    assert(steps@[i].bin != steps@[k as int].bin);
                }
            }
            assert forall|b: int|
                0 <= b < first.len() && !passes(more, b) implies #[trigger] buffer@[b]
                == first[b] by {
                assert(more[k as int].bin != b);
                if passes(done, b) {
                    let i = choose|i: int| 0 <= i < done.len() && (#[trigger] done[i]).bin == b;
                    assert(more[i].bin == b);
                }
                assert(before[b] == first[b]);
            }
        }
        k = k + 1;
    }
    assert(steps@.take(k as int) =~= steps@);
}

/// The range of bins over which the swept areas of a pixel that spans the bins
/// `bin_min..=bin_max` are collected, from its first element to before its second.
pub open spec fn area_range(bin_min: int, bin_max: int, bins: int) -> (int, int) {
    (larger(bin_min, 0), smaller(bin_max + 1, bins))
}

/// How a pixel that spans the bins `bin_min..=bin_max` is binned.
#[derive(Debug, Clone, Copy, PartialEq, Eq, Structural)]
pub enum Spread {
    /// The pixel lies off the axis.
    Off,
    /// The pixel lies in one bin.
    Single(usize),
    /// The pixel's area is distributed over the bins from the first number to
    /// before the second one.
    Over(usize, usize),
}

/// The value of [`Spread`] for the bins that hold a pixel's smallest and largest
/// position.
pub open spec fn spread(bin_min: int, bin_max: int, bins: int) -> Spread {
    if off_axis(bin_min, bin_max, bins) {
        Spread::Off
    } else if bin_min == bin_max {
        Spread::Single(bin_min as usize)
    } else {
        Spread::Over(
            area_range(bin_min, bin_max, bins).0 as usize,
            area_range(bin_min, bin_max, bins).1 as usize,
        )
    }
}

/// Decides how a pixel is binned, see [`spread`].
pub fn spread_1d(bin_min: i64, bin_max: i64, bins: usize) -> (s: Spread)
    requires
        0 < bins <= i64::MAX,
    ensures
        s == spread(bin_min as int, bin_max as int, bins as int),
        match s {
            Spread::Off => true,
            Spread::Single(b) => b < bins,
            Spread::Over(lo, hi) => lo < bins && hi <= bins && (bin_min <= bin_max ==> lo < hi),
        },
{
    let bins_i: i64 = bins as i64;
    if bin_max < 0 || bin_min >= bins_i {
        return Spread::Off;
    }
    if bin_min == bin_max {
        return Spread::Single(bin_min as usize);
    }
    let lo: i64 = if bin_min > 0 {
        bin_min
    } else {
        0
    };
    let hi: i64 = if bin_max >= bins_i {
        bins_i
    } else {
        bin_max + 1
    };
    Spread::Over(lo as usize, hi as usize)
}

/// A place in the box of swept areas of one pixel and the grid cell it is added to.
#[derive(Debug, Clone, Copy, PartialEq, Eq, Structural)]
pub struct BoxCell {
    /// Place in the box, at `i * (w1 + 1) + j`.
    pub place: usize,
    /// Cell of the grid, at `(offset0 + i) * bins1 + offset1 + j`.
    pub cell: usize,
}

/// The box cells of the first `i` rows and of the first `j` columns of row `i`.
pub open spec fn box_order(
    offset0: int,
    offset1: int,
    w1: int,
    bins1: int,
    i: int,
    j: int,
) -> Seq<BoxCell> {
    Seq::new(
        (if i * w1 + j > 0 {
            i * w1 + j
        } else {
            0
        }) as nat,
        |k: int|
            BoxCell {
                place: flat(k / w1, k % w1, w1 + 1) as usize,
                cell: flat(offset0 + k / w1, offset1 + k % w1, bins1) as usize,
            },
    )
}

/// The cells of the grid that a box of `w0` by `w1` cells at `(offset0, offset1)`
/// covers, row by row, each with its place in the box. The box has one more row and
/// column than it covers.
pub fn box_cells(offset0: usize, offset1: usize, w0: usize, w1: usize, bins: (usize, usize)) -> (out:
    Vec<BoxCell>)
    requires
        offset0 + w0 <= bins.0,
        offset1 + w1 <= bins.1,
        bins.0 * bins.1 <= usize::MAX,
        (w0 + 1) * (w1 + 1) <= usize::MAX,
    ensures
        out@ == box_order(
            offset0 as int,
            offset1 as int,
            w1 as int,
            bins.1 as int,
            w0 as int,
            0,
        ),
{
    let ghost o0 = offset0 as int;
    let ghost o1 = offset1 as int;
    let ghost w = w1 as int;
    let ghost b1 = bins.1 as int;
    let mut out: Vec<BoxCell> = Vec::new();
    let mut i: usize = 0;
    assert(out@ =~= box_order(o0, o1, w, b1, 0, 0));
    while i < w0
        invariant
            o0 == offset0,
            o1 == offset1,
            w == w1,
            b1 == bins.1,
            i <= w0,
            offset0 + w0 <= bins.0,
            offset1 + w1 <= bins.1,
            bins.0 * bins.1 <= usize::MAX,
            (w0 + 1) * (w1 + 1) <= usize::MAX,
            out@ == box_order(o0, o1, w, b1, i as int, 0),
        decreases w0 - i,
    {
        let mut j: usize = 0;
        while j < w1
            invariant
                o0 == offset0,
                o1 == offset1,
                w == w1,
                b1 == bins.1,
                i < w0,
                j <= w1,
                offset0 + w0 <= bins.0,
                offset1 + w1 <= bins.1,
                bins.0 * bins.1 <= usize::MAX,
                (w0 + 1) * (w1 + 1) <= usize::MAX,
                out@ == box_order(o0, o1, w, b1, i as int, j as int),
            decreases w1 - j,
        {
            proof {
                lemma_flat_bound(i as int, j as int, w0 + 1, w + 1);
                lemma_flat_bound(o0 + i, o1 + j, bins.0 as int, b1);
                lemma_flat_inverse(i as int, j as int, w);
                assert(0 <= i * w) by (nonlinear_arith)
                    requires
                        0 <= i,
                        0 <= w,
                ;
                assert(1 <= (w0 + 1) && (w + 1) <= (w0 + 1) * (w + 1)) by (nonlinear_arith)
                    requires
                        0 <= w0,
                        0 <= w,
                ;
            }
            let place: usize = i * (w1 + 1) + j;
            let cell: usize = (offset0 + i) * bins.1 + (offset1 + j);
            out.push(BoxCell { place, cell });
            j = j + 1;
            assert(out@ =~= box_order(o0, o1, w, b1, i as int, j as int));
        }
        i = i + 1;
        proof {
            assert((i - 1) * w + w == i * w) by (nonlinear_arith);
            assert(out@ =~= box_order(o0, o1, w, b1, i as int, 0));
        }
    }
    out
}

/// The bins over which a pixel is spread are those that lie both on the axis and between
/// the bins of its smallest and its largest position. A pixel within one bin goes there
/// whole.
pub proof fn lemma_spread_is_overlap(bin_min: int, bin_max: int, bins: int, bin: int)
    requires
        bin_min <= bin_max,
        0 < bins <= usize::MAX,
    ensures
        0 <= bin < bins && bin_min <= bin <= bin_max <==> match spread(bin_min, bin_max, bins) {
            Spread::Off => false,
            Spread::Single(b) => bin == b,
            Spread::Over(lo, hi) => lo <= bin < hi,
        },
        spread(bin_min, bin_max, bins) is Single <==> bin_min == bin_max && 0 <= bin_min < bins,
{
}

/// The box lists the cells of its rectangle row by row, each once: the cell of row `i` and
/// column `j` of the box is the one that lies `i` rows and `j` columns from the corner of
/// the box, and its place counts rows that are one longer than the box is wide.
pub proof fn lemma_box_is_rectangle(
    offset0: int,
    offset1: int,
    w0: int,
    w1: int,
    bins: (int, int),
    i: int,
    j: int,
)
    requires
        0 <= offset0,
        0 <= offset1,
        offset0 + w0 <= bins.0,
        offset1 + w1 <= bins.1,
        bins.0 * bins.1 <= usize::MAX,
        (w0 + 1) * (w1 + 1) <= usize::MAX,
        0 <= i < w0,
        0 <= j < w1,
    ensures
        ({
            let cells = box_order(offset0, offset1, w1, bins.1, w0, 0);
            let k = i * w1 + j;
            &&& cells.len() == w0 * w1
            &&& 0 <= k < w0 * w1
            &&& cells[k].place == i * (w1 + 1) + j
            &&& cells[k].cell as int / bins.1 == offset0 + i
            &&& cells[k].cell as int % bins.1 == offset1 + j
        }),
{
    lemma_flat_bound(i, j, w0, w1);
    lemma_flat_bound(i, j, w0 + 1, w1 + 1);
    lemma_flat_bound(offset0 + i, offset1 + j, bins.0, bins.1);
    lemma_flat_inverse(i, j, w1);
    lemma_flat_inverse(offset0 + i, offset1 + j, bins.1);
}

/// The stretches of a walk: the start of the edge lies in the first bin where it is a number
/// there, its end in the last one, and between them the edge goes from side to side. An edge
/// within one bin lies there whole.
pub proof fn lemma_walk_stretches_are_told(
    start: int,
    stop: int,
    rising: bool,
    numeric: (bool, bool),
    bins: int,
    k: int,
)
    requires
        0 <= bins <= usize::MAX,
        rising ==> start <= stop,
        !rising ==> stop <= start,
        0 <= k < walk(start, stop, rising, numeric, bins).len(),
    ensures
        ({
            let s = walk(start, stop, rising, numeric, bins)[k];
            &&& s.stretch == Stretch::Within <==> start == stop
            &&& s.stretch == Stretch::FromStart <==> s.bin == start && start != stop
            &&& s.stretch == Stretch::ToStop <==> s.bin == stop && start != stop
            &&& s.stretch == Stretch::FromStart ==> numeric.0
            &&& s.stretch == Stretch::ToStop ==> numeric.1
        }),
{
    let steps = walk(start, stop, rising, numeric, bins);
    if !(start == stop && on_axis(start, bins)) {
        let a = end_step(start, numeric.0, bins, Stretch::FromStart);
        let b = if rising {
            crossed_up(larger(start + 1, 0), smaller(stop, bins))
        } else {
            crossed_down(larger(stop, -1) + 1, smaller(start, bins))
        };
        let c = end_step(stop, numeric.1, bins, Stretch::ToStop);
        assert(steps == a + b + c);
        if k < a.len() {
            assert(steps[k] == a[k]);
        } else if k < a.len() + b.len() {
            assert(steps[k] == b[k - a.len()]);
        } else {
            assert(steps[k] == c[k - a.len() - b.len()]);
        }
    }
}

} // verus!
