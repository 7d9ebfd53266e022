//! Quadrilateral pixels on a grid: every pixel is cut to the range of positions that the
//! grid covers, and its edges are swept over the smallest box of cells that holds it.
//! The arithmetic is left to the caller.

use crate::accumulate::{filled, fold, folds_to};
use crate::boundaries::{lemma_extremes_of_four, max4, max4_of, min4, min4_of, GridBounds};
use crate::builder::{is_masked, mask_fits, masked_out};
use crate::double::{greater, gt, is_nan, nan, rank};
use crate::edge::{box_cells, box_order, lemma_box_is_rectangle, BoxCell, Corner, Edge};
use crate::grid::{lemma_flat_bound, lemma_flat_cell};
use crate::outline::measures;
use crate::quad::{
    clean, is_on_one_side, numeric, orders, quad, quad_at, same_radial, within_turn, Quad, Turn,
    TurnMath,
};
use vstd::prelude::*;

verus! {

/// The bounding box of a pixel.
pub open spec fn quad_bounds(q: Quad) -> GridBounds {
    GridBounds {
        min0: min4_of(q.a.radial, q.b.radial, q.c.radial, q.d.radial),
        max0: max4_of(q.a.radial, q.b.radial, q.c.radial, q.d.radial),
        min1: min4_of(q.a.azimuth, q.b.azimuth, q.c.azimuth, q.d.azimuth),
        max1: max4_of(q.a.azimuth, q.b.azimuth, q.c.azimuth, q.d.azimuth),
    }
}

/// The value of [`quad_bounds`].
pub fn bounds_of(q: &Quad) -> (g: GridBounds)
    ensures
        g == quad_bounds(*q),
{
    GridBounds {
        min0: min4(q.a.radial, q.b.radial, q.c.radial, q.d.radial),
        max0: max4(q.a.radial, q.b.radial, q.c.radial, q.d.radial),
        min1: min4(q.a.azimuth, q.b.azimuth, q.c.azimuth, q.d.azimuth),
        max1: max4(q.a.azimuth, q.b.azimuth, q.c.azimuth, q.d.azimuth),
    }
}

/// The range of positions that a grid covers.
#[derive(Debug, Clone, Copy)]
pub struct GridLimits {
    /// The smallest and largest positions.
    pub window: GridBounds,
    /// Where the azimuthal axis ends; with it a pixel is out of range from there on,
    /// without it beyond the largest azimuth.
    pub azimuth_end: Option<u64>,
}

impl GridLimits {
    /// A pixel with the bounding box `b` lies out of range.
    pub open spec fn leaves_out(&self, b: GridBounds) -> bool {
        ||| gt(self.window.min0, b.max0)
        ||| gt(b.min0, self.window.max0)
        ||| gt(self.window.min1, b.max1)
        ||| match self.azimuth_end {
            Some(end) => !is_nan(end) && !is_nan(b.min1) && !gt(end, b.min1),
            None => gt(b.min1, self.window.max1),
        }
    }

    /// Tests [`GridLimits::leaves_out`].
    pub fn out_of_range(&self, b: &GridBounds) -> (r: bool)
        ensures
            r == self.leaves_out(*b),
    {
        let beyond: bool = match self.azimuth_end {
            Some(end) => !nan(end) && !nan(b.min1) && !greater(end, b.min1),
            None => greater(b.min1, self.window.max1),
        };
        greater(self.window.min0, b.max0) || greater(b.min0, self.window.max0) || greater(
            self.window.min1,
            b.max1,
        ) || beyond
    }

    /// The corner of the window that is nearest to a corner of a pixel.
    pub open spec fn clipped(&self, c: Corner) -> Corner {
        Corner {
            radial: clip_of(c.radial, self.window.min0, self.window.max0),
            azimuth: clip_of(c.azimuth, self.window.min1, self.window.max1),
        }
    }

    /// The value of [`GridLimits::clipped`].
    fn clip_corner(&self, c: Corner) -> (out: Corner)
        ensures
            out == self.clipped(c),
    {
        Corner {
            radial: clip(c.radial, self.window.min0, self.window.max0),
            azimuth: clip(c.azimuth, self.window.min1, self.window.max1),
        }
    }
}

/// `x`, or the end of the range `lo` to `hi` that it lies beyond.
pub open spec fn clip_of(x: u64, lo: u64, hi: u64) -> u64 {
    if gt(lo, x) {
        lo
    } else if gt(x, hi) {
        hi
    } else {
        x
    }
}

/// The value of [`clip_of`].
pub fn clip(x: u64, lo: u64, hi: u64) -> (y: u64)
    ensures
        y == clip_of(x, lo, hi),
{
    if greater(lo, x) {
        lo
    } else if greater(x, hi) {
        hi
    } else {
        x
    }
}

/// The arithmetic of sweeping a pixel over a grid: a corner in units of bins, the bin at
/// or below and the one at or above a position, a corner as seen from a cell, adding the
/// area under an edge to a box with a given number of columns, and adding areas up.
pub struct BoxMath<T, S, L, N, C, H, W, G> {
    /// A corner in units of bins.
    pub place: L,
    /// The bin at or below a position.
    pub low: N,
    /// The bin at or above a position.
    pub high: C,
    /// A corner as seen from the cell in a given row and column.
    pub shift: H,
    /// Adds the area under an edge to a box with a given number of columns.
    pub edge: W,
    /// Adds an area to the sum.
    pub plus: G,
    /// No area.
    pub zero: T,
    /// The sum of no areas.
    pub none: S,
}

/// The cells that a pixel sweeps.
#[derive(Debug)]
pub struct BoxSwept<T, S> {
    /// First row and column of the box.
    pub offset: (usize, usize),
    /// Number of rows and columns.
    pub size: (usize, usize),
    /// The area in every place of a box with one more row and column.
    pub areas: Vec<T>,
    /// The sum of the areas in the box.
    pub sum: S,
}

impl<T, S> BoxSwept<T, S> {
    /// The box lies on a grid of the given shape, and there is an area for every place.
    pub open spec fn fits(&self, shape: (usize, usize)) -> bool {
        &&& self.offset.0 + self.size.0 <= shape.0
        &&& self.offset.1 + self.size.1 <= shape.1
        &&& self.areas@.len() == (self.size.0 + 1) * (self.size.1 + 1)
    }
}

/// What becomes of a pixel on a grid.
#[derive(Debug)]
pub enum BoxReach<T, S> {
    /// It is masked or lies out of range.
    Outside,
    /// It reaches beyond the grid.
    Beyond,
    /// It sweeps the cells of a box.
    Within(BoxSwept<T, S>),
}

/// The areas in the `size.0` by `size.1` cells of a box, row by row.
pub open spec fn box_areas<T>(areas: Seq<T>, size: (usize, usize)) -> Seq<T> {
    let cells = box_order(0, 0, size.1 as int, size.1 as int, size.0 as int, 0);
    Seq::new(cells.len(), |k: int| areas[cells[k].place as int])
}

/// The bins from `lo` to before `hi` lie on an axis of `bins` bins.
pub open spec fn holds_range(lo: int, hi: int, bins: int) -> bool {
    0 <= lo <= hi <= bins
}

impl<
    T: Copy,
    S: Copy,
    L: Fn(Corner) -> Corner,
    N: Fn(u64) -> i64,
    C: Fn(u64) -> i64,
    H: Fn(Corner, (usize, usize)) -> Corner,
    W: Fn(Vec<T>, usize, Edge) -> Vec<T>,
    G: Fn(S, T) -> S,
> BoxMath<T, S, L, N, C, H, W, G> {
    /// The arithmetic takes any numbers, and an edge keeps the size of a box.
    pub open spec fn total(&self, shape: (usize, usize)) -> bool {
        &&& (shape.0 + 1) * (shape.1 + 1) <= usize::MAX
        &&& forall|c: Corner| #[trigger] self.place.requires((c,))
        &&& forall|x: u64| #[trigger] self.low.requires((x,))
        &&& forall|x: u64| #[trigger] self.high.requires((x,))
        &&& forall|c: Corner, at: (usize, usize)| #[trigger] self.shift.requires((c, at))
        &&& forall|v: Vec<T>, columns: usize, e: Edge| #[trigger]
            self.edge.requires((v, columns, e))
        &&& forall|v: Vec<T>, columns: usize, e: Edge, w: Vec<T>| #[trigger]
            self.edge.ensures((v, columns, e), w) ==> w@.len() == v@.len()
        &&& forall|s: S, t: T| #[trigger] self.plus.requires((s, t))
    }

    /// `out` is the pixel `q`, cut to the range and in units of bins.
    pub open spec fn is_fitted(&self, limits: GridLimits, q: Quad, out: Quad) -> bool {
        &&& self.place.ensures((limits.clipped(q.a),), out.a)
        &&& self.place.ensures((limits.clipped(q.b),), out.b)
        &&& self.place.ensures((limits.clipped(q.c),), out.c)
        &&& self.place.ensures((limits.clipped(q.d),), out.d)
    }

    /// The bins from `lo.0` to before `hi.0` and from `lo.1` to before `hi.1` hold the
    /// pixel `p`, which is in units of bins.
    pub open spec fn is_boxed(&self, p: Quad, lo: (i64, i64), hi: (i64, i64)) -> bool {
        let g = quad_bounds(p);
        &&& self.low.ensures((g.min0,), lo.0)
        &&& self.high.ensures((g.max0,), hi.0)
        &&& self.low.ensures((g.min1,), lo.1)
        &&& self.high.ensures((g.max1,), hi.1)
    }

    /// `out` is the pixel `p` as seen from the cell `at`.
    pub open spec fn is_shifted(&self, p: Quad, at: (usize, usize), out: Quad) -> bool {
        &&& self.shift.ensures((p.a, at), out.a)
        &&& self.shift.ensures((p.b, at), out.b)
        &&& self.shift.ensures((p.c, at), out.c)
        &&& self.shift.ensures((p.d, at), out.d)
    }

    /// `after` is `before` with the area under one edge added.
    pub open spec fn adds(
        &self,
        before: Vec<T>,
        columns: usize,
        start: Corner,
        stop: Corner,
        after: Vec<T>,
    ) -> bool {
        self.edge.ensures((before, columns, Edge { start, stop }), after)
    }

    /// `areas` is a clean box of the given size and one more row and column, with the
    /// areas under the four edges of the pixel added, one after the other.
    pub open spec fn adds_all(&self, q: Quad, size: (usize, usize), areas: Vec<T>) -> bool {
        let columns = (size.1 + 1) as usize;
        exists|blank: Vec<T>, x: Vec<T>, y: Vec<T>, z: Vec<T>|
            blank@ == clean((size.0 + 1) * (size.1 + 1), self.zero) && #[trigger] self.adds(
                blank,
                columns,
                q.a,
                q.b,
                x,
            ) && #[trigger] self.adds(x, columns, q.b, q.c, y) && #[trigger] self.adds(
                y,
                columns,
                q.c,
                q.d,
                z,
            ) && self.adds(z, columns, q.d, q.a, areas)
    }

    /// `areas` is what the edges of the pixel `p` sweep over a box at a given offset.
    pub open spec fn fills(
        &self,
        p: Quad,
        at: (usize, usize),
        size: (usize, usize),
        areas: Vec<T>,
    ) -> bool {
        exists|q: Quad| #[trigger] self.is_shifted(p, at, q) && self.adds_all(q, size, areas)
    }

    /// `out` is what the pixel `p` sweeps, which is in units of bins.
    pub open spec fn is_swept(
        &self,
        p: Quad,
        lo: (i64, i64),
        hi: (i64, i64),
        shape: (usize, usize),
        out: BoxReach<T, S>,
    ) -> bool {
        if holds_range(lo.0 as int, hi.0 as int, shape.0 as int) && holds_range(
            lo.1 as int,
            hi.1 as int,
            shape.1 as int,
        ) {
            out matches BoxReach::Within(b) && {
                &&& b.offset == (lo.0 as usize, lo.1 as usize)
                &&& b.size == ((hi.0 - lo.0) as usize, (hi.1 - lo.1) as usize)
                &&& self.fills(p, b.offset, b.size, b.areas)
                &&& folds_to(self.plus, self.none, box_areas(b.areas@, b.size), b.sum)
            }
        } else {
            out is Beyond
        }
    }

    /// `out` is what becomes of the pixel `q` on a grid of the given shape.
    pub open spec fn is_patch(
        &self,
        limits: GridLimits,
        shape: (usize, usize),
        q: Quad,
        out: BoxReach<T, S>,
    ) -> bool {
        if limits.leaves_out(quad_bounds(q)) {
            out is Outside
        } else {
            exists|p: Quad, lo: (i64, i64), hi: (i64, i64)| #[trigger]
                self.is_fitted(limits, q, p) && #[trigger] self.is_boxed(p, lo, hi)
                    && self.is_swept(p, lo, hi, shape, out)
        }
    }

    /// Sweeps the edges of a pixel over a box.
    fn fill(&self, p: Quad, at: (usize, usize), size: (usize, usize)) -> (areas: Vec<T>)
        requires
            (size.0 + 1) * (size.1 + 1) <= usize::MAX,
            forall|c: Corner, k: (usize, usize)| #[trigger] self.shift.requires((c, k)),
            forall|v: Vec<T>, columns: usize, e: Edge| #[trigger]
                self.edge.requires((v, columns, e)),
            forall|v: Vec<T>, columns: usize, e: Edge, w: Vec<T>| #[trigger]
                self.edge.ensures((v, columns, e), w) ==> w@.len() == v@.len(),
        ensures
            self.fills(p, at, size, areas),
            areas@.len() == (size.0 + 1) * (size.1 + 1),
    {
        proof {
            lemma_box_fits(size);
        }
        let q: Quad = Quad {
            a: (self.shift)(p.a, at),
            b: (self.shift)(p.b, at),
            c: (self.shift)(p.c, at),
            d: (self.shift)(p.d, at),
        };
        assert(self.is_shifted(p, at, q));
        let columns: usize = size.1 + 1;
        let blank: Vec<T> = filled(self.zero, (size.0 + 1) * columns);
        let ghost v = blank;
        assert(v@ =~= clean((size.0 + 1) * (size.1 + 1), self.zero));
        let x: Vec<T> = (self.edge)(blank, columns, Edge { start: q.a, stop: q.b });
        let ghost vx = x;
        assert(self.adds(v, columns, q.a, q.b, vx));
        let y: Vec<T> = (self.edge)(x, columns, Edge { start: q.b, stop: q.c });
        let ghost vy = y;
        assert(self.adds(vx, columns, q.b, q.c, vy));
        let z: Vec<T> = (self.edge)(y, columns, Edge { start: q.c, stop: q.d });
        let ghost vz = z;
        assert(self.adds(vy, columns, q.c, q.d, vz));
        let areas: Vec<T> = (self.edge)(z, columns, Edge { start: q.d, stop: q.a });
        assert(self.adds(vz, columns, q.d, q.a, areas));
        assert(self.adds_all(q, size, areas));
        areas
    }

    /// Adds up the areas in the cells of a box.
    fn add_up(&self, areas: &Vec<T>, size: (usize, usize)) -> (sum: S)
        requires
            (size.0 + 1) * (size.1 + 1) <= usize::MAX,
            areas@.len() == (size.0 + 1) * (size.1 + 1),
            forall|s: S, t: T| #[trigger] self.plus.requires((s, t)),
        ensures
            folds_to(self.plus, self.none, box_areas(areas@, size), sum),
    {
        proof {
            lemma_box_fits(size);
        }
        let cells: Vec<BoxCell> = box_cells(0, 0, size.0, size.1, size);
        let mut inner: Vec<T> = Vec::new();
        let mut k: usize = 0;
        while k < cells.len()
            invariant
                k <= cells@.len(),
                cells@ == box_order(0, 0, size.1 as int, size.1 as int, size.0 as int, 0),
                areas@.len() == (size.0 + 1) * (size.1 + 1),
                inner@.len() == k,
                forall|l: int|
                    0 <= l < k ==> #[trigger] inner@[l] == areas@[cells@[l].place as int],
            decreases cells@.len() - k,
        {
            proof {
                let (w0, w1) = (size.0 as int, size.1 as int);
                lemma_flat_cell(k as int, w0, w1);
                lemma_flat_bound(k as int / w1, k as int % w1, w0 + 1, w1 + 1);
            }
            inner.push(areas[cells[k].place]);
            k = k + 1;
        }
        assert(inner@ =~= box_areas(areas@, size));
        fold(self.none, &inner, &self.plus)
    }

    /// Sweeps a pixel over the cells of a grid.
    pub fn sweep_box(&self, limits: &GridLimits, shape: (usize, usize), q: Quad) -> (out: BoxReach<
        T,
        S,
    >)
        requires
            self.total(shape),
        ensures
            self.is_patch(*limits, shape, q, out),
            out matches BoxReach::Within(b) ==> b.fits(shape),
    {
        if limits.out_of_range(&bounds_of(&q)) {
            return BoxReach::Outside;
        }
        let p: Quad = Quad {
            a: (self.place)(limits.clip_corner(q.a)),
            b: (self.place)(limits.clip_corner(q.b)),
            c: (self.place)(limits.clip_corner(q.c)),
            d: (self.place)(limits.clip_corner(q.d)),
        };
        assert(self.is_fitted(*limits, q, p));
        let g: GridBounds = bounds_of(&p);
        let lo: (i64, i64) = ((self.low)(g.min0), (self.low)(g.min1));
        let hi: (i64, i64) = ((self.high)(g.max0), (self.high)(g.max1));
        assert(self.is_boxed(p, lo, hi));
        if !range_fits(lo.0, hi.0, shape.0) || !range_fits(lo.1, hi.1, shape.1) {
            return BoxReach::Beyond;
        }
        let offset: (usize, usize) = (lo.0 as usize, lo.1 as usize);
        let size: (usize, usize) = ((hi.0 - lo.0) as usize, (hi.1 - lo.1) as usize);
        proof {
            lemma_box_in_shape(size, shape);
        }
        let areas: Vec<T> = self.fill(p, offset, size);
        let sum: S = self.add_up(&areas, size);
        BoxReach::Within(BoxSwept { offset, size, areas, sum })
    }

    /// `out` is what becomes of the pixel `q`, moved to one side of the jump of the azimuth.
    pub open spec fn is_patch_of<
        A: Fn(Quad) -> u64,
        P: Fn(u64) -> u64,
        M: Fn(Quad) -> u64,
        D: Fn(u64) -> u64,
    >(
        &self,
        turn: Turn,
        turning: TurnMath<A, P, M, D>,
        q: Quad,
        masked: bool,
        limits: GridLimits,
        shape: (usize, usize),
        out: BoxReach<T, S>,
    ) -> bool {
        if masked {
            out is Outside
        } else {
            exists|moved: Quad| #[trigger]
                turning.is_recentered(turn, q, moved) && self.is_patch(limits, shape, moved, out)
        }
    }

    /// Sweeps pixels over the cells of a grid; masked pixels (`mask[i] != 0`) are left
    /// out.
    pub fn sweep_patches<
        A: Fn(Quad) -> u64,
        P: Fn(u64) -> u64,
        M: Fn(Quad) -> u64,
        D: Fn(u64) -> u64,
    >(
        &self,
        turn: &Turn,
        turning: &TurnMath<A, P, M, D>,
        corners: &[u64],
        mask: Option<&[i8]>,
        limits: &GridLimits,
        shape: (usize, usize),
    ) -> (out: Vec<BoxReach<T, S>>)
        requires
            self.total(shape),
            turning.total(),
            corners@.len() % 8 == 0,
            mask_fits(mask, corners@.len() as int / 8),
        ensures
            out@.len() == corners@.len() / 8,
            forall|i: int|
                0 <= i < out@.len() ==> if masked_out(mask, i) {
                    #[trigger] out@[i] is Outside
                } else {
                    exists|q: Quad| #[trigger]
                        turning.is_recentered(*turn, quad_at(corners@, i), q) && self.is_patch(
                            *limits,
                            shape,
                            q,
                            out@[i],
                        )
                },
            forall|i: int|
                0 <= i < out@.len() ==> (#[trigger] out@[i] matches BoxReach::Within(b) ==> b.fits(
                    shape,
                )),
            forall|i: int|
                0 <= i < out@.len() ==> self.is_patch_of(
                    *turn,
                    *turning,
                    quad_at(corners@, i),
                    masked_out(mask, i),
                    *limits,
                    shape,
                    #[trigger] out@[i],
                ),
    {
        let size: usize = corners.len() / 8;
        let mut out: Vec<BoxReach<T, S>> = Vec::new();
        let mut i: usize = 0;
        while i < size
            invariant
                i <= size == corners@.len() / 8,
                self.total(shape),
                turning.total(),
                corners@.len() % 8 == 0,
                mask_fits(mask, size as int),
                out@.len() == i,
                forall|k: int|
                    0 <= k < i ==> if masked_out(mask, k) {
                        #[trigger] out@[k] is Outside
                    } else {
                        exists|q: Quad| #[trigger]
                            turning.is_recentered(*turn, quad_at(corners@, k), q) && self.is_patch(
                                *limits,
                                shape,
                                q,
                                out@[k],
                            )
                    },
                forall|k: int|
                    0 <= k < i ==> (#[trigger] out@[k] matches BoxReach::Within(b) ==> b.fits(
                        shape,
                    )),
            decreases size - i,
        {
            if is_masked(mask, i) {
                out.push(BoxReach::Outside);
            } else {
                let q: Quad = turning.recenter(turn, quad(corners, i));
                out.push(self.sweep_box(limits, shape, q));
            }
            i = i + 1;
        }
        out
    }
}

/// Tests [`holds_range`].
fn range_fits(lo: i64, hi: i64, bins: usize) -> (b: bool)
    ensures
        b == holds_range(lo as int, hi as int, bins as int),
{
    0 <= lo && lo <= hi && hi as u64 <= bins as u64
}

/// A box whose places can be counted has cells that can be counted.
proof fn lemma_box_fits(size: (usize, usize))
    requires
        (size.0 + 1) * (size.1 + 1) <= usize::MAX,
    ensures
        size.0 * size.1 <= usize::MAX,
        size.0 + 1 <= usize::MAX,
        size.1 + 1 <= usize::MAX,
{
    assert(size.0 * size.1 <= (size.0 + 1) * (size.1 + 1)) by (nonlinear_arith);
    assert(size.0 + 1 <= (size.0 + 1) * (size.1 + 1)) by (nonlinear_arith);
    assert(size.1 + 1 <= (size.0 + 1) * (size.1 + 1)) by (nonlinear_arith);
}

/// The places of a box on a grid can be counted where those of the grid can.
proof fn lemma_box_in_shape(size: (usize, usize), shape: (usize, usize))
    requires
        size.0 <= shape.0,
        size.1 <= shape.1,
        (shape.0 + 1) * (shape.1 + 1) <= usize::MAX,
    ensures
        (size.0 + 1) * (size.1 + 1) <= usize::MAX,
{
    assert((size.0 + 1) * (size.1 + 1) <= (shape.0 + 1) * (shape.1 + 1)) by (nonlinear_arith)
        requires
            size.0 <= shape.0,
            size.1 <= shape.1,
    ;
}

/// The azimuth of a pixel on a grid is cut off at the end of the axis, where that is given,
/// else beyond the largest azimuth.
pub open spec fn past_the_end(limits: GridLimits, azimuth: u64) -> bool {
    match limits.azimuth_end {
        Some(end) => rank(azimuth) >= rank(end),
        None => rank(azimuth) > rank(limits.window.max1),
    }
}

/// A pixel of numbers is left out where all its corners lie beyond the window on one and
/// the same side.
pub proof fn lemma_which_pixels_are_left_out(limits: GridLimits, q: Quad)
    requires
        limits.window.numeric(),
        limits.azimuth_end matches Some(end) ==> !is_nan(end),
        numeric(q),
        !is_nan(q.a.azimuth) && !is_nan(q.b.azimuth) && !is_nan(q.c.azimuth) && !is_nan(
            q.d.azimuth,
        ),
    ensures
        limits.leaves_out(quad_bounds(q)) <==> {
            let w = limits.window;
            let all = |f: spec_fn(Corner) -> bool| f(q.a) && f(q.b) && f(q.c) && f(q.d);
            ||| all(|c: Corner| rank(c.radial) < rank(w.min0))
            ||| all(|c: Corner| rank(c.radial) > rank(w.max0))
            ||| all(|c: Corner| rank(c.azimuth) < rank(w.min1))
            ||| all(|c: Corner| past_the_end(limits, c.azimuth))
        },
{
    lemma_extremes_of_four(q.a.radial, q.b.radial, q.c.radial, q.d.radial);
    lemma_extremes_of_four(q.a.azimuth, q.b.azimuth, q.c.azimuth, q.d.azimuth);
}

/// A clipped position lies in the range, is kept where it did already, and no position of
/// the range is nearer to where it was.
pub proof fn lemma_clip_is_nearest(x: u64, lo: u64, hi: u64, y: u64)
    requires
        !is_nan(x) && !is_nan(lo) && !is_nan(hi),
        rank(lo) <= rank(hi),
    ensures
        rank(lo) <= rank(clip_of(x, lo, hi)) <= rank(hi),
        rank(lo) <= rank(x) <= rank(hi) ==> clip_of(x, lo, hi) == x,
        rank(lo) <= rank(y) <= rank(hi) ==> (rank(x) <= rank(clip_of(x, lo, hi)) <= rank(y)
            || rank(y) <= rank(clip_of(x, lo, hi)) <= rank(x) || rank(clip_of(x, lo, hi)) == rank(x)),
{
}

impl<
    T: Copy,
    S: Copy,
    L: Fn(Corner) -> Corner,
    N: Fn(u64) -> i64,
    C: Fn(u64) -> i64,
    H: Fn(Corner, (usize, usize)) -> Corner,
    W: Fn(Vec<T>, usize, Edge) -> Vec<T>,
    G: Fn(S, T) -> S,
> BoxMath<T, S, L, N, C, H, W, G> {
    /// The bins are `unit` wide, and the bin at or below and the one at or above a position
    /// are those next to it.
    pub open spec fn rounds(&self, pos: spec_fn(u64) -> int, unit: int) -> bool {
        &&& forall|x: u64, r: i64| #[trigger]
            self.low.ensures((x,), r) && !is_nan(x) ==> r * unit <= pos(x) < (r + 1) * unit
        &&& forall|x: u64, r: i64| #[trigger]
            self.high.ensures((x,), r) && !is_nan(x) ==> (r - 1) * unit < pos(x) <= r * unit
    }

    /// The box of a pixel is the smallest that holds it: on both axes every corner lies
    /// between the ends of the box, and some corner lies in its first row, in its last, in
    /// its first column and in its last.
    pub proof fn lemma_box_holds_the_pixel(
        &self,
        p: Quad,
        lo: (i64, i64),
        hi: (i64, i64),
        pos: spec_fn(u64) -> int,
        unit: int,
    )
        requires
            self.is_boxed(p, lo, hi),
            measures(pos, unit),
            self.rounds(pos, unit),
            numeric(p),
            !is_nan(p.a.azimuth) && !is_nan(p.b.azimuth) && !is_nan(p.c.azimuth) && !is_nan(
                p.d.azimuth,
            ),
        ensures
            ({
                let all = |f: spec_fn(Corner) -> bool| f(p.a) && f(p.b) && f(p.c) && f(p.d);
                let some = |f: spec_fn(Corner) -> bool| f(p.a) || f(p.b) || f(p.c) || f(p.d);
                &&& all(|c: Corner| lo.0 * unit <= pos(c.radial) <= hi.0 * unit)
                &&& all(|c: Corner| lo.1 * unit <= pos(c.azimuth) <= hi.1 * unit)
                &&& some(|c: Corner| pos(c.radial) < (lo.0 + 1) * unit)
                &&& some(|c: Corner| pos(c.radial) > (hi.0 - 1) * unit)
                &&& some(|c: Corner| pos(c.azimuth) < (lo.1 + 1) * unit)
                &&& some(|c: Corner| pos(c.azimuth) > (hi.1 - 1) * unit)
            }),
    {
        lemma_extremes_of_four(p.a.radial, p.b.radial, p.c.radial, p.d.radial);
        lemma_extremes_of_four(p.a.azimuth, p.b.azimuth, p.c.azimuth, p.d.azimuth);
        let g = quad_bounds(p);
        assert(pos(g.min0) <= pos(p.a.radial) <= pos(g.max0));
        assert(pos(g.min0) <= pos(p.b.radial) <= pos(g.max0));
        assert(pos(g.min0) <= pos(p.c.radial) <= pos(g.max0));
        assert(pos(g.min0) <= pos(p.d.radial) <= pos(g.max0));
        assert(pos(g.min1) <= pos(p.a.azimuth) <= pos(g.max1));
        assert(pos(g.min1) <= pos(p.b.azimuth) <= pos(g.max1));
        assert(pos(g.min1) <= pos(p.c.azimuth) <= pos(g.max1));
        assert(pos(g.min1) <= pos(p.d.azimuth) <= pos(g.max1));
    }

    /// A pixel within the grid has a box of its own size, and the sum of its areas takes in
    /// the area of every cell of the box: the one in row `i` and column `j` stands at
    /// `i * (columns + 1) + j`.
    pub proof fn lemma_summed_areas(
        &self,
        p: Quad,
        lo: (i64, i64),
        hi: (i64, i64),
        shape: (usize, usize),
        b: BoxSwept<T, S>,
        i: int,
        j: int,
    )
        requires
            self.is_swept(p, lo, hi, shape, BoxReach::Within(b)),
            (shape.0 + 1) * (shape.1 + 1) <= usize::MAX,
            0 <= i < hi.0 - lo.0,
            0 <= j < hi.1 - lo.1,
        ensures
            b.offset.0 == lo.0 && b.offset.1 == lo.1,
            b.offset.0 + b.size.0 == hi.0 <= shape.0,
            b.offset.1 + b.size.1 == hi.1 <= shape.1,
            exists|items: Seq<T>|
                items.len() == b.size.0 * b.size.1 && items[i * b.size.1 + j] == b.areas@[i * (
                b.size.1 + 1) + j] && #[trigger] folds_to(self.plus, self.none, items, b.sum),
    {
        lemma_box_in_shape(b.size, shape);
        lemma_box_fits(b.size);
        let items = box_areas(b.areas@, b.size);
        let (w0, w1) = (b.size.0 as int, b.size.1 as int);
        lemma_box_is_rectangle(0, 0, w0, w1, (w0, w1), i, j);
        assert(folds_to(self.plus, self.none, items, b.sum));
    }
}

impl<
    T: Copy,
    S: Copy,
    L: Fn(Corner) -> Corner,
    N: Fn(u64) -> i64,
    C: Fn(u64) -> i64,
    H: Fn(Corner, (usize, usize)) -> Corner,
    W: Fn(Vec<T>, usize, Edge) -> Vec<T>,
    G: Fn(S, T) -> S,
> BoxMath<T, S, L, N, C, H, W, G> {
    /// A pixel that lies within the window is swept as it is: its corners are placed where
    /// they are. It is never left out, unless the azimuthal axis ends before it.
    pub proof fn lemma_pixel_within_the_window(
        &self,
        limits: GridLimits,
        shape: (usize, usize),
        q: Quad,
        out: BoxReach<T, S>,
    )
        requires
            self.is_patch(limits, shape, q, out),
            limits.window.numeric(),
            limits.azimuth_end matches Some(end) ==> !is_nan(end) && (rank(q.a.azimuth) < rank(end)
                || rank(q.b.azimuth) < rank(end) || rank(q.c.azimuth) < rank(end)
                || rank(q.d.azimuth) < rank(end)),
            numeric(q),
            !is_nan(q.a.azimuth) && !is_nan(q.b.azimuth) && !is_nan(q.c.azimuth) && !is_nan(
                q.d.azimuth,
            ),
            limits.window.holds(q.a.radial, q.a.azimuth),
            limits.window.holds(q.b.radial, q.b.azimuth),
            limits.window.holds(q.c.radial, q.c.azimuth),
            limits.window.holds(q.d.radial, q.d.azimuth),
        ensures
            !(out is Outside),
            exists|p: Quad, lo: (i64, i64), hi: (i64, i64)|
                self.place.ensures((q.a,), p.a) && self.place.ensures((q.b,), p.b)
                    && self.place.ensures((q.c,), p.c) && self.place.ensures((q.d,), p.d)
                    && #[trigger] self.is_boxed(p, lo, hi) && self.is_swept(p, lo, hi, shape, out),
    {
        lemma_which_pixels_are_left_out(limits, q);
        let (p, lo, hi) = choose|p: Quad, lo: (i64, i64), hi: (i64, i64)| #[trigger]
            self.is_fitted(limits, q, p) && #[trigger] self.is_boxed(p, lo, hi) && self.is_swept(
                p,
                lo,
                hi,
                shape,
                out,
            );
        assert(limits.clipped(q.a) == q.a && limits.clipped(q.b) == q.b);
        assert(limits.clipped(q.c) == q.c && limits.clipped(q.d) == q.d);
        assert(self.is_boxed(p, lo, hi));
    }
}

impl<
    T: Copy,
    S: Copy,
    L: Fn(Corner) -> Corner,
    N: Fn(u64) -> i64,
    C: Fn(u64) -> i64,
    H: Fn(Corner, (usize, usize)) -> Corner,
    W: Fn(Vec<T>, usize, Edge) -> Vec<T>,
    G: Fn(S, T) -> S,
> BoxMath<T, S, L, N, C, H, W, G> {
    /// A masked pixel is out of range. Any other is cut to the grid with the radial
    /// positions of its corners and their azimuths, which are moved to one side of the jump
    /// where the pixel straddles it.
    pub proof fn lemma_which_pixel_is_cut<
        A: Fn(Quad) -> u64,
        P: Fn(u64) -> u64,
        M: Fn(Quad) -> u64,
        D: Fn(u64) -> u64,
    >(
        &self,
        turn: Turn,
        turning: TurnMath<A, P, M, D>,
        q: Quad,
        masked: bool,
        limits: GridLimits,
        shape: (usize, usize),
        out: BoxReach<T, S>,
        val: spec_fn(u64) -> int,
        straddles: bool,
    ) -> (moved: Quad)
        requires
            self.is_patch_of(turn, turning, q, masked, limits, shape, out),
            orders(val),
            turning.turns_exactly(turn, val),
            !is_nan(turn.half),
            !is_nan(turn.period),
            0 < val(turn.half),
            val(turn.period) == 2 * val(turn.half),
            forall|area: u64| #[trigger]
                turning.area.ensures((q,), area) ==> !is_nan(area) && (straddles <==> val(area) > 0),
            within_turn(turn, val, q.a.azimuth),
            within_turn(turn, val, q.b.azimuth),
            within_turn(turn, val, q.c.azimuth),
            within_turn(turn, val, q.d.azimuth),
        ensures
            masked ==> out is Outside,
            !masked ==> {
                &&& self.is_patch(limits, shape, moved, out)
                &&& same_radial(q, moved)
                &&& straddles ==> is_on_one_side(turn, val, q, moved)
                &&& !straddles ==> moved == q
            },
    {
        let moved = choose|moved: Quad| #[trigger]
            turning.is_recentered(turn, q, moved) && self.is_patch(limits, shape, moved, out);
        if !masked {
            turning.lemma_recentered_pixel(turn, q, moved, val, straddles);
        }
        moved
    }
}

impl<
    T: Copy,
    S: Copy,
    L: Fn(Corner) -> Corner,
    N: Fn(u64) -> i64,
    C: Fn(u64) -> i64,
    H: Fn(Corner, (usize, usize)) -> Corner,
    W: Fn(Vec<T>, usize, Edge) -> Vec<T>,
    G: Fn(S, T) -> S,
> BoxMath<T, S, L, N, C, H, W, G> {
    /// A corner is seen from a cell where it lies less as many bins as the cell is from the
    /// first one: rows for the radial position, columns for the azimuth.
    pub open spec fn shifts_exactly(&self, pos: spec_fn(u64) -> int, unit: int) -> bool {
        forall|c: Corner, at: (usize, usize), r: Corner| #[trigger]
            self.shift.ensures((c, at), r) ==> pos(r.radial) == pos(c.radial) - at.0 * unit && pos(
                r.azimuth,
            ) == pos(c.azimuth) - at.1 * unit
    }

    /// The areas in the box of a pixel are what the edges of the pixel sweep, all four
    /// corners seen from the first cell of the box.
    pub proof fn lemma_swept_from_the_box(
        &self,
        p: Quad,
        lo: (i64, i64),
        hi: (i64, i64),
        shape: (usize, usize),
        b: BoxSwept<T, S>,
        pos: spec_fn(u64) -> int,
        unit: int,
    ) -> (q: Quad)
        requires
            self.is_swept(p, lo, hi, shape, BoxReach::Within(b)),
            self.shifts_exactly(pos, unit),
        ensures
            self.adds_all(q, b.size, b.areas),
            pos(q.a.radial) == pos(p.a.radial) - lo.0 * unit,
            pos(q.a.azimuth) == pos(p.a.azimuth) - lo.1 * unit,
            pos(q.b.radial) == pos(p.b.radial) - lo.0 * unit,
            pos(q.b.azimuth) == pos(p.b.azimuth) - lo.1 * unit,
            pos(q.c.radial) == pos(p.c.radial) - lo.0 * unit,
            pos(q.c.azimuth) == pos(p.c.azimuth) - lo.1 * unit,
            pos(q.d.radial) == pos(p.d.radial) - lo.0 * unit,
            pos(q.d.azimuth) == pos(p.d.azimuth) - lo.1 * unit,
    {
        let q = choose|q: Quad| #[trigger]
            self.is_shifted(p, b.offset, q) && self.adds_all(q, b.size, b.areas);
        assert(b.offset.0 == lo.0 && b.offset.1 == lo.1);
        q
    }
}

} // verus!
