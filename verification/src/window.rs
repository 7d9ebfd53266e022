//! Fitting the bounding box of a pixel into the range of positions that the bins
//! cover. Boxes and ranges are bounds on two axes, given as double-precision bit
//! patterns; every step compares and replaces bounds.

use crate::boundaries::{GridBounds, PI_DOWN, PI_UP, TWO_PI_UP};
use crate::double::{greater, gt, is_nan, max, max_of, rank, ZERO};
use vstd::prelude::*;

verus! {

impl GridBounds {
    /// The box has no point in common with the window.
    pub open spec fn misses(&self, window: GridBounds) -> bool {
        ||| gt(window.min0, self.max0)
        ||| gt(self.min0, window.max0)
        ||| gt(window.min1, self.max1)
        ||| gt(self.min1, window.max1)
    }

    /// The box reaches beyond the other one on some side.
    pub open spec fn exceeds(&self, other: GridBounds) -> bool {
        ||| gt(other.min0, self.min0)
        ||| gt(self.max0, other.max0)
        ||| gt(other.min1, self.min1)
        ||| gt(self.max1, other.max1)
    }

    /// No bound is a NaN.
    pub open spec fn numeric(&self) -> bool {
        !is_nan(self.min0) && !is_nan(self.max0) && !is_nan(self.min1) && !is_nan(self.max1)
    }

    /// Tests [`GridBounds::misses`].
    pub fn outside(&self, window: &GridBounds) -> (b: bool)
        ensures
            b == self.misses(*window),
    {
        greater(window.min0, self.max0) || greater(self.min0, window.max0) || greater(
            window.min1,
            self.max1,
        ) || greater(self.min1, window.max1)
    }

    /// Tests [`GridBounds::exceeds`].
    pub fn reaches_beyond(&self, other: &GridBounds) -> (b: bool)
        ensures
            b == self.exceeds(*other),
    {
        greater(other.min0, self.min0) || greater(self.max0, other.max0) || greater(
            other.min1,
            self.min1,
        ) || greater(self.max1, other.max1)
    }
}

/// The bounds of the azimuth of one turn.
pub open spec fn turn(chi_disc_at_pi: bool) -> (u64, u64) {
    if chi_disc_at_pi {
        (PI_DOWN, PI_UP)
    } else {
        (ZERO, TWO_PI_UP)
    }
}

/// The box that stands for a pixel: the rectangle of the pixel's area, unless it
/// reaches beyond the pixel's bounding box, which is kept then. Its radial bounds
/// are raised to zero unless negative positions are allowed, and its azimuthal bounds
/// are cut at the ends of one turn.
pub open spec fn pseudo_bounds(
    bounding: GridBounds,
    rectangle: GridBounds,
    allow_pos0_neg: bool,
    chi_disc_at_pi: bool,
) -> GridBounds {
    let b = if rectangle.exceeds(bounding) {
        bounding
    } else {
        rectangle
    };
    GridBounds {
        min0: if allow_pos0_neg {
            b.min0
        } else {
            max_of(b.min0, ZERO)
        },
        max0: if allow_pos0_neg {
            b.max0
        } else {
            max_of(b.max0, ZERO)
        },
        min1: if gt(turn(chi_disc_at_pi).0, b.min1) {
            turn(chi_disc_at_pi).0
        } else {
            b.min1
        },
        max1: if gt(b.max1, turn(chi_disc_at_pi).1) {
            turn(chi_disc_at_pi).1
        } else {
            b.max1
        },
    }
}

/// The value of [`pseudo_bounds`].
pub fn pseudo_box(
    bounding: GridBounds,
    rectangle: GridBounds,
    allow_pos0_neg: bool,
    chi_disc_at_pi: bool,
) -> (b: GridBounds)
    ensures
        b == pseudo_bounds(bounding, rectangle, allow_pos0_neg, chi_disc_at_pi),
{
    let mut b: GridBounds = if rectangle.reaches_beyond(&bounding) {
        bounding
    } else {
        rectangle
    };
    if !allow_pos0_neg {
        b.min0 = max(b.min0, ZERO);
        b.max0 = max(b.max0, ZERO);
    }
    let (lo, hi): (u64, u64) = if chi_disc_at_pi {
        (PI_DOWN, PI_UP)
    } else {
        (ZERO, TWO_PI_UP)
    };
    if greater(b.max1, hi) {
        b.max1 = hi;
    }
    if greater(lo, b.min1) {
        b.min1 = lo;
    }
    b
}

/// A cut of a box at the edge of a window: the stretch from `from` to `to` is cut off
/// a side that reached from `lo` to `hi`.
#[derive(Debug, Clone, Copy, PartialEq, Eq, Structural)]
pub struct Cut {
    /// Start of the stretch.
    pub from: u64,
    /// End of the stretch.
    pub to: u64,
    /// Start of the side before the cut.
    pub lo: u64,
    /// End of the side before the cut.
    pub hi: u64,
}

/// The box cut to the window.
pub open spec fn clipped(b: GridBounds, window: GridBounds) -> GridBounds {
    GridBounds {
        min0: if gt(window.min0, b.min0) {
            window.min0
        } else {
            b.min0
        },
        max0: if gt(b.max0, window.max0) {
            window.max0
        } else {
            b.max0
        },
        min1: if gt(window.min1, b.min1) {
            window.min1
        } else {
            b.min1
        },
        max1: if gt(b.max1, window.max1) {
            window.max1
        } else {
            b.max1
        },
    }
}

/// One cut, or none.
pub open spec fn cut_if(cond: bool, from: u64, to: u64, lo: u64, hi: u64) -> Seq<Cut> {
    if cond {
        seq![Cut { from, to, lo, hi }]
    } else {
        Seq::empty()
    }
}

/// The cuts in the order in which they are made: lower radial, lower azimuthal, upper
/// radial, upper azimuthal. A later cut starts from what the earlier ones left.
pub open spec fn cuts(b: GridBounds, window: GridBounds) -> Seq<Cut> {
    let c = clipped(b, window);
    cut_if(gt(window.min0, b.min0), b.min0, window.min0, b.min0, b.max0) + cut_if(
        gt(window.min1, b.min1),
        b.min1,
        window.min1,
        b.min1,
        b.max1,
    ) + cut_if(gt(b.max0, window.max0), window.max0, b.max0, c.min0, b.max0) + cut_if(
        gt(b.max1, window.max1),
        window.max1,
        b.max1,
        c.min1,
        b.max1,
    )
}

/// Cuts a box to the window. Returns the box and the cuts made, by which the share of
/// the pixel is scaled.
pub fn clip_box(b: GridBounds, window: &GridBounds) -> (r: (GridBounds, Vec<Cut>))
    ensures
        r.0 == clipped(b, *window),
        r.1@ == cuts(b, *window),
{
    let mut c: GridBounds = b;
    let mut made: Vec<Cut> = Vec::new();
    if greater(window.min0, c.min0) {
        made.push(Cut { from: c.min0, to: window.min0, lo: c.min0, hi: c.max0 });
        c.min0 = window.min0;
    }
    if greater(window.min1, c.min1) {
        made.push(Cut { from: c.min1, to: window.min1, lo: c.min1, hi: c.max1 });
        c.min1 = window.min1;
    }
    if greater(c.max0, window.max0) {
        made.push(Cut { from: window.max0, to: c.max0, lo: c.min0, hi: c.max0 });
        c.max0 = window.max0;
    }
    if greater(c.max1, window.max1) {
        made.push(Cut { from: window.max1, to: c.max1, lo: c.min1, hi: c.max1 });
        c.max1 = window.max1;
    }
    assert(made@ =~= cuts(b, *window));
    (c, made)
}

/// A box cut to a window lies in it, and a box that lies in the window is not cut.
pub proof fn lemma_clipped_box_fits(b: GridBounds, window: GridBounds)
    requires
        b.numeric(),
        window.numeric(),
    ensures
        !clipped(b, window).exceeds(window),
        !b.exceeds(window) ==> clipped(b, window) == b && cuts(b, window) =~= Seq::<Cut>::empty(),
{
}

/// The value of [`collapse`].
pub open spec fn collapsed(b: GridBounds, window: GridBounds, to_upper: bool) -> GridBounds {
    if to_upper {
        GridBounds { min1: b.max1, max1: window.max1, ..b }
    } else {
        GridBounds { min1: window.min1, max1: b.min1, ..b }
    }
}

/// A box that spans more than half of the azimuthal range, moved to one of its ends:
/// to the upper end where that is the nearer one, else to the lower end. What it
/// covers then is the stretch between the box and that end.
pub fn collapse(b: GridBounds, window: &GridBounds, to_upper: bool) -> (c: GridBounds)
    ensures
        c.min0 == b.min0,
        c.max0 == b.max0,
        to_upper ==> c.min1 == b.max1 && c.max1 == window.max1,
        !to_upper ==> c.min1 == window.min1 && c.max1 == b.min1,
        c == collapsed(b, *window, to_upper),
{
    let mut c: GridBounds = b;
    if to_upper {
        c.min1 = b.max1;
        c.max1 = window.max1;
    } else {
        c.max1 = b.min1;
        c.min1 = window.min1;
    }
    c
}

impl GridBounds {
    /// The point at `r` and `t` lies in the box.
    pub open spec fn holds(&self, r: u64, t: u64) -> bool {
        &&& rank(self.min0) <= rank(r) <= rank(self.max0)
        &&& rank(self.min1) <= rank(t) <= rank(self.max1)
    }

    /// The box has a point.
    pub open spec fn has_a_point(&self) -> bool {
        self.numeric() && rank(self.min0) <= rank(self.max0) && rank(self.min1) <= rank(self.max1)
    }
}

/// A box cut to a window holds the points that the box and the window have in common.
pub proof fn lemma_clipped_is_the_overlap(b: GridBounds, window: GridBounds, r: u64, t: u64)
    requires
        b.numeric(),
        window.numeric(),
    ensures
        clipped(b, window).holds(r, t) <==> b.holds(r, t) && window.holds(r, t),
{
}

/// A box misses a window where they have no point in common.
pub proof fn lemma_missing_boxes(b: GridBounds, window: GridBounds)
    requires
        b.has_a_point(),
        window.has_a_point(),
    ensures
        b.misses(window) <==> !exists|r: u64, t: u64| #[trigger]
            b.holds(r, t) && #[trigger] window.holds(r, t),
{
    if !b.misses(window) {
        let c = clipped(b, window);
        assert(b.holds(c.min0, c.min1) && window.holds(c.min0, c.min1));
    }
}

/// A box exceeds another where it has a point that the other does not hold.
pub proof fn lemma_exceeding_boxes(b: GridBounds, other: GridBounds)
    requires
        b.has_a_point(),
        other.numeric(),
    ensures
        b.exceeds(other) <==> exists|r: u64, t: u64| #[trigger]
            b.holds(r, t) && !#[trigger] other.holds(r, t),
{
    if b.exceeds(other) {
        assert(b.holds(b.min0, b.min1) && b.holds(b.max0, b.max1));
        assert(!other.holds(b.min0, b.min1) || !other.holds(b.max0, b.max1));
    }
}

/// The box of a pixel holds the points of its rectangle that lie within one turn and, but
/// where negative positions are allowed, at radial positions from zero on. Where the
/// rectangle exceeds the bounding box, it is the bounding box that counts.
pub proof fn lemma_pseudo_box(
    bounding: GridBounds,
    rectangle: GridBounds,
    allow_pos0_neg: bool,
    chi_disc_at_pi: bool,
    r: u64,
    t: u64,
)
    requires
        bounding.numeric(),
        rectangle.numeric(),
        !is_nan(r),
        !is_nan(t),
    ensures
        ({
            let b = pseudo_bounds(bounding, rectangle, allow_pos0_neg, chi_disc_at_pi);
            let chosen = if rectangle.exceeds(bounding) {
                bounding
            } else {
                rectangle
            };
            let within_turn = if chi_disc_at_pi {
                rank(PI_DOWN) <= rank(t) <= rank(PI_UP)
            } else {
                0 <= rank(t) <= rank(TWO_PI_UP)
            };
            &&& rank(b.max0) != 0 ==> (b.holds(r, t) <==> chosen.holds(r, t) && within_turn && (
            allow_pos0_neg || 0 <= rank(r)))
            &&& b.holds(r, t) ==> within_turn && (allow_pos0_neg || 0 <= rank(r))
            &&& !allow_pos0_neg ==> rank(b.max0) >= 0 && rank(b.min0) >= 0
        }),
{
}

/// What the cuts leave of the sides that they are made on, multiplied up.
pub open spec fn left_over(cuts: Seq<Cut>, pos: spec_fn(u64) -> int) -> int
    decreases cuts.len(),
{
    if cuts.len() == 0 {
        1
    } else {
        left_over(cuts.drop_last(), pos) * ((pos(cuts.last().hi) - pos(cuts.last().lo)) - (pos(
            cuts.last().to,
        ) - pos(cuts.last().from)))
    }
}

/// The sides that the cuts are made on, multiplied up.
pub open spec fn cut_into(cuts: Seq<Cut>, pos: spec_fn(u64) -> int) -> int
    decreases cuts.len(),
{
    if cuts.len() == 0 {
        1
    } else {
        cut_into(cuts.drop_last(), pos) * (pos(cuts.last().hi) - pos(cuts.last().lo))
    }
}

proof fn lemma_one_more_cut(
    before: Seq<Cut>,
    cond: bool,
    from: u64,
    to: u64,
    lo: u64,
    hi: u64,
    pos: spec_fn(u64) -> int,
)
    ensures
        left_over(before + cut_if(cond, from, to, lo, hi), pos) == left_over(before, pos) * if cond {
            (pos(hi) - pos(lo)) - (pos(to) - pos(from))
        } else {
            1
        },
        cut_into(before + cut_if(cond, from, to, lo, hi), pos) == cut_into(before, pos) * if cond {
            pos(hi) - pos(lo)
        } else {
            1
        },
{
    let cut = Cut { from, to, lo, hi };
    if cond {
        assert(before + cut_if(cond, from, to, lo, hi) =~= before.push(cut));
        assert(before.push(cut).drop_last() =~= before);
    } else {
        assert(before + cut_if(cond, from, to, lo, hi) =~= before);
    }
    assert(left_over(before, pos) * 1 == left_over(before, pos)) by (nonlinear_arith);
    assert(cut_into(before, pos) * 1 == cut_into(before, pos)) by (nonlinear_arith);
}

/// The cuts scale a box to what is left of it: the area of the cut box is to that of the
/// whole one as what the cuts leave of the sides is to the sides that they are made on.
pub proof fn lemma_cuts_scale_the_area(
    b: GridBounds,
    window: GridBounds,
    pos: spec_fn(u64) -> int,
)
    ensures
        ({
            let c = clipped(b, window);
            left_over(cuts(b, window), pos) * ((pos(b.max0) - pos(b.min0)) * (pos(b.max1) - pos(
                b.min1,
            ))) == cut_into(cuts(b, window), pos) * ((pos(c.max0) - pos(c.min0)) * (pos(c.max1)
                - pos(c.min1)))
        }),
{
    let c = clipped(b, window);
    let (g0, g1) = (gt(window.min0, b.min0), gt(window.min1, b.min1));
    let (g2, g3) = (gt(b.max0, window.max0), gt(b.max1, window.max1));
    let none = Seq::<Cut>::empty();
    let s0 = cut_if(g0, b.min0, window.min0, b.min0, b.max0);
    let s1 = s0 + cut_if(g1, b.min1, window.min1, b.min1, b.max1);
    let s2 = s1 + cut_if(g2, window.max0, b.max0, c.min0, b.max0);
    assert(none + s0 =~= s0);
    lemma_one_more_cut(none, g0, b.min0, window.min0, b.min0, b.max0, pos);
    lemma_one_more_cut(s0, g1, b.min1, window.min1, b.min1, b.max1, pos);
    lemma_one_more_cut(s1, g2, window.max0, b.max0, c.min0, b.max0, pos);
    lemma_one_more_cut(s2, g3, window.max1, b.max1, c.min1, b.max1, pos);
    let (w0, w1) = (pos(b.max0) - pos(b.min0), pos(b.max1) - pos(b.min1));
    let (v0, v1) = (pos(c.max0) - pos(c.min0), pos(c.max1) - pos(c.min1));
    let (m0, m1) = (pos(b.max0) - pos(c.min0), pos(b.max1) - pos(c.min1));
    let k0 = if g0 { m0 } else { 1 };
    let k1 = if g1 { m1 } else { 1 };
    let k2 = if g2 { v0 } else { 1 };
    let k3 = if g3 { v1 } else { 1 };
    let h0 = if g0 { w0 } else { 1 };
    let h1 = if g1 { w1 } else { 1 };
    let h2 = if g2 { m0 } else { 1 };
    let h3 = if g3 { m1 } else { 1 };
    assert((k0 * k2) * w0 == (h0 * h2) * v0) by (nonlinear_arith)
        requires
            g0 ==> k0 == m0 && h0 == w0,
            !g0 ==> k0 == 1 && h0 == 1 && m0 == w0,
            g2 ==> k2 == v0 && h2 == m0,
            !g2 ==> k2 == 1 && h2 == 1 && v0 == m0,
    ;
    assert((k1 * k3) * w1 == (h1 * h3) * v1) by (nonlinear_arith)
        requires
            g1 ==> k1 == m1 && h1 == w1,
            !g1 ==> k1 == 1 && h1 == 1 && m1 == w1,
            g3 ==> k3 == v1 && h3 == m1,
            !g3 ==> k3 == 1 && h3 == 1 && v1 == m1,
    ;
    assert((((1 * k0) * k1) * k2) * k3 * (w0 * w1) == ((k0 * k2) * w0) * ((k1 * k3) * w1))
        by (nonlinear_arith);
    assert((((1 * h0) * h1) * h2) * h3 * (v0 * v1) == ((h0 * h2) * v0) * ((h1 * h3) * v1))
        by (nonlinear_arith);
}

/// A collapsed box holds, at the radial positions of the box, the stretch of the window
/// that lies beyond the box on one side and ends at the box.
pub proof fn lemma_collapsed_box(
    b: GridBounds,
    window: GridBounds,
    to_upper: bool,
    r: u64,
    t: u64,
)
    requires
        b.has_a_point(),
        window.has_a_point(),
        !b.exceeds(window),
    ensures
        ({
            let c = collapsed(b, window, to_upper);
            &&& c.holds(r, t) <==> rank(b.min0) <= rank(r) <= rank(b.max0) && rank(window.min1)
                <= rank(t) <= rank(window.max1) && (if to_upper {
                rank(b.max1) <= rank(t)
            } else {
                rank(t) <= rank(b.min1)
            })
            &&& c.holds(r, t) && b.holds(r, t) ==> rank(t) == rank(b.min1) || rank(t) == rank(
                b.max1,
            )
        }),
{
}

} // verus!
