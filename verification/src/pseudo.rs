//! Pixels taken for rectangles: every pixel is replaced by an upright rectangle of its
//! area, cut to the range of positions that the bins cover. The arithmetic is left to
//! the caller.

use crate::boundaries::{
    corner_extremes, corner_maxima, corner_minima, lemma_extremes_of_four, GridBounds,
};
use crate::builder::{is_masked, mask_fits, masked_out};
use crate::double::{is_nan, rank, ZERO};
use crate::window::{clip_box, clipped, collapse, cuts, pseudo_bounds, pseudo_box, Cut};
use vstd::prelude::*;

verus! {

/// The box that stands for a pixel, and the cuts by which the pixel's share is scaled.
#[derive(Debug)]
pub struct PseudoPixel {
    /// The box.
    pub bounds: GridBounds,
    /// The cuts, in the order in which they were made.
    pub cuts: Vec<Cut>,
}

/// The rectangle before the first pixel.
pub open spec fn no_box() -> GridBounds {
    GridBounds { min0: ZERO, max0: ZERO, min1: ZERO, max1: ZERO }
}

/// The bounding box of pixel `i`.
pub open spec fn bounding(corners: Seq<u64>, i: int) -> GridBounds {
    GridBounds {
        min0: corner_minima(corners, 0)[i],
        max0: corner_maxima(corners, 0)[i],
        min1: corner_minima(corners, 1)[i],
        max1: corner_maxima(corners, 1)[i],
    }
}

/// `out` is the box `c`, moved to one end of the azimuthal range where it is too wide.
pub open spec fn is_settled<W: Fn(GridBounds) -> bool, U: Fn(GridBounds) -> bool>(
    c: GridBounds,
    window: GridBounds,
    wide: W,
    upper: U,
    out: GridBounds,
) -> bool {
    ||| wide.ensures((c,), false) && out == c
    ||| wide.ensures((c,), true) && upper.ensures((c,), true) && out == (GridBounds {
        min1: c.max1,
        max1: window.max1,
        ..c
    })
    ||| wide.ensures((c,), true) && upper.ensures((c,), false) && out == (GridBounds {
        min1: window.min1,
        max1: c.min1,
        ..c
    })
}

/// What is settled for all pixels alike.
#[derive(Debug, Clone, Copy)]
pub struct PseudoOptions {
    /// The range of positions that the bins cover.
    pub window: GridBounds,
    /// Allow radial positions below 0.
    pub allow_pos0_neg: bool,
    /// The azimuth jumps at pi rather than at 0.
    pub chi_disc_at_pi: bool,
}

/// The rectangle of the pixel, `before` that of the pixel before it: the one that
/// `rectangle` gives, or the one before where the bounding box `b` has no area.
pub open spec fn is_rectangle<R: Fn(usize, GridBounds) -> Option<GridBounds>>(
    rectangle: R,
    i: usize,
    b: GridBounds,
    before: GridBounds,
    after: GridBounds,
) -> bool {
    ||| rectangle.ensures((i, b), Some(after))
    ||| rectangle.ensures((i, b), None) && after == before
}

/// `out` stands for pixel `i` with bounding box `b`; `after` is its rectangle, and
/// `before` that of the pixel before it. A pixel out of the window has no box.
pub open spec fn is_pseudo<
    R: Fn(usize, GridBounds) -> Option<GridBounds>,
    W: Fn(GridBounds) -> bool,
    U: Fn(GridBounds) -> bool,
>(
    i: usize,
    b: GridBounds,
    opt: PseudoOptions,
    rectangle: R,
    wide: W,
    upper: U,
    before: GridBounds,
    after: GridBounds,
    out: Option<PseudoPixel>,
) -> bool {
    if b.misses(opt.window) {
        after == before && out is None
    } else {
        let p = pseudo_bounds(b, after, opt.allow_pos0_neg, opt.chi_disc_at_pi);
        &&& is_rectangle(rectangle, i, b, before, after)
        &&& out matches Some(q) && q.cuts@ == cuts(p, opt.window) && is_settled(
            clipped(p, opt.window),
            opt.window,
            wide,
            upper,
            q.bounds,
        )
    }
}

/// `boxes` holds what stands for the pixels, and `last` is the rectangle of the last of
/// them that has one. Masked pixels have no box.
pub open spec fn are_pseudo<
    R: Fn(usize, GridBounds) -> Option<GridBounds>,
    W: Fn(GridBounds) -> bool,
    U: Fn(GridBounds) -> bool,
>(
    corners: Seq<u64>,
    mask: Option<&[i8]>,
    opt: PseudoOptions,
    rectangle: R,
    wide: W,
    upper: U,
    boxes: Seq<Option<PseudoPixel>>,
    last: GridBounds,
) -> bool
    decreases boxes.len(),
{
    if boxes.len() == 0 {
        last == no_box()
    } else {
        let i = boxes.len() - 1;
        if masked_out(mask, i) {
            boxes.last() is None && are_pseudo(
                corners,
                mask,
                opt,
                rectangle,
                wide,
                upper,
                boxes.drop_last(),
                last,
            )
        } else {
            exists|before: GridBounds|
                are_pseudo(
                    corners,
                    mask,
                    opt,
                    rectangle,
                    wide,
                    upper,
                    boxes.drop_last(),
                    before,
                ) && #[trigger] is_pseudo(
                    i as usize,
                    bounding(corners, i),
                    opt,
                    rectangle,
                    wide,
                    upper,
                    before,
                    last,
                    boxes.last(),
                )
        }
    }
}

/// The box of one pixel, see [`is_pseudo`], and its rectangle.
fn pseudo_pixel<
    R: Fn(usize, GridBounds) -> Option<GridBounds>,
    W: Fn(GridBounds) -> bool,
    U: Fn(GridBounds) -> bool,
>(
    i: usize,
    b: GridBounds,
    opt: &PseudoOptions,
    rectangle: &R,
    wide: &W,
    upper: &U,
    before: GridBounds,
) -> (r: (GridBounds, Option<PseudoPixel>))
    requires
        forall|k: usize, x: GridBounds| #[trigger] rectangle.requires((k, x)),
        forall|x: GridBounds| #[trigger] wide.requires((x,)),
        forall|x: GridBounds| #[trigger] upper.requires((x,)),
    ensures
        is_pseudo(i, b, *opt, *rectangle, *wide, *upper, before, r.0, r.1),
{
    if b.outside(&opt.window) {
        return (before, None);
    }
    let after: GridBounds = match rectangle(i, b) {
        Some(x) => x,
        None => before,
    };
    let p: GridBounds = pseudo_box(b, after, opt.allow_pos0_neg, opt.chi_disc_at_pi);
    let (c, made): (GridBounds, Vec<Cut>) = clip_box(p, &opt.window);
    let bounds: GridBounds = if wide(c) {
        let up: bool = upper(c);
        collapse(c, &opt.window, up)
    } else {
        c
    };
    (after, Some(PseudoPixel { bounds, cuts: made }))
}

/// The boxes that stand for pixels given by their corners, four pairs of a radial and
/// an azimuthal coordinate to a pixel. `rectangle` gives the rectangle of the area of a
/// pixel with a given bounding box, none where that box has no area; `wide` tells
/// whether a box spans more than half of the azimuthal range, and `upper` whether the
/// upper end of the range is then the nearer one.
pub fn pseudo_pixels<
    R: Fn(usize, GridBounds) -> Option<GridBounds>,
    W: Fn(GridBounds) -> bool,
    U: Fn(GridBounds) -> bool,
>(
    corners: &[u64],
    mask: Option<&[i8]>,
    opt: &PseudoOptions,
    rectangle: R,
    wide: W,
    upper: U,
) -> (boxes: Vec<Option<PseudoPixel>>)
    requires
        corners@.len() % 8 == 0,
        mask_fits(mask, corners@.len() as int / 8),
        forall|k: usize, x: GridBounds| #[trigger] rectangle.requires((k, x)),
        forall|x: GridBounds| #[trigger] wide.requires((x,)),
        forall|x: GridBounds| #[trigger] upper.requires((x,)),
    ensures
        boxes@.len() == corners@.len() / 8,
        exists|last: GridBounds|
            are_pseudo(corners@, mask, *opt, rectangle, wide, upper, boxes@, last),
{
    let size: usize = corners.len() / 8;
    let (min0, max0): (Vec<u64>, Vec<u64>) = corner_extremes(corners, 0);
    let (min1, max1): (Vec<u64>, Vec<u64>) = corner_extremes(corners, 1);
    let mut boxes: Vec<Option<PseudoPixel>> = Vec::new();
    let mut last: GridBounds = GridBounds { min0: ZERO, max0: ZERO, min1: ZERO, max1: ZERO };
    let mut i: usize = 0;
    while i < size
        invariant
            i <= size == corners@.len() / 8,
            mask_fits(mask, size as int),
            min0@ == corner_minima(corners@, 0),
            max0@ == corner_maxima(corners@, 0),
            min1@ == corner_minima(corners@, 1),
            max1@ == corner_maxima(corners@, 1),
            min0@.len() == size,
            max0@.len() == size,
            min1@.len() == size,
            max1@.len() == size,
            forall|k: usize, x: GridBounds| #[trigger] rectangle.requires((k, x)),
            forall|x: GridBounds| #[trigger] wide.requires((x,)),
            forall|x: GridBounds| #[trigger] upper.requires((x,)),
            boxes@.len() == i,
            are_pseudo(corners@, mask, *opt, rectangle, wide, upper, boxes@, last),
        decreases size - i,
    {
        let ghost listed = boxes@;
        let ghost before = last;
        if is_masked(mask, i) {
            boxes.push(None);
        } else {
            let b: GridBounds = GridBounds {
                min0: min0[i],
                max0: max0[i],
                min1: min1[i],
                max1: max1[i],
            };
            let (after, out): (GridBounds, Option<PseudoPixel>) = pseudo_pixel(
                i,
                b,
                opt,
                &rectangle,
                &wide,
                &upper,
                last,
            );
            last = after;
            boxes.push(out);
        }
        proof {
            assert(boxes@.drop_last() =~= listed);
            let k = boxes@.len() - 1;
            assert(k == i);
            if !masked_out(mask, k) {
                assert(is_pseudo(
                    k as usize,
                    bounding(corners@, k),
                    *opt,
                    rectangle,
                    wide,
                    upper,
                    before,
                    last,
                    boxes@.last(),
                ));
            }
        }
        i = i + 1;
    }
    boxes
}

/// The bounding box of a pixel of numbers holds its four corners, and each of its bounds is
/// that of one of them.
pub proof fn lemma_bounding_box(corners: Seq<u64>, i: int, k: int)
    requires
        0 <= i < corners.len() / 8,
        0 <= k < 4,
        forall|j: int| 8 * i <= j < 8 * i + 8 ==> !is_nan(#[trigger] corners[j]),
    ensures
        ({
            let b = bounding(corners, i);
            let r = |l: int| corners[8 * i + 2 * l];
            let t = |l: int| corners[8 * i + 2 * l + 1];
            &&& b.holds(r(k), t(k))
            &&& b.min0 == r(0) || b.min0 == r(1) || b.min0 == r(2) || b.min0 == r(3)
            &&& b.max0 == r(0) || b.max0 == r(1) || b.max0 == r(2) || b.max0 == r(3)
            &&& b.min1 == t(0) || b.min1 == t(1) || b.min1 == t(2) || b.min1 == t(3)
            &&& b.max1 == t(0) || b.max1 == t(1) || b.max1 == t(2) || b.max1 == t(3)
        }),
{
    lemma_extremes_of_four(
        corners[8 * i],
        corners[8 * i + 2],
        corners[8 * i + 4],
        corners[8 * i + 6],
    );
    lemma_extremes_of_four(
        corners[8 * i + 1],
        corners[8 * i + 3],
        corners[8 * i + 5],
        corners[8 * i + 7],
    );
}

/// A pixel has a box unless it is masked or its bounding box misses the window, and the box
/// of a pixel does not depend on the pixels after it.
pub proof fn lemma_which_pixels_have_boxes<
    R: Fn(usize, GridBounds) -> Option<GridBounds>,
    W: Fn(GridBounds) -> bool,
    U: Fn(GridBounds) -> bool,
>(
    corners: Seq<u64>,
    mask: Option<&[i8]>,
    opt: PseudoOptions,
    rectangle: R,
    wide: W,
    upper: U,
    boxes: Seq<Option<PseudoPixel>>,
    last: GridBounds,
    i: int,
)
    requires
        are_pseudo(corners, mask, opt, rectangle, wide, upper, boxes, last),
        0 <= i < boxes.len(),
    ensures
        boxes[i] is None <==> (mask is Some && (mask->0)@[i] != 0) || bounding(corners, i).misses(
            opt.window,
        ),
        exists|before: GridBounds| #[trigger]
            are_pseudo(corners, mask, opt, rectangle, wide, upper, boxes.take(i + 1), before),
    decreases boxes.len(),
{
    if i == boxes.len() - 1 {
        assert(boxes.take(i + 1) =~= boxes);
    } else {
        let j = boxes.len() - 1;
        let before = if masked_out(mask, j) {
            last
        } else {
            choose|before: GridBounds|
                are_pseudo(
                    corners,
                    mask,
                    opt,
                    rectangle,
                    wide,
                    upper,
                    boxes.drop_last(),
                    before,
                ) && #[trigger] is_pseudo(
                    j as usize,
                    bounding(corners, j),
                    opt,
                    rectangle,
                    wide,
                    upper,
                    before,
                    last,
                    boxes.last(),
                )
        };
        lemma_which_pixels_have_boxes(
            corners,
            mask,
            opt,
            rectangle,
            wide,
            upper,
            boxes.drop_last(),
            before,
            i,
        );
        assert(boxes.drop_last().take(i + 1) =~= boxes.take(i + 1));
    }
}

/// The box of a pixel lies in the window, and at radial positions that the pixel's
/// rectangle has.
pub proof fn lemma_boxes_lie_in_the_window<
    R: Fn(usize, GridBounds) -> Option<GridBounds>,
    W: Fn(GridBounds) -> bool,
    U: Fn(GridBounds) -> bool,
>(
    i: usize,
    b: GridBounds,
    opt: PseudoOptions,
    rectangle: R,
    wide: W,
    upper: U,
    before: GridBounds,
    after: GridBounds,
    q: PseudoPixel,
    r: u64,
    t: u64,
)
    requires
        is_pseudo(i, b, opt, rectangle, wide, upper, before, after, Some(q)),
        b.numeric(),
        after.numeric(),
        opt.window.has_a_point(),
        pseudo_bounds(b, after, opt.allow_pos0_neg, opt.chi_disc_at_pi).has_a_point(),
        !pseudo_bounds(b, after, opt.allow_pos0_neg, opt.chi_disc_at_pi).misses(opt.window),
        q.bounds.holds(r, t),
    ensures
        opt.window.holds(r, t),
        ({
            let p = pseudo_bounds(b, after, opt.allow_pos0_neg, opt.chi_disc_at_pi);
            &&& rank(p.min0) <= rank(r) <= rank(p.max0)
            &&& wide.ensures((clipped(p, opt.window),), false) && !wide.ensures(
                (clipped(p, opt.window),),
                true,
            ) ==> p.holds(r, t)
        }),
{
}

/// Which pixels are given a rectangle of their own: those that are neither masked nor out
/// of the window and have one.
pub open spec fn has_rectangle(
    corners: Seq<u64>,
    mask: Option<&[i8]>,
    opt: PseudoOptions,
    own: spec_fn(int) -> Option<GridBounds>,
    i: int,
) -> bool {
    !(mask is Some && (mask->0)@[i] != 0) && !bounding(corners, i).misses(opt.window) && own(i) is Some
}

/// The rectangle that a pixel without one is given is that of the last pixel before it that
/// has one: masked pixels and pixels out of the window do not count. Where there is none
/// before it, it is a point at the origin.
pub proof fn lemma_last_rectangle<
    R: Fn(usize, GridBounds) -> Option<GridBounds>,
    W: Fn(GridBounds) -> bool,
    U: Fn(GridBounds) -> bool,
>(
    corners: Seq<u64>,
    mask: Option<&[i8]>,
    opt: PseudoOptions,
    rectangle: R,
    wide: W,
    upper: U,
    boxes: Seq<Option<PseudoPixel>>,
    last: GridBounds,
    own: spec_fn(int) -> Option<GridBounds>,
)
    requires
        are_pseudo(corners, mask, opt, rectangle, wide, upper, boxes, last),
        boxes.len() <= usize::MAX,
        forall|i: usize, b: GridBounds, r: Option<GridBounds>| #[trigger]
            rectangle.ensures((i, b), r) ==> r == own(i as int),
    ensures
        ({
            let n = boxes.len() as int;
            ||| exists|j: int|
                0 <= j < n && #[trigger] has_rectangle(corners, mask, opt, own, j) && own(j) == Some(
                    last,
                ) && forall|k: int|
                    j < k < n ==> !#[trigger] has_rectangle(corners, mask, opt, own, k)
            ||| last == no_box() && forall|k: int|
                0 <= k < n ==> !#[trigger] has_rectangle(corners, mask, opt, own, k)
        }),
    decreases boxes.len(),
{
    if boxes.len() > 0 {
        let i = boxes.len() - 1;
        let before = if masked_out(mask, i) {
            last
        } else {
            choose|before: GridBounds|
                are_pseudo(
                    corners,
                    mask,
                    opt,
                    rectangle,
                    wide,
                    upper,
                    boxes.drop_last(),
                    before,
                ) && #[trigger] is_pseudo(
                    i as usize,
                    bounding(corners, i),
                    opt,
                    rectangle,
                    wide,
                    upper,
                    before,
                    last,
                    boxes.last(),
                )
        };
        lemma_last_rectangle(
            corners,
            mask,
            opt,
            rectangle,
            wide,
            upper,
            boxes.drop_last(),
            before,
            own,
        );
        if has_rectangle(corners, mask, opt, own, i) {
            assert(own(i) == Some(last));
        } else {
            assert(last == before);
            if !(last == no_box() && forall|k: int|
                0 <= k < i ==> !#[trigger] has_rectangle(corners, mask, opt, own, k)) {
                let j = choose|j: int|
                    0 <= j < i && #[trigger] has_rectangle(corners, mask, opt, own, j) && own(j)
                        == Some(before) && forall|k: int|
                        j < k < i ==> !#[trigger] has_rectangle(corners, mask, opt, own, k);
                assert(has_rectangle(corners, mask, opt, own, j));
            }
        }
    }
}

/// A box that is not too wide stays as it is. One that is too wide gives way to the stretch
/// of the window beyond it, on the upper side where `upper` says so, else on the lower.
pub proof fn lemma_settled_box<W: Fn(GridBounds) -> bool, U: Fn(GridBounds) -> bool>(
    c: GridBounds,
    window: GridBounds,
    wide: W,
    upper: U,
    out: GridBounds,
    is_wide: bool,
    is_upper: bool,
    r: u64,
    t: u64,
)
    requires
        is_settled(c, window, wide, upper, out),
        forall|b: bool| #[trigger] wide.ensures((c,), b) ==> b == is_wide,
        forall|b: bool| #[trigger] upper.ensures((c,), b) ==> b == is_upper,
        c.has_a_point(),
        window.has_a_point(),
        !c.exceeds(window),
    ensures
        !is_wide ==> out == c,
        is_wide ==> (out.holds(r, t) <==> rank(c.min0) <= rank(r) <= rank(c.max0) && rank(
            window.min1,
        ) <= rank(t) <= rank(window.max1) && (if is_upper {
            rank(t) >= rank(c.max1)
        } else {
            rank(t) <= rank(c.min1)
        })),
{
}

} // verus!
