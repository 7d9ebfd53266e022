//! Hill climbing on an image, as a peak is located.

use crate::grid::{flat, lemma_flat_bound, lemma_flat_cell, lemma_flat_inverse, lemma_flat_order};
use crate::ieee::{greater, gt, is_nan, nan, rank};
use vstd::prelude::*;

verus! {

/// A 2-D single-precision image, its values given as bit patterns, on which
/// peaks are located.
pub struct Bilinear<'a> {
    /// The image in row-major order.
    pub data: &'a [u32],
    /// Number of rows.
    pub height: usize,
    /// Number of columns.
    pub width: usize,
}

/// Cell `y` lies in the 3x3 neighbourhood of cell `x` (`x` itself lies in it).
pub open spec fn in_patch(height: int, width: int, x: int, y: int) -> bool {
    &&& 0 <= y < height * width
    &&& -1 <= y / width - x / width <= 1
    &&& -1 <= y % width - x % width <= 1
}

/// No cell of the neighbourhood of `x` is greater than `x`.
pub open spec fn is_summit(img: Seq<u32>, height: int, width: int, x: int) -> bool {
    forall|y: int| #[trigger] in_patch(height, width, x, y) ==> !gt(img[y], img[x])
}

/// One step of the climb goes from `x` to `y`: `y` is greater than `x`, no cell of
/// the neighbourhood is greater than `y`, and those before `y` are smaller than `y`.
pub open spec fn steps_to(img: Seq<u32>, height: int, width: int, x: int, y: int) -> bool {
    &&& in_patch(height, width, x, y)
    &&& gt(img[y], img[x])
    &&& forall|z: int| #[trigger]
        in_patch(height, width, x, z) ==> !gt(img[z], img[y]) && (z < y ==> is_nan(img[z]) || gt(
            img[y],
            img[z],
        ))
}

/// `route` is a climb, step by step, that ends on a summit.
pub open spec fn is_climb(img: Seq<u32>, height: int, width: int, route: Seq<int>) -> bool {
    &&& route.len() > 0
    &&& is_summit(img, height, width, route.last())
    &&& forall|k: int, l: int|
        0 <= k && l == k + 1 && l < route.len() ==> steps_to(
            img,
            height,
            width,
            #[trigger] route[k],
            #[trigger] route[l],
        )
}

/// The climb from `x` ends on `p`, the local maximum reached from `x`. A NaN is not left:
/// nothing is greater than it.
pub open spec fn is_local_maxi(img: Seq<u32>, height: int, width: int, x: int, p: int) -> bool {
    exists|route: Seq<int>| #[trigger]
        is_climb(img, height, width, route) && route[0] == x && route.last() == p
}

impl<'a> Bilinear<'a> {
    /// The image has as many values as rows times columns.
    pub open spec fn wf(&self) -> bool {
        self.data@.len() == self.height * self.width
    }

    /// Wraps a row-major image of shape `(height, width)`.
    pub fn new(data: &'a [u32], height: usize, width: usize) -> (s: Self)
        requires
            data@.len() == height * width,
        ensures
            s.wf(),
            s.data@ == data@,
            s.height == height,
            s.width == width,
    {
        Bilinear { data, height, width }
    }

    /// The value at row `r` and column `c`.
    pub fn at(&self, r: usize, c: usize) -> (v: u32)
        requires
            self.wf(),
            r < self.height,
            c < self.width,
        ensures
            v == self.data@[flat(r as int, c as int, self.width as int)],
    {
        let n: usize = self.data.len();
        proof {
            lemma_flat_bound(r as int, c as int, self.height as int, self.width as int);
        }
        self.data[r * self.width + c]
    }

    /// The first greatest value of the neighbourhood of `(r, c)` and its place,
    /// where it is greater than the value at `(r, c)`; that cell itself otherwise.
    fn steepest(&self, r: usize, c: usize) -> (res: (usize, usize))
        requires
            self.wf(),
            r < self.height,
            c < self.width,
            !is_nan(self.data@[flat(r as int, c as int, self.width as int)]),
        ensures
            res.0 < self.height,
            res.1 < self.width,
            ({
                let x = flat(r as int, c as int, self.width as int);
                let y = flat(res.0 as int, res.1 as int, self.width as int);
                if is_summit(self.data@, self.height as int, self.width as int, x) {
                    y == x
                } else {
                    steps_to(self.data@, self.height as int, self.width as int, x, y)
                }
            }),
    {
        let ghost h = self.height as int;
        let ghost w = self.width as int;
        let ghost img = self.data@;
        let ghost x = flat(r as int, c as int, w);
        let mut value: u32 = self.at(r, c);
        let mut new0: usize = r;
        let mut new1: usize = c;
        let start0: usize = if r > 0 { r - 1 } else { 0 };
        let stop0: usize = if self.height - r > 2 { r + 2 } else { self.height };
        let start1: usize = if c > 0 { c - 1 } else { 0 };
        let stop1: usize = if self.width - c > 2 { c + 2 } else { self.width };
        let mut i0: usize = start0;
        while i0 < stop0
            invariant
                self.wf(),
                h == self.height,
                w == self.width,
                img == self.data@,
                r < h,
                c < w,
                x == flat(r as int, c as int, w),
                !is_nan(img[x]),
                start0 <= i0 <= stop0 <= h,
                stop0 <= r + 2,
                start0 == r || start0 + 1 == r,
                r > 0 ==> start0 + 1 == r,
                c > 0 ==> start1 + 1 == c,
                stop0 == h || stop0 == r + 2,
                stop1 == w || stop1 == c + 2,
                start1 == c || start1 + 1 == c,
                start1 <= stop1 <= w,
                stop1 <= c + 2,
                new0 < h,
                new1 < w,
                value == img[flat(new0 as int, new1 as int, w)],
                !is_nan(value),
                gt(value, img[x]) ==> start0 <= new0 < i0 && start1 <= new1 < stop1,
                !gt(value, img[x]) ==> new0 == r && new1 == c,
                forall|a: int, b: int|
                    start0 <= a < i0 && start1 <= b < stop1 ==> !gt(
                        img[#[trigger] flat(a, b, w)],
                        value,
                    ),
                gt(value, img[x]) ==> forall|a: int, b: int|
                    start0 <= a < i0 && start1 <= b < stop1 && (a < new0 || (a == new0 && b < new1))
                        ==> is_nan(img[#[trigger] flat(a, b, w)]) || gt(value, img[flat(a, b, w)]),
            decreases stop0 - i0,
        {
            let mut i1: usize = start1;
            while i1 < stop1
                invariant
                    self.wf(),
                    h == self.height,
                    w == self.width,
                    img == self.data@,
                    r < h,
                    c < w,
                    x == flat(r as int, c as int, w),
                    !is_nan(img[x]),
                    start0 <= i0 < stop0 <= h,
                    start1 <= i1 <= stop1 <= w,
                    new0 < h,
                    new1 < w,
                    value == img[flat(new0 as int, new1 as int, w)],
                    !is_nan(value),
                    gt(value, img[x]) ==> start0 <= new0 <= i0 && start1 <= new1 < stop1 && (new0
                        < i0 || new1 < i1),
                    !gt(value, img[x]) ==> new0 == r && new1 == c,
                    forall|a: int, b: int|
                        start0 <= a <= i0 && start1 <= b < stop1 && (a < i0 || b < i1) ==> !gt(
                            img[#[trigger] flat(a, b, w)],
                            value,
                        ),
                    gt(value, img[x]) ==> forall|a: int, b: int|
                        start0 <= a <= i0 && start1 <= b < stop1 && (a < i0 || b < i1) && (a < new0
                            || (a == new0 && b < new1)) ==> is_nan(img[#[trigger] flat(a, b, w)])
                            || gt(value, img[flat(a, b, w)]),
                decreases stop1 - i1,
            {
                let tmp: u32 = self.at(i0, i1);
                if greater(tmp, value) {
                    new0 = i0;
                    new1 = i1;
                    value = tmp;
                }
                i1 = i1 + 1;
            }
            i0 = i0 + 1;
        }
        proof {
            let y = flat(new0 as int, new1 as int, w);
            lemma_flat_inverse(r as int, c as int, w);
            lemma_flat_inverse(new0 as int, new1 as int, w);
            lemma_flat_bound(new0 as int, new1 as int, h, w);
            assert forall|z: int| #[trigger] in_patch(h, w, x, z) implies !gt(img[z], value) && (gt(
                value,
                img[x],
            ) && z < y ==> is_nan(img[z]) || gt(value, img[z])) by {
                lemma_flat_cell(z, h, w);
                lemma_flat_order(z, y, w);
                assert(flat(z / w, z % w, w) == z);
            }
            if gt(value, img[x]) {
                assert(in_patch(h, w, x, y));
            }
        }
        (new0, new1)
    }

    /// Discrete hill-climb local maximum: from flat index `x`, repeatedly step to
    /// the largest value in the 3x3 neighbourhood until no neighbour is strictly
    /// larger. Returns the flat index of the maximum.
    pub fn local_maxi_index(&self, x: usize) -> (p: usize)
        requires
            self.wf(),
            x < self.data@.len(),
        ensures
            p < self.data@.len(),
            is_local_maxi(
                self.data@,
                self.height as int,
                self.width as int,
                x as int,
                p as int,
            ),
    {
        let ghost h = self.height as int;
        let ghost w = self.width as int;
        let ghost img = self.data@;
        let n: usize = self.data.len();
        proof {
            lemma_flat_cell(x as int, h, w);
        }
        if nan(self.data[x]) {
            proof {
                let stay = seq![x as int];
                assert(is_climb(img, h, w, stay));
                assert(stay[0] == x && stay.last() == x);
            }
            return x;
        }
        let mut r: usize = x / self.width;
        let mut c: usize = x % self.width;
        let ghost mut route: Seq<int> = seq![x as int];
        let mut climbing: bool = true;
        while climbing
            invariant
                self.wf(),
                h == self.height,
                w == self.width,
                img == self.data@,
                n == img.len(),
                r < h,
                c < w,
                route.len() > 0,
                route[0] == x,
                route.last() == flat(r as int, c as int, w),
                !is_nan(img[route.last()]),
                forall|k: int, l: int|
                    0 <= k && l == k + 1 && l < route.len() ==> steps_to(
                        img,
                        h,
                        w,
                        #[trigger] route[k],
                        #[trigger] route[l],
                    ),
                !climbing ==> is_summit(img, h, w, route.last()),
            decreases 0x7f80_0000 - rank(img[route.last()]), if climbing { 1int } else { 0int },
        {
            let (new0, new1): (usize, usize) = self.steepest(r, c);
            let ghost before = route;
            if new0 == r && new1 == c {
                climbing = false;
                assert(!steps_to(img, h, w, route.last(), route.last()));
            } else {
                proof {
                    let y = flat(new0 as int, new1 as int, w);
                    lemma_flat_inverse(r as int, c as int, w);
                    lemma_flat_inverse(new0 as int, new1 as int, w);
                    route = route.push(y);
                    assert forall|k: int, l: int|
                        0 <= k && l == k + 1 && l < route.len() implies steps_to(
                        img,
                        h,
                        w,
                        #[trigger] route[k],
                        #[trigger] route[l],
                    ) by {
                        if l < before.len() {
                            assert(steps_to(img, h, w, before[k], before[l]));
                        }
                    }
                }
                r = new0;
                c = new1;
            }
        }
        proof {
            assert(is_climb(img, h, w, route));
            lemma_flat_bound(r as int, c as int, h, w);
        }
        r * self.width + c
    }

    /// The local maximum reached from the pixel `(row, col)` and the values that a
    /// second-order expansion around it reads.
    pub fn local_maxi(&self, row: i64, col: i64) -> (m: LocalMaxi)
        requires
            self.wf(),
            i64::MIN <= row * self.width <= i64::MAX,
            i64::MIN <= row * self.width + col <= i64::MAX,
            self.width <= i64::MAX,
            0 < self.data@.len(),
            row * self.width + col < self.data@.len(),
        ensures
            ({
                let start = row * self.width + col;
                is_local_maxi(
                    self.data@,
                    self.height as int,
                    self.width as int,
                    if start < 0 {
                        0
                    } else {
                        start
                    },
                    flat(m.row as int, m.col as int, self.width as int),
                )
            }),
            m.row < self.height,
            m.col < self.width,
            m.patch is Some <==> 0 < m.row < self.height - 1 && 0 < m.col < self.width - 1,
            m.patch is Some ==> m.patch->0@ == taylor_patch(
                self.data@,
                self.width as int,
                m.row as int,
                m.col as int,
            ),
    {
        let n: usize = self.data.len();
        let start: i64 = row * (self.width as i64) + col;
        let seed: usize = if start < 0 {
            0
        } else {
            start as usize
        };
        let res: usize = self.local_maxi_index(seed);
        proof {
            lemma_flat_cell(res as int, self.height as int, self.width as int);
        }
        let r: usize = res / self.width;
        let c: usize = res % self.width;
        if r > 0 && r < self.height - 1 && c > 0 && c < self.width - 1 {
            let patch: [u32; 9] = [
                self.at(r - 1, c - 1),
                self.at(r - 1, c),
                self.at(r - 1, c + 1),
                self.at(r, c - 1),
                self.at(r, c),
                self.at(r, c + 1),
                self.at(r + 1, c - 1),
                self.at(r + 1, c),
                self.at(r + 1, c + 1),
            ];
            assert(patch@ =~= taylor_patch(self.data@, self.width as int, r as int, c as int));
            LocalMaxi { row: r, col: c, patch: Some(patch) }
        } else {
            LocalMaxi { row: r, col: c, patch: None }
        }
    }
}

/// A local maximum: its pixel and, unless it lies on the rim of the image, the
/// 3x3 patch around it in row-major order.
pub struct LocalMaxi {
    /// Row of the maximum.
    pub row: usize,
    /// Column of the maximum.
    pub col: usize,
    /// The values around the maximum.
    pub patch: Option<[u32; 9]>,
}

/// `p` is the position of a maximum: on the rim of the image the pixel itself, else
/// what `taylor` gives, else the centre of mass, else the pixel.
pub open spec fn is_refined<
    P,
    A: Fn([u32; 9], usize, usize) -> Option<P>,
    B: Fn([u32; 9], usize, usize) -> Option<P>,
    Z: Fn(usize, usize) -> P,
>(m: LocalMaxi, taylor: A, mass: B, pixel: Z, p: P) -> bool {
    match m.patch {
        None => pixel.ensures((m.row, m.col), p),
        Some(patch) => exists|t: Option<P>| #[trigger]
            taylor.ensures((patch, m.row, m.col), t) && match t {
                Some(x) => p == x,
                None => is_centred(m, patch, mass, pixel, p),
            },
    }
}

/// `p` is the centre of mass of the patch, or the pixel where there is none.
pub open spec fn is_centred<
    P,
    B: Fn([u32; 9], usize, usize) -> Option<P>,
    Z: Fn(usize, usize) -> P,
>(m: LocalMaxi, patch: [u32; 9], mass: B, pixel: Z, p: P) -> bool {
    exists|t: Option<P>| #[trigger]
        mass.ensures((patch, m.row, m.col), t) && match t {
            Some(x) => p == x,
            None => pixel.ensures((m.row, m.col), p),
        }
}

impl LocalMaxi {
    /// Refines the position of the maximum. `taylor` gives the maximum of a
    /// second-order expansion of the patch, unless that is singular or farther than a
    /// pixel away; `mass` the centre of mass of the patch, unless the patch has none;
    /// `pixel` the position of the pixel itself.
    pub fn refine<
        P,
        A: Fn([u32; 9], usize, usize) -> Option<P>,
        B: Fn([u32; 9], usize, usize) -> Option<P>,
        Z: Fn(usize, usize) -> P,
    >(&self, taylor: A, mass: B, pixel: Z) -> (p: P)
        requires
            forall|w: [u32; 9], r: usize, c: usize| #[trigger] taylor.requires((w, r, c)),
            forall|w: [u32; 9], r: usize, c: usize| #[trigger] mass.requires((w, r, c)),
            forall|r: usize, c: usize| #[trigger] pixel.requires((r, c)),
        ensures
            is_refined(*self, taylor, mass, pixel, p),
    {
        if let Some(patch) = self.patch {
            let t: Option<P> = taylor(patch, self.row, self.col);
            if let Some(x) = t {
                return x;
            }
            let u: Option<P> = mass(patch, self.row, self.col);
            if let Some(y) = u {
                return y;
            }
        }
        pixel(self.row, self.col)
    }
}

/// The 3x3 patch around `(r, c)` in row-major order.
pub open spec fn taylor_patch(img: Seq<u32>, width: int, r: int, c: int) -> Seq<u32> {
    seq![
        img[flat(r - 1, c - 1, width)],
        img[flat(r - 1, c, width)],
        img[flat(r - 1, c + 1, width)],
        img[flat(r, c - 1, width)],
        img[flat(r, c, width)],
        img[flat(r, c + 1, width)],
        img[flat(r + 1, c - 1, width)],
        img[flat(r + 1, c, width)],
        img[flat(r + 1, c + 1, width)],
    ]
}

/// The next cell of a climb is determined.
proof fn lemma_step_unique(img: Seq<u32>, height: int, width: int, x: int, y: int, z: int)
    requires
        steps_to(img, height, width, x, y),
        steps_to(img, height, width, x, z),
    ensures
        y == z,
{
    assert(in_patch(height, width, x, y) && in_patch(height, width, x, z));
}

/// Two climbs from one cell agree as far as both go.
proof fn lemma_climb_prefix(
    img: Seq<u32>,
    height: int,
    width: int,
    a: Seq<int>,
    b: Seq<int>,
    k: int,
)
    requires
        is_climb(img, height, width, a),
        is_climb(img, height, width, b),
        a[0] == b[0],
        0 <= k < a.len(),
    ensures
        k < b.len(),
        a[k] == b[k],
    decreases k,
{
    if k > 0 {
        lemma_climb_prefix(img, height, width, a, b, k - 1);
        assert(steps_to(img, height, width, a[k - 1], a[k]));
        if k == b.len() {
            assert(in_patch(height, width, a[k - 1], a[k]));
            assert(b.last() == a[k - 1]);
        }
        assert(steps_to(img, height, width, b[k - 1], b[k]));
        lemma_step_unique(img, height, width, a[k - 1], a[k], b[k]);
    }
}

/// The climb from a cell ends on one summit only.
pub proof fn lemma_local_maxi_unique(
    img: Seq<u32>,
    height: int,
    width: int,
    x: int,
    p: int,
    q: int,
)
    requires
        is_local_maxi(img, height, width, x, p),
        is_local_maxi(img, height, width, x, q),
    ensures
        p == q,
{
    let a = choose|route: Seq<int>| #[trigger]
        is_climb(img, height, width, route) && route[0] == x && route.last() == p;
    let b = choose|route: Seq<int>| #[trigger]
        is_climb(img, height, width, route) && route[0] == x && route.last() == q;
    lemma_climb_prefix(img, height, width, a, b, a.len() - 1);
    lemma_climb_prefix(img, height, width, b, a, b.len() - 1);
}

/// A climb does not lose height.
proof fn lemma_climb_rises(img: Seq<u32>, height: int, width: int, route: Seq<int>, k: int)
    requires
        is_climb(img, height, width, route),
        0 <= k < route.len(),
    ensures
        k == 0 || gt(img[route[k]], img[route[0]]),
    decreases k,
{
    if k > 0 {
        lemma_climb_rises(img, height, width, route, k - 1);
        assert(steps_to(img, height, width, route[k - 1], route[k]));
    }
}

/// The local maximum is the start itself or greater than it, and no cell around it is
/// greater.
pub proof fn lemma_local_maxi_is_summit(img: Seq<u32>, height: int, width: int, x: int, p: int)
    requires
        is_local_maxi(img, height, width, x, p),
    ensures
        p == x || gt(img[p], img[x]),
        is_summit(img, height, width, p),
{
    let route = choose|route: Seq<int>| #[trigger]
        is_climb(img, height, width, route) && route[0] == x && route.last() == p;
    lemma_climb_rises(img, height, width, route, route.len() - 1);
}

/// The summit of a climb is its own local maximum.
pub proof fn lemma_local_maxi_fixed(img: Seq<u32>, height: int, width: int, x: int, p: int)
    requires
        is_local_maxi(img, height, width, x, p),
    ensures
        is_local_maxi(img, height, width, p, p),
{
    let route = choose|route: Seq<int>| #[trigger]
        is_climb(img, height, width, route) && route[0] == x && route.last() == p;
    let end = seq![p];
    assert(is_climb(img, height, width, end));
    assert(end[0] == p && end.last() == p);
}

/// The neighbourhood of a cell is the square of the cells at most one row and one column
/// away, as far as they lie in the image; it does not reach around the ends of a row.
pub proof fn lemma_patch_is_square(height: int, width: int, r: int, c: int, a: int, b: int)
    requires
        0 <= r < height && 0 <= c < width,
        0 <= a < height && 0 <= b < width,
    ensures
        in_patch(height, width, r * width + c, a * width + b) <==> -1 <= a - r <= 1 && -1 <= b - c
            <= 1,
{
    lemma_flat_inverse(r, c, width);
    lemma_flat_inverse(a, b, width);
    lemma_flat_bound(a, b, height, width);
}

/// The values around a maximum stand row by row: the one `dr` rows and `dc` columns away
/// is at `3 * (dr + 1) + (dc + 1)`.
pub proof fn lemma_patch_layout(img: Seq<u32>, width: int, r: int, c: int, dr: int, dc: int)
    requires
        -1 <= dr <= 1,
        -1 <= dc <= 1,
    ensures
        taylor_patch(img, width, r, c).len() == 9,
        taylor_patch(img, width, r, c)[3 * (dr + 1) + (dc + 1)] == img[(r + dr) * width + (c + dc)],
{
}

/// The patch around a local maximum has its greatest value in the middle.
pub proof fn lemma_patch_peaks_in_the_middle(
    img: Seq<u32>,
    height: int,
    width: int,
    x: int,
    r: int,
    c: int,
    k: int,
)
    requires
        is_local_maxi(img, height, width, x, flat(r, c, width)),
        0 < r < height - 1,
        0 < c < width - 1,
        0 <= k < 9,
    ensures
        !gt(taylor_patch(img, width, r, c)[k], taylor_patch(img, width, r, c)[4]),
{
    let route = choose|route: Seq<int>| #[trigger]
        is_climb(img, height, width, route) && route[0] == x && route.last() == flat(r, c, width);
    let (dr, dc) = (k / 3 - 1, k % 3 - 1);
    lemma_patch_layout(img, width, r, c, dr, dc);
    lemma_patch_is_square(height, width, r, c, r + dr, c + dc);
    assert(in_patch(height, width, flat(r, c, width), flat(r + dr, c + dc, width)));
}

/// A climb goes up: wherever it is left, the next cell is greater.
pub proof fn lemma_climb_goes_up(img: Seq<u32>, height: int, width: int, route: Seq<int>, k: int, l: int)
    requires
        is_climb(img, height, width, route),
        0 <= k < l < route.len(),
    ensures
        gt(img[route[l]], img[route[k]]),
    decreases l - k,
{
    assert(steps_to(img, height, width, route[l - 1], route[l]));
    if k < l - 1 {
        lemma_climb_goes_up(img, height, width, route, k, l - 1);
    }
}

/// The position of a maximum is the one of the second-order expansion wherever there is
/// one, else the centre of mass wherever there is one, else the pixel. On the rim of the
/// image it is the pixel.
pub proof fn lemma_refined_position<
    P,
    A: Fn([u32; 9], usize, usize) -> Option<P>,
    B: Fn([u32; 9], usize, usize) -> Option<P>,
    Z: Fn(usize, usize) -> P,
>(
    m: LocalMaxi,
    taylor: A,
    mass: B,
    pixel: Z,
    p: P,
    expansion: Option<P>,
    centre: Option<P>,
    cell: P,
)
    requires
        is_refined(m, taylor, mass, pixel, p),
        m.patch matches Some(w) ==> forall|t: Option<P>| #[trigger]
            taylor.ensures((w, m.row, m.col), t) ==> t == expansion,
        m.patch matches Some(w) ==> forall|t: Option<P>| #[trigger]
            mass.ensures((w, m.row, m.col), t) ==> t == centre,
        forall|t: P| #[trigger] pixel.ensures((m.row, m.col), t) ==> t == cell,
    ensures
        m.patch is None ==> p == cell,
        m.patch is Some && expansion is Some ==> p == expansion->0,
        m.patch is Some && expansion is None && centre is Some ==> p == centre->0,
        m.patch is Some && expansion is None && centre is None ==> p == cell,
{
}

/// A step of a climb goes to the greatest value around a cell, to the first of equal ones.
pub proof fn lemma_step_goes_highest(img: Seq<u32>, height: int, width: int, x: int, y: int, z: int)
    requires
        steps_to(img, height, width, x, y),
        in_patch(height, width, x, z),
        !is_nan(img[z]),
    ensures
        rank(img[z]) < rank(img[y]) || rank(img[z]) == rank(img[y]) && y <= z,
        rank(img[x]) < rank(img[y]),
{
}

} // verus!
