//! The exact Euclidean distance transform of a binary image, with the position
//! of the nearest background pixel.
//!
//! The transform is separable. A first pass finds, in every column, the nearest
//! background row. A second pass then finds in every row the column whose
//! parabola `height + (x - p)^2` is lowest, by sweeping the lower envelope of the
//! parabolas from left to right.

use crate::grid::{flat, lemma_flat_bound};
use vstd::prelude::*;

verus! {

/// The squared distance that stands where an image has no background at all.
pub const NO_BACKGROUND: i64 = 0x1fff_ffff_ffff_ffff;

/// Result of [`distance_transform_edt`]: for every pixel, the `(row, col)` index
/// of the nearest background (`false`) pixel, plus the squared Euclidean
/// distance to it.
pub struct EdtResult {
    /// Nearest-background row index per pixel (row-major).
    pub idx_row: Vec<i32>,
    /// Nearest-background column index per pixel.
    pub idx_col: Vec<i32>,
    /// Exact squared distance to the nearest background pixel.
    pub dist2: Vec<i64>,
}

/// Cell `(r, c)` is a background pixel of the image.
pub open spec fn is_background(
    input: Seq<bool>,
    rows: int,
    cols: int,
    r: int,
    c: int,
) -> bool {
    0 <= r < rows && 0 <= c < cols && !input[flat(r, c, cols)]
}

/// The squared Euclidean distance between two cells.
pub open spec fn squared_distance(r: int, c: int, a: int, b: int) -> int {
    (r - a) * (r - a) + (c - b) * (c - b)
}

/// `(f, p)` is the background pixel nearest to `(r, c)`; among the nearest ones,
/// that of the smallest column and in it that of the smallest row.
pub open spec fn is_nearest(
    input: Seq<bool>,
    rows: int,
    cols: int,
    r: int,
    c: int,
    f: int,
    p: int,
) -> bool {
    &&& is_background(input, rows, cols, f, p)
    &&& forall|a: int, b: int| #[trigger]
        is_background(input, rows, cols, a, b) ==> {
            ||| squared_distance(r, c, f, p) < squared_distance(r, c, a, b)
            ||| squared_distance(r, c, f, p) == squared_distance(r, c, a, b) && (p < b || (p == b
                && f <= a))
        }
}

/// What the transform holds for cell `(r, c)`: the nearest background pixel and
/// its squared distance, or `-1`, `-1` and [`NO_BACKGROUND`] in an image without
/// background.
pub open spec fn edt_cell(
    input: Seq<bool>,
    rows: int,
    cols: int,
    r: int,
    c: int,
    f: i32,
    p: i32,
    d2: i64,
) -> bool {
    if exists|a: int, b: int| #[trigger] is_background(input, rows, cols, a, b) {
        &&& is_nearest(input, rows, cols, r, c, f as int, p as int)
        &&& d2 == squared_distance(r, c, f as int, p as int)
    } else {
        f == -1 && p == -1 && d2 == NO_BACKGROUND
    }
}

/// `near` is the row of the background pixel of column `c` nearest to row `r`,
/// the smaller of two at the same distance; `-1` in a column without background.
pub open spec fn column_nearest(
    input: Seq<bool>,
    rows: int,
    cols: int,
    c: int,
    r: int,
    near: int,
) -> bool {
    if near == -1 {
        forall|a: int| !#[trigger] is_background(input, rows, cols, a, c)
    } else {
        &&& is_background(input, rows, cols, near, c)
        &&& forall|a: int| #[trigger]
            is_background(input, rows, cols, a, c) ==> {
                ||| gap(r, near) < gap(r, a)
                ||| gap(r, near) == gap(r, a) && near <= a
            }
    }
}

/// The distance of two rows.
pub open spec fn gap(r: int, a: int) -> int {
    if r >= a {
        r - a
    } else {
        a - r
    }
}

/// For every row, the nearest background row of column `c`.
fn nearest_in_column(input: &[bool], rows: usize, cols: usize, c: usize) -> (near: Vec<i32>)
    requires
        input@.len() == rows * cols,
        rows <= i32::MAX,
        c < cols,
    ensures
        near@.len() == rows,
        forall|r: int|
            0 <= r < rows ==> column_nearest(
                input@,
                rows as int,
                cols as int,
                c as int,
                r,
                #[trigger] near@[r] as int,
            ),
{
    let ghost img = input@;
    let ghost h = rows as int;
    let ghost w = cols as int;
    let n: usize = input.len();
    let mut near: Vec<i32> = Vec::new();
    let mut last: i32 = -1;
    let mut r: usize = 0;
    while r < rows
        invariant
            img == input@,
            h == rows,
            w == cols,
            n == img.len() == rows * cols,
            rows <= i32::MAX,
            c < cols,
            r <= rows,
            near@.len() == r,
            -1 <= last < r,
            last >= 0 ==> is_background(img, h, w, last as int, c as int),
            forall|a: int| last < a < r ==> !#[trigger] is_background(img, h, w, a, c as int),
            forall|b: int|
                0 <= b < r ==> -1 <= #[trigger] near@[b] <= b && (near@[b] >= 0 ==> is_background(
                    img,
                    h,
                    w,
                    near@[b] as int,
                    c as int,
                )),
            forall|b: int, a: int|
                0 <= b < r && #[trigger] near@[b] < a <= b ==> !#[trigger] is_background(
                    img,
                    h,
                    w,
                    a,
                    c as int,
                ),
        decreases rows - r,
    {
        proof {
            lemma_flat_bound(r as int, c as int, h, w);
        }
        if !input[r * cols + c] {
            last = r as i32;
        }
        near.push(last);
        r = r + 1;
    }
    let ghost above = near@;
    let mut last: i32 = -1;
    let mut r: usize = rows;
    while r > 0
        invariant
            img == input@,
            h == rows,
            w == cols,
            n == img.len() == rows * cols,
            rows <= i32::MAX,
            c < cols,
            r <= rows,
            near@.len() == rows,
            above.len() == rows,
            last == -1 || r <= last < rows,
            last >= 0 ==> is_background(img, h, w, last as int, c as int),
            forall|a: int|
                r <= a && (last == -1 || a < last) ==> !#[trigger] is_background(
                    img,
                    h,
                    w,
                    a,
                    c as int,
                ),
            forall|b: int|
                0 <= b < rows ==> -1 <= #[trigger] above[b] <= b && (above[b] >= 0
                    ==> is_background(img, h, w, above[b] as int, c as int)),
            forall|b: int, a: int|
                0 <= b < rows && #[trigger] above[b] < a <= b ==> !#[trigger] is_background(
                    img,
                    h,
                    w,
                    a,
                    c as int,
                ),
            forall|b: int| 0 <= b < r ==> #[trigger] near@[b] == above[b],
            forall|b: int|
                r <= b < rows ==> column_nearest(
                    img,
                    h,
                    w,
                    c as int,
                    b,
                    #[trigger] near@[b] as int,
                ),
        decreases r,
    {
        r = r - 1;
        proof {
            lemma_flat_bound(r as int, c as int, h, w);
        }
        if !input[r * cols + c] {
            last = r as i32;
        }
        assert(near@[r as int] == above[r as int]);
        if last >= 0 && (near[r] < 0 || last - (r as i32) < (r as i32) - near[r]) {
            near[r] = last;
        }
    }
    near
}

/// The height of the parabola of column `p` in row `r`: the squared distance to
/// the nearest background row of that column.
spec fn height(near: Seq<i32>, r: int, p: int) -> int {
    (r - near[p]) * (r - near[p])
}

/// The squared distance from `(r, x)` to the nearest background pixel of column `p`.
spec fn cost(near: Seq<i32>, r: int, p: int, x: int) -> int {
    height(near, r, p) + (x - p) * (x - p)
}

/// Column `p` is nearer to `x` than column `q`, or as near and not to its right.
spec fn no_worse(near: Seq<i32>, r: int, p: int, q: int, x: int) -> bool {
    cost(near, r, p, x) < cost(near, r, q, x) || (cost(near, r, p, x) == cost(near, r, q, x) && p
        <= q)
}

/// Twice the position where the parabola of `q` crosses that of `p`, times `q - p`.
spec fn crossing(near: Seq<i32>, r: int, p: int, q: int) -> int {
    height(near, r, q) - height(near, r, p) + q * q - p * p
}

/// `x` lies to the right of the crossing of the parabolas of `p` and `q`.
spec fn beyond(near: Seq<i32>, r: int, p: int, q: int, x: int) -> bool {
    2 * x * (q - p) > crossing(near, r, p, q)
}

/// Right of the crossing, and only there, the parabola of the right column is lower.
proof fn lemma_beyond(near: Seq<i32>, r: int, p: int, q: int, x: int)
    ensures
        beyond(near, r, p, q, x) <==> cost(near, r, q, x) < cost(near, r, p, x),
{
    let hp = height(near, r, p);
    let hq = height(near, r, q);
    assert((x - p) * (x - p) - (x - q) * (x - q) == 2 * x * (q - p) - q * q + p * p)
        by (nonlinear_arith);
}

/// The crossing of the pair `(n1, d1)` lies at or left of that of the pair `(n2, d2)`:
/// what is beyond the second is beyond the first.
proof fn lemma_crossing_order(n1: int, d1: int, n2: int, d2: int, x: int)
    requires
        d1 > 0,
        d2 > 0,
        n1 * d2 <= n2 * d1,
        2 * x * d2 > n2,
    ensures
        2 * x * d1 > n1,
{
    assert(2 * x * d2 * d1 > n2 * d1) by (nonlinear_arith)
        requires
            2 * x * d2 > n2,
            d1 > 0,
    ;
    assert(2 * x * d2 * d1 == 2 * x * d1 * d2) by (nonlinear_arith);
    assert(2 * x * d1 > n1) by (nonlinear_arith)
        requires
            2 * x * d1 * d2 > n1 * d2,
            d2 > 0,
    ;
}

/// The columns kept on the stack `v` are, from left to right, candidates whose
/// crossings do not go back.
spec fn envelope(near: Seq<i32>, r: int, v: Seq<usize>, upto: int) -> bool {
    &&& forall|j: int| 0 <= j < v.len() ==> #[trigger] v[j] < upto && near[v[j] as int] >= 0
    &&& forall|i: int, j: int| 0 <= i < j < v.len() ==> #[trigger] v[i] < #[trigger] v[j]
    &&& forall|j: int, x: int|
        1 <= j < v.len() - 1 && #[trigger] beyond_step(near, r, v, j + 1, x) ==> beyond_step(
            near,
            r,
            v,
            j,
            x,
        )
}

/// `x` lies beyond the crossing of the stack's columns `j - 1` and `j`.
spec fn beyond_step(near: Seq<i32>, r: int, v: Seq<usize>, j: int, x: int) -> bool {
    beyond(near, r, v[j - 1] as int, v[j] as int, x)
}

/// Some column of the stack is no worse than column `p` at `x`.
spec fn covered(near: Seq<i32>, r: int, v: Seq<usize>, p: int, x: int) -> bool {
    exists|j: int| 0 <= j < v.len() && no_worse(near, r, #[trigger] v[j] as int, p, x)
}

/// The heights and crossings of a row fit the machine's integers.
spec fn row_bounds(near: Seq<i32>, r: int) -> bool {
    &&& 0 <= r < i32::MAX
    &&& near.len() <= i32::MAX
    &&& forall|p: int| 0 <= p < near.len() ==> -1 <= #[trigger] near[p] < i32::MAX
}

/// Heights and crossings stay within 63 bits.
proof fn lemma_row_bounds(near: Seq<i32>, r: int, p: int, q: int)
    requires
        row_bounds(near, r),
        0 <= p < near.len(),
        0 <= q < near.len(),
        near[p] >= 0,
        near[q] >= 0,
    ensures
        0 <= height(near, r, p) <= 0x3fff_ffff_0000_0001,
        0 <= p * p <= 0x3fff_ffff_0000_0001,
        0 <= (q - p) * (q - p) <= 0x3fff_ffff_0000_0001,
        -0x7fff_fffe_0000_0002 <= crossing(near, r, p, q) <= 0x7fff_fffe_0000_0002,
{
    lemma_square_bound(r - near[p]);
    lemma_square_bound(r - near[q]);
    lemma_square_bound(p);
    lemma_square_bound(q);
    lemma_square_bound(q - p);
}

proof fn lemma_square_bound(d: int)
    requires
        -0x7fff_ffff <= d <= 0x7fff_ffff,
    ensures
        0 <= d * d <= 0x3fff_ffff_0000_0001,
{
    assert(0 <= d * d <= 0x7fff_ffff * 0x7fff_ffff) by (nonlinear_arith)
        requires
            -0x7fff_ffff <= d <= 0x7fff_ffff,
    ;
}

/// The value of [`crossing`].
fn crossing_of(near: &Vec<i32>, r: usize, p: usize, q: usize) -> (n: i128)
    requires
        row_bounds(near@, r as int),
        p < near@.len(),
        q < near@.len(),
        near@[p as int] >= 0,
        near@[q as int] >= 0,
    ensures
        n == crossing(near@, r as int, p as int, q as int),
        -0x7fff_fffe_0000_0002 <= n <= 0x7fff_fffe_0000_0002,
{
    proof {
        lemma_row_bounds(near@, r as int, p as int, q as int);
        lemma_row_bounds(near@, r as int, q as int, p as int);
    }
    let a: i128 = r as i128 - near[q] as i128;
    let b: i128 = r as i128 - near[p] as i128;
    let qq: i128 = q as i128 * q as i128;
    let pp: i128 = p as i128 * p as i128;
    a * a - b * b + qq - pp
}

/// Taking the last column off the stack keeps the lower envelope, when the next
/// column `q` crosses it no later than it crosses its predecessor.
proof fn lemma_pop(near: Seq<i32>, r: int, v: Seq<usize>, q: int, x: int, p: int)
    requires
        v.len() >= 2,
        forall|i: int, j: int| 0 <= i < j < v.len() ==> #[trigger] v[i] < #[trigger] v[j],
        v.last() < q,
        crossing(near, r, v.last() as int, q) * (v.last() - v[v.len() - 2]) <= crossing(
            near,
            r,
            v[v.len() - 2] as int,
            v.last() as int,
        ) * (q - v.last()),
        covered(near, r, v, p, x) || no_worse(near, r, q, p, x),
    ensures
        covered(near, r, v.drop_last(), p, x) || no_worse(near, r, q, p, x),
{
    let t = v.last() as int;
    let k = v.len() - 2;
    let u = v[k] as int;
    assert(u < t);
    if covered(near, r, v, p, x) {
        let j = choose|j: int| 0 <= j < v.len() && no_worse(near, r, #[trigger] v[j] as int, p, x);
        if j < v.len() - 1 {
            assert(v.drop_last()[j] == v[j]);
        } else {
            lemma_beyond(near, r, u, t, x);
            lemma_beyond(near, r, t, q, x);
            if beyond(near, r, u, t, x) {
                lemma_crossing_order(
                    crossing(near, r, t, q),
                    q - t,
                    crossing(near, r, u, t),
                    t - u,
                    x,
                );
            } else {
                assert(v.drop_last()[k] == v[k]);
            }
        }
    }
}

/// The lower envelope of the parabolas of one row: from left to right the columns
/// among which the lowest parabola is found at every position.
fn lower_envelope(near: &Vec<i32>, r: usize) -> (v: Vec<usize>)
    requires
        row_bounds(near@, r as int),
    ensures
        envelope(near@, r as int, v@, near@.len() as int),
        forall|p: int, x: int|
            0 <= p < near@.len() && near@[p] >= 0 ==> #[trigger] covered(
                near@,
                r as int,
                v@,
                p,
                x,
            ),
{
    let ghost row = r as int;
    let mut v: Vec<usize> = Vec::new();
    let mut q: usize = 0;
    while q < near.len()
        invariant
            row == r,
            row_bounds(near@, row),
            q <= near@.len(),
            envelope(near@, row, v@, q as int),
            forall|p: int, x: int|
                0 <= p < q && near@[p] >= 0 ==> #[trigger] covered(near@, row, v@, p, x),
        decreases near@.len() - q,
    {
        if near[q] >= 0 {
            push_column(near, r, &mut v, q);
        }
        q = q + 1;
    }
    v
}

/// Adds column `q` to the lower envelope of the columns before it.
fn push_column(near: &Vec<i32>, r: usize, v: &mut Vec<usize>, q: usize)
    requires
        row_bounds(near@, r as int),
        q < near@.len(),
        near@[q as int] >= 0,
        envelope(near@, r as int, old(v)@, q as int),
        forall|p: int, x: int|
            0 <= p < q && near@[p] >= 0 ==> #[trigger] covered(near@, r as int, old(v)@, p, x),
    ensures
        envelope(near@, r as int, final(v)@, q + 1),
        forall|p: int, x: int|
            0 <= p < q + 1 && near@[p] >= 0 ==> #[trigger] covered(
                near@,
                r as int,
                final(v)@,
                p,
                x,
            ),
{
    let ghost row = r as int;
    let mut crossed: bool = false;
    while !crossed
        invariant
            row == r,
            row_bounds(near@, row),
            q < near@.len(),
            near@[q as int] >= 0,
            envelope(near@, row, v@, q as int),
            forall|p: int, x: int|
                0 <= p < q && near@[p] >= 0 ==> #[trigger] covered(near@, row, v@, p, x)
                    || no_worse(near@, row, q as int, p, x),
            crossed && v@.len() >= 2 ==> crossing(near@, row, v@.last() as int, q as int) * (
            v@.last() - v@[v@.len() - 2]) > crossing(
                near@,
                row,
                v@[v@.len() - 2] as int,
                v@.last() as int,
            ) * (q - v@.last()),
        decreases v@.len(), if crossed { 0int } else { 1int },
    {
        let len: usize = v.len();
        if len < 2 {
            crossed = true;
        } else {
            let t: usize = v[len - 1];
            let u: usize = v[len - 2];
            let s: i128 = crossing_of(near, r, t, q);
            let z: i128 = crossing_of(near, r, u, t);
            proof {
                assert(-0x7fff_ffff_ffff_ffff_ffff_ffff < s * (t - u)
                    < 0x7fff_ffff_ffff_ffff_ffff_ffff) by (nonlinear_arith)
                    requires
                        -0x7fff_fffe_0000_0002 <= s <= 0x7fff_fffe_0000_0002,
                        0 <= t - u <= 0x7fff_ffff,
                ;
                assert(-0x7fff_ffff_ffff_ffff_ffff_ffff < z * (q - t)
                    < 0x7fff_ffff_ffff_ffff_ffff_ffff) by (nonlinear_arith)
                    requires
                        -0x7fff_fffe_0000_0002 <= z <= 0x7fff_fffe_0000_0002,
                        0 <= q - t <= 0x7fff_ffff,
                ;
            }
            if s * ((t - u) as i128) <= z * ((q - t) as i128) {
                let ghost before = v@;
                v.pop();
                proof {
                    assert(v@ == before.drop_last());
                    assert forall|p: int, x: int| 0 <= p < q && near@[p] >= 0 implies #[trigger] covered(
                        near@,
                        row,
                        v@,
                        p,
                        x,
                    ) || no_worse(near@, row, q as int, p, x) by {
                        assert(covered(near@, row, before, p, x) || no_worse(
                            near@,
                            row,
                            q as int,
                            p,
                            x,
                        ));
                        lemma_pop(near@, row, before, q as int, x, p);
                    }
                    assert forall|j: int, x: int|
                        1 <= j < v@.len() - 1 && #[trigger] beyond_step(
                            near@,
                            row,
                            v@,
                            j + 1,
                            x,
                        ) implies beyond_step(near@, row, v@, j, x) by {
                        assert(beyond_step(near@, row, before, j + 1, x));
                    }
                }
            } else {
                crossed = true;
            }
        }
    }
    let ghost before = v@;
    v.push(q);
    proof {
        let k = before.len() as int;
        assert(v@[k] == q);
        assert forall|p: int, x: int| 0 <= p < q + 1 && near@[p] >= 0 implies #[trigger] covered(
            near@,
            row,
            v@,
            p,
            x,
        ) by {
            if p == q {
                assert(no_worse(near@, row, v@[k] as int, p, x));
            } else if covered(near@, row, before, p, x) {
                let j = choose|j: int|
                    0 <= j < before.len() && no_worse(
                        near@,
                        row,
                        #[trigger] before[j] as int,
                        p,
                        x,
                    );
                assert(v@[j] == before[j]);
            } else {
                assert(no_worse(near@, row, v@[k] as int, p, x));
            }
        }
        assert forall|j: int, x: int|
            1 <= j < v@.len() - 1 && #[trigger] beyond_step(
                near@,
                row,
                v@,
                j + 1,
                x,
            ) implies beyond_step(near@, row, v@, j, x) by {
            if j + 1 < k {
                assert(beyond_step(near@, row, before, j + 1, x));
            } else {
                lemma_crossing_order(
                    crossing(near@, row, before[k - 2] as int, before[k - 1] as int),
                    before[k - 1] - before[k - 2],
                    crossing(near@, row, before[k - 1] as int, q as int),
                    q - before[k - 1],
                    x,
                );
            }
        }
    }
}

/// What lies beyond a crossing of the envelope lies beyond all crossings before it.
proof fn lemma_steps_before(near: Seq<i32>, r: int, v: Seq<usize>, upto: int, k: int, j: int, x: int)
    requires
        envelope(near, r, v, upto),
        1 <= j <= k < v.len(),
        beyond_step(near, r, v, k, x),
    ensures
        beyond_step(near, r, v, j, x),
    decreases k - j,
{
    if j < k {
        lemma_steps_before(near, r, v, upto, k, j + 1, x);
    }
}

/// Of two columns of the envelope, the right one is lower beyond the crossings
/// between them.
proof fn lemma_lower_right(near: Seq<i32>, r: int, v: Seq<usize>, upto: int, j: int, k: int, x: int)
    requires
        envelope(near, r, v, upto),
        0 <= j < k < v.len(),
        beyond_step(near, r, v, k, x),
    ensures
        cost(near, r, v[k] as int, x) < cost(near, r, v[j] as int, x),
    decreases k - j,
{
    lemma_steps_before(near, r, v, upto, k, j + 1, x);
    lemma_beyond(near, r, v[j] as int, v[j + 1] as int, x);
    if j + 1 < k {
        lemma_lower_right(near, r, v, upto, j + 1, k, x);
    }
}

/// Of two columns of the envelope, the left one is no higher before the crossings
/// between them.
proof fn lemma_lower_left(near: Seq<i32>, r: int, v: Seq<usize>, upto: int, k: int, j: int, x: int)
    requires
        envelope(near, r, v, upto),
        0 <= k < j < v.len(),
        !beyond_step(near, r, v, k + 1, x),
    ensures
        cost(near, r, v[k] as int, x) <= cost(near, r, v[j] as int, x),
    decreases j - k,
{
    if beyond_step(near, r, v, j, x) {
        lemma_steps_before(near, r, v, upto, j, k + 1, x);
    }
    lemma_beyond(near, r, v[j - 1] as int, v[j] as int, x);
    if k < j - 1 {
        lemma_lower_left(near, r, v, upto, k, j - 1, x);
    }
}

/// Column `p` is the best of all columns at `x`.
spec fn best_column(near: Seq<i32>, r: int, p: int, x: int) -> bool {
    &&& 0 <= p < near.len()
    &&& near[p] >= 0
    &&& forall|q: int|
        0 <= q < near.len() && #[trigger] near[q] >= 0 ==> no_worse(near, r, p, q, x)
}

/// The column of the envelope whose crossings enclose `x` is the best of all.
proof fn lemma_best_column(near: Seq<i32>, r: int, v: Seq<usize>, k: int, x: int)
    requires
        envelope(near, r, v, near.len() as int),
        forall|p: int, y: int|
            0 <= p < near.len() && near[p] >= 0 ==> #[trigger] covered(near, r, v, p, y),
        0 <= k < v.len(),
        k > 0 ==> beyond_step(near, r, v, k, x),
        k + 1 < v.len() ==> !beyond_step(near, r, v, k + 1, x),
    ensures
        best_column(near, r, v[k] as int, x),
{
    assert forall|q: int| 0 <= q < near.len() && #[trigger] near[q] >= 0 implies no_worse(
        near,
        r,
        v[k] as int,
        q,
        x,
    ) by {
        assert(covered(near, r, v, q, x));
        let j = choose|j: int| 0 <= j < v.len() && no_worse(near, r, #[trigger] v[j] as int, q, x);
        if j < k {
            lemma_lower_right(near, r, v, near.len() as int, j, k, x);
        } else if k < j {
            lemma_lower_left(near, r, v, near.len() as int, k, j, x);
        }
    }
}

/// A longer gap has the larger square.
proof fn lemma_gap_square(r: int, a: int, b: int)
    ensures
        gap(r, a) < gap(r, b) ==> (r - a) * (r - a) < (r - b) * (r - b),
        gap(r, a) == gap(r, b) ==> (r - a) * (r - a) == (r - b) * (r - b),
{
    let g = gap(r, a);
    let h = gap(r, b);
    assert((r - a) * (r - a) == g * g) by (nonlinear_arith)
        requires
            g == r - a || g == a - r,
    ;
    assert((r - b) * (r - b) == h * h) by (nonlinear_arith)
        requires
            h == r - b || h == b - r,
    ;
    if g < h {
        assert(g * g < h * h) by (nonlinear_arith)
            requires
                0 <= g < h,
        ;
    }
}

/// The nearest rows of all columns, taken in row `r`.
spec fn row_nearest(input: Seq<bool>, rows: int, cols: int, r: int, near: Seq<i32>) -> bool {
    &&& near.len() == cols
    &&& forall|c: int|
        0 <= c < cols ==> -1 <= #[trigger] near[c] < rows && column_nearest(
            input,
            rows,
            cols,
            c,
            r,
            near[c] as int,
        )
}

/// The best column of a row holds the nearest background pixel.
proof fn lemma_best_is_nearest(
    input: Seq<bool>,
    rows: int,
    cols: int,
    r: int,
    near: Seq<i32>,
    p: int,
    x: int,
)
    requires
        row_nearest(input, rows, cols, r, near),
        best_column(near, r, p, x),
    ensures
        is_nearest(input, rows, cols, r, x, near[p] as int, p),
        squared_distance(r, x, near[p] as int, p) == cost(near, r, p, x),
{
    let f = near[p] as int;
    assert(column_nearest(input, rows, cols, p, r, near[p] as int));
    assert forall|a: int, b: int| #[trigger] is_background(input, rows, cols, a, b) implies {
        ||| squared_distance(r, x, f, p) < squared_distance(r, x, a, b)
        ||| squared_distance(r, x, f, p) == squared_distance(r, x, a, b) && (p < b || (p == b && f
            <= a))
    } by {
        assert(column_nearest(input, rows, cols, b, r, near[b] as int));
        assert(near[b] >= 0);
        assert(no_worse(near, r, p, b, x));
        lemma_gap_square(r, near[b] as int, a);
    }
}

/// One row of the transform, appended to the results of the rows before it.
fn transform_row(
    near: &Vec<i32>,
    r: usize,
    out: &mut EdtResult,
    Ghost(input): Ghost<Seq<bool>>,
    Ghost(rows): Ghost<int>,
)
    requires
        row_bounds(near@, r as int),
        row_nearest(input, rows, near@.len() as int, r as int, near@),
        old(out).idx_row@.len() == old(out).idx_col@.len() == old(out).dist2@.len(),
    ensures
        final(out).idx_row@.len() == final(out).idx_col@.len() == final(out).dist2@.len(),
        final(out).idx_row@.len() == old(out).idx_row@.len() + near@.len(),
        forall|i: int|
            0 <= i < old(out).idx_row@.len() ==> #[trigger] final(out).idx_row@[i] == old(
                out,
            ).idx_row@[i],
        forall|i: int|
            0 <= i < old(out).idx_row@.len() ==> #[trigger] final(out).idx_col@[i] == old(
                out,
            ).idx_col@[i],
        forall|i: int|
            0 <= i < old(out).idx_row@.len() ==> #[trigger] final(out).dist2@[i] == old(
                out,
            ).dist2@[i],
        forall|x: int|
            0 <= x < near@.len() ==> #[trigger] edt_cell(
                input,
                rows,
                near@.len() as int,
                r as int,
                x,
                final(out).idx_row@[old(out).idx_row@.len() + x],
                final(out).idx_col@[old(out).idx_row@.len() + x],
                final(out).dist2@[old(out).idx_row@.len() + x],
            ),
{
    let ghost row = r as int;
    let ghost n0 = out.idx_row@.len() as int;
    let ghost w = near@.len() as int;
    let v: Vec<usize> = lower_envelope(near, r);
    let mut k: usize = 0;
    let mut x: usize = 0;
    while x < near.len()
        invariant
            row == r,
            w == near@.len(),
            n0 == old(out).idx_row@.len(),
            old(out).idx_row@.len() == old(out).idx_col@.len() == old(out).dist2@.len(),
            row_bounds(near@, row),
            row_nearest(input, rows, w, row, near@),
            envelope(near@, row, v@, w),
            forall|p: int, y: int|
                0 <= p < near@.len() && near@[p] >= 0 ==> #[trigger] covered(near@, row, v@, p, y),
            x <= w,
            v@.len() > 0 ==> k < v@.len(),
            v@.len() > 0 && k > 0 ==> beyond_step(near@, row, v@, k as int, x as int),
            out.idx_row@.len() == n0 + x,
            out.idx_col@.len() == n0 + x,
            out.dist2@.len() == n0 + x,
            forall|i: int|
                0 <= i < n0 ==> #[trigger] out.idx_row@[i] == old(out).idx_row@[i],
            forall|i: int|
                0 <= i < n0 ==> #[trigger] out.idx_col@[i] == old(out).idx_col@[i],
            forall|i: int| 0 <= i < n0 ==> #[trigger] out.dist2@[i] == old(out).dist2@[i],
            forall|y: int|
                0 <= y < x ==> #[trigger] edt_cell(
                    input,
                    rows,
                    w,
                    row,
                    y,
                    out.idx_row@[n0 + y],
                    out.idx_col@[n0 + y],
                    out.dist2@[n0 + y],
                ),
        decreases w - x,
    {
        let ghost before = *out;
        if v.len() == 0 {
            proof {
                assert forall|a: int, b: int| !#[trigger] is_background(input, rows, w, a, b) by {
                    if is_background(input, rows, w, a, b) {
                        assert(column_nearest(input, rows, w, b, row, near@[b] as int));
                        assert(covered(near@, row, v@, b, 0));
                    }
                }
            }
            out.idx_row.push(-1);
            out.idx_col.push(-1);
            out.dist2.push(NO_BACKGROUND);
        } else {
            k = advance(near, r, &v, k, x);
            let p: usize = v[k];
            proof {
                lemma_best_column(near@, row, v@, k as int, x as int);
                lemma_best_is_nearest(input, rows, w, row, near@, p as int, x as int);
                lemma_square_bound(x - p);
                lemma_square_bound(r - near@[p as int]);
                assert(column_nearest(input, rows, w, p as int, row, near@[p as int] as int));
                assert(is_background(input, rows, w, near@[p as int] as int, p as int));
            }
            let drow: i64 = r as i64 - near[p] as i64;
            let dcol: i64 = x as i64 - p as i64;
            out.idx_row.push(near[p]);
            out.idx_col.push(p as i32);
            out.dist2.push(drow * drow + dcol * dcol);
        }
        proof {
            assert forall|y: int| 0 <= y < x + 1 implies #[trigger] edt_cell(
                input,
                rows,
                w,
                row,
                y,
                out.idx_row@[n0 + y],
                out.idx_col@[n0 + y],
                out.dist2@[n0 + y],
            ) by {
                if y < x {
                    assert(out.idx_row@[n0 + y] == before.idx_row@[n0 + y]);
                    assert(out.idx_col@[n0 + y] == before.idx_col@[n0 + y]);
                    assert(out.dist2@[n0 + y] == before.dist2@[n0 + y]);
                }
            }
            if v@.len() > 0 && k > 0 {
                lemma_beyond_right(near@, row, v@[k - 1] as int, v@[k as int] as int, x as int);
            }
        }
        x = x + 1;
    }
}

/// What lies beyond a crossing stays beyond it further right.
proof fn lemma_beyond_right(near: Seq<i32>, r: int, p: int, q: int, x: int)
    requires
        p < q,
        beyond(near, r, p, q, x),
    ensures
        beyond(near, r, p, q, x + 1),
{
    assert(2 * (x + 1) * (q - p) >= 2 * x * (q - p)) by (nonlinear_arith)
        requires
            p < q,
    ;
}

/// Steps along the envelope to the column whose crossings enclose `x`.
fn advance(near: &Vec<i32>, r: usize, v: &Vec<usize>, from: usize, x: usize) -> (k: usize)
    requires
        row_bounds(near@, r as int),
        envelope(near@, r as int, v@, near@.len() as int),
        from < v@.len(),
        x < near@.len(),
        from > 0 ==> beyond_step(near@, r as int, v@, from as int, x as int),
    ensures
        from <= k < v@.len(),
        k > 0 ==> beyond_step(near@, r as int, v@, k as int, x as int),
        k + 1 < v@.len() ==> !beyond_step(near@, r as int, v@, k + 1, x as int),
{
    let mut k: usize = from;
    while k < v.len() - 1 && is_beyond(near, r, v[k], v[k + 1], x)
        invariant
            row_bounds(near@, r as int),
            envelope(near@, r as int, v@, near@.len() as int),
            from <= k < v@.len(),
            x < near@.len(),
            k > 0 ==> beyond_step(near@, r as int, v@, k as int, x as int),
        decreases v@.len() - k,
    {
        k = k + 1;
    }
    k
}

/// Tests [`beyond`].
fn is_beyond(near: &Vec<i32>, r: usize, p: usize, q: usize, x: usize) -> (b: bool)
    requires
        row_bounds(near@, r as int),
        p < q < near@.len(),
        x < near@.len(),
        near@[p as int] >= 0,
        near@[q as int] >= 0,
    ensures
        b == beyond(near@, r as int, p as int, q as int, x as int),
{
    let n: i128 = crossing_of(near, r, p, q);
    proof {
        assert(0 <= 2 * x * (q - p) <= 0x1_0000_0000 * 0x8000_0000) by (nonlinear_arith)
            requires
                0 <= x < 0x7fff_ffff,
                0 < q - p < 0x7fff_ffff,
        ;
    }
    2 * (x as i128) * ((q - p) as i128) > n
}

/// Exact Euclidean distance transform with the indices of the nearest background
/// pixel. `input == true` marks foreground, the pixels whose distance to the
/// nearest `false` background is computed.
pub fn distance_transform_edt(input: &[bool], rows: usize, cols: usize) -> (out: EdtResult)
    requires
        input@.len() == rows * cols,
        rows <= i32::MAX,
        cols <= i32::MAX,
        rows == 0 || cols > 0,
    ensures
        out.idx_row@.len() == input@.len(),
        out.idx_col@.len() == input@.len(),
        out.dist2@.len() == input@.len(),
        forall|r: int, c: int|
            0 <= r < rows && 0 <= c < cols ==> {
                let i = #[trigger] flat(r, c, cols as int);
                edt_cell(
                    input@,
                    rows as int,
                    cols as int,
                    r,
                    c,
                    out.idx_row@[i],
                    out.idx_col@[i],
                    out.dist2@[i],
                )
            },
{
    let ghost img = input@;
    let ghost h = rows as int;
    let ghost w = cols as int;
    let mut columns: Vec<Vec<i32>> = Vec::new();
    let mut c: usize = 0;
    while c < cols
        invariant
            img == input@,
            h == rows,
            w == cols,
            img.len() == rows * cols,
            rows <= i32::MAX,
            c <= cols,
            columns@.len() == c,
            forall|b: int| 0 <= b < c ==> (#[trigger] columns@[b])@.len() == rows,
            forall|b: int, a: int|
                0 <= b < c && 0 <= a < rows ==> column_nearest(
                    img,
                    h,
                    w,
                    b,
                    a,
                    #[trigger] columns@[b]@[a] as int,
                ),
        decreases cols - c,
    {
        columns.push(nearest_in_column(input, rows, cols, c));
        c = c + 1;
    }
    let mut out = EdtResult { idx_row: Vec::new(), idx_col: Vec::new(), dist2: Vec::new() };
    let mut r: usize = 0;
    while r < rows
        invariant
            img == input@,
            h == rows,
            w == cols,
            img.len() == rows * cols,
            rows <= i32::MAX,
            cols <= i32::MAX,
            r <= rows,
            columns@.len() == cols,
            forall|b: int| 0 <= b < cols ==> (#[trigger] columns@[b])@.len() == rows,
            forall|b: int, a: int|
                0 <= b < cols && 0 <= a < rows ==> column_nearest(
                    img,
                    h,
                    w,
                    b,
                    a,
                    #[trigger] columns@[b]@[a] as int,
                ),
            out.idx_row@.len() == out.idx_col@.len() == out.dist2@.len(),
            out.idx_row@.len() == r * cols,
            forall|a: int, b: int|
                0 <= a < r && 0 <= b < w ==> {
                    let i = #[trigger] flat(a, b, w);
                    edt_cell(
                        img,
                        h,
                        w,
                        a,
                        b,
                        out.idx_row@[i],
                        out.idx_col@[i],
                        out.dist2@[i],
                    )
                },
        decreases rows - r,
    {
        let mut near: Vec<i32> = Vec::new();
        let mut c: usize = 0;
        while c < cols
            invariant
                h == rows,
                w == cols,
                c <= cols,
                r < rows <= i32::MAX,
                columns@.len() == cols,
                near@.len() == c,
                forall|b: int| 0 <= b < cols ==> (#[trigger] columns@[b])@.len() == rows,
                forall|b: int| 0 <= b < c ==> #[trigger] near@[b] == columns@[b]@[r as int],
            decreases cols - c,
        {
            near.push(columns[c][r]);
            c = c + 1;
        }
        let ghost before = out;
        proof {
            assert forall|b: int| 0 <= b < w implies -1 <= #[trigger] near@[b] < h
                && column_nearest(img, h, w, b, r as int, near@[b] as int) by {
                assert(column_nearest(img, h, w, b, r as int, columns@[b]@[r as int] as int));
            }
        }
        transform_row(&near, r, &mut out, Ghost(img), Ghost(h));
        proof {
            assert((r + 1) * cols == r * cols + cols) by (nonlinear_arith);
            assert forall|a: int, b: int| 0 <= a < r + 1 && 0 <= b < w implies {
                let i = #[trigger] flat(a, b, w);
                edt_cell(img, h, w, a, b, out.idx_row@[i], out.idx_col@[i], out.dist2@[i])
            } by {
                let i = flat(a, b, w);
                if a < r {
                    lemma_flat_bound(a, b, r as int, w);
                    assert(out.idx_row@[i] == before.idx_row@[i]);
                    assert(out.idx_col@[i] == before.idx_col@[i]);
                    assert(out.dist2@[i] == before.dist2@[i]);
                } else {
                    let n0 = before.idx_row@.len() as int;
                    assert(edt_cell(
                        img,
                        h,
                        w,
                        r as int,
                        b,
                        out.idx_row@[n0 + b],
                        out.idx_col@[n0 + b],
                        out.dist2@[n0 + b],
                    ));
                }
            }
        }
        r = r + 1;
    }
    out
}

/// A squared distance is zero between a cell and itself only.
proof fn lemma_zero_distance(r: int, c: int, a: int, b: int)
    ensures
        squared_distance(r, c, a, b) >= 0,
        squared_distance(r, c, a, b) == 0 <==> r == a && c == b,
{
    let x = r - a;
    let y = c - b;
    assert(x * x >= 0 && (x * x == 0 <==> x == 0)) by (nonlinear_arith);
    assert(y * y >= 0 && (y * y == 0 <==> y == 0)) by (nonlinear_arith);
}

/// Background is at distance zero from itself, foreground at a positive distance.
pub proof fn lemma_zero_on_background(
    input: Seq<bool>,
    rows: int,
    cols: int,
    r: int,
    c: int,
    f: i32,
    p: i32,
    d2: i64,
)
    requires
        0 <= r < rows,
        0 <= c < cols,
        edt_cell(input, rows, cols, r, c, f, p, d2),
    ensures
        d2 == 0 <==> !input[flat(r, c, cols)],
        !input[flat(r, c, cols)] ==> f == r && p == c,
{
    if exists|a: int, b: int| #[trigger] is_background(input, rows, cols, a, b) {
        lemma_zero_distance(r, c, f as int, p as int);
        lemma_zero_distance(r, c, r, c);
        if !input[flat(r, c, cols)] {
            assert(is_background(input, rows, cols, r, c));
        }
    } else if !input[flat(r, c, cols)] {
        assert(is_background(input, rows, cols, r, c));
    }
}

/// The transform of a cell is determined.
pub proof fn lemma_edt_unique(
    input: Seq<bool>,
    rows: int,
    cols: int,
    r: int,
    c: int,
    f: i32,
    p: i32,
    d2: i64,
    f2: i32,
    p2: i32,
    e2: i64,
)
    requires
        edt_cell(input, rows, cols, r, c, f, p, d2),
        edt_cell(input, rows, cols, r, c, f2, p2, e2),
    ensures
        f == f2,
        p == p2,
        d2 == e2,
{
    if exists|a: int, b: int| #[trigger] is_background(input, rows, cols, a, b) {
        assert(is_background(input, rows, cols, f as int, p as int));
        assert(is_background(input, rows, cols, f2 as int, p2 as int));
    }
}

/// No background pixel is nearer than the distance tells, and the pixel given is one at
/// that distance.
pub proof fn lemma_distance_is_shortest(
    input: Seq<bool>,
    rows: int,
    cols: int,
    r: int,
    c: int,
    f: i32,
    p: i32,
    d2: i64,
    a: int,
    b: int,
)
    requires
        edt_cell(input, rows, cols, r, c, f, p, d2),
        0 <= a < rows,
        0 <= b < cols,
        !input[a * cols + b],
    ensures
        d2 <= (r - a) * (r - a) + (c - b) * (c - b),
        d2 == (r - f) * (r - f) + (c - p) * (c - p),
        0 <= f < rows && 0 <= p < cols && !input[f * cols + p],
        d2 == (r - a) * (r - a) + (c - b) * (c - b) ==> p < b || p == b && f <= a,
{
    assert(is_background(input, rows, cols, a, b));
}

/// Without background there is no distance.
pub proof fn lemma_no_background(
    input: Seq<bool>,
    rows: int,
    cols: int,
    r: int,
    c: int,
    f: i32,
    p: i32,
    d2: i64,
)
    requires
        edt_cell(input, rows, cols, r, c, f, p, d2),
        forall|a: int, b: int|
            0 <= a < rows && 0 <= b < cols ==> input[#[trigger] flat(a, b, cols)],
    ensures
        f == -1,
        p == -1,
        d2 == NO_BACKGROUND,
{
}

} // verus!
