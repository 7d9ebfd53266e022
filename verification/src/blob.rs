//! Keypoint detection in a difference-of-Gaussian scale space.

use crate::grid::{flat, lemma_flat_bound, lemma_flat_inverse, lemma_flat_order};
use crate::ieee::{greater, gt};
use vstd::prelude::*;

verus! {

/// A 3-D scale space, row-major over `(scale, y, x)` of shape `(ns, ny, nx)`, its
/// single-precision values given as bit patterns.
pub struct DogStack {
    /// The values in row-major order.
    pub data: Vec<u32>,
    /// Number of scales.
    pub ns: usize,
    /// Number of rows.
    pub ny: usize,
    /// Number of columns.
    pub nx: usize,
}

impl DogStack {
    /// There are as many values as scales times rows times columns.
    pub open spec fn wf(&self) -> bool {
        self.data@.len() == self.ns * self.ny * self.nx
    }

    /// The place of voxel `(s, y, x)` in the flat data.
    pub open spec fn place(&self, s: int, y: int, x: int) -> int {
        flat(flat(s, y, self.ny as int), x, self.nx as int)
    }

    /// The value at voxel `(s, y, x)`.
    pub open spec fn voxel(&self, s: int, y: int, x: int) -> u32 {
        self.data@[self.place(s, y, x)]
    }

    /// Voxel `(s, y, x)` is greater than the voxel at the given offset from it.
    pub open spec fn tops(&self, s: int, y: int, x: int, ds: int, dy: int, dx: int) -> bool {
        gt(self.voxel(s, y, x), self.voxel(s + ds, y + dy, x + dx))
    }

    /// Voxel `(s, y, x)` is greater than all its neighbours in the 3x3x3 cube around it.
    pub open spec fn tops_cube(&self, s: int, y: int, x: int) -> bool {
        forall|ds: int, dy: int, dx: int|
            -1 <= ds <= 1 && -1 <= dy <= 1 && -1 <= dx <= 1 && !(ds == 0 && dy == 0 && dx == 0)
                ==> #[trigger] self.tops(s, y, x, ds, dy, dx)
    }

    /// Voxel `(s, y, x)` is greater than the voxels of the column at distance `dx`
    /// in the three scales, and than the corner voxels that end that column, where
    /// the image has them, at its own scale and the one below.
    pub open spec fn tops_side(&self, s: int, y: int, x: int, dx: int) -> bool {
        &&& forall|ds: int, dy: int|
            -1 <= ds <= 1 && -1 <= dy <= 1 ==> #[trigger] self.tops(s, y, x, ds, dy, dx)
        &&& y > 1 ==> self.tops(s, y, x, 0, -2, dx) && self.tops(s, y, x, -1, -2, dx)
        &&& y < self.ny - 2 ==> self.tops(s, y, x, 0, 2, dx) && self.tops(s, y, x, -1, 2, dx)
    }

    /// Voxel `(s, y, x)` is greater than the voxels two rows up at its own scale and
    /// the one below, and than the two left ones of the scale above.
    pub open spec fn tops_upper(&self, s: int, y: int, x: int) -> bool {
        &&& forall|ds: int, dx: int|
            -1 <= ds <= 0 && -1 <= dx <= 1 ==> #[trigger] self.tops(s, y, x, ds, -2, dx)
        &&& self.tops(s, y, x, 1, -2, -1)
        &&& self.tops(s, y, x, 1, -2, 0)
    }

    /// Voxel `(s, y, x)` is greater than the voxels two rows down in the three scales.
    pub open spec fn tops_lower(&self, s: int, y: int, x: int) -> bool {
        forall|ds: int, dx: int|
            -1 <= ds <= 1 && -1 <= dx <= 1 ==> #[trigger] self.tops(s, y, x, ds, 2, dx)
    }

    /// The tests of the wide neighbourhood that come before the one of the voxel at
    /// offset `(1, 2, 1)`.
    pub open spec fn tops_wide_first(&self, s: int, y: int, x: int) -> bool {
        &&& self.tops_cube(s, y, x)
        &&& x > 1 ==> self.tops_side(s, y, x, -2)
        &&& x < self.nx - 2 ==> self.tops_side(s, y, x, 2)
        &&& y > 1 ==> self.tops_upper(s, y, x)
    }

    /// Voxel `(s, y, x)` tops the cube and, as far as the image reaches, the 5x5
    /// neighbourhood in the plane. The neighbourhood's upper right voxel of the
    /// scale above is replaced by the voxel at offset `(1, 2, 1)`.
    pub open spec fn tops_wide(&self, s: int, y: int, x: int) -> bool {
        &&& self.tops_wide_first(s, y, x)
        &&& y > 1 ==> self.tops(s, y, x, 1, 2, 1)
        &&& y < self.ny - 2 ==> self.tops_lower(s, y, x)
    }

    /// The wide neighbourhood is read inside the scale space. In the last row of the last
    /// plane of voxels that are not on the rim, the voxel at offset `(1, 2, 1)` lies
    /// beyond the data, so that no unmasked voxel there may pass the tests before it.
    pub open spec fn wide_stays_inside(&self, mask: Option<&[bool]>) -> bool {
        forall|x: int| #[trigger]
            self.inside(self.ns - 2, self.ny - 2, x) && self.ny > 3 && !masked(
                mask,
                self.nx as int,
                self.ny - 2,
                x,
            ) ==> !self.tops_wide_first(self.ns - 2, self.ny - 2, x)
    }

    /// Voxel `(s, y, x)` is not on the rim of the scale space.
    pub open spec fn inside(&self, s: int, y: int, x: int) -> bool {
        1 <= s < self.ns - 1 && 1 <= y < self.ny - 1 && 1 <= x < self.nx - 1
    }

    /// Voxel `(s, y, x)` is a keypoint.
    pub open spec fn is_keypoint(
        &self,
        mask: Option<&[bool]>,
        n_5: bool,
        s: int,
        y: int,
        x: int,
    ) -> bool {
        &&& self.inside(s, y, x)
        &&& !masked(mask, self.nx as int, y, x)
        &&& self.tops_cube(s, y, x)
        &&& n_5 ==> self.tops_wide(s, y, x)
    }

    /// Wraps the values of a scale space of shape `(ns, ny, nx)`.
    pub fn new(data: Vec<u32>, ns: usize, ny: usize, nx: usize) -> (d: Self)
        requires
            data@.len() == ns * ny * nx,
        ensures
            d.wf(),
            d.data@ == data@,
            d.ns == ns,
            d.ny == ny,
            d.nx == nx,
    {
        DogStack { data, ns, ny, nx }
    }

    /// The value at voxel `(s, y, x)`.
    pub fn at(&self, s: usize, y: usize, x: usize) -> (v: u32)
        requires
            self.wf(),
            s < self.ns,
            y < self.ny,
            x < self.nx,
        ensures
            v == self.voxel(s as int, y as int, x as int),
    {
        let n: usize = self.data.len();
        proof {
            self.lemma_place(s as int, y as int, x as int);
        }
        self.data[(s * self.ny + y) * self.nx + x]
    }

    /// A voxel has a place in the data.
    proof fn lemma_place(&self, s: int, y: int, x: int)
        requires
            self.wf(),
            0 <= s < self.ns,
            0 <= y < self.ny,
            0 <= x < self.nx,
        ensures
            0 <= self.place(s, y, x) < self.data@.len(),
            0 <= s * self.ny,
            0 <= flat(s, y, self.ny as int) < self.ns * self.ny,
            0 <= flat(s, y, self.ny as int) * self.nx <= self.place(s, y, x),
            flat(s, y, self.ny as int) <= self.place(s, y, x),
            s * self.ny <= flat(s, y, self.ny as int),
    {
        let row = flat(s, y, self.ny as int);
        lemma_flat_bound(s, y, self.ns as int, self.ny as int);
        lemma_flat_bound(row, x, self.ns * self.ny, self.nx as int);
        assert(row * self.nx >= row) by (nonlinear_arith)
            requires
                row >= 0,
                self.nx >= 1,
        ;
    }

    /// Tests [`DogStack::tops`] at an offset that leads to a place in the data.
    fn beats(&self, s: usize, y: usize, x: usize, ds: i64, dy: i64, dx: i64) -> (b: bool)
        requires
            self.wf(),
            s < self.ns,
            y < self.ny,
            x < self.nx,
            -1 <= ds <= 1,
            -2 <= dy <= 2,
            -2 <= dx <= 2,
            0 <= s + ds < self.ns,
            0 <= y + dy,
            0 <= x + dx < self.nx,
            self.place(s + ds, y + dy, x + dx) < self.data@.len(),
        ensures
            b == self.tops(s as int, y as int, x as int, ds as int, dy as int, dx as int),
    {
        let c: u32 = self.at(s, y, x);
        let n: usize = self.data.len();
        proof {
            self.lemma_place(s + ds, 0, x + dx);
            let row = flat(s + ds, y + dy, self.ny as int);
            assert(0 <= row <= row * self.nx) by (nonlinear_arith)
                requires
                    self.nx >= 1,
                    0 <= row,
            ;
        }
        let p: usize = shift(s, ds);
        let q: usize = shift(y, dy);
        let r: usize = shift(x, dx);
        greater(c, self.data[(p * self.ny + q) * self.nx + r])
    }

    /// Tests the three voxels around `x` at offset `(ds, dy)`.
    fn beats_row(&self, s: usize, y: usize, x: usize, ds: i64, dy: i64) -> (b: bool)
        requires
            self.wf(),
            self.inside(s as int, y as int, x as int),
            -1 <= ds <= 1,
            -2 <= dy <= 2,
            0 <= y + dy < self.ny,
        ensures
            b == forall|dx: int|
                -1 <= dx <= 1 ==> #[trigger] self.tops(
                    s as int,
                    y as int,
                    x as int,
                    ds as int,
                    dy as int,
                    dx,
                ),
    {
        proof {
            self.lemma_place(s + ds, y + dy, x - 1);
            self.lemma_place(s + ds, y + dy, x as int);
            self.lemma_place(s + ds, y + dy, x + 1);
        }
        let left: bool = self.beats(s, y, x, ds, dy, -1);
        let mid: bool = self.beats(s, y, x, ds, dy, 0);
        let right: bool = self.beats(s, y, x, ds, dy, 1);
        left && mid && right
    }

    /// Tests the voxel at offset `(ds, dy, dx)`, which lies in the scale space.
    fn beats_in(&self, s: usize, y: usize, x: usize, ds: i64, dy: i64, dx: i64) -> (b: bool)
        requires
            self.wf(),
            self.inside(s as int, y as int, x as int),
            -1 <= ds <= 1,
            -2 <= dy <= 2,
            -2 <= dx <= 2,
            0 <= y + dy < self.ny,
            0 <= x + dx < self.nx,
        ensures
            b == self.tops(s as int, y as int, x as int, ds as int, dy as int, dx as int),
    {
        proof {
            self.lemma_place(s + ds, y + dy, x + dx);
        }
        self.beats(s, y, x, ds, dy, dx)
    }

    /// Tests [`DogStack::tops_cube`].
    fn beats_cube(&self, s: usize, y: usize, x: usize) -> (b: bool)
        requires
            self.wf(),
            self.inside(s as int, y as int, x as int),
        ensures
            b == self.tops_cube(s as int, y as int, x as int),
    {
        let same: bool = self.beats_in(s, y, x, 0, 0, -1) && self.beats_in(s, y, x, 0, 0, 1)
            && self.beats_row(s, y, x, 0, -1) && self.beats_row(s, y, x, 0, 1);
        let below: bool = same && self.beats_row(s, y, x, -1, 0) && self.beats_row(s, y, x, -1, -1)
            && self.beats_row(s, y, x, -1, 1);
        below && self.beats_row(s, y, x, 1, 0) && self.beats_row(s, y, x, 1, -1) && self.beats_row(
            s,
            y,
            x,
            1,
            1,
        )
    }

    /// Tests [`DogStack::tops_side`].
    fn beats_side(&self, s: usize, y: usize, x: usize, dx: i64) -> (b: bool)
        requires
            self.wf(),
            self.inside(s as int, y as int, x as int),
            -2 <= dx <= 2,
            0 <= x + dx < self.nx,
        ensures
            b == self.tops_side(s as int, y as int, x as int, dx as int),
    {
        let own: bool = self.beats_in(s, y, x, 0, 0, dx) && self.beats_in(s, y, x, 0, -1, dx)
            && self.beats_in(s, y, x, 0, 1, dx);
        let below: bool = own && self.beats_in(s, y, x, -1, 0, dx) && self.beats_in(
            s,
            y,
            x,
            -1,
            -1,
            dx,
        ) && self.beats_in(s, y, x, -1, 1, dx);
        let column: bool = below && self.beats_in(s, y, x, 1, 0, dx) && self.beats_in(
            s,
            y,
            x,
            1,
            -1,
            dx,
        ) && self.beats_in(s, y, x, 1, 1, dx);
        let upper: bool = column && (y <= 1 || (self.beats_in(s, y, x, 0, -2, dx) && self.beats_in(
            s,
            y,
            x,
            -1,
            -2,
            dx,
        )));
        upper && (y >= self.ny - 2 || (self.beats_in(s, y, x, 0, 2, dx) && self.beats_in(
            s,
            y,
            x,
            -1,
            2,
            dx,
        )))
    }

    /// Tests [`DogStack::tops_wide_first`], given [`DogStack::tops_cube`].
    fn beats_wide_first(&self, s: usize, y: usize, x: usize) -> (b: bool)
        requires
            self.wf(),
            self.inside(s as int, y as int, x as int),
            self.tops_cube(s as int, y as int, x as int),
        ensures
            b == self.tops_wide_first(s as int, y as int, x as int),
    {
        if x > 1 && !self.beats_side(s, y, x, -2) {
            return false;
        }
        if x < self.nx - 2 && !self.beats_side(s, y, x, 2) {
            return false;
        }
        y <= 1 || (self.beats_row(s, y, x, 0, -2) && self.beats_row(s, y, x, -1, -2)
            && self.beats_in(s, y, x, 1, -2, 0) && self.beats_in(s, y, x, 1, -2, -1))
    }

    /// Tests [`DogStack::tops_wide`], given [`DogStack::tops_cube`].
    fn beats_wide(&self, s: usize, y: usize, x: usize) -> (b: bool)
        requires
            self.wf(),
            self.inside(s as int, y as int, x as int),
            self.tops_cube(s as int, y as int, x as int),
            self.tops_wide_first(s as int, y as int, x as int) && y > 1 ==> self.place(
                s + 1,
                y + 2,
                x + 1,
            ) < self.data@.len(),
        ensures
            b == self.tops_wide(s as int, y as int, x as int),
    {
        if !self.beats_wide_first(s, y, x) {
            return false;
        }
        if y > 1 && !self.beats(s, y, x, 1, 2, 1) {
            return false;
        }
        y >= self.ny - 2 || (self.beats_row(s, y, x, 0, 2) && self.beats_row(s, y, x, -1, 2)
            && self.beats_row(s, y, x, 1, 2))
    }
}

/// `a + d`.
fn shift(a: usize, d: i64) -> (b: usize)
    requires
        -2 <= d <= 2,
        0 <= a + d <= usize::MAX,
    ensures
        b == a + d,
{
    if d < 0 {
        a - ((-d) as usize)
    } else {
        a + d as usize
    }
}

/// The mask flags pixel `(y, x)` as invalid.
pub open spec fn masked(mask: Option<&[bool]>, nx: int, y: int, x: int) -> bool {
    match mask {
        Some(m) => m@[flat(y, x, nx)],
        None => false,
    }
}

/// The wide neighbourhood only takes keypoints away.
pub proof fn lemma_wide_keypoints_are_keypoints(
    dogs: DogStack,
    mask: Option<&[bool]>,
    s: int,
    y: int,
    x: int,
)
    requires
        dogs.is_keypoint(mask, true, s, y, x),
    ensures
        dogs.is_keypoint(mask, false, s, y, x),
{
}

/// Two voxels next to each other, in one plane or across scales, are not both keypoints.
pub proof fn lemma_keypoints_keep_apart(
    dogs: DogStack,
    mask: Option<&[bool]>,
    n_5: bool,
    s: int,
    y: int,
    x: int,
    ds: int,
    dy: int,
    dx: int,
)
    requires
        -1 <= ds <= 1,
        -1 <= dy <= 1,
        -1 <= dx <= 1,
        !(ds == 0 && dy == 0 && dx == 0),
        dogs.is_keypoint(mask, n_5, s, y, x),
    ensures
        !dogs.is_keypoint(mask, n_5, s + ds, y + dy, x + dx),
{
    assert(dogs.tops(s, y, x, ds, dy, dx));
    if dogs.is_keypoint(mask, n_5, s + ds, y + dy, x + dx) {
        assert(dogs.tops(s + ds, y + dy, x + dx, -ds, -dy, -dx));
    }
}

/// The voxels around a keypoint that its second-order expansion reads. In the names,
/// `n` and `p` stand for the next and the previous voxel along the axis that follows.
#[derive(Debug, Clone, Copy, PartialEq, Eq, Structural)]
pub struct HessianStencil {
    /// The keypoint.
    pub curr: u32,
    /// Next along x.
    pub nx: u32,
    /// Previous along x.
    pub px: u32,
    /// Next along y.
    pub ny: u32,
    /// Previous along y.
    pub py: u32,
    /// Next scale.
    pub ns: u32,
    /// Previous scale.
    pub ps: u32,
    /// Next along x and y.
    pub nxny: u32,
    /// Next along x, previous along y.
    pub nxpy: u32,
    /// Previous along x, next along y.
    pub pxny: u32,
    /// Previous along x and y.
    pub pxpy: u32,
    /// Next scale, next along y.
    pub nsny: u32,
    /// Next scale, previous along y.
    pub nspy: u32,
    /// Previous scale, next along y.
    pub psny: u32,
    /// Previous scale, previous along y.
    pub pspy: u32,
    /// Next scale, next along x.
    pub nxns: u32,
    /// Previous scale, next along x.
    pub nxps: u32,
    /// Next scale, previous along x.
    pub pxns: u32,
    /// Previous scale, previous along x.
    pub pxps: u32,
}

impl DogStack {
    /// The stencil of voxel `(s, y, x)`.
    pub open spec fn stencil_at(&self, s: int, y: int, x: int) -> HessianStencil {
        HessianStencil {
            curr: self.voxel(s, y, x),
            nx: self.voxel(s, y, x + 1),
            px: self.voxel(s, y, x - 1),
            ny: self.voxel(s, y + 1, x),
            py: self.voxel(s, y - 1, x),
            ns: self.voxel(s + 1, y, x),
            ps: self.voxel(s - 1, y, x),
            nxny: self.voxel(s, y + 1, x + 1),
            nxpy: self.voxel(s, y - 1, x + 1),
            pxny: self.voxel(s, y + 1, x - 1),
            pxpy: self.voxel(s, y - 1, x - 1),
            nsny: self.voxel(s + 1, y + 1, x),
            nspy: self.voxel(s + 1, y - 1, x),
            psny: self.voxel(s - 1, y + 1, x),
            pspy: self.voxel(s - 1, y - 1, x),
            nxns: self.voxel(s + 1, y, x + 1),
            nxps: self.voxel(s - 1, y, x + 1),
            pxns: self.voxel(s + 1, y, x - 1),
            pxps: self.voxel(s - 1, y, x - 1),
        }
    }
}

/// Gathers what the sub-pixel refinement of the keypoint `(kpx, kpy, kps)` reads. The
/// keypoint is at least one voxel from every border.
pub fn refine_hessian(dogs: &DogStack, kpx: usize, kpy: usize, kps: usize) -> (h: HessianStencil)
    requires
        dogs.wf(),
        dogs.inside(kps as int, kpy as int, kpx as int),
    ensures
        h == dogs.stencil_at(kps as int, kpy as int, kpx as int),
{
    HessianStencil {
        curr: dogs.at(kps, kpy, kpx),
        nx: dogs.at(kps, kpy, kpx + 1),
        px: dogs.at(kps, kpy, kpx - 1),
        ny: dogs.at(kps, kpy + 1, kpx),
        py: dogs.at(kps, kpy - 1, kpx),
        ns: dogs.at(kps + 1, kpy, kpx),
        ps: dogs.at(kps - 1, kpy, kpx),
        nxny: dogs.at(kps, kpy + 1, kpx + 1),
        nxpy: dogs.at(kps, kpy - 1, kpx + 1),
        pxny: dogs.at(kps, kpy + 1, kpx - 1),
        pxpy: dogs.at(kps, kpy - 1, kpx - 1),
        nsny: dogs.at(kps + 1, kpy + 1, kpx),
        nspy: dogs.at(kps + 1, kpy - 1, kpx),
        psny: dogs.at(kps - 1, kpy + 1, kpx),
        pspy: dogs.at(kps - 1, kpy - 1, kpx),
        nxns: dogs.at(kps + 1, kpy, kpx + 1),
        nxps: dogs.at(kps - 1, kpy, kpx + 1),
        pxns: dogs.at(kps + 1, kpy, kpx - 1),
        pxps: dogs.at(kps - 1, kpy, kpx - 1),
    }
}

/// The order of keypoints: by scale, then row, then column.
pub open spec fn comes_before(a: (usize, usize, usize), b: (usize, usize, usize)) -> bool {
    a.0 < b.0 || (a.0 == b.0 && (a.1 < b.1 || (a.1 == b.1 && a.2 < b.2)))
}

/// `out` lists, in order, exactly the keypoints that come before `(s, y, x)`.
spec fn lists_until(
    dogs: DogStack,
    mask: Option<&[bool]>,
    n_5: bool,
    out: Seq<(usize, usize, usize)>,
    s: usize,
    y: usize,
    x: usize,
) -> bool {
    &&& forall|k: int|
        0 <= k < out.len() ==> comes_before(#[trigger] out[k], (s, y, x)) && dogs.is_keypoint(
            mask,
            n_5,
            out[k].0 as int,
            out[k].1 as int,
            out[k].2 as int,
        )
    &&& forall|a: usize, b: usize, c: usize| #[trigger]
        dogs.is_keypoint(mask, n_5, a as int, b as int, c as int) && comes_before(
            (a, b, c),
            (s, y, x),
        ) ==> out.contains((a, b, c))
    &&& forall|i: int, j: int|
        0 <= i < j < out.len() ==> comes_before(#[trigger] out[i], #[trigger] out[j])
}

/// Keypoint detection. Returns the `(scale, y, x)` voxel indices of every local
/// maximum, in raster order (scale-major). `mask` (if given) is a row-major
/// `(ny, nx)` invalid-pixel flag; masked positions never produce a keypoint.
pub fn local_max(dogs: &DogStack, mask: Option<&[bool]>, n_5: bool) -> (out: Vec<
    (usize, usize, usize),
>)
    requires
        dogs.wf(),
        dogs.ns >= 3 && dogs.ny >= 3 && dogs.nx >= 3 && mask is Some ==> (mask->0)@.len() == dogs.ny
            * dogs.nx,
        n_5 ==> dogs.wide_stays_inside(mask),
    ensures
        forall|k: int|
            0 <= k < out@.len() ==> dogs.is_keypoint(
                mask,
                n_5,
                (#[trigger] out@[k]).0 as int,
                out@[k].1 as int,
                out@[k].2 as int,
            ),
        forall|s: usize, y: usize, x: usize| #[trigger]
            dogs.is_keypoint(mask, n_5, s as int, y as int, x as int) ==> out@.contains((s, y, x)),
        forall|i: int, j: int|
            0 <= i < j < out@.len() ==> comes_before(#[trigger] out@[i], #[trigger] out@[j]),
{
    let mut out: Vec<(usize, usize, usize)> = Vec::new();
    if dogs.ns < 3 || dogs.ny < 3 || dogs.nx < 3 {
        return out;
    }
    let mut s: usize = 1;
    while s < dogs.ns - 1
        invariant
            dogs.wf(),
            dogs.ns >= 3,
            dogs.ny >= 3,
            dogs.nx >= 3,
            mask is Some ==> (mask->0)@.len() == dogs.ny * dogs.nx,
            n_5 ==> dogs.wide_stays_inside(mask),
            1 <= s <= dogs.ns - 1,
            lists_until(*dogs, mask, n_5, out@, s, 1, 1),
        decreases dogs.ns - s,
    {
        scan_plane(dogs, mask, n_5, s, &mut out);
        s = s + 1;
    }
    out
}

/// Tests [`DogStack::wide_stays_inside`], which [`local_max`] asks for with `n_5`.
pub fn check_wide(dogs: &DogStack, mask: Option<&[bool]>) -> (b: bool)
    requires
        dogs.wf(),
        dogs.ns >= 3 && dogs.ny >= 3 && dogs.nx >= 3 && mask is Some ==> (mask->0)@.len() == dogs.ny
            * dogs.nx,
    ensures
        b == dogs.wide_stays_inside(mask),
{
    if dogs.ns < 3 || dogs.ny <= 3 || dogs.nx < 3 {
        return true;
    }
    let (s, y): (usize, usize) = (dogs.ns - 2, dogs.ny - 2);
    let mut x: usize = 1;
    while x < dogs.nx - 1
        invariant
            dogs.wf(),
            dogs.ns >= 3,
            dogs.ny > 3,
            dogs.nx >= 3,
            mask is Some ==> (mask->0)@.len() == dogs.ny * dogs.nx,
            s == dogs.ns - 2,
            y == dogs.ny - 2,
            1 <= x <= dogs.nx - 1,
            forall|k: int| #[trigger]
                dogs.inside(s as int, y as int, k) && k < x && !masked(
                    mask,
                    dogs.nx as int,
                    y as int,
                    k,
                ) ==> !dogs.tops_wide_first(s as int, y as int, k),
        decreases dogs.nx - x,
    {
        assert(dogs.inside(s as int, y as int, x as int));
        if !is_masked_at(dogs, mask, y, x) && dogs.beats_cube(s, y, x) && dogs.beats_wide_first(
            s,
            y,
            x,
        ) {
            return false;
        }
        x = x + 1;
    }
    true
}

/// Tests [`masked`].
fn is_masked_at(dogs: &DogStack, mask: Option<&[bool]>, y: usize, x: usize) -> (b: bool)
    requires
        mask is Some ==> (mask->0)@.len() == dogs.ny * dogs.nx,
        y < dogs.ny,
        x < dogs.nx,
    ensures
        b == masked(mask, dogs.nx as int, y as int, x as int),
{
    match mask {
        Some(m) => {
            let n: usize = m.len();
            proof {
                lemma_flat_bound(y as int, x as int, dogs.ny as int, dogs.nx as int);
            }
            m[y * dogs.nx + x]
        },
        None => false,
    }
}

/// Appends the keypoints of scale `s`.
fn scan_plane(
    dogs: &DogStack,
    mask: Option<&[bool]>,
    n_5: bool,
    s: usize,
    out: &mut Vec<(usize, usize, usize)>,
)
    requires
        dogs.wf(),
        dogs.ns >= 3,
        dogs.ny >= 3,
        dogs.nx >= 3,
        mask is Some ==> (mask->0)@.len() == dogs.ny * dogs.nx,
        n_5 ==> dogs.wide_stays_inside(mask),
        1 <= s < dogs.ns - 1,
        lists_until(*dogs, mask, n_5, old(out)@, s, 1, 1),
    ensures
        lists_until(*dogs, mask, n_5, final(out)@, (s + 1) as usize, 1, 1),
{
    let mut y: usize = 1;
    while y < dogs.ny - 1
        invariant
            dogs.wf(),
            dogs.ns >= 3,
            dogs.ny >= 3,
            dogs.nx >= 3,
            mask is Some ==> (mask->0)@.len() == dogs.ny * dogs.nx,
            n_5 ==> dogs.wide_stays_inside(mask),
            1 <= s < dogs.ns - 1,
            1 <= y <= dogs.ny - 1,
            lists_until(*dogs, mask, n_5, out@, s, y, 1),
        decreases dogs.ny - y,
    {
        let mut x: usize = 1;
        while x < dogs.nx - 1
            invariant
                dogs.wf(),
                dogs.ns >= 3,
                dogs.ny >= 3,
                dogs.nx >= 3,
                mask is Some ==> (mask->0)@.len() == dogs.ny * dogs.nx,
                n_5 ==> dogs.wide_stays_inside(mask),
                1 <= s < dogs.ns - 1,
                1 <= y < dogs.ny - 1,
                1 <= x <= dogs.nx - 1,
                lists_until(*dogs, mask, n_5, out@, s, y, x),
            decreases dogs.nx - x,
        {
            let ghost before = out@;
            assert(s == dogs.ns - 2 && y == dogs.ny - 2 ==> dogs.inside(
                dogs.ns - 2,
                dogs.ny - 2,
                x as int,
            ));
            let found: bool = tests_pass(dogs, mask, n_5, s, y, x);
            if found {
                out.push((s, y, x));
            }
            proof {
                assert forall|a: usize, b: usize, c: usize| #[trigger]
                    dogs.is_keypoint(mask, n_5, a as int, b as int, c as int) && comes_before(
                        (a, b, c),
                        (s, y, (x + 1) as usize),
                    ) implies out@.contains((a, b, c)) by {
                    if comes_before((a, b, c), (s, y, x)) {
                        assert(before.contains((a, b, c)));
                        let k = choose|k: int| 0 <= k < before.len() && before[k] == (a, b, c);
                        assert(out@[k] == (a, b, c));
                    } else {
                        assert(out@[before.len() as int] == (a, b, c));
                    }
                }
            }
            x = x + 1;
        }
        y = y + 1;
    }
}

/// Tests whether voxel `(s, y, x)` is a keypoint.
fn tests_pass(
    dogs: &DogStack,
    mask: Option<&[bool]>,
    n_5: bool,
    s: usize,
    y: usize,
    x: usize,
) -> (b: bool)
    requires
        dogs.wf(),
        mask is Some ==> (mask->0)@.len() == dogs.ny * dogs.nx,
        dogs.inside(s as int, y as int, x as int),
        n_5 && s == dogs.ns - 2 && y == dogs.ny - 2 && y > 1 && !masked(
            mask,
            dogs.nx as int,
            y as int,
            x as int,
        ) ==> !dogs.tops_wide_first(s as int, y as int, x as int),
    ensures
        b == dogs.is_keypoint(mask, n_5, s as int, y as int, x as int),
{
    if is_masked_at(dogs, mask, y, x) {
        return false;
    }
    if !dogs.beats_cube(s, y, x) {
        return false;
    }
    if n_5 {
        proof {
            if y > 1 && dogs.tops_wide_first(s as int, y as int, x as int) {
                if y + 2 < dogs.ny {
                    dogs.lemma_place(s + 1, y + 2, x + 1);
                } else {
                    // The row after the last one of a plane is the first one of the next plane.
                    assert(y + 2 == dogs.ny);
                    dogs.lemma_place(s + 2, 0, x + 1);
                    let ny = dogs.ny as int;
                    assert((s + 2) * ny == (s + 1) * ny + ny) by (nonlinear_arith);
                }
            }
        }
        return dogs.beats_wide(s, y, x);
    }
    true
}

/// Voxels lie in the data one after the other along x, then along y, then along the scale.
pub proof fn lemma_voxel_layout(d: DogStack, s: int, y: int, x: int)
    ensures
        d.place(0, 0, 0) == 0,
        d.place(s, y, x + 1) == d.place(s, y, x) + 1,
        d.place(s, y + 1, x) == d.place(s, y, x) + d.nx,
        d.place(s + 1, y, x) == d.place(s, y, x) + d.ny * d.nx,
{
    let (ny, nx) = (d.ny as int, d.nx as int);
    assert(0 * ny + 0 == 0 && 0 * nx + 0 == 0);
    assert((s * ny + (y + 1)) * nx == (s * ny + y) * nx + nx) by (nonlinear_arith);
    assert(((s + 1) * ny + y) * nx == (s * ny + y) * nx + ny * nx) by (nonlinear_arith);
}

/// Where the values of a scale space grow by a fixed amount along each axis, each value of
/// the stencil differs from the keypoint by the amounts of the steps that its name tells:
/// the next voxel has one step more, the previous one a step less.
pub proof fn lemma_stencil_of_a_slope(
    d: DogStack,
    s: int,
    y: int,
    x: int,
    val: spec_fn(u32) -> int,
    gs: int,
    gy: int,
    gx: int,
    at: int,
)
    requires
        d.inside(s, y, x),
        forall|k: int, j: int, i: int|
            0 <= k < d.ns && 0 <= j < d.ny && 0 <= i < d.nx ==> val(#[trigger] d.voxel(k, j, i))
                == at + gs * k + gy * j + gx * i,
    ensures
        ({
            let h = d.stencil_at(s, y, x);
            let c = val(h.curr);
            &&& val(h.nx) == c + gx && val(h.px) == c - gx
            &&& val(h.ny) == c + gy && val(h.py) == c - gy
            &&& val(h.ns) == c + gs && val(h.ps) == c - gs
            &&& val(h.nxny) == c + gx + gy && val(h.nxpy) == c + gx - gy
            &&& val(h.pxny) == c - gx + gy && val(h.pxpy) == c - gx - gy
            &&& val(h.nsny) == c + gs + gy && val(h.nspy) == c + gs - gy
            &&& val(h.psny) == c - gs + gy && val(h.pspy) == c - gs - gy
            &&& val(h.nxns) == c + gx + gs && val(h.nxps) == c + gx - gs
            &&& val(h.pxns) == c - gx + gs && val(h.pxps) == c - gx - gs
            &&& c == at + gs * s + gy * y + gx * x
        }),
{
    assert(gx * (x + 1) == gx * x + gx && gx * (x - 1) == gx * x - gx) by (nonlinear_arith);
    assert(gy * (y + 1) == gy * y + gy && gy * (y - 1) == gy * y - gy) by (nonlinear_arith);
    assert(gs * (s + 1) == gs * s + gs && gs * (s - 1) == gs * s - gs) by (nonlinear_arith);
}

/// Mirroring a scale space in x swaps what the stencil holds of the next and of the
/// previous column, and keeps the rest.
pub proof fn lemma_mirrored_stencil(d: DogStack, m: DogStack, s: int, y: int, x: int)
    requires
        d.inside(s, y, x),
        m.ns == d.ns,
        m.ny == d.ny,
        m.nx == d.nx,
        forall|k: int, j: int, i: int|
            0 <= k < d.ns && 0 <= j < d.ny && 0 <= i < d.nx ==> #[trigger] m.voxel(k, j, i)
                == d.voxel(k, j, d.nx - 1 - i),
    ensures
        ({
            let h = d.stencil_at(s, y, x);
            m.stencil_at(s, y, d.nx - 1 - x) == (HessianStencil {
                nx: h.px,
                px: h.nx,
                nxny: h.pxny,
                pxny: h.nxny,
                nxpy: h.pxpy,
                pxpy: h.nxpy,
                nxns: h.pxns,
                pxns: h.nxns,
                nxps: h.pxps,
                pxps: h.nxps,
                ..h
            })
        }),
{
}

/// A voxel is a keypoint iff it is not on the rim and not masked, and greater than each of
/// the other voxels that lie within one step of it along every axis.
pub proof fn lemma_keypoint_tops_the_cube(
    d: DogStack,
    mask: Option<&[bool]>,
    s: int,
    y: int,
    x: int,
)
    ensures
        d.is_keypoint(mask, false, s, y, x) <==> {
            &&& 1 <= s < d.ns - 1
            &&& 1 <= y < d.ny - 1
            &&& 1 <= x < d.nx - 1
            &&& mask matches Some(m) ==> !m@[y * d.nx + x]
            &&& forall|k: int, j: int, i: int|
                s - 1 <= k <= s + 1 && y - 1 <= j <= y + 1 && x - 1 <= i <= x + 1 && !(k == s && j
                    == y && i == x) ==> gt(d.voxel(s, y, x), #[trigger] d.voxel(k, j, i))
        },
{
    assert forall|k: int, j: int, i: int|
        d.tops_cube(s, y, x) && s - 1 <= k <= s + 1 && y - 1 <= j <= y + 1 && x - 1 <= i <= x + 1
            && !(k == s && j == y && i == x) implies gt(
        d.voxel(s, y, x),
        #[trigger] d.voxel(k, j, i),
    ) by {
        assert(d.tops(s, y, x, k - s, j - y, i - x));
    }
    if forall|k: int, j: int, i: int|
        s - 1 <= k <= s + 1 && y - 1 <= j <= y + 1 && x - 1 <= i <= x + 1 && !(k == s && j == y
            && i == x) ==> gt(d.voxel(s, y, x), #[trigger] d.voxel(k, j, i)) {
        assert(d.tops_cube(s, y, x));
    }
}

/// With the wide neighbourhood a keypoint is greater than every other voxel of its plane
/// that lies within two steps of it.
pub proof fn lemma_wide_keypoint_tops_the_plane(
    d: DogStack,
    mask: Option<&[bool]>,
    s: int,
    y: int,
    x: int,
    j: int,
    i: int,
)
    requires
        d.is_keypoint(mask, true, s, y, x),
        y - 2 <= j <= y + 2,
        x - 2 <= i <= x + 2,
        0 <= j < d.ny,
        0 <= i < d.nx,
        !(j == y && i == x),
    ensures
        gt(d.voxel(s, y, x), d.voxel(s, j, i)),
{
    assert(d.tops(s, y, x, 0, j - y, i - x));
}

/// Keypoints are listed in the order in which their voxels stand in the data: scale by
/// scale, row by row.
pub proof fn lemma_listed_as_stored(d: DogStack, a: (usize, usize, usize), b: (usize, usize, usize))
    requires
        a.1 < d.ny && a.2 < d.nx,
        b.1 < d.ny && b.2 < d.nx,
    ensures
        comes_before(a, b) <==> (a.0 * d.ny + a.1) * d.nx + a.2 < (b.0 * d.ny + b.1) * d.nx + b.2,
{
    let (ny, nx) = (d.ny as int, d.nx as int);
    let p = flat(a.0 as int, a.1 as int, ny);
    let q = flat(b.0 as int, b.1 as int, ny);
    lemma_flat_inverse(a.0 as int, a.1 as int, ny);
    lemma_flat_inverse(b.0 as int, b.1 as int, ny);
    lemma_flat_order(p, q, ny);
    lemma_flat_order(q, p, ny);
    lemma_flat_inverse(p, a.2 as int, nx);
    lemma_flat_inverse(q, b.2 as int, nx);
    lemma_flat_order(flat(p, a.2 as int, nx), flat(q, b.2 as int, nx), nx);
}

/// The wide neighbourhood, as far as the image reaches: five by five voxels at the own scale
/// and at the one below, and at the one above those without the corners and without the
/// right one of the top row.
pub open spec fn in_wide(d: DogStack, y: int, x: int, ds: int, dy: int, dx: int) -> bool {
    &&& 0 <= y + dy < d.ny
    &&& 0 <= x + dx < d.nx
    &&& !(ds == 0 && dy == 0 && dx == 0)
    &&& if ds == 1 {
        -1 <= dy <= 1 && -2 <= dx <= 2 || dy == 2 && -1 <= dx <= 1 || dy == -2 && -1 <= dx <= 0
    } else {
        -1 <= ds <= 0 && -2 <= dy <= 2 && -2 <= dx <= 2
    }
}

/// With the wide neighbourhood a voxel is a keypoint iff it is one without it and greater
/// than each voxel of that neighbourhood; below the second row also than the voxel two rows
/// down and one to the right at the scale above.
pub proof fn lemma_wide_keypoint(
    d: DogStack,
    mask: Option<&[bool]>,
    s: int,
    y: int,
    x: int,
)
    ensures
        d.is_keypoint(mask, true, s, y, x) <==> {
            &&& d.is_keypoint(mask, false, s, y, x)
            &&& forall|ds: int, dy: int, dx: int|
                in_wide(d, y, x, ds, dy, dx) ==> #[trigger] d.tops(s, y, x, ds, dy, dx)
            &&& y > 1 ==> gt(d.voxel(s, y, x), d.voxel(s + 1, y + 2, x + 1))
        },
{
    if d.is_keypoint(mask, true, s, y, x) {
        assert forall|ds: int, dy: int, dx: int| in_wide(d, y, x, ds, dy, dx) implies #[trigger] d.tops(
            s,
            y,
            x,
            ds,
            dy,
            dx,
        ) by {}
        assert(y > 1 ==> d.tops(s, y, x, 1, 2, 1));
    }
    if d.is_keypoint(mask, false, s, y, x) && (forall|ds: int, dy: int, dx: int|
        in_wide(d, y, x, ds, dy, dx) ==> #[trigger] d.tops(s, y, x, ds, dy, dx)) && (y > 1 ==> gt(
        d.voxel(s, y, x),
        d.voxel(s + 1, y + 2, x + 1),
    )) {
        assert(x > 1 ==> d.tops_side(s, y, x, -2));
        assert(x < d.nx - 2 ==> d.tops_side(s, y, x, 2));
        assert(y > 1 ==> d.tops_upper(s, y, x));
        assert(y < d.ny - 2 ==> d.tops_lower(s, y, x));
        assert(y > 1 ==> d.tops(s, y, x, 1, 2, 1));
    }
}

} // verus!
