//! Inverse watershed: every pixel belongs to the local maximum that a climb from
//! it reaches, and the pixels of one maximum form a region.

use crate::bilinear::{
    is_climb, is_local_maxi, lemma_climb_goes_up, lemma_local_maxi_fixed, lemma_local_maxi_unique,
    Bilinear,
};
use crate::grid::{flat, lemma_flat_bound, lemma_flat_cell, lemma_flat_inverse};
use crate::ieee::{at_least, ge, greater, gt, is_nan, rank, rank_of, same_number, MINUS_ONE};
use std::collections::BTreeMap;
use vstd::prelude::*;

verus! {

/// The single-precision pattern of minus two to the power of 63: the pass value of
/// a region whose borders have not been looked at.
pub const LOWEST_PASS: u32 = 0xdf00_0000;

/// A watershed region: a peak pixel, its catchment size, its border pixels, the
/// neighbouring region each border pixel touches, and the pass values.
#[derive(Debug, Clone)]
pub struct Region {
    /// Flat index of the peak.
    pub index: i32,
    /// Number of pixels.
    pub size: i32,
    /// The region that the highest border pixel touches.
    pub pass_to: i32,
    /// Smallest value on the border.
    pub mini: u32,
    /// Value of the peak.
    pub maxi: u32,
    /// Largest value on the border.
    pub highest_pass: u32,
    /// For each border pixel, the label of a neighbour outside the region.
    pub neighbors: Vec<i32>,
    /// Flat indices of the border pixels.
    pub border: Vec<i32>,
    /// Flat indices of the peaks.
    pub peaks: Vec<i32>,
}

/// `k` is the first position of the greatest value of `values`; position 0 where
/// the first value is a NaN. Later NaNs are passed over.
pub open spec fn is_first_max(values: Seq<u32>, k: int) -> bool {
    &&& 0 <= k < values.len()
    &&& if is_nan(values[0]) {
        k == 0
    } else {
        &&& !is_nan(values[k])
        &&& forall|j: int| 0 <= j < values.len() ==> !gt(#[trigger] values[j], values[k])
        &&& forall|j: int| 0 <= j < k ==> is_nan(#[trigger] values[j]) || gt(values[k], values[j])
    }
}

/// `k` is the first position of the smallest value of `values`; position 0 where
/// the first value is a NaN. Later NaNs are passed over.
pub open spec fn is_first_min(values: Seq<u32>, k: int) -> bool {
    &&& 0 <= k < values.len()
    &&& if is_nan(values[0]) {
        k == 0
    } else {
        &&& !is_nan(values[k])
        &&& forall|j: int| 0 <= j < values.len() ==> !gt(values[k], #[trigger] values[j])
        &&& forall|j: int| 0 <= j < k ==> is_nan(#[trigger] values[j]) || gt(values[j], values[k])
    }
}

/// The values of the image at the given pixels.
pub open spec fn values_at(img: Seq<u32>, pixels: Seq<i32>) -> Seq<u32> {
    Seq::new(pixels.len(), |k: int| img[pixels[k] as int])
}

impl Region {
    /// A region of one peak, with nothing known of its pixels.
    pub fn new(idx: i32) -> (s: Self)
        ensures
            s.index == idx,
            s.size == 0,
            s.pass_to == -1,
            s.mini == MINUS_ONE,
            s.maxi == MINUS_ONE,
            s.highest_pass == LOWEST_PASS,
            s.neighbors@ == Seq::<i32>::empty(),
            s.border@ == Seq::<i32>::empty(),
            s.peaks@ == seq![idx],
    {
        Region {
            index: idx,
            size: 0,
            pass_to: -1,
            mini: MINUS_ONE,
            maxi: MINUS_ONE,
            highest_pass: LOWEST_PASS,
            neighbors: Vec::new(),
            border: Vec::new(),
            peaks: vec![idx],
        }
    }

    /// The region has no border, or not one neighbour for each border pixel.
    pub open spec fn degenerate(&self) -> bool {
        self.border@.len() == 0 || self.neighbors@.len() != self.border@.len()
    }

    /// Sets the peak value, the border's smallest and largest value and the
    /// neighbour that the largest one passes to. Returns `true` if the region is
    /// degenerate and must be dropped; only the peak value is set then. A smallest
    /// value other than `-1.0` is kept.
    pub fn init_values(&mut self, flat: &[u32]) -> (dropped: bool)
        requires
            0 <= old(self).index < flat@.len(),
            forall|k: int|
                0 <= k < old(self).border@.len() ==> 0 <= #[trigger] old(self).border@[k]
                    < flat@.len(),
        ensures
            dropped == old(self).degenerate(),
            final(self).index == old(self).index,
            final(self).size == old(self).size,
            final(self).neighbors@ == old(self).neighbors@,
            final(self).border@ == old(self).border@,
            final(self).peaks@ == old(self).peaks@,
            final(self).maxi == flat@[old(self).index as int],
            dropped ==> final(self).mini == old(self).mini && final(self).highest_pass == old(
                self,
            ).highest_pass && final(self).pass_to == old(self).pass_to,
            !dropped ==> exists|k: int| #[trigger]
                is_first_max(values_at(flat@, old(self).border@), k) && final(self).highest_pass
                    == flat@[old(self).border@[k] as int] && final(self).pass_to == old(
                    self,
                ).neighbors@[k],
            !dropped && !(!is_nan(old(self).mini) && rank(old(self).mini) == rank(MINUS_ONE))
                ==> final(self).mini == old(self).mini,
            !dropped && !is_nan(old(self).mini) && rank(old(self).mini) == rank(MINUS_ONE)
                ==> exists|k: int| #[trigger]
                is_first_min(values_at(flat@, old(self).border@), k) && final(self).mini
                    == flat@[old(self).border@[k] as int],
    {
        self.maxi = flat[self.index as usize];
        let border_size: usize = self.border.len();
        let neighbors_size: usize = self.neighbors.len();
        if neighbors_size != border_size {
            return true;
        }
        if neighbors_size == 0 {
            return true;
        }
        let ghost vals = values_at(flat@, self.border@);
        let mut imax: usize = 0;
        let ghost mut imin: int = 0;
        let mut mini: u32 = flat[self.border[0] as usize];
        let mut maxi: u32 = mini;
        let mut k: usize = 1;
        while k < border_size
            invariant
                border_size == self.border@.len(),
                1 <= k <= border_size,
                vals == values_at(flat@, self.border@),
                forall|j: int|
                    0 <= j < self.border@.len() ==> 0 <= #[trigger] self.border@[j] < flat@.len(),
                self.border@ == old(self).border@,
                self.neighbors@ == old(self).neighbors@,
                self.index == old(self).index,
                self.size == old(self).size,
                self.peaks@ == old(self).peaks@,
                self.mini == old(self).mini,
                self.maxi == flat@[old(self).index as int],
                imax < k,
                0 <= imin < k,
                maxi == vals[imax as int],
                mini == vals[imin],
                is_first_max(vals.take(k as int), imax as int),
                is_first_min(vals.take(k as int), imin),
            decreases border_size - k,
        {
            let val: u32 = flat[self.border[k] as usize];
            assert(val == vals[k as int]);
            assert(vals.take(k + 1) =~= vals.take(k as int).push(val));
            proof {
                let seen = vals.take(k as int);
                assert(!is_nan(seen[0]) ==> !gt(mini, seen[imax as int]) && !gt(
                    seen[imin],
                    maxi,
                ));
            }
            if greater(mini, val) {
                mini = val;
                proof {
                    imin = k as int;
                }
            } else if greater(val, maxi) {
                maxi = val;
                imax = k;
            }
            k = k + 1;
        }
        assert(vals.take(border_size as int) =~= vals);
        if same_number(self.mini, MINUS_ONE) {
            self.mini = mini;
        }
        self.highest_pass = maxi;
        self.pass_to = self.neighbors[imax];
        false
    }
}

/// Bit `k` of the code is set.
pub open spec fn bit_set(code: u8, k: u32) -> bool {
    (code & (1u8 << k)) != 0
}

/// Tests a bit of a border code.
pub fn get_bit(byteval: u8, idx: u32) -> (b: bool)
    requires
        idx < 8,
    ensures
        b == bit_set(byteval, idx),
{
    (byteval & (1u8 << idx)) != 0
}

/// The offset of neighbour `k`, clockwise from the upper left one.
pub open spec fn ring(k: int) -> (int, int) {
    if k == 0 {
        (-1, -1)
    } else if k == 1 {
        (-1, 0)
    } else if k == 2 {
        (-1, 1)
    } else if k == 3 {
        (0, 1)
    } else if k == 4 {
        (1, 1)
    } else if k == 5 {
        (1, 0)
    } else if k == 6 {
        (1, -1)
    } else {
        (0, -1)
    }
}

/// The label of neighbour `k` of cell `(r, c)`.
pub open spec fn ring_label(labels: Seq<i32>, width: int, r: int, c: int, k: int) -> i32 {
    let (dr, dc) = ring(k);
    labels[flat(r + dr, c + dc, width)]
}

/// Neighbour `k` of cell `(r, c)` lies in the image and carries another label.
pub open spec fn differs(
    labels: Seq<i32>,
    height: int,
    width: int,
    r: int,
    c: int,
    k: int,
) -> bool {
    let (dr, dc) = ring(k);
    &&& 0 <= r + dr < height
    &&& 0 <= c + dc < width
    &&& ring_label(labels, width, r, c, k) != labels[flat(r, c, width)]
}

/// `code` tells for cell `(r, c)` which of its neighbours carry another label.
pub open spec fn is_border_code(
    labels: Seq<i32>,
    height: int,
    width: int,
    r: int,
    c: int,
    code: u8,
) -> bool {
    forall|k: u32|
        k < 8 ==> #[trigger] bit_set(code, k) == differs(labels, height, width, r, c, k as int)
}

/// The label of the first neighbour with another label, in the order upper, right,
/// lower, left, upper left, upper right, lower right, lower left.
pub open spec fn outward(labels: Seq<i32>, height: int, width: int, r: int, c: int) -> i32 {
    if differs(labels, height, width, r, c, 1) {
        ring_label(labels, width, r, c, 1)
    } else if differs(labels, height, width, r, c, 3) {
        ring_label(labels, width, r, c, 3)
    } else if differs(labels, height, width, r, c, 5) {
        ring_label(labels, width, r, c, 5)
    } else if differs(labels, height, width, r, c, 7) {
        ring_label(labels, width, r, c, 7)
    } else if differs(labels, height, width, r, c, 0) {
        ring_label(labels, width, r, c, 0)
    } else if differs(labels, height, width, r, c, 2) {
        ring_label(labels, width, r, c, 2)
    } else if differs(labels, height, width, r, c, 4) {
        ring_label(labels, width, r, c, 4)
    } else {
        ring_label(labels, width, r, c, 6)
    }
}

/// How many of the first `n` pixels carry label `p`.
pub open spec fn count_label(labels: Seq<i32>, p: i32, n: nat) -> nat
    decreases n,
{
    if n == 0 {
        0
    } else {
        count_label(labels, p, (n - 1) as nat) + if labels[n - 1] == p {
            1nat
        } else {
            0nat
        }
    }
}

/// The border pixels of label `p` among the first `n` pixels, in ascending order:
/// those with a neighbour of another label.
pub open spec fn border_pixels(labels: Seq<i32>, borders: Seq<u8>, p: i32, n: nat) -> Seq<i32>
    decreases n,
{
    if n == 0 {
        Seq::empty()
    } else if labels[n - 1] == p && borders[n - 1] != 0 {
        border_pixels(labels, borders, p, (n - 1) as nat).push((n - 1) as i32)
    } else {
        border_pixels(labels, borders, p, (n - 1) as nat)
    }
}

/// The label that each border pixel touches.
pub open spec fn outward_labels(
    labels: Seq<i32>,
    height: int,
    width: int,
    pixels: Seq<i32>,
) -> Seq<i32> {
    Seq::new(
        pixels.len(),
        |k: int| outward(labels, height, width, pixels[k] as int / width, pixels[k] as int % width),
    )
}

/// Region `g` holds the pixels that carry label `p`, with the given border.
pub open spec fn pixel_region(
    labels: Seq<i32>,
    height: int,
    width: int,
    p: i32,
    border: Seq<i32>,
    g: Region,
) -> bool {
    &&& g.index == p
    &&& g.size == count_label(labels, p, labels.len())
    &&& g.border@ == border
    &&& g.neighbors@ == outward_labels(labels, height, width, border)
    &&& g.peaks@ == seq![p]
}

/// Region `g` knows the value of its peak, the smallest and the largest value on
/// its border, and the region that the largest one touches.
pub open spec fn pass_values(img: Seq<u32>, border: Seq<i32>, p: i32, g: Region) -> bool {
    let edge = values_at(img, border);
    &&& g.maxi == img[p as int]
    &&& exists|k: int| #[trigger] is_first_min(edge, k) && g.mini == edge[k]
    &&& exists|k: int| #[trigger]
        is_first_max(edge, k) && g.highest_pass == edge[k] && g.pass_to == g.neighbors@[k]
}

/// The code of which flags are up, one bit each.
fn pack_flags(b0: bool, b1: bool, b2: bool, b3: bool, b4: bool, b5: bool, b6: bool, b7: bool) -> (code:
    u8)
    ensures
        bit_set(code, 0) == b0,
        bit_set(code, 1) == b1,
        bit_set(code, 2) == b2,
        bit_set(code, 3) == b3,
        bit_set(code, 4) == b4,
        bit_set(code, 5) == b5,
        bit_set(code, 6) == b6,
        bit_set(code, 7) == b7,
{
    let c0: u8 = if b0 { 1 } else { 0 };
    let c1: u8 = if b1 { 2 } else { 0 };
    let c2: u8 = if b2 { 4 } else { 0 };
    let c3: u8 = if b3 { 8 } else { 0 };
    let c4: u8 = if b4 { 16 } else { 0 };
    let c5: u8 = if b5 { 32 } else { 0 };
    let c6: u8 = if b6 { 64 } else { 0 };
    let c7: u8 = if b7 { 128 } else { 0 };
    let code: u8 = c0 | c1 | c2 | c3 | c4 | c5 | c6 | c7;
    assert(((code & (1u8 << 0u32)) != 0) == b0 && ((code & (1u8 << 1u32)) != 0) == b1 && ((code & (
    1u8 << 2u32)) != 0) == b2 && ((code & (1u8 << 3u32)) != 0) == b3 && ((code & (1u8 << 4u32))
        != 0) == b4 && ((code & (1u8 << 5u32)) != 0) == b5 && ((code & (1u8 << 6u32)) != 0) == b6
        && ((code & (1u8 << 7u32)) != 0) == b7) by (bit_vector)
        requires
            code == c0 | c1 | c2 | c3 | c4 | c5 | c6 | c7,
            c0 == (if b0 { 1u8 } else { 0u8 }),
            c1 == (if b1 { 2u8 } else { 0u8 }),
            c2 == (if b2 { 4u8 } else { 0u8 }),
            c3 == (if b3 { 8u8 } else { 0u8 }),
            c4 == (if b4 { 16u8 } else { 0u8 }),
            c5 == (if b5 { 32u8 } else { 0u8 }),
            c6 == (if b6 { 64u8 } else { 0u8 }),
            c7 == (if b7 { 128u8 } else { 0u8 }),
    ;
    code
}

/// A code with no bit set is 0.
proof fn lemma_code_zero(code: u8)
    requires
        code != 0,
        !bit_set(code, 0),
        !bit_set(code, 1),
        !bit_set(code, 2),
        !bit_set(code, 3),
        !bit_set(code, 4),
        !bit_set(code, 5),
        !bit_set(code, 7),
    ensures
        bit_set(code, 6),
{
    assert(code != 0 && (code & (1u8 << 0u32)) == 0 && (code & (1u8 << 1u32)) == 0 && (code & (1u8
        << 2u32)) == 0 && (code & (1u8 << 3u32)) == 0 && (code & (1u8 << 4u32)) == 0 && (code & (1u8
        << 5u32)) == 0 && (code & (1u8 << 7u32)) == 0 ==> (code & (1u8 << 6u32)) != 0)
        by (bit_vector);
}

/// The inverse-watershed segmenter over a 2-D single-precision image, its values
/// given as bit patterns.
pub struct InverseWatershed {
    /// The image in row-major order.
    pub data: Vec<u32>,
    /// Number of rows.
    pub height: usize,
    /// Number of columns.
    pub width: usize,
    /// For each pixel the flat index of its local maximum.
    pub labels: Vec<i32>,
    /// For each pixel the code of the neighbours with another label.
    pub borders: Vec<u8>,
    /// Regions keyed by peak flat index.
    pub regions: BTreeMap<i32, Region>,
}

impl InverseWatershed {
    /// The image and its label and border planes have one shape, and flat indices
    /// are `i32`.
    pub open spec fn wf(&self) -> bool {
        &&& self.data@.len() == self.height * self.width
        &&& self.labels@.len() == self.data@.len()
        &&& self.borders@.len() == self.data@.len()
        &&& self.data@.len() <= i32::MAX
    }

    /// Nothing has been segmented yet.
    pub open spec fn fresh(&self) -> bool {
        &&& self.wf()
        &&& forall|i: int| 0 <= i < self.labels@.len() ==> #[trigger] self.labels@[i] == 0
        &&& self.regions@ == Map::<i32, Region>::empty()
    }

    /// Every pixel carries the flat index of its local maximum.
    pub open spec fn labelled(&self) -> bool {
        &&& self.wf()
        &&& forall|i: int|
            0 <= i < self.labels@.len() ==> 0 <= #[trigger] self.labels@[i] < self.labels@.len()
                && is_local_maxi(
                self.data@,
                self.height as int,
                self.width as int,
                i,
                self.labels@[i] as int,
            )
    }

    /// Every border code tells which neighbours carry another label.
    pub open spec fn bordered(&self) -> bool {
        forall|r: int, c: int|
            0 <= r < self.height && 0 <= c < self.width ==> is_border_code(
                self.labels@,
                self.height as int,
                self.width as int,
                r,
                c,
                self.borders@[#[trigger] flat(r, c, self.width as int)],
            )
    }

    /// The border pixels of region `p`, in ascending order.
    pub open spec fn border_of(&self, p: i32) -> Seq<i32> {
        border_pixels(self.labels@, self.borders@, p, self.labels@.len())
    }

    /// The region at peak `p`, with its pass values.
    pub open spec fn is_passed_region(&self, p: i32, g: Region) -> bool {
        &&& pixel_region(
            self.labels@,
            self.height as int,
            self.width as int,
            p,
            self.border_of(p),
            g,
        )
        &&& pass_values(self.data@, self.border_of(p), p, g)
    }

    /// The image is segmented: labels and border codes are set, and the regions are
    /// those of the local maxima whose region has a border.
    pub open spec fn segmented(&self) -> bool {
        &&& self.labelled()
        &&& self.bordered()
        &&& forall|p: i32| #[trigger]
            self.regions@.dom().contains(p) <==> 0 <= p < self.labels@.len()
                && self.labels@[p as int] == p && self.border_of(p).len() > 0
        &&& forall|p: i32| #[trigger]
            self.regions@.dom().contains(p) ==> self.is_passed_region(p, self.regions@[p])
    }

    /// Wraps a row-major image of shape `(height, width)`.
    pub fn new(data: Vec<u32>, height: usize, width: usize) -> (s: Self)
        requires
            data@.len() == height * width,
            data@.len() <= i32::MAX,
        ensures
            s.data@ == data@,
            s.height == height,
            s.width == width,
            s.fresh(),
            forall|i: int| 0 <= i < s.borders@.len() ==> #[trigger] s.borders@[i] == 0,
    {
        let n: usize = data.len();
        InverseWatershed {
            data,
            height,
            width,
            labels: vec![0i32;n],
            borders: vec![0u8;n],
            regions: BTreeMap::new(),
        }
    }

    /// Labels every pixel with its local maximum and opens a region at each maximum.
    fn init_labels(&mut self)
        requires
            old(self).fresh(),
        ensures
            final(self).labelled(),
            final(self).data@ == old(self).data@,
            final(self).height == old(self).height,
            final(self).width == old(self).width,
            forall|p: i32| #[trigger]
                final(self).regions@.dom().contains(p) <==> 0 <= p < final(self).labels@.len()
                    && final(self).labels@[p as int] == p,
            forall|p: i32| #[trigger]
                final(self).regions@.dom().contains(p) ==> {
                    let g = final(self).regions@[p];
                    &&& g.index == p
                    &&& g.size == 0
                    &&& g.mini == MINUS_ONE
                    &&& g.border@ == Seq::<i32>::empty()
                    &&& g.neighbors@ == Seq::<i32>::empty()
                    &&& g.peaks@ == seq![p]
                },
    {
        broadcast use vstd::std_specs::btree::group_btree_axioms;
        let n: usize = self.data.len();
        let ghost img = self.data@;
        let mut idx: usize = 0;
        while idx < n
            invariant
                n == img.len(),
                idx <= n <= i32::MAX,
                self.wf(),
                self.data@ == img,
                img == old(self).data@,
                self.height == old(self).height,
                self.width == old(self).width,
                forall|i: int| idx <= i < n ==> #[trigger] self.labels@[i] == 0,
                forall|i: int|
                    0 <= i < idx ==> 0 <= #[trigger] self.labels@[i] < n && is_local_maxi(
                        img,
                        self.height as int,
                        self.width as int,
                        i,
                        self.labels@[i] as int,
                    ),
                forall|p: i32| #[trigger]
                    self.regions@.dom().contains(p) <==> 0 <= p < idx && self.labels@[p as int]
                        == p,
                forall|p: i32| #[trigger]
                    self.regions@.dom().contains(p) ==> {
                        let g = self.regions@[p];
                        &&& g.index == p
                        &&& g.size == 0
                        &&& g.mini == MINUS_ONE
                        &&& g.border@ == Seq::<i32>::empty()
                        &&& g.neighbors@ == Seq::<i32>::empty()
                        &&& g.peaks@ == seq![p]
                    },
            decreases n - idx,
        {
            let bilinear = Bilinear::new(self.data.as_slice(), self.height, self.width);
            let res: i32 = bilinear.local_maxi_index(idx) as i32;
            self.labels[idx] = self.labels[idx] + res;
            if idx as i32 == res {
                self.regions.insert(res, Region::new(res));
            }
            idx = idx + 1;
        }
    }

    /// The label at row `r` and column `c`.
    fn label_at(&self, r: usize, c: usize) -> (v: i32)
        requires
            self.wf(),
            r < self.height,
            c < self.width,
        ensures
            v == self.labels@[flat(r as int, c as int, self.width as int)],
    {
        let n: usize = self.labels.len();
        proof {
            lemma_flat_bound(r as int, c as int, self.height as int, self.width as int);
        }
        self.labels[c + r * self.width]
    }

    /// The border code of cell `(r, c)`.
    fn border_code(&self, r: usize, c: usize) -> (code: u8)
        requires
            self.wf(),
            r < self.height,
            c < self.width,
        ensures
            is_border_code(
                self.labels@,
                self.height as int,
                self.width as int,
                r as int,
                c as int,
                code,
            ),
    {
        let h: usize = self.height;
        let w: usize = self.width;
        let res: i32 = self.label_at(r, c);
        let b0: bool = r > 0 && c > 0 && self.label_at(r - 1, c - 1) != res;
        let b1: bool = r > 0 && self.label_at(r - 1, c) != res;
        let b2: bool = r > 0 && c < w - 1 && self.label_at(r - 1, c + 1) != res;
        let b3: bool = c < w - 1 && self.label_at(r, c + 1) != res;
        let b4: bool = r < h - 1 && c < w - 1 && self.label_at(r + 1, c + 1) != res;
        let b5: bool = r < h - 1 && self.label_at(r + 1, c) != res;
        let b6: bool = r < h - 1 && c > 0 && self.label_at(r + 1, c - 1) != res;
        let b7: bool = c > 0 && self.label_at(r, c - 1) != res;
        let code: u8 = pack_flags(b0, b1, b2, b3, b4, b5, b6, b7);
        proof {
            let labels = self.labels@;
            let (i, j) = (r as int, c as int);
            assert(b0 == differs(labels, h as int, w as int, i, j, 0));
            assert(b1 == differs(labels, h as int, w as int, i, j, 1));
            assert(b2 == differs(labels, h as int, w as int, i, j, 2));
            assert(b3 == differs(labels, h as int, w as int, i, j, 3));
            assert(b4 == differs(labels, h as int, w as int, i, j, 4));
            assert(b5 == differs(labels, h as int, w as int, i, j, 5));
            assert(b6 == differs(labels, h as int, w as int, i, j, 6));
            assert(b7 == differs(labels, h as int, w as int, i, j, 7));
        }
        code
    }

    /// Sets the border code of every pixel.
    fn init_borders(&mut self)
        requires
            old(self).labelled(),
        ensures
            final(self).labelled(),
            final(self).bordered(),
            final(self).data@ == old(self).data@,
            final(self).height == old(self).height,
            final(self).width == old(self).width,
            final(self).labels@ == old(self).labels@,
            final(self).regions == old(self).regions,
    {
        let n: usize = self.labels.len();
        let ghost h = self.height as int;
        let ghost w = self.width as int;
        let mut r: usize = 0;
        while r < self.height
            invariant
                n == self.labels@.len(),
                h == self.height == old(self).height,
                w == self.width == old(self).width,
                self.labelled(),
                self.data@ == old(self).data@,
                self.labels@ == old(self).labels@,
                self.regions == old(self).regions,
                r <= h,
                forall|i: int, j: int|
                    0 <= i < r && 0 <= j < w ==> is_border_code(
                        self.labels@,
                        h,
                        w,
                        i,
                        j,
                        self.borders@[#[trigger] flat(i, j, w)],
                    ),
            decreases h - r,
        {
            let mut c: usize = 0;
            while c < self.width
                invariant
                    n == self.labels@.len(),
                    h == self.height == old(self).height,
                    w == self.width == old(self).width,
                    self.labelled(),
                    self.data@ == old(self).data@,
                    self.labels@ == old(self).labels@,
                    self.regions == old(self).regions,
                    r < h,
                    c <= w,
                    forall|i: int, j: int|
                        0 <= i <= r && 0 <= j < w && (i < r || j < c) ==> is_border_code(
                            self.labels@,
                            h,
                            w,
                            i,
                            j,
                            self.borders@[#[trigger] flat(i, j, w)],
                        ),
                decreases w - c,
            {
                let code: u8 = self.border_code(r, c);
                proof {
                    lemma_flat_bound(r as int, c as int, h, w);
                }
                let ghost before = self.borders@;
                let at: usize = c + r * self.width;
                self.borders[at] = code;
                proof {
                    assert forall|i: int, j: int|
                        0 <= i <= r && 0 <= j < w && (i < r || j < c + 1) implies is_border_code(
                        self.labels@,
                        h,
                        w,
                        i,
                        j,
                        self.borders@[#[trigger] flat(i, j, w)],
                    ) by {
                        lemma_flat_inverse(i, j, w);
                        lemma_flat_inverse(r as int, c as int, w);
                        lemma_flat_bound(i, j, h, w);
                        if i < r || j < c {
                            assert(self.borders@[flat(i, j, w)] == before[flat(i, j, w)]);
                        }
                    }
                }
                c = c + 1;
            }
            r = r + 1;
        }
    }

    /// The label that border cell `(r, c)` touches.
    fn outward_label(&self, r: usize, c: usize, neighb: u8) -> (v: i32)
        requires
            self.wf(),
            r < self.height,
            c < self.width,
            neighb != 0,
            is_border_code(
                self.labels@,
                self.height as int,
                self.width as int,
                r as int,
                c as int,
                neighb,
            ),
        ensures
            v == outward(
                self.labels@,
                self.height as int,
                self.width as int,
                r as int,
                c as int,
            ),
    {
        if get_bit(neighb, 1) {
            self.label_at(r - 1, c)
        } else if get_bit(neighb, 3) {
            self.label_at(r, c + 1)
        } else if get_bit(neighb, 5) {
            self.label_at(r + 1, c)
        } else if get_bit(neighb, 7) {
            self.label_at(r, c - 1)
        } else if get_bit(neighb, 0) {
            self.label_at(r - 1, c - 1)
        } else if get_bit(neighb, 2) {
            self.label_at(r - 1, c + 1)
        } else if get_bit(neighb, 4) {
            self.label_at(r + 1, c + 1)
        } else {
            proof {
                lemma_code_zero(neighb);
            }
            self.label_at(r + 1, c - 1)
        }
    }

    /// What the first `n` pixels contribute to region `p`.
    spec fn is_partial_region(&self, p: i32, g: Region, n: int) -> bool {
        &&& g.index == p
        &&& g.size == count_label(self.labels@, p, n as nat)
        &&& g.mini == MINUS_ONE
        &&& g.border@ == border_pixels(self.labels@, self.borders@, p, n as nat)
        &&& g.neighbors@ == outward_labels(
            self.labels@,
            self.height as int,
            self.width as int,
            g.border@,
        )
        &&& g.peaks@ == seq![p]
    }

    /// Counts the pixels of every region and lists its border.
    fn init_regions(&mut self)
        requires
            old(self).labelled(),
            old(self).bordered(),
            forall|p: i32| #[trigger]
                old(self).regions@.dom().contains(p) <==> 0 <= p < old(self).labels@.len() && old(
                    self,
                ).labels@[p as int] == p,
            forall|p: i32| #[trigger]
                old(self).regions@.dom().contains(p) ==> old(self).is_partial_region(
                    p,
                    old(self).regions@[p],
                    0,
                ),
        ensures
            final(self).data@ == old(self).data@,
            final(self).height == old(self).height,
            final(self).width == old(self).width,
            final(self).labels@ == old(self).labels@,
            final(self).borders@ == old(self).borders@,
            final(self).regions@.dom() == old(self).regions@.dom(),
            forall|p: i32| #[trigger]
                final(self).regions@.dom().contains(p) ==> final(self).is_partial_region(
                    p,
                    final(self).regions@[p],
                    final(self).labels@.len() as int,
                ),
    {
        broadcast use vstd::std_specs::btree::group_btree_axioms;
        let n: usize = self.labels.len();
        let ghost h = self.height as int;
        let ghost w = self.width as int;
        let mut idx: usize = 0;
        while idx < n
            invariant
                n == self.labels@.len(),
                h == self.height == old(self).height,
                w == self.width == old(self).width,
                self.labelled(),
                self.bordered(),
                self.data@ == old(self).data@,
                self.labels@ == old(self).labels@,
                self.borders@ == old(self).borders@,
                self.regions@.dom() == old(self).regions@.dom(),
                idx <= n <= i32::MAX,
                forall|p: i32| #[trigger]
                    self.regions@.dom().contains(p) <==> 0 <= p < n && self.labels@[p as int] == p,
                forall|p: i32| #[trigger]
                    self.regions@.dom().contains(p) ==> self.is_partial_region(
                        p,
                        self.regions@[p],
                        idx as int,
                    ),
            decreases n - idx,
        {
            proof {
                lemma_flat_cell(idx as int, h, w);
                let p = self.labels@[idx as int];
                lemma_local_maxi_fixed(self.data@, h, w, idx as int, p as int);
                lemma_local_maxi_unique(
                    self.data@,
                    h,
                    w,
                    p as int,
                    p as int,
                    self.labels@[p as int] as int,
                );
                lemma_count_bound(self.labels@, p, idx as nat);
            }
            let neighb: u8 = self.borders[idx];
            let res: i32 = self.labels[idx];
            let ghost before = self.regions@;
            assert(before.dom().contains(res));
            let ghost g0 = before[res];
            if let Some(mut region) = self.regions.remove(&res) {
                region.size = region.size + 1;
                if neighb != 0 {
                    let r: usize = idx / self.width;
                    let c: usize = idx % self.width;
                    assert(flat(idx as int / w, idx as int % w, w) == idx);
                    let nb: i32 = self.outward_label(r, c, neighb);
                    region.border.push(idx as i32);
                    region.neighbors.push(nb);
                    assert(region.neighbors@ =~= outward_labels(
                        self.labels@,
                        h,
                        w,
                        region.border@,
                    ));
                }
                self.regions.insert(res, region);
            }
            proof {
                assert(self.regions@.dom() =~= before.dom());
                assert forall|p: i32| #[trigger]
                    self.regions@.dom().contains(p) implies self.is_partial_region(
                    p,
                    self.regions@[p],
                    idx + 1,
                ) by {
                    if p != res {
                        assert(self.regions@[p] == before[p]);
                    }
                }
            }
            idx = idx + 1;
        }
    }

    /// Sets the pass values of every region and drops the regions without a border.
    fn init_pass(&mut self)
        requires
            old(self).labelled(),
            old(self).bordered(),
            forall|p: i32| #[trigger]
                old(self).regions@.dom().contains(p) <==> 0 <= p < old(self).labels@.len() && old(
                    self,
                ).labels@[p as int] == p,
            forall|p: i32| #[trigger]
                old(self).regions@.dom().contains(p) ==> old(self).is_partial_region(
                    p,
                    old(self).regions@[p],
                    old(self).labels@.len() as int,
                ),
        ensures
            final(self).data@ == old(self).data@,
            final(self).height == old(self).height,
            final(self).width == old(self).width,
            final(self).labels@ == old(self).labels@,
            final(self).borders@ == old(self).borders@,
            final(self).segmented(),
    {
        broadcast use vstd::std_specs::btree::group_btree_axioms;
        let n: usize = self.labels.len();
        let ghost h = self.height as int;
        let ghost w = self.width as int;
        let mut key: usize = 0;
        while key < n
            invariant
                n == self.labels@.len(),
                h == self.height == old(self).height,
                w == self.width == old(self).width,
                self.labelled(),
                self.bordered(),
                self.data@ == old(self).data@,
                self.labels@ == old(self).labels@,
                self.borders@ == old(self).borders@,
                key <= n <= i32::MAX,
                forall|p: i32| #[trigger]
                    self.regions@.dom().contains(p) <==> 0 <= p < n && self.labels@[p as int] == p
                        && (key <= p || self.border_of(p).len() > 0),
                forall|p: i32| #[trigger]
                    self.regions@.dom().contains(p) ==> if p < key {
                        self.is_passed_region(p, self.regions@[p])
                    } else {
                        self.is_partial_region(p, self.regions@[p], n as int)
                    },
            decreases n - key,
        {
            let at: i32 = key as i32;
            let ghost before = self.regions@;
            let ghost state = *self;
            if let Some(mut region) = self.regions.remove(&at) {
                proof {
                    assert(before.dom().contains(at));
                    assert(region == before[at]);
                    lemma_border_range(self.labels@, self.borders@, at, n as nat);
                }
                let ghost g0 = region;
                let dropped: bool = region.init_values(self.data.as_slice());
                if !dropped {
                    proof {
                        let edge = values_at(self.data@, self.border_of(at));
                        assert(g0.border@ == self.border_of(at));
                        let k = choose|k: int| #[trigger]
                            is_first_max(values_at(self.data@, g0.border@), k)
                                && region.highest_pass == self.data@[g0.border@[k] as int]
                                && region.pass_to == g0.neighbors@[k];
                        assert(is_first_max(edge, k) && region.highest_pass == edge[k]);
                        let l = choose|k: int| #[trigger]
                            is_first_min(values_at(self.data@, g0.border@), k) && region.mini
                                == self.data@[g0.border@[k] as int];
                        assert(is_first_min(edge, l) && region.mini == edge[l]);
                        assert(pass_values(self.data@, self.border_of(at), at, region));
                    }
                    self.regions.insert(at, region);
                }
            }
            proof {
                assert forall|p: i32| #[trigger]
                    self.regions@.dom().contains(p) implies if p < key + 1 {
                    self.is_passed_region(p, self.regions@[p])
                } else {
                    self.is_partial_region(p, self.regions@[p], n as int)
                } by {
                    if p != at {
                        assert(self.regions@[p] == before[p]);
                        assert(before.dom().contains(p));
                        assert(p < key ==> state.is_passed_region(p, before[p]));
                        assert(p >= key ==> state.is_partial_region(p, before[p], n as int));
                    }
                }
            }
            key = key + 1;
        }
    }

    /// Segments the image: labels, border codes, regions and pass values. What a call
    /// before it left is replaced, so that segmenting again changes nothing.
    pub fn init(&mut self)
        requires
            old(self).wf(),
        ensures
            final(self).data@ == old(self).data@,
            final(self).height == old(self).height,
            final(self).width == old(self).width,
            final(self).segmented(),
            old(self).segmented() ==> same_segmentation(*final(self), *old(self)),
    {
        broadcast use vstd::std_specs::btree::group_btree_axioms;
        let n: usize = self.data.len();
        self.labels = vec![0i32;n];
        self.borders = vec![0u8;n];
        self.regions = BTreeMap::new();
        self.init_labels();
        self.init_borders();
        proof {
            assert forall|p: i32| #[trigger]
                self.regions@.dom().contains(p) implies self.is_partial_region(
                p,
                self.regions@[p],
                0,
            ) by {
                let g = self.regions@[p];
                assert(g.neighbors@ =~= outward_labels(
                    self.labels@,
                    self.height as int,
                    self.width as int,
                    g.border@,
                ));
            }
        }
        self.init_regions();
        self.init_pass();
        proof {
            if old(self).segmented() {
                lemma_segmentation_unique(*self, *old(self));
            }
        }
    }

    /// Pixel `p` is the peak of a region and lies in the mask.
    pub open spec fn is_candidate(&self, mask: Seq<bool>, p: int) -> bool {
        &&& 0 <= p < self.labels@.len()
        &&& self.regions@.dom().contains(p as i32)
        &&& mask[p]
    }

    /// The regions that hold a pixel of the mask, marked by their peak.
    fn touched_regions(&self, mask: &[bool]) -> (touched: Vec<bool>)
        requires
            self.segmented() || self.fresh(),
            mask@.len() == self.labels@.len(),
        ensures
            touched@.len() == self.labels@.len(),
            forall|p: int|
                0 <= p < touched@.len() && #[trigger] touched@[p] ==> self.regions@.dom().contains(
                    p as i32,
                ),
            forall|i: int|
                0 <= i < self.labels@.len() && mask@[i] && self.regions@.dom().contains(
                    #[trigger] self.labels@[i],
                ) ==> touched@[self.labels@[i] as int],
    {
        broadcast use vstd::std_specs::btree::group_btree_axioms;
        let n: usize = self.labels.len();
        let mut touched: Vec<bool> = vec![false;n];
        let mut i: usize = 0;
        while i < n
            invariant
                n == self.labels@.len() == mask@.len() == touched@.len(),
                self.segmented() || self.fresh(),
                i <= n,
                forall|p: int|
                    0 <= p < n && #[trigger] touched@[p] ==> self.regions@.dom().contains(p as i32),
                forall|j: int|
                    0 <= j < i && mask@[j] && self.regions@.dom().contains(
                        #[trigger] self.labels@[j],
                    ) ==> touched@[self.labels@[j] as int],
            decreases n - i,
        {
            if mask[i] {
                let label: i32 = self.labels[i];
                if let Some(region) = self.regions.get(&label) {
                    assert(self.regions@.dom().contains(label));
                    touched[region.index as usize] = true;
                }
            }
            i = i + 1;
        }
        touched
    }

    /// The peaks in the mask, in ascending order.
    fn gather_peaks(&self, mask: &[bool]) -> (out: Vec<usize>)
        requires
            self.segmented() || self.fresh(),
            mask@.len() == self.labels@.len(),
        ensures
            forall|k: int|
                0 <= k < out@.len() ==> self.is_candidate(mask@, #[trigger] out@[k] as int),
            forall|p: int| #[trigger]
                self.is_candidate(mask@, p) ==> exists|k: int|
                    0 <= k < out@.len() && #[trigger] out@[k] == p,
            forall|a: int, b: int|
                0 <= a < b < out@.len() ==> #[trigger] out@[a] < #[trigger] out@[b],
    {
        broadcast use vstd::std_specs::btree::group_btree_axioms;
        let n: usize = self.labels.len();
        let touched: Vec<bool> = self.touched_regions(mask);
        let mut out: Vec<usize> = Vec::new();
        let mut p: usize = 0;
        while p < n
            invariant
                n == self.labels@.len() == mask@.len() == touched@.len(),
                n <= i32::MAX,
                self.segmented() || self.fresh(),
                p <= n,
                forall|q: int|
                    0 <= q < n && #[trigger] touched@[q] ==> self.regions@.dom().contains(q as i32),
                forall|i: int|
                    0 <= i < n && mask@[i] && self.regions@.dom().contains(
                        #[trigger] self.labels@[i],
                    ) ==> touched@[self.labels@[i] as int],
                forall|k: int|
                    0 <= k < out@.len() ==> self.is_candidate(mask@, #[trigger] out@[k] as int)
                        && out@[k] < p,
                forall|q: int| #[trigger]
                    self.is_candidate(mask@, q) && q < p ==> exists|k: int|
                        0 <= k < out@.len() && #[trigger] out@[k] == q,
                forall|a: int, b: int|
                    0 <= a < b < out@.len() ==> #[trigger] out@[a] < #[trigger] out@[b],
            decreases n - p,
        {
            let ghost before = out@;
            if touched[p] {
                let key: i32 = p as i32;
                assert(self.regions@.dom().contains(key));
                if let Some(region) = self.regions.get(&key) {
                    // A region that has not been merged has one peak, its own index.
                    let peaks: &Vec<i32> = &region.peaks;
                    assert(peaks@ == seq![key]);
                    let j: usize = peaks[0] as usize;
                    if mask[j] {
                        out.push(j);
                        assert(out@[before.len() as int] == p);
                    }
                }
            }
            proof {
                assert forall|q: int| #[trigger]
                    self.is_candidate(mask@, q) && q < p + 1 implies exists|k: int|
                    0 <= k < out@.len() && #[trigger] out@[k] == q by {
                    if q < p {
                        let k = choose|k: int| 0 <= k < before.len() && #[trigger] before[k] == q;
                        assert(out@[k] == q);
                    } else {
                        assert(self.labels@[q] == q);
                        assert(touched@[self.labels@[q] as int]);
                    }
                }
            }
            p = p + 1;
        }
        out
    }

    /// `order` lists the candidates of the mask, those of value `imin` at least where it
    /// is given: in descending order of their value, those of equal value in ascending
    /// order, if they are `ranked`, else all in ascending order.
    pub open spec fn is_peak_order(
        &self,
        mask: Seq<bool>,
        imin: Option<u32>,
        ranked: bool,
        order: Seq<usize>,
    ) -> bool {
        &&& forall|k: int|
            0 <= k < order.len() ==> self.is_candidate(mask, #[trigger] order[k] as int) && (
            imin is Some ==> ge(self.data@[order[k] as int], imin->0))
        &&& forall|p: int| #[trigger]
            self.is_candidate(mask, p) && (imin is Some ==> ge(self.data@[p], imin->0))
                ==> exists|k: int| 0 <= k < order.len() && #[trigger] order[k] == p
        &&& forall|a: int, b: int|
            0 <= a < b < order.len() ==> if ranked {
                ranks_before(
                    self.data@,
                    #[trigger] order[a] as int,
                    #[trigger] order[b] as int,
                )
            } else {
                order[a] < order[b]
            }
    }

    /// Lists the peaks of an area, see [`InverseWatershed::is_peak_order`].
    fn ordered_peaks(&self, mask: &[bool], imin: Option<u32>, ranked: bool) -> (out: Vec<usize>)
        requires
            self.segmented() || self.fresh(),
            mask@.len() == self.labels@.len(),
            imin is Some ==> ranked,
            ranked ==> forall|p: int| #[trigger]
                self.is_candidate(mask@, p) ==> !is_nan(self.data@[p]),
        ensures
            self.is_peak_order(mask@, imin, ranked, out@),
    {
        let found: Vec<usize> = self.gather_peaks(mask);
        if !ranked {
            return found;
        }
        let mut out: Vec<usize> = Vec::new();
        let mut i: usize = 0;
        while i < found.len()
            invariant
                i <= found@.len(),
                self.segmented() || self.fresh(),
                forall|k: int|
                    0 <= k < found@.len() ==> self.is_candidate(mask@, #[trigger] found@[k] as int),
                forall|a: int, b: int|
                    0 <= a < b < found@.len() ==> #[trigger] found@[a] < #[trigger] found@[b],
                forall|p: int| #[trigger]
                    self.is_candidate(mask@, p) ==> !is_nan(self.data@[p]),
                forall|k: int|
                    0 <= k < out@.len() ==> self.is_candidate(mask@, #[trigger] out@[k] as int) && (
                    imin is Some ==> ge(self.data@[out@[k] as int], imin->0)) && (i < found@.len()
                        ==> out@[k] < found@[i as int]),
                forall|j: int|
                    0 <= j < i && (imin is Some ==> ge(
                        self.data@[#[trigger] found@[j] as int],
                        imin->0,
                    )) ==> exists|k: int| 0 <= k < out@.len() && #[trigger] out@[k] == found@[j],
                forall|a: int, b: int|
                    0 <= a < b < out@.len() ==> ranks_before(
                        self.data@,
                        #[trigger] out@[a] as int,
                        #[trigger] out@[b] as int,
                    ),
            decreases found@.len() - i,
        {
            let p: usize = found[i];
            assert(self.is_candidate(mask@, p as int));
            let wanted: bool = match imin {
                Some(im) => at_least(self.data[p], im),
                None => true,
            };
            let ghost before = out@;
            if wanted {
                insert_ranked(&self.data, &mut out, p);
            }
            proof {
                assert forall|j: int|
                    0 <= j < i + 1 && (imin is Some ==> ge(
                        self.data@[#[trigger] found@[j] as int],
                        imin->0,
                    )) implies exists|k: int| 0 <= k < out@.len() && #[trigger] out@[k] == found@[j] by {
                    if j < i && wanted {
                        let k = choose|k: int|
                            0 <= k < before.len() && #[trigger] before[k] == found@[j];
                        assert(before.contains(before[k]));
                        assert(out@.contains(before[k]));
                    }
                    if wanted && j == i {
                        assert(out@.contains(p));
                    }
                }
                assert forall|k: int| 0 <= k < out@.len() implies self.is_candidate(
                    mask@,
                    #[trigger] out@[k] as int,
                ) && (imin is Some ==> ge(self.data@[out@[k] as int], imin->0)) && (i + 1
                    < found@.len() ==> out@[k] < found@[i + 1]) by {
                    if wanted && out@[k] != p {
                        assert(out@.contains(out@[k]));
                        assert(before.contains(out@[k]));
                    }
                    if !wanted {
                        assert(out@[k] == before[k]);
                    }
                }
            }
            i = i + 1;
        }
        proof {
            assert forall|p: int| #[trigger]
                self.is_candidate(mask@, p) && (imin is Some ==> ge(
                    self.data@[p],
                    imin->0,
                )) implies exists|k: int| 0 <= k < out@.len() && #[trigger] out@[k] == p by {
                let j = choose|j: int| 0 <= j < found@.len() && #[trigger] found@[j] == p;
                assert(0 <= j < i);
            }
        }
        out
    }

    /// Extracts the peaks within `mask` (`true` is valid), as flat indices.
    ///
    ///   * `imin`: keep only peaks whose value is `>= imin`.
    ///   * `keep`: cap the number of returned peaks.
    ///   * `close`: tells of two peaks whether they lie within the minimum distance of
    ///     one another; it is asked only where there are more peaks than `keep`.
    ///
    /// Without `imin` and `keep` the peaks come in ascending order, else in descending
    /// order of their value, those of equal value in ascending order, and thinned as
    /// [`thin_peaks`] does. Before the image is segmented there are no peaks.
    pub fn peaks_from_area<F: Fn(usize, usize) -> bool>(
        &self,
        mask: &[bool],
        imin: Option<u32>,
        keep: Option<usize>,
        close: F,
    ) -> (out: Vec<usize>)
        requires
            self.segmented() || self.fresh(),
            mask@.len() == self.labels@.len(),
            imin is Some || keep is Some ==> forall|p: int| #[trigger]
                self.is_candidate(mask@, p) ==> !is_nan(self.data@[p]),
            keep is Some ==> forall|a: usize, b: usize| #[trigger] close.requires((a, b)),
        ensures
            is_selection(*self, mask@, imin, keep, close, out@),
            keep is Some ==> out@.len() <= keep->0,
            self.fresh() ==> out@.len() == 0,
    {
        let order: Vec<usize> = self.ordered_peaks(mask, imin, imin.is_some() || keep.is_some());
        let ghost listed = order@;
        let out: Vec<usize> = match keep {
            Some(k) => thin_peaks(order, k, close),
            None => order,
        };
        assert(selects(*self, mask@, imin, keep, close, listed, out@));
        proof {
            if self.fresh() && listed.len() > 0 {
                assert(self.is_candidate(mask@, listed[0] as int));
            }
        }
        out
    }
}

/// `order` lists the peaks of an area, by their value where `imin` or `keep` is given,
/// and `out` is `order`, thinned to `keep` where it is given.
pub open spec fn selects<F: Fn(usize, usize) -> bool>(
    ws: InverseWatershed,
    mask: Seq<bool>,
    imin: Option<u32>,
    keep: Option<usize>,
    close: F,
    order: Seq<usize>,
    out: Seq<usize>,
) -> bool {
    &&& ws.is_peak_order(mask, imin, imin is Some || keep is Some, order)
    &&& match keep {
        Some(k) => is_thinned(order, k as int, close, out),
        None => out == order,
    }
}

/// `out` is the selection of the peaks of an area.
pub open spec fn is_selection<F: Fn(usize, usize) -> bool>(
    ws: InverseWatershed,
    mask: Seq<bool>,
    imin: Option<u32>,
    keep: Option<usize>,
    close: F,
    out: Seq<usize>,
) -> bool {
    exists|order: Seq<usize>| #[trigger] selects(ws, mask, imin, keep, close, order, out)
}

/// The order of the peaks of an area is determined.
pub proof fn lemma_peak_order_unique(
    ws: InverseWatershed,
    mask: Seq<bool>,
    imin: Option<u32>,
    ranked: bool,
    a: Seq<usize>,
    b: Seq<usize>,
)
    requires
        ws.is_peak_order(mask, imin, ranked, a),
        ws.is_peak_order(mask, imin, ranked, b),
    ensures
        a == b,
{
    lemma_peak_order_prefix(ws, mask, imin, ranked, a, b, a.len() as int);
    lemma_peak_order_prefix(ws, mask, imin, ranked, b, a, b.len() as int);
    assert(a =~= b);
}

/// Two orders of the peaks of an area agree as far as one of them goes.
proof fn lemma_peak_order_prefix(
    ws: InverseWatershed,
    mask: Seq<bool>,
    imin: Option<u32>,
    ranked: bool,
    a: Seq<usize>,
    b: Seq<usize>,
    n: int,
)
    requires
        ws.is_peak_order(mask, imin, ranked, a),
        ws.is_peak_order(mask, imin, ranked, b),
        0 <= n <= a.len(),
    ensures
        n <= b.len(),
        forall|i: int| 0 <= i < n ==> #[trigger] a[i] == b[i],
    decreases n,
{
    if n > 0 {
        let i = n - 1;
        lemma_peak_order_prefix(ws, mask, imin, ranked, a, b, i);
        assert(ws.is_candidate(mask, a[i] as int));
        let k = choose|k: int| 0 <= k < b.len() && #[trigger] b[k] == a[i] as int;
        if k < i {
            assert(a[k] == b[k]);
        } else if k > i {
            assert(ws.is_candidate(mask, b[i] as int));
            let m = choose|m: int| 0 <= m < a.len() && #[trigger] a[m] == b[i] as int;
            if m < i {
                assert(a[m] == b[m]);
            }
        }
    }
}

/// The first `n` items of `items`, all of them where there are fewer.
pub open spec fn at_most<T>(items: Seq<T>, n: int) -> Seq<T> {
    if items.len() <= n {
        items
    } else {
        items.take(n)
    }
}

/// The peaks kept and those set aside once the first `n` were looked at: peaks too
/// close to a kept one are set aside, and none is looked at once `keep` are kept.
pub open spec fn sorted_out(order: Seq<usize>, too_close: Seq<bool>, keep: int, n: int) -> (
    Seq<usize>,
    Seq<usize>,
)
    decreases n,
{
    if n <= 0 {
        (Seq::empty(), Seq::empty())
    } else {
        let (kept, aside) = sorted_out(order, too_close, keep, n - 1);
        if kept.len() >= keep {
            (kept, aside)
        } else if too_close[n - 1] {
            (kept, aside.push(order[n - 1]))
        } else {
            (kept.push(order[n - 1]), aside)
        }
    }
}

/// `verdict` tells whether `peak` is close to one of the kept peaks.
pub open spec fn verdict_stands<F: Fn(usize, usize) -> bool>(
    peak: usize,
    kept: Seq<usize>,
    close: F,
    verdict: bool,
) -> bool {
    if verdict {
        exists|j: int|
            0 <= j < kept.len() && #[trigger] close.ensures((peak, kept[j]), true)
    } else {
        forall|j: int|
            0 <= j < kept.len() ==> #[trigger] close.ensures((peak, kept[j]), false)
    }
}

/// The verdicts on the first `n` peaks stand.
pub open spec fn verdicts_stand<F: Fn(usize, usize) -> bool>(
    order: Seq<usize>,
    too_close: Seq<bool>,
    keep: int,
    close: F,
    n: int,
) -> bool {
    forall|i: int|
        0 <= i < n && sorted_out(order, too_close, keep, i).0.len() < keep ==> verdict_stands(
            order[i],
            sorted_out(order, too_close, keep, i).0,
            close,
            #[trigger] too_close[i],
        )
}

/// `out` is `order` where that has `keep` peaks at most, else the kept peaks followed
/// by those set aside, `keep` in all.
pub open spec fn is_thinned<F: Fn(usize, usize) -> bool>(
    order: Seq<usize>,
    keep: int,
    close: F,
    out: Seq<usize>,
) -> bool {
    if order.len() <= keep {
        out == order
    } else {
        exists|too_close: Seq<bool>| #[trigger]
            verdicts_stand(order, too_close, keep, close, order.len() as int) && {
                let (kept, aside) = sorted_out(order, too_close, keep, order.len() as int);
                out == at_most(kept + aside, keep)
            }
    }
}

/// Each peak is kept or set aside while not enough are kept.
proof fn lemma_sorted_out(order: Seq<usize>, too_close: Seq<bool>, keep: int, n: int)
    requires
        0 <= n <= order.len(),
        0 <= keep,
    ensures
        ({
            let (kept, aside) = sorted_out(order, too_close, keep, n);
            &&& kept.len() <= keep
            &&& kept.len() < keep ==> kept.len() + aside.len() == n
        }),
    decreases n,
{
    if n > 0 {
        lemma_sorted_out(order, too_close, keep, n - 1);
    }
}

/// A later verdict does not change what happened before.
proof fn lemma_sorted_out_prefix(
    order: Seq<usize>,
    a: Seq<bool>,
    b: Seq<bool>,
    keep: int,
    n: int,
)
    requires
        forall|i: int| 0 <= i < n ==> a[i] == b[i],
    ensures
        sorted_out(order, a, keep, n) == sorted_out(order, b, keep, n),
    decreases n,
{
    if n > 0 {
        lemma_sorted_out_prefix(order, a, b, keep, n - 1);
    }
}

/// Once enough peaks are kept, the rest changes nothing.
proof fn lemma_sorted_out_full(
    order: Seq<usize>,
    too_close: Seq<bool>,
    keep: int,
    n: int,
    m: int,
)
    requires
        0 <= n <= m,
        sorted_out(order, too_close, keep, n).0.len() >= keep,
    ensures
        sorted_out(order, too_close, keep, m) == sorted_out(order, too_close, keep, n),
    decreases m,
{
    if n < m {
        lemma_sorted_out_full(order, too_close, keep, n, m - 1);
    }
}

/// A list longer than `keep` is thinned to exactly `keep` peaks.
pub proof fn lemma_thinned_to_keep<F: Fn(usize, usize) -> bool>(
    order: Seq<usize>,
    keep: int,
    close: F,
    out: Seq<usize>,
)
    requires
        0 <= keep,
        is_thinned(order, keep, close, out),
    ensures
        out.len() == if order.len() <= keep {
            order.len() as int
        } else {
            keep
        },
{
    if order.len() > keep {
        let too_close = choose|too_close: Seq<bool>| #[trigger]
            verdicts_stand(order, too_close, keep, close, order.len() as int) && {
                let (kept, aside) = sorted_out(order, too_close, keep, order.len() as int);
                out == at_most(kept + aside, keep)
            };
        lemma_sorted_out(order, too_close, keep, order.len() as int);
    }
}

/// Tests whether a peak is close to one of the kept peaks.
fn close_to_any<F: Fn(usize, usize) -> bool>(peak: usize, kept: &Vec<usize>, close: &F) -> (b: bool)
    requires
        forall|a: usize, b: usize| #[trigger] close.requires((a, b)),
    ensures
        verdict_stands(peak, kept@, *close, b),
{
    let mut j: usize = 0;
    while j < kept.len()
        invariant
            j <= kept@.len(),
            forall|a: usize, b: usize| #[trigger] close.requires((a, b)),
            forall|i: int| 0 <= i < j ==> #[trigger] close.ensures((peak, kept@[i]), false),
        decreases kept@.len() - j,
    {
        let q: usize = kept[j];
        if close(peak, q) {
            assert(close.ensures((peak, kept@[j as int]), true));
            return true;
        }
        j = j + 1;
    }
    false
}

/// Thins a ranked list of more than `keep` peaks to `keep` of them. Peaks close to one
/// already kept are set aside and only fill up what is left.
pub fn thin_peaks<F: Fn(usize, usize) -> bool>(order: Vec<usize>, keep: usize, close: F) -> (out:
    Vec<usize>)
    requires
        forall|a: usize, b: usize| #[trigger] close.requires((a, b)),
    ensures
        is_thinned(order@, keep as int, close, out@),
        out@.len() <= keep,
{
    if order.len() <= keep {
        return order;
    }
    let mut kept: Vec<usize> = Vec::new();
    let mut aside: Vec<usize> = Vec::new();
    let ghost mut verdicts: Seq<bool> = Seq::empty();
    let mut i: usize = 0;
    while i < order.len() && kept.len() < keep
        invariant
            i <= order@.len(),
            forall|a: usize, b: usize| #[trigger] close.requires((a, b)),
            verdicts.len() == i,
            (kept@, aside@) == sorted_out(order@, verdicts, keep as int, i as int),
            verdicts_stand(order@, verdicts, keep as int, close, i as int),
        decreases order@.len() - i,
    {
        let peak: usize = order[i];
        let too_close: bool = close_to_any(peak, &kept, &close);
        let ghost before = verdicts;
        proof {
            verdicts = verdicts.push(too_close);
            assert forall|k: int| 0 <= k <= i implies sorted_out(order@, before, keep as int, k)
                == #[trigger] sorted_out(order@, verdicts, keep as int, k) by {
                lemma_sorted_out_prefix(order@, before, verdicts, keep as int, k);
            }
            assert forall|k: int|
                0 <= k < i + 1 && sorted_out(order@, verdicts, keep as int, k).0.len()
                    < keep implies verdict_stands(
                order@[k],
                sorted_out(order@, verdicts, keep as int, k).0,
                close,
                #[trigger] verdicts[k],
            ) by {
                assert(sorted_out(order@, before, keep as int, k) == sorted_out(
                    order@,
                    verdicts,
                    keep as int,
                    k,
                ));
                if k < i {
                    assert(verdicts[k] == before[k]);
                }
            }
        }
        if too_close {
            aside.push(peak);
        } else {
            kept.push(peak);
        }
        i = i + 1;
    }
    proof {
        lemma_sorted_out(order@, verdicts, keep as int, i as int);
        if i < order@.len() {
            lemma_sorted_out_full(
                order@,
                verdicts,
                keep as int,
                i as int,
                order@.len() as int,
            );
        }
        assert forall|k: int|
            0 <= k < order@.len() && sorted_out(order@, verdicts, keep as int, k).0.len()
                < keep implies verdict_stands(
            order@[k],
            sorted_out(order@, verdicts, keep as int, k).0,
            close,
            #[trigger] verdicts[k],
        ) by {
            if k >= i {
                lemma_sorted_out_full(order@, verdicts, keep as int, i as int, k);
            }
        }
        assert(verdicts_stand(order@, verdicts, keep as int, close, order@.len() as int));
    }
    let mut out: Vec<usize> = kept;
    out.append(&mut aside);
    if out.len() > keep {
        out.truncate(keep);
    }
    out
}

/// Pixel `a` has the greater value, or as great a one and the smaller index.
pub open spec fn ranks_before(img: Seq<u32>, a: int, b: int) -> bool {
    rank(img[a]) > rank(img[b]) || (rank(img[a]) == rank(img[b]) && a < b)
}

/// Inserts pixel `p` into a list of smaller indices ordered by [`ranks_before`].
fn insert_ranked(data: &Vec<u32>, order: &mut Vec<usize>, p: usize)
    requires
        p < data@.len(),
        forall|k: int|
            0 <= k < old(order)@.len() ==> #[trigger] old(order)@[k] < p,
        forall|a: int, b: int|
            0 <= a < b < old(order)@.len() ==> ranks_before(
                data@,
                #[trigger] old(order)@[a] as int,
                #[trigger] old(order)@[b] as int,
            ),
    ensures
        final(order)@.len() == old(order)@.len() + 1,
        final(order)@.contains(p),
        forall|x: usize| #[trigger] old(order)@.contains(x) ==> final(order)@.contains(x),
        forall|x: usize| #[trigger] final(order)@.contains(x) ==> x == p || old(order)@.contains(x),
        forall|a: int, b: int|
            0 <= a < b < final(order)@.len() ==> ranks_before(
                data@,
                #[trigger] final(order)@[a] as int,
                #[trigger] final(order)@[b] as int,
            ),
{
    let ghost before = order@;
    let mut pos: usize = order.len();
    while pos > 0 && rank_of(data[p]) > rank_of(data[order[pos - 1]])
        invariant
            pos <= order@.len(),
            order@ == before,
            p < data@.len(),
            forall|k: int| 0 <= k < before.len() ==> #[trigger] before[k] < p,
            forall|k: int|
                pos <= k < before.len() ==> ranks_before(
                    data@,
                    p as int,
                    #[trigger] before[k] as int,
                ),
        decreases pos,
    {
        pos = pos - 1;
    }
    order.insert(pos, p);
    proof {
        let after = order@;
        assert(after == before.insert(pos as int, p));
        assert(after[pos as int] == p);
        assert forall|x: usize| #[trigger] before.contains(x) implies after.contains(x) by {
            let k = choose|k: int| 0 <= k < before.len() && before[k] == x;
            if k < pos {
                assert(after[k] == x);
            } else {
                assert(after[k + 1] == x);
            }
        }
        assert forall|x: usize| #[trigger] after.contains(x) implies x == p || before.contains(
            x,
        ) by {
            let k = choose|k: int| 0 <= k < after.len() && after[k] == x;
            if k < pos {
                assert(before[k] == x);
            } else if k > pos {
                assert(before[k - 1] == x);
            }
        }
        assert forall|a: int, b: int| 0 <= a < b < after.len() implies ranks_before(
            data@,
            #[trigger] after[a] as int,
            #[trigger] after[b] as int,
        ) by {
            if pos > 0 {
                assert(ranks_before(data@, before[pos - 1] as int, p as int));
                if a < pos - 1 {
                    assert(ranks_before(data@, before[a] as int, before[pos - 1] as int));
                }
            }
            let x = if a < pos {
                a
            } else {
                a - 1
            };
            let y = if b < pos {
                b
            } else {
                b - 1
            };
            if a != pos && b != pos {
                assert(after[a] == before[x] && after[b] == before[y]);
            } else if a == pos {
                assert(after[b] == before[y]);
            } else {
                assert(after[a] == before[a]);
            }
        }
    }
}

/// Border pixels are pixels of their region.
proof fn lemma_border_range(labels: Seq<i32>, borders: Seq<u8>, p: i32, n: nat)
    requires
        n <= i32::MAX,
    ensures
        forall|k: int|
            0 <= k < border_pixels(labels, borders, p, n).len() ==> 0 <= #[trigger] border_pixels(
                labels,
                borders,
                p,
                n,
            )[k] < n,
    decreases n,
{
    if n > 0 {
        lemma_border_range(labels, borders, p, (n - 1) as nat);
        let before = border_pixels(labels, borders, p, (n - 1) as nat);
        let all = border_pixels(labels, borders, p, n);
        assert forall|k: int| 0 <= k < all.len() implies 0 <= #[trigger] all[k] < n by {
            if k < before.len() {
                assert(all[k] == before[k]);
            }
        }
    }
}

/// No label is counted more often than there are pixels.
proof fn lemma_count_bound(labels: Seq<i32>, p: i32, n: nat)
    ensures
        count_label(labels, p, n) <= n,
    decreases n,
{
    if n > 0 {
        lemma_count_bound(labels, p, (n - 1) as nat);
    }
}

/// Listed border pixels carry the label of their region and a border code.
proof fn lemma_border_members(labels: Seq<i32>, borders: Seq<u8>, p: i32, n: nat, k: int)
    requires
        n <= i32::MAX,
        0 <= k < border_pixels(labels, borders, p, n).len(),
    ensures
        ({
            let i = border_pixels(labels, borders, p, n)[k];
            0 <= i < n && labels[i as int] == p && borders[i as int] != 0
        }),
    decreases n,
{
    if n > 0 {
        let before = border_pixels(labels, borders, p, (n - 1) as nat);
        if k < before.len() {
            lemma_border_members(labels, borders, p, (n - 1) as nat, k);
        }
    }
}

/// The local maximum of a pixel carries its own index: labels point to peaks.
pub proof fn lemma_labels_point_to_peaks(ws: InverseWatershed, i: int)
    requires
        ws.labelled(),
        0 <= i < ws.labels@.len(),
    ensures
        ws.labels@[ws.labels@[i] as int] == ws.labels@[i],
{
    let h = ws.height as int;
    let w = ws.width as int;
    let p = ws.labels@[i] as int;
    lemma_local_maxi_fixed(ws.data@, h, w, i, p);
    lemma_local_maxi_unique(ws.data@, h, w, p, p, ws.labels@[p] as int);
}

/// A region passes to another region, never to itself.
pub proof fn lemma_pass_leaves_region(ws: InverseWatershed, p: i32)
    requires
        ws.segmented(),
        ws.regions@.dom().contains(p),
    ensures
        ws.regions@[p].pass_to != p,
{
    let g = ws.regions@[p];
    let h = ws.height as int;
    let w = ws.width as int;
    let edge = values_at(ws.data@, ws.border_of(p));
    let k = choose|k: int| #[trigger]
        is_first_max(edge, k) && g.highest_pass == edge[k] && g.pass_to == g.neighbors@[k];
    lemma_border_members(ws.labels@, ws.borders@, p, ws.labels@.len(), k);
    let i = ws.border_of(p)[k] as int;
    lemma_flat_cell(i, h, w);
    let r = i / w;
    let c = i % w;
    let code = ws.borders@[i];
    assert(flat(r, c, w) == i);
    assert(is_border_code(ws.labels@, h, w, r, c, ws.borders@[flat(r, c, w)]));
    assert(g.pass_to == outward(ws.labels@, h, w, r, c));
    if !bit_set(code, 0) && !bit_set(code, 1) && !bit_set(code, 2) && !bit_set(code, 3) && !bit_set(
        code,
        4,
    ) && !bit_set(code, 5) && !bit_set(code, 7) {
        lemma_code_zero(code);
    }
}

/// Two regions hold the same.
pub open spec fn same_region(g: Region, h: Region) -> bool {
    &&& g.index == h.index
    &&& g.size == h.size
    &&& g.pass_to == h.pass_to
    &&& g.mini == h.mini
    &&& g.maxi == h.maxi
    &&& g.highest_pass == h.highest_pass
    &&& g.neighbors@ == h.neighbors@
    &&& g.border@ == h.border@
    &&& g.peaks@ == h.peaks@
}

/// Two segmenters hold the same labels, border codes and regions.
pub open spec fn same_segmentation(a: InverseWatershed, b: InverseWatershed) -> bool {
    &&& a.labels@ == b.labels@
    &&& a.borders@ == b.borders@
    &&& a.regions@.dom() == b.regions@.dom()
    &&& forall|p: i32| #[trigger]
        a.regions@.dom().contains(p) ==> same_region(a.regions@[p], b.regions@[p])
}

/// A code is determined by its bits.
proof fn lemma_same_code(a: u8, b: u8)
    requires
        forall|k: u32| k < 8 ==> #[trigger] bit_set(a, k) == bit_set(b, k),
    ensures
        a == b,
{
    assert(bit_set(a, 0) == bit_set(b, 0) && bit_set(a, 1) == bit_set(b, 1) && bit_set(a, 2)
        == bit_set(b, 2) && bit_set(a, 3) == bit_set(b, 3) && bit_set(a, 4) == bit_set(b, 4)
        && bit_set(a, 5) == bit_set(b, 5) && bit_set(a, 6) == bit_set(b, 6) && bit_set(a, 7)
        == bit_set(b, 7));
    assert(a == b) by (bit_vector)
        requires
            ((a & (1u8 << 0u32)) != 0) == ((b & (1u8 << 0u32)) != 0),
            ((a & (1u8 << 1u32)) != 0) == ((b & (1u8 << 1u32)) != 0),
            ((a & (1u8 << 2u32)) != 0) == ((b & (1u8 << 2u32)) != 0),
            ((a & (1u8 << 3u32)) != 0) == ((b & (1u8 << 3u32)) != 0),
            ((a & (1u8 << 4u32)) != 0) == ((b & (1u8 << 4u32)) != 0),
            ((a & (1u8 << 5u32)) != 0) == ((b & (1u8 << 5u32)) != 0),
            ((a & (1u8 << 6u32)) != 0) == ((b & (1u8 << 6u32)) != 0),
            ((a & (1u8 << 7u32)) != 0) == ((b & (1u8 << 7u32)) != 0),
    ;
}

/// The first position of the smallest value is determined, and so is that of the largest.
proof fn lemma_first_unique(values: Seq<u32>, j: int, k: int)
    ensures
        is_first_min(values, j) && is_first_min(values, k) ==> j == k,
        is_first_max(values, j) && is_first_max(values, k) ==> j == k,
{
}

/// An image has one segmentation.
pub proof fn lemma_segmentation_unique(a: InverseWatershed, b: InverseWatershed)
    requires
        a.segmented(),
        b.segmented(),
        a.data@ == b.data@,
        a.height == b.height,
        a.width == b.width,
    ensures
        same_segmentation(a, b),
{
    let (h, w) = (a.height as int, a.width as int);
    let n = a.labels@.len() as int;
    assert forall|i: int| 0 <= i < n implies a.labels@[i] == b.labels@[i] by {
        lemma_local_maxi_unique(a.data@, h, w, i, a.labels@[i] as int, b.labels@[i] as int);
    }
    assert(a.labels@ =~= b.labels@);
    assert forall|i: int| 0 <= i < n implies a.borders@[i] == b.borders@[i] by {
        lemma_flat_cell(i, h, w);
        assert(flat(i / w, i % w, w) == i);
        let (x, y) = (a.borders@[flat(i / w, i % w, w)], b.borders@[flat(i / w, i % w, w)]);
        assert(is_border_code(a.labels@, h, w, i / w, i % w, x));
        assert(is_border_code(b.labels@, h, w, i / w, i % w, y));
        assert forall|k: u32| k < 8 implies #[trigger] bit_set(x, k) == bit_set(y, k) by {
            assert(bit_set(y, k) == differs(a.labels@, h, w, i / w, i % w, k as int));
        }
        lemma_same_code(x, y);
    }
    assert(a.borders@ =~= b.borders@);
    assert forall|p: i32| a.regions@.dom().contains(p) == b.regions@.dom().contains(p) by {
        assert(a.border_of(p) == b.border_of(p));
    }
    assert(a.regions@.dom() =~= b.regions@.dom());
    assert forall|p: i32| #[trigger] a.regions@.dom().contains(p) implies same_region(
        a.regions@[p],
        b.regions@[p],
    ) by {
        let (g, r) = (a.regions@[p], b.regions@[p]);
        assert(b.regions@.dom().contains(p));
        assert(a.is_passed_region(p, g) && b.is_passed_region(p, r));
        let edge = values_at(a.data@, a.border_of(p));
        let i = choose|k: int| #[trigger] is_first_min(edge, k) && g.mini == edge[k];
        let j = choose|k: int| #[trigger] is_first_min(edge, k) && r.mini == edge[k];
        lemma_first_unique(edge, i, j);
        let k = choose|k: int| #[trigger]
            is_first_max(edge, k) && g.highest_pass == edge[k] && g.pass_to == g.neighbors@[k];
        let l = choose|k: int| #[trigger]
            is_first_max(edge, k) && r.highest_pass == edge[k] && r.pass_to == r.neighbors@[k];
        lemma_first_unique(edge, k, l);
    }
}

/// The neighbours go around a cell: two steps on is a quarter turn clockwise, so that four
/// steps on is the opposite one. The first is the upper left one and the second the upper.
pub proof fn lemma_ring_goes_around(k: int)
    requires
        0 <= k < 8,
    ensures
        ({
            let (dr, dc) = ring(k);
            &&& ring((k + 2) % 8) == (dc, -dr)
            &&& ring((k + 4) % 8) == (-dr, -dc)
            &&& -1 <= dr <= 1 && -1 <= dc <= 1 && (dr, dc) != (0int, 0int)
            &&& k % 2 == 1 <==> dr == 0 || dc == 0
            &&& ring(0) == (-1int, -1int) && ring(1) == (-1int, 0int)
        }),
{
}

/// Every cell next to a cell, along an edge or at a corner, is one of its neighbours.
pub proof fn lemma_ring_is_complete(dr: int, dc: int) -> (k: int)
    requires
        -1 <= dr <= 1,
        -1 <= dc <= 1,
        (dr, dc) != (0int, 0int),
    ensures
        0 <= k < 8,
        ring(k) == (dr, dc),
{
    if dr == -1 {
        dc + 1
    } else if dr == 0 {
        if dc == 1 {
            3
        } else {
            7
        }
    } else {
        5 - dc
    }
}

/// What a cell tells of a neighbour, the neighbour tells of the cell.
pub proof fn lemma_borders_are_mutual(
    labels: Seq<i32>,
    height: int,
    width: int,
    r: int,
    c: int,
    k: int,
)
    requires
        0 <= r < height && 0 <= c < width,
        0 <= k < 8,
    ensures
        ({
            let (dr, dc) = ring(k);
            differs(labels, height, width, r, c, k) <==> 0 <= r + dr < height && 0 <= c + dc < width
                && differs(labels, height, width, r + dr, c + dc, (k + 4) % 8)
        }),
{
    lemma_ring_goes_around(k);
}

/// When the label of a neighbour is taken: those along an edge before those at a corner,
/// and of each kind clockwise, from the upper one and from the upper left one.
pub open spec fn precedence(k: int) -> int {
    if k % 2 == 1 {
        k / 2
    } else {
        4 + k / 2
    }
}

/// A border cell touches the label of a neighbour that carries another label than its own,
/// and of such neighbours the one that comes first.
pub proof fn lemma_outward_label(labels: Seq<i32>, height: int, width: int, r: int, c: int, k: int) -> (j:
    int)
    requires
        0 <= k < 8,
        differs(labels, height, width, r, c, k),
    ensures
        0 <= j < 8,
        differs(labels, height, width, r, c, j),
        precedence(j) <= precedence(k),
        outward(labels, height, width, r, c) == labels[flat(
            r + ring(j).0,
            c + ring(j).1,
            width,
        )],
        outward(labels, height, width, r, c) != labels[flat(r, c, width)],
        forall|l: int|
            0 <= l < 8 && #[trigger] differs(labels, height, width, r, c, l) ==> precedence(j)
                <= precedence(l),
{
    let d = |l: int| differs(labels, height, width, r, c, l);
    if d(1) {
        1
    } else if d(3) {
        3
    } else if d(5) {
        5
    } else if d(7) {
        7
    } else if d(0) {
        0
    } else if d(2) {
        2
    } else if d(4) {
        4
    } else {
        6
    }
}

/// The pixels that carry a label.
pub open spec fn pixels_of(labels: Seq<i32>, p: i32, n: int) -> Set<int> {
    Set::new(|i: int| 0 <= i < n && labels[i] == p)
}

/// The size of a region is the number of its pixels.
pub proof fn lemma_size_counts_pixels(labels: Seq<i32>, p: i32, n: nat)
    ensures
        pixels_of(labels, p, n as int).finite(),
        count_label(labels, p, n) == pixels_of(labels, p, n as int).len(),
    decreases n,
{
    if n == 0 {
        assert(pixels_of(labels, p, 0) =~= Set::<int>::empty());
    } else {
        let m = (n - 1) as nat;
        lemma_size_counts_pixels(labels, p, m);
        if labels[n - 1] == p {
            assert(pixels_of(labels, p, n as int) =~= pixels_of(labels, p, m as int).insert(n - 1));
        } else {
            assert(pixels_of(labels, p, n as int) =~= pixels_of(labels, p, m as int));
        }
    }
}

proof fn lemma_border_lists(labels: Seq<i32>, borders: Seq<u8>, p: i32, n: nat, i: int)
    requires
        n <= i32::MAX,
        0 <= i < n,
    ensures
        border_pixels(labels, borders, p, n).contains(i as i32) <==> labels[i] == p && borders[i]
            != 0,
        forall|a: int, b: int|
            0 <= a < b < border_pixels(labels, borders, p, n).len() ==> #[trigger] border_pixels(
                labels,
                borders,
                p,
                n,
            )[a] < #[trigger] border_pixels(labels, borders, p, n)[b],
    decreases n,
{
    let m = (n - 1) as nat;
    let before = border_pixels(labels, borders, p, m);
    let all = border_pixels(labels, borders, p, n);
    lemma_border_range(labels, borders, p, m);
    if i < m {
        lemma_border_lists(labels, borders, p, m, i);
        if before.contains(i as i32) {
            let k = choose|k: int| 0 <= k < before.len() && before[k] == i as i32;
            assert(all[k] == i as i32);
        }
        if all.contains(i as i32) {
            let k = choose|k: int| 0 <= k < all.len() && all[k] == i as i32;
            assert(before[k] == i as i32);
        }
    } else {
        if m > 0 {
            lemma_border_lists(labels, borders, p, m, 0);
        }
        if labels[i] == p && borders[i] != 0 {
            assert(all[before.len() as int] == i as i32);
        } else if all.contains(i as i32) {
            let k = choose|k: int| 0 <= k < all.len() && all[k] == i as i32;
            assert(before[k] == i as i32);
        }
    }
}

/// A pixel lies on the border of a region where it belongs to the region and a neighbour,
/// along an edge or at a corner, does not. The border is listed in ascending order.
pub proof fn lemma_which_pixels_are_border(ws: InverseWatershed, p: i32, r: int, c: int)
    requires
        ws.wf(),
        ws.bordered(),
        0 <= r < ws.height,
        0 <= c < ws.width,
    ensures
        ({
            let i = r * ws.width + c;
            ws.border_of(p).contains(i as i32) <==> ws.labels@[i] == p && exists|a: int, b: int|
                0 <= a < ws.height && 0 <= b < ws.width && -1 <= a - r <= 1 && -1 <= b - c <= 1
                    && ws.labels@[#[trigger] flat(a, b, ws.width as int)] != p
        }),
        forall|a: int, b: int|
            0 <= a < b < ws.border_of(p).len() ==> #[trigger] ws.border_of(p)[a]
                < #[trigger] ws.border_of(p)[b],
{
    let h = ws.height as int;
    let w = ws.width as int;
    let i = flat(r, c, w);
    lemma_flat_bound(r, c, h, w);
    lemma_border_lists(ws.labels@, ws.borders@, p, ws.labels@.len(), i);
    let code = ws.borders@[i];
    assert(is_border_code(ws.labels@, h, w, r, c, ws.borders@[flat(r, c, w)]));
    if ws.labels@[i] == p && code != 0 {
        let k = lemma_code_has_bit(code);
        let (dr, dc) = ring(k as int);
        lemma_ring_goes_around(k as int);
        assert(differs(ws.labels@, h, w, r, c, k as int));
        assert(ws.labels@[flat(r + dr, c + dc, w)] != p);
    }
    if ws.labels@[i] == p && exists|a: int, b: int|
        0 <= a < h && 0 <= b < w && -1 <= a - r <= 1 && -1 <= b - c <= 1 && ws.labels@[#[trigger] flat(
            a,
            b,
            w,
        )] != p {
        let (a, b) = choose|a: int, b: int|
            0 <= a < h && 0 <= b < w && -1 <= a - r <= 1 && -1 <= b - c <= 1
                && ws.labels@[#[trigger] flat(a, b, w)] != p;
        let k = lemma_ring_is_complete(a - r, b - c);
        assert(differs(ws.labels@, h, w, r, c, k));
        assert(bit_set(code, k as u32));
        lemma_no_bits(k as u32);
    }
}

proof fn lemma_code_has_bit(code: u8) -> (k: u32)
    requires
        code != 0,
    ensures
        k < 8,
        bit_set(code, k),
{
    if bit_set(code, 0) {
        0
    } else if bit_set(code, 1) {
        1
    } else if bit_set(code, 2) {
        2
    } else if bit_set(code, 3) {
        3
    } else if bit_set(code, 4) {
        4
    } else if bit_set(code, 5) {
        5
    } else if bit_set(code, 7) {
        7
    } else {
        lemma_code_zero(code);
        6
    }
}

proof fn lemma_no_bits(k: u32)
    requires
        k < 8,
    ensures
        !bit_set(0, k),
{
    assert((0u8 & (1u8 << k)) == 0) by (bit_vector)
        requires
            k < 8,
    ;
}

/// The pass of a region leads over its highest border pixel to the label that this pixel
/// touches, the first of equal ones, and no border pixel is lower than the smallest value
/// kept.
pub proof fn lemma_pass_is_highest(ws: InverseWatershed, p: i32, k: int)
    requires
        ws.segmented(),
        ws.regions@.dom().contains(p),
        0 <= k < ws.border_of(p).len(),
        forall|j: int|
            0 <= j < ws.border_of(p).len() ==> !is_nan(
                ws.data@[#[trigger] ws.border_of(p)[j] as int],
            ),
    ensures
        ({
            let g = ws.regions@[p];
            let border = ws.border_of(p);
            let w = ws.width as int;
            &&& rank(g.mini) <= rank(ws.data@[border[k] as int]) <= rank(g.highest_pass)
            &&& g.maxi == ws.data@[p as int]
            &&& exists|j: int|
                0 <= j < border.len() && ws.data@[#[trigger] border[j] as int] == g.highest_pass
                    && g.pass_to == outward(
                    ws.labels@,
                    ws.height as int,
                    w,
                    border[j] as int / w,
                    border[j] as int % w,
                ) && forall|i: int|
                    0 <= i < j ==> rank(ws.data@[#[trigger] border[i] as int]) < rank(
                        g.highest_pass,
                    )
            &&& exists|j: int|
                0 <= j < border.len() && ws.data@[#[trigger] border[j] as int] == g.mini
        }),
{
    let g = ws.regions@[p];
    let border = ws.border_of(p);
    let edge = values_at(ws.data@, border);
    assert(!is_nan(ws.data@[border[0] as int]));
    let a = choose|j: int| #[trigger] is_first_min(edge, j) && g.mini == edge[j];
    let b = choose|j: int| #[trigger]
        is_first_max(edge, j) && g.highest_pass == edge[j] && g.pass_to == g.neighbors@[j];
    assert(!gt(edge[k], edge[b]) && !gt(edge[a], edge[k]));
    assert(!is_nan(ws.data@[border[k] as int]));
    assert(ws.data@[border[b] as int] == g.highest_pass);
    assert forall|i: int| 0 <= i < b implies rank(ws.data@[#[trigger] border[i] as int]) < rank(
        g.highest_pass,
    ) by {
        assert(!is_nan(ws.data@[border[i] as int]));
        assert(is_nan(edge[i]) || gt(edge[b], edge[i]));
    }
    assert(ws.data@[border[a] as int] == g.mini);
}

/// No pixel of a region is higher than its peak.
pub proof fn lemma_peak_is_highest(ws: InverseWatershed, i: int)
    requires
        ws.labelled(),
        0 <= i < ws.labels@.len(),
    ensures
        !gt(ws.data@[i], ws.data@[ws.labels@[i] as int]),
{
    let (h, w) = (ws.height as int, ws.width as int);
    let p = ws.labels@[i] as int;
    let route = choose|route: Seq<int>| #[trigger]
        is_climb(ws.data@, h, w, route) && route[0] == i && route.last() == p;
    if route.len() > 1 {
        lemma_climb_goes_up(ws.data@, h, w, route, 0, route.len() - 1);
    }
}

proof fn lemma_sorted_out_of_order(order: Seq<usize>, too_close: Seq<bool>, keep: int, n: int)
    requires
        0 <= n <= order.len(),
    ensures
        ({
            let (kept, aside) = sorted_out(order, too_close, keep, n);
            &&& forall|k: int| 0 <= k < kept.len() ==> order.contains(#[trigger] kept[k])
            &&& forall|k: int| 0 <= k < aside.len() ==> order.contains(#[trigger] aside[k])
        }),
    decreases n,
{
    if n > 0 {
        lemma_sorted_out_of_order(order, too_close, keep, n - 1);
        let (before, set_aside) = sorted_out(order, too_close, keep, n - 1);
        let (kept, aside) = sorted_out(order, too_close, keep, n);
        assert(order.contains(order[n - 1]));
        assert forall|k: int| 0 <= k < kept.len() implies order.contains(#[trigger] kept[k]) by {
            if k < before.len() {
                assert(kept[k] == before[k]);
            }
        }
        assert forall|k: int| 0 <= k < aside.len() implies order.contains(#[trigger] aside[k]) by {
            if k < set_aside.len() {
                assert(aside[k] == set_aside[k]);
            }
        }
    }
}

proof fn lemma_none_set_aside(order: Seq<usize>, too_close: Seq<bool>, keep: int, n: int)
    requires
        0 <= n <= order.len(),
        0 <= keep,
        forall|i: int|
            0 <= i < n && sorted_out(order, too_close, keep, i).0.len() < keep
                ==> !#[trigger] too_close[i],
    ensures
        sorted_out(order, too_close, keep, n).0 == order.take(if n < keep {
            n
        } else {
            keep
        }),
        sorted_out(order, too_close, keep, n).1.len() == 0,
    decreases n,
{
    if n > 0 {
        lemma_none_set_aside(order, too_close, keep, n - 1);
        if n - 1 < keep {
            assert(!too_close[n - 1]);
            assert(order.take(n - 1).push(order[n - 1]) =~= order.take(n));
        }
    }
    assert(order.take(0) =~= Seq::<usize>::empty());
}

proof fn lemma_first_is_kept<F: Fn(usize, usize) -> bool>(
    order: Seq<usize>,
    too_close: Seq<bool>,
    keep: int,
    close: F,
    n: int,
)
    requires
        verdicts_stand(order, too_close, keep, close, order.len() as int),
        1 <= n <= order.len(),
        1 <= keep,
    ensures
        sorted_out(order, too_close, keep, n).0.len() >= 1,
        sorted_out(order, too_close, keep, n).0[0] == order[0],
    decreases n,
{
    if n == 1 {
        assert(sorted_out(order, too_close, keep, 0).0 =~= Seq::<usize>::empty());
        assert(verdict_stands(
            order[0],
            sorted_out(order, too_close, keep, 0).0,
            close,
            too_close[0],
        ));
    } else {
        lemma_first_is_kept(order, too_close, keep, close, n - 1);
    }
}

proof fn lemma_kept_are_apart<F: Fn(usize, usize) -> bool>(
    order: Seq<usize>,
    too_close: Seq<bool>,
    keep: int,
    close: F,
    n: int,
    i: int,
    j: int,
)
    requires
        verdicts_stand(order, too_close, keep, close, order.len() as int),
        0 <= n <= order.len(),
        0 <= i < j < sorted_out(order, too_close, keep, n).0.len(),
    ensures
        close.ensures(
            (sorted_out(order, too_close, keep, n).0[j], sorted_out(order, too_close, keep, n).0[i]),
            false,
        ),
    decreases n,
{
    if n > 0 {
        let before = sorted_out(order, too_close, keep, n - 1).0;
        if j < before.len() {
            lemma_kept_are_apart(order, too_close, keep, close, n - 1, i, j);
        } else {
            assert(!too_close[n - 1]);
            assert(verdict_stands(order[n - 1], before, close, too_close[n - 1]));
        }
    }
}

/// Peak `x` is close to one of the first `m` peaks of a list.
pub open spec fn is_crowded<F: Fn(usize, usize) -> bool>(
    close: F,
    peaks: Seq<usize>,
    m: int,
    x: usize,
) -> bool {
    exists|j: int| 0 <= j < m && #[trigger] close.ensures((x, peaks[j]), true)
}

/// The first `m` peaks of a list are apart from one another, as the later of two tells.
pub open spec fn are_apart<F: Fn(usize, usize) -> bool>(close: F, peaks: Seq<usize>, m: int) -> bool {
    forall|i: int, j: int|
        0 <= i < j < m ==> #[trigger] close.ensures((peaks[j], peaks[i]), false)
}

/// Thinning keeps the first peak, and what it gives are peaks of the list. The first `m` of
/// those given are apart from one another. Only where these are fewer than asked for do
/// others follow, and each of those is close to one of them.
pub proof fn lemma_thinned_peaks<F: Fn(usize, usize) -> bool>(
    order: Seq<usize>,
    keep: int,
    close: F,
    out: Seq<usize>,
) -> (m: int)
    requires
        is_thinned(order, keep, close, out),
        1 <= keep < order.len(),
    ensures
        out.len() == keep,
        out[0] == order[0],
        forall|k: int| 0 <= k < out.len() ==> order.contains(#[trigger] out[k]),
        1 <= m <= keep,
        are_apart(close, out, m),
        forall|k: int| m <= k < out.len() ==> is_crowded(close, out, m, #[trigger] out[k]),
{
    let n = order.len() as int;
    let too_close = choose|too_close: Seq<bool>| #[trigger]
        verdicts_stand(order, too_close, keep, close, n) && {
            let (kept, aside) = sorted_out(order, too_close, keep, n);
            out == at_most(kept + aside, keep)
        };
    let (kept, aside) = sorted_out(order, too_close, keep, n);
    lemma_thinned_to_keep(order, keep, close, out);
    lemma_sorted_out(order, too_close, keep, n);
    lemma_sorted_out_of_order(order, too_close, keep, n);
    lemma_first_is_kept(order, too_close, keep, close, n);
    let m = kept.len() as int;
    assert(forall|k: int| 0 <= k < m ==> #[trigger] out[k] == kept[k]);
    assert(forall|k: int| m <= k < out.len() ==> #[trigger] out[k] == aside[k - m]);
    assert(are_apart(close, out, m)) by {
        assert forall|i: int, j: int| 0 <= i < j < m implies #[trigger] close.ensures(
            (out[j], out[i]),
            false,
        ) by {
            lemma_kept_are_apart(order, too_close, keep, close, n, i, j);
        }
    }
    assert forall|k: int| m <= k < out.len() implies is_crowded(
        close,
        out,
        m,
        #[trigger] out[k],
    ) by {
        let j = lemma_aside_is_close(order, too_close, keep, close, n, k - m);
        assert(close.ensures((out[k], out[j]), true));
    }
    m
}

proof fn lemma_aside_is_close<F: Fn(usize, usize) -> bool>(
    order: Seq<usize>,
    too_close: Seq<bool>,
    keep: int,
    close: F,
    n: int,
    k: int,
) -> (j: int)
    requires
        verdicts_stand(order, too_close, keep, close, order.len() as int),
        0 <= n <= order.len(),
        0 <= k < sorted_out(order, too_close, keep, n).1.len(),
    ensures
        0 <= j < sorted_out(order, too_close, keep, n).0.len(),
        close.ensures(
            (sorted_out(order, too_close, keep, n).1[k], sorted_out(order, too_close, keep, n).0[j]),
            true,
        ),
    decreases n,
{
    if n <= 0 {
        0
    } else {
        let (before, set_aside) = sorted_out(order, too_close, keep, n - 1);
        if k < set_aside.len() {
            lemma_aside_is_close(order, too_close, keep, close, n - 1, k)
        } else {
            assert(too_close[n - 1]);
            assert(verdict_stands(order[n - 1], before, close, too_close[n - 1]));
            choose|j: int|
                0 <= j < before.len() && #[trigger] close.ensures((order[n - 1], before[j]), true)
        }
    }
}

/// Where no two peaks are close, thinning gives the first ones of the list.
pub proof fn lemma_peaks_far_apart<F: Fn(usize, usize) -> bool>(
    order: Seq<usize>,
    keep: int,
    close: F,
    out: Seq<usize>,
)
    requires
        is_thinned(order, keep, close, out),
        0 <= keep <= order.len(),
        forall|a: usize, b: usize| !#[trigger] close.ensures((a, b), true),
    ensures
        out == order.take(keep),
{
    let n = order.len() as int;
    if n <= keep {
        assert(order.take(keep) =~= order);
    } else {
        let too_close = choose|too_close: Seq<bool>| #[trigger]
            verdicts_stand(order, too_close, keep, close, n) && {
                let (kept, aside) = sorted_out(order, too_close, keep, n);
                out == at_most(kept + aside, keep)
            };
        assert forall|i: int|
            0 <= i < n && sorted_out(order, too_close, keep, i).0.len()
                < keep implies !#[trigger] too_close[i] by {
            assert(verdict_stands(
                order[i],
                sorted_out(order, too_close, keep, i).0,
                close,
                too_close[i],
            ));
        }
        lemma_none_set_aside(order, too_close, keep, n);
        let (kept, aside) = sorted_out(order, too_close, keep, n);
        assert(kept + aside =~= kept);
        assert(out =~= order.take(keep));
    }
}

/// What is selected of an area are peaks of regions within the mask, none of them lower
/// than asked for. Unless their number is limited, all of these are selected, each once:
/// in ascending order, or from the highest down where a least value is asked for, then
/// those of one value in ascending order.
pub proof fn lemma_selected_peaks<F: Fn(usize, usize) -> bool>(
    ws: InverseWatershed,
    mask: Seq<bool>,
    imin: Option<u32>,
    keep: Option<usize>,
    close: F,
    out: Seq<usize>,
    p: usize,
)
    requires
        is_selection(ws, mask, imin, keep, close, out),
        mask.len() == ws.labels@.len() <= i32::MAX,
        keep matches Some(k) ==> k > 0,
        p < ws.labels@.len(),
    ensures
        out.contains(p) ==> ws.regions@.dom().contains(p as i32) && mask[p as int] && (imin is Some
            ==> ge(ws.data@[p as int], imin->0)),
        keep is None && ws.regions@.dom().contains(p as i32) && mask[p as int] && (imin is Some
            ==> ge(ws.data@[p as int], imin->0)) ==> out.contains(p),
        keep is None && imin is None ==> forall|a: int, b: int|
            0 <= a < b < out.len() ==> #[trigger] out[a] < #[trigger] out[b],
        keep is None && imin is Some ==> forall|a: int, b: int|
            0 <= a < b < out.len() ==> rank(ws.data@[#[trigger] out[a] as int]) >= rank(
                ws.data@[#[trigger] out[b] as int],
            ) && (rank(ws.data@[out[a] as int]) == rank(ws.data@[out[b] as int]) ==> out[a]
                < out[b]),
        keep matches Some(k) ==> out.len() <= k,
{
    let order = choose|order: Seq<usize>| #[trigger]
        selects(ws, mask, imin, keep, close, order, out);
    if out.contains(p) {
        let k = choose|k: int| 0 <= k < out.len() && out[k] == p;
        let i = if let Some(n) = keep {
            if order.len() > n {
                let m = lemma_thinned_peaks(order, n as int, close, out);
                assert(order.contains(out[k]));
            } else {
                assert(out == order);
                assert(order.contains(out[k]));
            }
            choose|i: int| 0 <= i < order.len() && order[i] == p
        } else {
            k
        };
        assert(ws.is_candidate(mask, order[i] as int));
    }
    if keep is None && ws.is_candidate(mask, p as int) && (imin is Some ==> ge(
        ws.data@[p as int],
        imin->0,
    )) {
        let k = choose|k: int| 0 <= k < order.len() && #[trigger] order[k] == p as int;
        assert(out[k] == p);
    }
    if let Some(n) = keep {
        lemma_thinned_to_keep(order, n as int, close, out);
    }
}

} // verus!
