//! Connected-component labelling of a binary image.
//!
//! Two foreground pixels are connected when a chain of neighbours joins them.
//! [`label`] numbers the connected components `1..=n` in the order in which
//! their first pixel is met in a raster scan.

use crate::grid::{flat, lemma_flat_bound, lemma_flat_cell, lemma_flat_inverse};
use vstd::prelude::*;

verus! {

/// A binary structuring element for connected-component labelling. The cells
/// mark which of the 8 neighbours connect two foreground pixels.
#[derive(Debug, Clone, Copy)]
pub struct Structure {
    /// Row-major 3x3 connectivity mask; `cells[4]` (the centre) is unused.
    pub cells: [bool; 9],
}

impl Structure {
    /// The neighbour at relative offset `(dr, dc)` connects to the centre.
    pub open spec fn joins(self, dr: int, dc: int) -> bool {
        self.cells@[(dr + 1) * 3 + (dc + 1)]
    }

    /// 8-connectivity: every neighbour connects.
    pub fn full() -> (s: Self)
        ensures
            forall|dr: int, dc: int| -1 <= dr <= 1 && -1 <= dc <= 1 ==> #[trigger] s.joins(dr, dc),
            is_full(s),
    {
        Structure { cells: [true, true, true, true, true, true, true, true, true] }
    }

    /// 4-connectivity: the neighbours above, below, left and right connect.
    pub fn cross() -> (s: Self)
        ensures
            forall|dr: int, dc: int|
                -1 <= dr <= 1 && -1 <= dc <= 1 ==> (#[trigger] s.joins(dr, dc) <==> dr == 0 || dc
                    == 0),
            is_cross(s),
    {
        Structure { cells: [false, true, false, true, true, true, false, true, false] }
    }

    /// True iff the neighbour at relative offset `(dr, dc)` (each in `-1..=1`)
    /// connects to the centre.
    pub fn connects(&self, dr: i32, dc: i32) -> (b: bool)
        requires
            -1 <= dr <= 1,
            -1 <= dc <= 1,
        ensures
            b == self.joins(dr as int, dc as int),
    {
        self.cells[((dr + 1) * 3 + (dc + 1)) as usize]
    }
}

/// A parent table is well formed when every entry points to itself or to a
/// smaller label; entry 0 is the background.
pub open spec fn parents_wf(p: Seq<i32>) -> bool {
    &&& p.len() > 0
    &&& forall|x: int| 0 <= x < p.len() ==> 0 <= #[trigger] p[x] <= x
}

/// The representative reached from label `x` by following parents.
pub open spec fn root_of(p: Seq<i32>, x: int) -> int
    decreases x,
{
    if 0 <= x < p.len() && 0 <= p[x] < x {
        root_of(p, p[x] as int)
    } else {
        x
    }
}

/// The representative is a label that is its own parent.
proof fn lemma_root_fixed(p: Seq<i32>, x: int)
    requires
        parents_wf(p),
        0 <= x < p.len(),
    ensures
        0 <= root_of(p, x) <= x,
        p[root_of(p, x)] == root_of(p, x),
        root_of(p, root_of(p, x)) == root_of(p, x),
    decreases x,
{
    if p[x] < x {
        lemma_root_fixed(p, p[x] as int);
    }
}

/// Redirecting `x` to a label with the same representative changes no
/// representative.
proof fn lemma_redirect(p: Seq<i32>, x: int, v: i32, y: int)
    requires
        parents_wf(p),
        0 <= x < p.len(),
        0 <= v < x,
        root_of(p, v as int) == root_of(p, x),
        0 <= y < p.len(),
    ensures
        root_of(p.update(x, v), y) == root_of(p, y),
    decreases y,
{
    let q = p.update(x, v);
    if y == x {
        lemma_redirect(p, x, v, v as int);
    } else if p[y] < y {
        lemma_redirect(p, x, v, p[y] as int);
    }
}

/// Hanging the representative `hi` below the representative `lo` moves exactly
/// the labels of `hi` to `lo`.
proof fn lemma_hang(p: Seq<i32>, hi: int, lo: i32, y: int)
    requires
        parents_wf(p),
        0 <= lo < hi < p.len(),
        p[hi] == hi,
        p[lo as int] == lo,
        0 <= y < p.len(),
    ensures
        root_of(p.update(hi, lo), y) == if root_of(p, y) == hi {
            lo as int
        } else {
            root_of(p, y)
        },
    decreases y,
{
    let q = p.update(hi, lo);
    if y == hi {
        assert(root_of(q, hi) == root_of(q, lo as int));
        assert(root_of(q, lo as int) == lo);
    } else if p[y] < y {
        lemma_hang(p, hi, lo, p[y] as int);
    }
}

/// A new label is its own representative and changes no other.
proof fn lemma_make(p: Seq<i32>, id: i32, y: int)
    requires
        parents_wf(p),
        id == p.len(),
        0 <= y <= p.len(),
    ensures
        root_of(p.push(id), y) == if y == id {
            id as int
        } else {
            root_of(p, y)
        },
    decreases y,
{
    if y < p.len() && p[y] < y {
        lemma_make(p, id, p[y] as int);
    }
}

/// Disjoint sets of labels, in which the representative of every set is the
/// smallest label in it.
pub struct UnionFind {
    /// `parent[x]` is `x` itself or a smaller label of the same set.
    pub parent: Vec<i32>,
}

impl UnionFind {
    /// Every parent points downwards.
    pub open spec fn wf(&self) -> bool {
        parents_wf(self.parent@)
    }

    /// `x` is one of the labels, the background 0 among them.
    pub open spec fn holds(&self, x: int) -> bool {
        0 <= x < self.parent@.len()
    }

    /// The representative of the set that holds `x`.
    pub open spec fn root(&self, x: int) -> int {
        root_of(self.parent@, x)
    }

    /// No labels but the background 0.
    pub fn new() -> (s: Self)
        ensures
            s.wf(),
            s.parent@ == seq![0i32],
            s.root(0) == 0,
    {
        UnionFind { parent: vec![0i32] }
    }

    /// Adds a label in a set of its own and returns it.
    pub fn make(&mut self) -> (id: i32)
        requires
            old(self).wf(),
            old(self).parent@.len() <= i32::MAX,
        ensures
            id == old(self).parent@.len(),
            final(self).wf(),
            final(self).parent@ == old(self).parent@.push(id),
            final(self).root(id as int) == id,
            forall|y: int|
                old(self).holds(y) ==> #[trigger] final(self).root(y) == old(self).root(y),
    {
        let id: i32 = self.parent.len() as i32;
        proof {
            lemma_make(self.parent@, id, id as int);
            assert forall|y: int| self.holds(y) implies #[trigger] root_of(self.parent@.push(id), y)
                == self.root(y) by {
                lemma_make(self.parent@, id, y);
            }
        }
        self.parent.push(id);
        id
    }

    /// The representative of the set that holds `x`. Shortens the chain of
    /// parents on the way, which changes no representative.
    pub fn find(&mut self, x: i32) -> (r: i32)
        requires
            old(self).wf(),
            old(self).holds(x as int),
        ensures
            final(self).wf(),
            final(self).parent@.len() == old(self).parent@.len(),
            r == old(self).root(x as int),
            0 <= r <= x,
            forall|y: int|
                old(self).holds(y) ==> #[trigger] final(self).root(y) == old(self).root(y),
    {
        let mut x: i32 = x;
        let ghost x0 = x;
        while self.parent[x as usize] != x
            invariant
                self.wf(),
                self.holds(x as int),
                x <= x0,
                old(self).wf(),
                old(self).holds(x0 as int),
                self.parent@.len() == old(self).parent@.len(),
                self.root(x as int) == old(self).root(x0 as int),
                forall|y: int|
                    old(self).holds(y) ==> #[trigger] self.root(y) == old(self).root(y),
            decreases x,
        {
            let p: i32 = self.parent[x as usize];
            let ghost before = self.parent@;
            let v: i32 = self.parent[p as usize];
            proof {
                assert(root_of(before, x as int) == root_of(before, p as int));
                assert(root_of(before, p as int) == root_of(before, v as int));
                assert(self.root(v as int) == old(self).root(v as int));
                assert forall|y: int| old(self).holds(y) implies #[trigger] root_of(
                    before.update(x as int, v),
                    y,
                ) == old(self).root(y) by {
                    lemma_redirect(before, x as int, v, y);
                    assert(self.root(y) == old(self).root(y));
                }
            }
            self.parent[x as usize] = v;
            assert(self.parent@ == before.update(x as int, v));
            assert(self.root(v as int) == old(self).root(v as int));
            x = self.parent[x as usize];
        }
        proof {
            lemma_root_fixed(old(self).parent@, x0 as int);
        }
        x
    }

    /// Joins the sets of `a` and `b` and returns their representative, the
    /// smaller of the two old ones.
    pub fn union(&mut self, a: i32, b: i32) -> (r: i32)
        requires
            old(self).wf(),
            old(self).holds(a as int),
            old(self).holds(b as int),
        ensures
            final(self).wf(),
            final(self).parent@.len() == old(self).parent@.len(),
            r == if old(self).root(a as int) <= old(self).root(b as int) {
                old(self).root(a as int)
            } else {
                old(self).root(b as int)
            },
            forall|y: int|
                old(self).holds(y) ==> #[trigger] final(self).root(y) == if old(self).root(y)
                    == old(self).root(a as int) || old(self).root(y) == old(self).root(b as int) {
                    r as int
                } else {
                    old(self).root(y)
                },
    {
        let ra: i32 = self.find(a);
        let rb: i32 = self.find(b);
        if ra == rb {
            return ra;
        }
        let (lo, hi): (i32, i32) = if ra < rb {
            (ra, rb)
        } else {
            (rb, ra)
        };
        let ghost before = self.parent@;
        proof {
            lemma_root_fixed(before, a as int);
            lemma_root_fixed(before, b as int);
            assert(self.root(a as int) == old(self).root(a as int));
            assert(self.root(b as int) == old(self).root(b as int));
            assert forall|y: int| old(self).holds(y) implies #[trigger] root_of(
                before.update(hi as int, lo),
                y,
            ) == if old(self).root(y) == ra || old(self).root(y) == rb {
                lo as int
            } else {
                old(self).root(y)
            } by {
                lemma_hang(before, hi as int, lo, y);
                assert(self.root(y) == old(self).root(y));
            }
        }
        self.parent[hi as usize] = lo;
        assert(self.parent@ == before.update(hi as int, lo));
        lo
    }
}

/// Pixel `i` is one of the four neighbours of pixel `j` that come before it in
/// the raster scan (upper left, upper, upper right, left), and `s` connects it.
pub open spec fn earlier_neighbour(s: Structure, cols: int, i: int, j: int) -> bool {
    let dr = i / cols - j / cols;
    let dc = i % cols - j % cols;
    &&& (dr == -1 && -1 <= dc <= 1) || (dr == 0 && dc == -1)
    &&& s.joins(dr, dc)
}

/// Pixels `i` and `j` are foreground neighbours of each other.
pub open spec fn adjacent(input: Seq<bool>, s: Structure, cols: int, i: int, j: int) -> bool {
    &&& 0 <= i < input.len()
    &&& 0 <= j < input.len()
    &&& input[i]
    &&& input[j]
    &&& earlier_neighbour(s, cols, i, j) || earlier_neighbour(s, cols, j, i)
}

/// `path` walks over foreground pixels from neighbour to neighbour.
pub open spec fn is_path(input: Seq<bool>, s: Structure, cols: int, path: Seq<int>) -> bool {
    &&& path.len() > 0
    &&& forall|k: int|
        0 <= k < path.len() ==> 0 <= #[trigger] path[k] < input.len() && input[path[k]]
    &&& forall|k: int, l: int|
        0 <= k < path.len() && l == k + 1 && l < path.len() ==> adjacent(
            input,
            s,
            cols,
            #[trigger] path[k],
            #[trigger] path[l],
        )
}

/// A path leads from pixel `i` to pixel `j`.
pub open spec fn connected(input: Seq<bool>, s: Structure, cols: int, i: int, j: int) -> bool {
    exists|path: Seq<int>| #[trigger]
        is_path(input, s, cols, path) && path[0] == i && path.last() == j
}

/// A foreground pixel is connected to itself.
pub proof fn lemma_connected_refl(input: Seq<bool>, s: Structure, cols: int, i: int)
    requires
        0 <= i < input.len(),
        input[i],
    ensures
        connected(input, s, cols, i, i),
{
    assert(is_path(input, s, cols, seq![i]));
}

/// Neighbours are connected.
pub proof fn lemma_connected_step(input: Seq<bool>, s: Structure, cols: int, i: int, j: int)
    requires
        adjacent(input, s, cols, i, j),
    ensures
        connected(input, s, cols, i, j),
{
    let path = seq![i, j];
    assert(is_path(input, s, cols, path));
    assert(path[0] == i && path.last() == j);
}

/// Connection goes both ways.
pub proof fn lemma_connected_sym(input: Seq<bool>, s: Structure, cols: int, i: int, j: int)
    requires
        connected(input, s, cols, i, j),
    ensures
        connected(input, s, cols, j, i),
{
    let path = choose|path: Seq<int>| #[trigger]
        is_path(input, s, cols, path) && path[0] == i && path.last() == j;
    let back = path.reverse();
    let n = path.len();
    assert forall|k: int, l: int| 0 <= k < n && l == k + 1 && l < n implies adjacent(
        input,
        s,
        cols,
        #[trigger] back[k],
        #[trigger] back[l],
    ) by {
        assert(back[k] == path[n - 1 - k]);
        assert(back[l] == path[n - 1 - l]);
        assert(adjacent(input, s, cols, path[n - 1 - l], path[n - 1 - k]));
    }
    assert(is_path(input, s, cols, back));
    assert(back[0] == j && back.last() == i);
}

/// Connection carries over a common pixel.
pub proof fn lemma_connected_trans(
    input: Seq<bool>,
    s: Structure,
    cols: int,
    i: int,
    j: int,
    k: int,
)
    requires
        connected(input, s, cols, i, j),
        connected(input, s, cols, j, k),
    ensures
        connected(input, s, cols, i, k),
{
    let a = choose|path: Seq<int>| #[trigger]
        is_path(input, s, cols, path) && path[0] == i && path.last() == j;
    let b = choose|path: Seq<int>| #[trigger]
        is_path(input, s, cols, path) && path[0] == j && path.last() == k;
    let tail = b.subrange(1, b.len() as int);
    let path = a + tail;
    assert forall|x: int, y: int| 0 <= x < path.len() && y == x + 1 && y < path.len() implies adjacent(
        input,
        s,
        cols,
        #[trigger] path[x],
        #[trigger] path[y],
    ) by {
        if y < a.len() {
            assert(path[x] == a[x] && path[y] == a[y]);
        } else {
            let m = y - a.len();
            assert(path[y] == b[m + 1]);
            if x < a.len() {
                assert(path[x] == a.last() && b[0] == a.last());
                assert(m == 0);
                assert(adjacent(input, s, cols, b[0], b[1]));
            } else {
                assert(path[x] == b[m]);
            }
        }
    }
    assert forall|x: int| 0 <= x < path.len() implies 0 <= #[trigger] path[x] < input.len()
        && input[path[x]] by {
        if x < a.len() {
            assert(path[x] == a[x]);
        } else {
            assert(path[x] == b[x - a.len() + 1]);
        }
    }
    assert(is_path(input, s, cols, path));
    assert(path[0] == a[0]);
    if b.len() == 1 {
        assert(path.last() == a.last());
    } else {
        assert(path.last() == b.last());
    }
}

/// Pixel `j` has a foreground neighbour before it in the raster scan.
pub open spec fn has_earlier(input: Seq<bool>, s: Structure, cols: int, j: int) -> bool {
    exists|i: int| 0 <= i < j && input[i] && #[trigger] earlier_neighbour(s, cols, i, j)
}

/// How many of the first `t` pixels are foreground pixels without a foreground
/// neighbour before them: each of these opens a provisional label.
pub open spec fn starts(input: Seq<bool>, s: Structure, cols: int, t: nat) -> nat
    decreases t,
{
    if t == 0 {
        0
    } else {
        starts(input, s, cols, (t - 1) as nat) + if input[t - 1] && !has_earlier(
            input,
            s,
            cols,
            t - 1,
        ) {
            1nat
        } else {
            0nat
        }
    }
}

/// The number of provisional labels grows along the scan, by one a pixel at most.
pub proof fn lemma_starts_monotone(input: Seq<bool>, s: Structure, cols: int, t: nat, u: nat)
    requires
        t <= u,
    ensures
        starts(input, s, cols, t) <= starts(input, s, cols, u) <= starts(input, s, cols, t) + (u
            - t),
    decreases u,
{
    if t < u {
        lemma_starts_monotone(input, s, cols, t, (u - 1) as nat);
    }
}

/// The offset of the `k`-th earlier neighbour: upper left, upper, upper right, left.
pub open spec fn causal_offset(k: int) -> (int, int) {
    if k == 3 {
        (0, -1)
    } else {
        (-1, k - 1)
    }
}

/// The `k`-th earlier neighbour of pixel `(r, c)`, where it lies inside the image
/// and `s` connects it.
pub open spec fn neighbour_at(s: Structure, cols: int, r: int, c: int, k: int) -> Option<int> {
    let (dr, dc) = causal_offset(k);
    if s.joins(dr, dc) && 0 <= r + dr && 0 <= c + dc < cols {
        Some(flat(r + dr, c + dc, cols))
    } else {
        None
    }
}

/// What [`neighbour_at`] finds is an earlier neighbour.
proof fn lemma_neighbour_is_earlier(s: Structure, cols: int, r: int, c: int, k: int)
    requires
        0 <= k < 4,
        0 <= r,
        0 <= c < cols,
        neighbour_at(s, cols, r, c, k) is Some,
    ensures
        0 <= neighbour_at(s, cols, r, c, k)->0 < flat(r, c, cols),
        earlier_neighbour(s, cols, neighbour_at(s, cols, r, c, k)->0, flat(r, c, cols)),
{
    let (dr, dc) = causal_offset(k);
    lemma_flat_inverse(r, c, cols);
    lemma_flat_inverse(r + dr, c + dc, cols);
    lemma_flat_bound(r + dr, c + dc, r + dr + 1, cols);
    assert((r - 1) * cols == r * cols - cols) by (nonlinear_arith);
}

/// Every earlier neighbour is found by [`neighbour_at`].
proof fn lemma_neighbour_covers(s: Structure, cols: int, r: int, c: int, i: int) -> (k: int)
    requires
        0 <= r,
        0 <= c < cols,
        0 <= i,
        earlier_neighbour(s, cols, i, flat(r, c, cols)),
    ensures
        0 <= k < 4,
        neighbour_at(s, cols, r, c, k) == Some(i),
{
    lemma_flat_inverse(r, c, cols);
    crate::grid::lemma_flat_of(i, cols);
    let dr = i / cols - r;
    let dc = i % cols - c;
    assert(i / cols >= 0) by (nonlinear_arith)
        requires
            i >= 0,
            cols > 0,
    ;
    if dr == 0 {
        3
    } else {
        dc + 1
    }
}

/// The first `t` pixels are labelled provisionally: a pixel carries a label iff
/// it is foreground, and two pixels carry labels of one set iff the pixels seen
/// so far connect them.
spec fn scanned(
    input: Seq<bool>,
    s: Structure,
    cols: int,
    prov: Seq<i32>,
    uf: UnionFind,
    t: int,
) -> bool {
    &&& uf.wf()
    &&& prov.len() == input.len()
    &&& 0 <= t <= input.len()
    &&& uf.parent@.len() == 1 + starts(input, s, cols, t as nat)
    &&& forall|x: int| 0 < x < uf.parent@.len() ==> 0 < #[trigger] uf.root(x)
    &&& forall|i: int|
        0 <= i < prov.len() ==> uf.holds(#[trigger] prov[i] as int) && (prov[i] != 0 <==> i < t
            && input[i])
    &&& forall|i: int, j: int|
        0 <= i < t && 0 <= j < t && input[i] && input[j] && uf.root(#[trigger] prov[i] as int)
            == uf.root(#[trigger] prov[j] as int) ==> connected(input, s, cols, i, j)
    &&& forall|i: int, j: int|
        0 <= i < t && 0 <= j < t && #[trigger] adjacent(input, s, cols, i, j) ==> uf.root(
            prov[i] as int,
        ) == uf.root(prov[j] as int)
}

/// Looking up representatives keeps the scan state.
proof fn lemma_scanned_kept(
    input: Seq<bool>,
    s: Structure,
    cols: int,
    prov: Seq<i32>,
    uf: UnionFind,
    after: UnionFind,
    t: int,
)
    requires
        scanned(input, s, cols, prov, uf, t),
        after.wf(),
        after.parent@.len() == uf.parent@.len(),
        forall|y: int| uf.holds(y) ==> #[trigger] after.root(y) == uf.root(y),
    ensures
        scanned(input, s, cols, prov, after, t),
{
    assert forall|i: int| 0 <= i < prov.len() implies uf.root(#[trigger] prov[i] as int)
        == after.root(prov[i] as int) by {
        assert(uf.holds(prov[i] as int));
    }
}

/// Joining the labels of two connected pixels keeps the scan state.
proof fn lemma_scanned_joined(
    input: Seq<bool>,
    s: Structure,
    cols: int,
    prov: Seq<i32>,
    uf: UnionFind,
    after: UnionFind,
    t: int,
    i: int,
    j: int,
    r: int,
)
    requires
        scanned(input, s, cols, prov, uf, t),
        after.wf(),
        after.parent@.len() == uf.parent@.len(),
        0 <= i < t,
        0 <= j < t,
        input[i],
        input[j],
        connected(input, s, cols, i, j),
        r == uf.root(prov[i] as int) || r == uf.root(prov[j] as int),
        forall|y: int|
            uf.holds(y) ==> #[trigger] after.root(y) == if uf.root(y) == uf.root(prov[i] as int)
                || uf.root(y) == uf.root(prov[j] as int) {
                r
            } else {
                uf.root(y)
            },
    ensures
        scanned(input, s, cols, prov, after, t),
        after.root(prov[i] as int) == after.root(prov[j] as int),
{
    assert(uf.holds(prov[i] as int) && uf.holds(prov[j] as int));
    lemma_connected_sym(input, s, cols, i, j);
    assert forall|a: int, b: int|
        0 <= a < t && 0 <= b < t && input[a] && input[b] && after.root(#[trigger] prov[a] as int)
            == after.root(#[trigger] prov[b] as int) implies connected(input, s, cols, a, b) by {
        assert(uf.holds(prov[a] as int) && uf.holds(prov[b] as int));
        let ra = uf.root(prov[a] as int);
        let rb = uf.root(prov[b] as int);
        if ra != rb {
            // Both sets were joined, so `a` hangs on one of the pixels and `b` on the other.
            let (x, y) = if ra == uf.root(prov[i] as int) {
                (i, j)
            } else {
                (j, i)
            };
            assert(connected(input, s, cols, a, x));
            assert(connected(input, s, cols, y, b));
            assert(connected(input, s, cols, x, y));
            lemma_connected_trans(input, s, cols, a, x, y);
            lemma_connected_trans(input, s, cols, a, y, b);
        }
    }
    assert forall|a: int, b: int|
        0 <= a < t && 0 <= b < t && #[trigger] adjacent(input, s, cols, a, b) implies after.root(
        prov[a] as int,
    ) == after.root(prov[b] as int) by {
        assert(uf.holds(prov[a] as int) && uf.holds(prov[b] as int));
    }
}

/// The `k`-th earlier neighbour of pixel `(r, c)`, where it lies inside the image
/// and the structure connects it.
fn causal_neighbour(structure: Structure, cols: usize, r: usize, c: usize, k: usize) -> (n: Option<
    usize,
>)
    requires
        k < 4,
        c < cols,
        flat(r as int, c as int, cols as int) <= usize::MAX,
    ensures
        n is Some <==> neighbour_at(structure, cols as int, r as int, c as int, k as int) is Some,
        n is Some ==> n->0 == neighbour_at(
            structure,
            cols as int,
            r as int,
            c as int,
            k as int,
        )->0,
{
    if k == 3 {
        if structure.connects(0, -1) && c > 0 {
            assert(r * cols >= 0);
            return Some(r * cols + c - 1);
        }
        return None;
    }
    if r == 0 || !structure.connects(-1, k as i32 - 1) {
        return None;
    }
    if (k == 0 && c == 0) || (k == 2 && c + 1 >= cols) {
        return None;
    }
    proof {
        assert((r - 1) * cols == r * cols - cols) by (nonlinear_arith);
        assert((r - 1) * cols >= 0) by (nonlinear_arith)
            requires
                r >= 1,
        ;
    }
    let up: usize = (r - 1) * cols + c;
    if k == 0 {
        Some(up - 1)
    } else if k == 1 {
        Some(up)
    } else {
        Some(up + 1)
    }
}

/// The smallest representative among the labelled earlier neighbours of pixel
/// `(r, c)`; 0 where no earlier neighbour is labelled.
fn smallest_neighbour(
    prov: &Vec<i32>,
    uf: &mut UnionFind,
    structure: Structure,
    cols: usize,
    r: usize,
    c: usize,
    Ghost(input): Ghost<Seq<bool>>,
) -> (best: i32)
    requires
        c < cols,
        flat(r as int, c as int, cols as int) < input.len() <= usize::MAX,
        scanned(
            input,
            structure,
            cols as int,
            prov@,
            *old(uf),
            flat(r as int, c as int, cols as int),
        ),
    ensures
        scanned(
            input,
            structure,
            cols as int,
            prov@,
            *final(uf),
            flat(r as int, c as int, cols as int),
        ),
        final(uf).parent@.len() == old(uf).parent@.len(),
        best != 0 <==> has_earlier(
            input,
            structure,
            cols as int,
            flat(r as int, c as int, cols as int),
        ),
        best != 0 ==> final(uf).holds(best as int) && exists|i: int|
            0 <= i < flat(r as int, c as int, cols as int) && input[i]
                && #[trigger] earlier_neighbour(
                structure,
                cols as int,
                i,
                flat(r as int, c as int, cols as int),
            ) && final(uf).root(prov@[i] as int) == final(uf).root(best as int),
{
    let ghost t = flat(r as int, c as int, cols as int);
    let mut best: i32 = 0;
    let ghost mut from: int = 0;
    let mut k: usize = 0;
    while k < 4
        invariant
            k <= 4,
            c < cols,
            t == flat(r as int, c as int, cols as int),
            t < input.len() <= usize::MAX,
            scanned(input, structure, cols as int, prov@, *uf, t),
            uf.parent@.len() == old(uf).parent@.len(),
            best != 0 ==> 0 <= from < t && input[from] && earlier_neighbour(
                structure,
                cols as int,
                from,
                t,
            ) && uf.holds(best as int) && uf.root(prov@[from] as int) == uf.root(best as int),
            best == 0 ==> forall|l: int|
                0 <= l < k ==> match #[trigger] neighbour_at(
                    structure,
                    cols as int,
                    r as int,
                    c as int,
                    l,
                ) {
                    Some(i) => !input[i],
                    None => true,
                },
        decreases 4 - k,
    {
        if let Some(n) = causal_neighbour(structure, cols, r, c, k) {
            proof {
                lemma_neighbour_is_earlier(structure, cols as int, r as int, c as int, k as int);
            }
            let nlab: i32 = prov[n];
            if nlab != 0 {
                let ghost before = *uf;
                let root: i32 = uf.find(nlab);
                proof {
                    lemma_scanned_kept(input, structure, cols as int, prov@, before, *uf, t);
                    lemma_root_fixed(uf.parent@, nlab as int);
                    assert(uf.root(nlab as int) == root);
                    assert(before.holds(prov@[n as int] as int));
                    if best != 0 {
                        assert(before.holds(prov@[from] as int));
                    }
                }
                if best == 0 || root < best {
                    best = root;
                    proof {
                        from = n as int;
                    }
                }
            }
        }
        k = k + 1;
    }
    proof {
        if best == 0 && has_earlier(input, structure, cols as int, t) {
            let i = choose|i: int|
                0 <= i < t && input[i] && #[trigger] earlier_neighbour(
                    structure,
                    cols as int,
                    i,
                    t,
                );
            let l = lemma_neighbour_covers(structure, cols as int, r as int, c as int, i);
        }
    }
    best
}

/// Joins the sets of all labelled earlier neighbours of pixel `(r, c)` with the
/// set of `best`, the label of one of them.
fn merge_neighbours(
    prov: &Vec<i32>,
    uf: &mut UnionFind,
    structure: Structure,
    cols: usize,
    r: usize,
    c: usize,
    best: i32,
    Ghost(input): Ghost<Seq<bool>>,
    Ghost(from): Ghost<int>,
)
    requires
        c < cols,
        flat(r as int, c as int, cols as int) < input.len() <= usize::MAX,
        input[flat(r as int, c as int, cols as int)],
        scanned(
            input,
            structure,
            cols as int,
            prov@,
            *old(uf),
            flat(r as int, c as int, cols as int),
        ),
        old(uf).holds(best as int),
        0 <= from < flat(r as int, c as int, cols as int),
        input[from],
        earlier_neighbour(structure, cols as int, from, flat(r as int, c as int, cols as int)),
        old(uf).root(prov@[from] as int) == old(uf).root(best as int),
    ensures
        scanned(
            input,
            structure,
            cols as int,
            prov@,
            *final(uf),
            flat(r as int, c as int, cols as int),
        ),
        final(uf).parent@.len() == old(uf).parent@.len(),
        final(uf).root(prov@[from] as int) == final(uf).root(best as int),
        forall|i: int|
            0 <= i < flat(r as int, c as int, cols as int) && input[i]
                && #[trigger] earlier_neighbour(
                structure,
                cols as int,
                i,
                flat(r as int, c as int, cols as int),
            ) ==> final(uf).root(prov@[i] as int) == final(uf).root(best as int),
{
    let ghost t = flat(r as int, c as int, cols as int);
    let ghost w = cols as int;
    let mut k: usize = 0;
    while k < 4
        invariant
            k <= 4,
            c < cols,
            w == cols,
            t == flat(r as int, c as int, w),
            t < input.len() <= usize::MAX,
            input[t],
            scanned(input, structure, w, prov@, *uf, t),
            uf.parent@.len() == old(uf).parent@.len(),
            uf.holds(best as int),
            0 <= from < t,
            input[from],
            earlier_neighbour(structure, w, from, t),
            uf.root(prov@[from] as int) == uf.root(best as int),
            forall|l: int|
                0 <= l < k ==> match #[trigger] neighbour_at(
                    structure,
                    w,
                    r as int,
                    c as int,
                    l,
                ) {
                    Some(i) => input[i] ==> uf.root(prov@[i] as int) == uf.root(best as int),
                    None => true,
                },
        decreases 4 - k,
    {
        if let Some(n) = causal_neighbour(structure, cols, r, c, k) {
            proof {
                lemma_neighbour_is_earlier(structure, w, r as int, c as int, k as int);
            }
            let nlab: i32 = prov[n];
            if nlab != 0 {
                let ghost before = *uf;
                let ghost m = n as int;
                let root: i32 = uf.union(best, nlab);
                proof {
                    assert(adjacent(input, structure, w, from, t));
                    assert(adjacent(input, structure, w, t, m));
                    lemma_connected_step(input, structure, w, from, t);
                    lemma_connected_step(input, structure, w, t, m);
                    lemma_connected_trans(input, structure, w, from, t, m);
                    lemma_scanned_joined(
                        input,
                        structure,
                        w,
                        prov@,
                        before,
                        *uf,
                        t,
                        from,
                        m,
                        root as int,
                    );
                    assert(uf.root(best as int) == root);
                    assert(before.holds(prov@[from] as int));
                    assert forall|l: int| 0 <= l < k implies match #[trigger] neighbour_at(
                        structure,
                        w,
                        r as int,
                        c as int,
                        l,
                    ) {
                        Some(i) => input[i] ==> uf.root(prov@[i] as int) == uf.root(best as int),
                        None => true,
                    } by {
                        if let Some(i) = neighbour_at(structure, w, r as int, c as int, l) {
                            lemma_neighbour_is_earlier(structure, w, r as int, c as int, l);
                            assert(before.holds(prov@[i] as int));
                        }
                    }
                }
            }
        }
        k = k + 1;
    }
    proof {
        assert forall|i: int|
            0 <= i < t && input[i] && #[trigger] earlier_neighbour(
                structure,
                w,
                i,
                t,
            ) implies uf.root(prov@[i] as int) == uf.root(best as int) by {
            let l = lemma_neighbour_covers(structure, w, r as int, c as int, i);
        }
    }
}

/// Giving pixel `t` a label extends the scan state by one pixel.
proof fn lemma_scanned_step(
    input: Seq<bool>,
    s: Structure,
    cols: int,
    prov: Seq<i32>,
    uf: UnionFind,
    t: int,
    lab: i32,
)
    requires
        scanned(input, s, cols, prov, uf, t),
        t < input.len(),
        input[t],
        cols > 0,
        0 < lab,
        uf.holds(lab as int),
        has_earlier(input, s, cols, t),
        forall|i: int|
            0 <= i < t && input[i] && #[trigger] earlier_neighbour(s, cols, i, t) ==> uf.root(
                prov[i] as int,
            ) == uf.root(lab as int),
    ensures
        scanned(input, s, cols, prov.update(t, lab), uf, t + 1),
{
    let next = prov.update(t, lab);
    let from = choose|i: int|
        0 <= i < t && input[i] && #[trigger] earlier_neighbour(s, cols, i, t);
    assert(adjacent(input, s, cols, from, t));
    lemma_connected_step(input, s, cols, from, t);
    lemma_connected_sym(input, s, cols, from, t);
    lemma_connected_refl(input, s, cols, t);
    assert forall|i: int, j: int|
        0 <= i < t + 1 && 0 <= j < t + 1 && input[i] && input[j] && uf.root(
            #[trigger] next[i] as int,
        ) == uf.root(#[trigger] next[j] as int) implies connected(input, s, cols, i, j) by {
        if i < t && j < t {
            assert(next[i] == prov[i] && next[j] == prov[j]);
        } else if i < t {
            assert(next[i] == prov[i]);
            assert(uf.root(prov[i] as int) == uf.root(prov[from] as int));
            lemma_connected_trans(input, s, cols, i, from, t);
        } else if j < t {
            assert(next[j] == prov[j]);
            assert(uf.root(prov[j] as int) == uf.root(prov[from] as int));
            lemma_connected_trans(input, s, cols, t, from, j);
        }
    }
    assert forall|i: int, j: int|
        0 <= i < t + 1 && 0 <= j < t + 1 && #[trigger] adjacent(
            input,
            s,
            cols,
            i,
            j,
        ) implies uf.root(next[i] as int) == uf.root(next[j] as int) by {
        lemma_earlier_is_smaller(s, cols, i, j);
        lemma_earlier_is_smaller(s, cols, j, i);
        if i < t && j < t {
            assert(next[i] == prov[i] && next[j] == prov[j]);
        }
    }
}

/// An earlier neighbour comes earlier.
proof fn lemma_earlier_is_smaller(s: Structure, cols: int, i: int, j: int)
    requires
        0 <= i,
        0 <= j,
    ensures
        cols > 0 && earlier_neighbour(s, cols, i, j) ==> i < j,
{
    if cols > 0 && earlier_neighbour(s, cols, i, j) {
        crate::grid::lemma_flat_of(i, cols);
        crate::grid::lemma_flat_of(j, cols);
        let r = j / cols;
        assert((r - 1) * cols == r * cols - cols) by (nonlinear_arith);
    }
}

/// A new label for a pixel without labelled earlier neighbours extends the scan
/// state by one pixel.
proof fn lemma_scanned_start(
    input: Seq<bool>,
    s: Structure,
    cols: int,
    prov: Seq<i32>,
    uf: UnionFind,
    after: UnionFind,
    t: int,
    id: i32,
)
    requires
        scanned(input, s, cols, prov, uf, t),
        t < input.len(),
        input[t],
        cols > 0,
        !has_earlier(input, s, cols, t),
        after.wf(),
        id == uf.parent@.len(),
        after.parent@.len() == uf.parent@.len() + 1,
        after.root(id as int) == id,
        forall|y: int| uf.holds(y) ==> #[trigger] after.root(y) == uf.root(y),
    ensures
        scanned(input, s, cols, prov.update(t, id), after, t + 1),
{
    let next = prov.update(t, id);
    lemma_connected_refl(input, s, cols, t);
    assert forall|i: int| 0 <= i < t implies next[i] == prov[i] && after.root(next[i] as int)
        == uf.root(#[trigger] prov[i] as int) && uf.root(prov[i] as int) < id by {
        assert(uf.holds(prov[i] as int));
        lemma_root_fixed(uf.parent@, prov[i] as int);
    }
    assert forall|i: int, j: int|
        0 <= i < t + 1 && 0 <= j < t + 1 && input[i] && input[j] && after.root(
            #[trigger] next[i] as int,
        ) == after.root(#[trigger] next[j] as int) implies connected(input, s, cols, i, j) by {
        if i < t {
            assert(after.root(next[i] as int) == uf.root(prov[i] as int));
        }
        if j < t {
            assert(after.root(next[j] as int) == uf.root(prov[j] as int));
        }
    }
    assert forall|i: int, j: int|
        0 <= i < t + 1 && 0 <= j < t + 1 && #[trigger] adjacent(
            input,
            s,
            cols,
            i,
            j,
        ) implies after.root(next[i] as int) == after.root(next[j] as int) by {
        lemma_earlier_is_smaller(s, cols, i, j);
        lemma_earlier_is_smaller(s, cols, j, i);
        if i < t && j < t {
            assert(after.root(next[i] as int) == uf.root(prov[i] as int));
            assert(after.root(next[j] as int) == uf.root(prov[j] as int));
        } else if i < t {
            assert(j == t && earlier_neighbour(s, cols, i, t));
        } else if j < t {
            assert(i == t && earlier_neighbour(s, cols, j, t));
        }
    }
    assert forall|x: int| 0 < x < after.parent@.len() implies 0 < #[trigger] after.root(x) by {
        if x < uf.parent@.len() {
            assert(uf.holds(x));
        }
    }
}

/// In the complete scan state, connected pixels carry labels of one set.
proof fn lemma_scanned_complete(
    input: Seq<bool>,
    s: Structure,
    cols: int,
    prov: Seq<i32>,
    uf: UnionFind,
    i: int,
    j: int,
)
    requires
        scanned(input, s, cols, prov, uf, input.len() as int),
        connected(input, s, cols, i, j),
    ensures
        uf.root(prov[i] as int) == uf.root(prov[j] as int),
{
    let path = choose|path: Seq<int>| #[trigger]
        is_path(input, s, cols, path) && path[0] == i && path.last() == j;
    lemma_path_one_set(input, s, cols, prov, uf, path, path.len() - 1);
}

/// Along a path all labels belong to one set.
proof fn lemma_path_one_set(
    input: Seq<bool>,
    s: Structure,
    cols: int,
    prov: Seq<i32>,
    uf: UnionFind,
    path: Seq<int>,
    k: int,
)
    requires
        scanned(input, s, cols, prov, uf, input.len() as int),
        is_path(input, s, cols, path),
        0 <= k < path.len(),
    ensures
        uf.root(prov[path[0]] as int) == uf.root(prov[path[k]] as int),
    decreases k,
{
    if k > 0 {
        lemma_path_one_set(input, s, cols, prov, uf, path, k - 1);
        assert(adjacent(input, s, cols, path[k - 1], path[k]));
    }
}

/// What [`label`] returns: `out` marks the background with 0 and gives two
/// foreground pixels the same number iff they are connected; the numbers are
/// `1..=n`, in the order in which their components begin in the raster scan.
pub open spec fn is_labelling(
    input: Seq<bool>,
    s: Structure,
    cols: int,
    out: Seq<i32>,
    n: int,
) -> bool {
    &&& out.len() == input.len()
    &&& 0 <= n
    &&& forall|i: int|
        0 <= i < out.len() ==> 0 <= #[trigger] out[i] <= n && (out[i] == 0 <==> !input[i])
    &&& forall|i: int, j: int|
        0 <= i < out.len() && 0 <= j < out.len() && input[i] && input[j] ==> (#[trigger] out[i]
            == #[trigger] out[j] <==> connected(input, s, cols, i, j))
    &&& forall|k: int| 1 <= k <= n ==> #[trigger] occurs_before(out, k, out.len() as int)
    &&& forall|i: int, k: int|
        0 <= i < out.len() && 1 <= k < #[trigger] out[i] ==> #[trigger] occurs_before(out, k, i)
}

/// The number `k` stands somewhere before position `i`.
pub open spec fn occurs_before(out: Seq<i32>, k: int, i: int) -> bool {
    exists|j: int| 0 <= j < i && #[trigger] out[j] == k
}

/// Connected-component labelling of a boolean `input` of shape `(rows, cols)`
/// (row-major), with the given connectivity `structure`. Returns the label image
/// (0 = background) and the number of components found. Components are numbered
/// `1..=n` in the order their first (top-left, raster-scan) pixel is reached.
pub fn label(input: &[bool], rows: usize, cols: usize, structure: Structure) -> (res: (
    Vec<i32>,
    i32,
))
    requires
        input@.len() == rows * cols,
        rows <= i32::MAX,
        cols <= i32::MAX,
        starts(input@, structure, cols as int, input@.len()) <= i32::MAX,
    ensures
        is_labelling(input@, structure, cols as int, res.0@, res.1 as int),
{
    let n: usize = input.len();
    let ghost w = cols as int;
    let ghost img = input@;
    let mut prov: Vec<i32> = vec![0i32;n];
    let mut uf = UnionFind::new();
    let mut r: usize = 0;
    let mut c: usize = 0;
    let mut idx: usize = 0;
    while idx < n
        invariant
            idx <= n,
            n == img.len(),
            img == input@,
            w == cols,
            n == rows * cols,
            idx == flat(r as int, c as int, w),
            idx < n ==> c < cols,
            starts(img, structure, w, img.len()) <= i32::MAX,
            scanned(img, structure, w, prov@, uf, idx as int),
        decreases n - idx,
    {
        proof {
            lemma_flat_cell(idx as int, rows as int, w);
            lemma_flat_inverse(r as int, c as int, w);
            lemma_starts_monotone(img, structure, w, (idx + 1) as nat, img.len());
        }
        if input[idx] {
            let best: i32 = smallest_neighbour(&prov, &mut uf, structure, cols, r, c, Ghost(img));
            let ghost before = uf;
            if best == 0 {
                let id: i32 = uf.make();
                proof {
                    lemma_scanned_start(img, structure, w, prov@, before, uf, idx as int, id);
                }
                prov[idx] = id;
            } else {
                let ghost from = choose|i: int|
                    0 <= i < idx && img[i] && #[trigger] earlier_neighbour(
                        structure,
                        w,
                        i,
                        idx as int,
                    ) && uf.root(prov@[i] as int) == uf.root(best as int);
                merge_neighbours(
                    &prov,
                    &mut uf,
                    structure,
                    cols,
                    r,
                    c,
                    best,
                    Ghost(img),
                    Ghost(from),
                );
                proof {
                    lemma_scanned_step(img, structure, w, prov@, uf, idx as int, best);
                }
                prov[idx] = best;
            }
        }
        let ghost r0 = r as int;
        c = c + 1;
        if c == cols {
            assert((r0 + 1) * cols == r0 * cols + cols) by (nonlinear_arith);
            c = 0;
            r = r + 1;
        }
        idx = idx + 1;
    }
    renumber(&prov, uf, n, Ghost(img), Ghost(structure), Ghost(w))
}

/// A set of positive numbers below `m` that lacks one of them has fewer than
/// `m - 1` members.
proof fn lemma_range_room(numbers: Set<int>, x: int, m: int)
    requires
        numbers.finite(),
        forall|y: int| #[trigger] numbers.contains(y) ==> 1 <= y < m,
        1 <= x < m,
        !numbers.contains(x),
    ensures
        numbers.len() + 1 <= m - 1,
{
    vstd::set_lib::lemma_int_range(1, m);
    assert(numbers.insert(x).subset_of(vstd::set_lib::set_int_range(1, m)));
    vstd::set_lib::lemma_len_subset(numbers.insert(x), vstd::set_lib::set_int_range(1, m));
}

/// Numbers the sets of provisional labels in the order of their first pixel.
fn renumber(
    prov: &Vec<i32>,
    uf: UnionFind,
    n: usize,
    Ghost(input): Ghost<Seq<bool>>,
    Ghost(s): Ghost<Structure>,
    Ghost(cols): Ghost<int>,
) -> (res: (Vec<i32>, i32))
    requires
        n == input.len(),
        scanned(input, s, cols, prov@, uf, n as int),
        uf.parent@.len() <= i32::MAX + 1,
    ensures
        is_labelling(input, s, cols, res.0@, res.1 as int),
{
    let mut uf = uf;
    let ghost fixed = uf;
    let m: usize = uf.parent.len();
    let mut remap: Vec<i32> = vec![0i32;m];
    let mut next: i32 = 0;
    let mut out: Vec<i32> = vec![0i32;n];
    let ghost mut numbered: Set<int> = Set::empty();
    let mut idx: usize = 0;
    while idx < n
        invariant
            idx <= n,
            n == input.len(),
            m == fixed.parent@.len() <= i32::MAX + 1,
            scanned(input, s, cols, prov@, fixed, n as int),
            uf.wf(),
            uf.parent@.len() == m,
            forall|y: int| fixed.holds(y) ==> #[trigger] uf.root(y) == fixed.root(y),
            remap@.len() == m,
            out@.len() == n,
            0 <= next <= idx,
            forall|i: int|
                0 <= i < n ==> 0 <= #[trigger] out@[i] <= next && (out@[i] != 0 <==> i < idx
                    && input[i]),
            forall|i: int|
                0 <= i < idx && input[i] ==> #[trigger] out@[i] == remap@[fixed.root(
                    prov@[i] as int,
                )],
            forall|x: int| 0 <= x < m ==> 0 <= #[trigger] remap@[x] <= next,
            forall|x: int, y: int|
                0 <= x < m && 0 <= y < m && #[trigger] remap@[x] == #[trigger] remap@[y] && remap@[x]
                    != 0 ==> x == y,
            forall|k: int| 1 <= k <= next ==> #[trigger] occurs_before(out@, k, idx as int),
            forall|i: int, k: int|
                0 <= i < idx && 1 <= k < #[trigger] out@[i] ==> #[trigger] occurs_before(
                    out@,
                    k,
                    i,
                ),
            numbered.finite(),
            numbered.len() == next,
            forall|x: int| #[trigger] numbered.contains(x) <==> 0 <= x < m && remap@[x] != 0,
            remap@[0] == 0,
        decreases n - idx,
    {
        let p: i32 = prov[idx];
        let ghost out0 = out@;
        let ghost next0 = next as int;
        if p != 0 {
            let ghost before = uf;
            let root: i32 = uf.find(p);
            proof {
                assert(fixed.holds(p as int));
                assert(before.root(p as int) == fixed.root(p as int));
                assert(0 < fixed.root(p as int));
                lemma_root_fixed(fixed.parent@, p as int);
            }
            if remap[root as usize] == 0 {
                proof {
                    lemma_range_room(numbered, root as int, m as int);
                }
                next = next + 1;
                remap[root as usize] = next;
                proof {
                    numbered = numbered.insert(root as int);
                }
            }
            out[idx] = remap[root as usize];
        }
        proof {
            assert forall|k: int, i: int|
                0 <= i <= idx && #[trigger] occurs_before(out0, k, i) implies occurs_before(
                out@,
                k,
                i,
            ) by {
                let j = choose|j: int| 0 <= j < i && #[trigger] out0[j] == k;
                assert(out@[j] == k);
            }
            assert forall|k: int| 1 <= k <= next implies #[trigger] occurs_before(
                out@,
                k,
                idx + 1,
            ) by {
                if k <= next0 {
                    assert(occurs_before(out0, k, idx as int));
                    let j = choose|j: int| 0 <= j < idx && #[trigger] out0[j] == k;
                    assert(out@[j] == k);
                } else {
                    assert(out@[idx as int] == k);
                }
            }
            assert forall|i: int, k: int|
                0 <= i < idx + 1 && 1 <= k < #[trigger] out@[i] implies #[trigger] occurs_before(
                out@,
                k,
                i,
            ) by {
                if i < idx {
                    assert(out0[i] == out@[i]);
                }
                assert(occurs_before(out0, k, i));
            }
            assert forall|i: int| 0 <= i < idx + 1 && input[i] implies #[trigger] out@[i]
                == remap@[fixed.root(prov@[i] as int)] by {
                assert(fixed.holds(prov@[i] as int));
                lemma_root_fixed(fixed.parent@, prov@[i] as int);
                if i < idx {
                    assert(out0[i] == out@[i]);
                }
            }
        }
        idx = idx + 1;
    }
    proof {
        assert forall|i: int, j: int|
            0 <= i < n && 0 <= j < n && input[i] && input[j] implies (#[trigger] out@[i]
            == #[trigger] out@[j] <==> connected(input, s, cols, i, j)) by {
            assert(fixed.holds(prov@[i] as int) && fixed.holds(prov@[j] as int));
            lemma_root_fixed(fixed.parent@, prov@[i] as int);
            lemma_root_fixed(fixed.parent@, prov@[j] as int);
            if connected(input, s, cols, i, j) {
                lemma_scanned_complete(input, s, cols, prov@, fixed, i, j);
            }
        }
    }
    (out, next)
}

/// The first `i` pixels carry the same numbers in any two labellings.
proof fn lemma_labellings_agree_before(
    input: Seq<bool>,
    s: Structure,
    cols: int,
    a: Seq<i32>,
    m: int,
    b: Seq<i32>,
    n: int,
    i: int,
)
    requires
        is_labelling(input, s, cols, a, m),
        is_labelling(input, s, cols, b, n),
        0 <= i <= input.len(),
    ensures
        forall|j: int| 0 <= j < i ==> #[trigger] a[j] == b[j],
    decreases i,
{
    if i > 0 {
        let p = i - 1;
        lemma_labellings_agree_before(input, s, cols, a, m, b, n, p);
        if input[p] {
            if exists|j: int| 0 <= j < p && input[j] && #[trigger] connected(input, s, cols, p, j) {
                let j = choose|j: int|
                    0 <= j < p && input[j] && #[trigger] connected(input, s, cols, p, j);
                assert(a[p] == a[j] && b[p] == b[j]);
            } else {
                assert forall|j: int| 0 <= j < p implies #[trigger] a[j] != a[p] && b[j] != b[p] by {
                    if input[j] {
                        assert(!connected(input, s, cols, p, j));
                        assert(a[p] == a[j] <==> connected(input, s, cols, p, j));
                        assert(b[p] == b[j] <==> connected(input, s, cols, p, j));
                    }
                }
                if a[p] < b[p] {
                    assert(occurs_before(b, a[p] as int, p));
                    let j = choose|j: int| 0 <= j < p && #[trigger] b[j] == a[p] as int;
                    assert(a[j] == b[j]);
                }
                if b[p] < a[p] {
                    assert(occurs_before(a, b[p] as int, p));
                    let j = choose|j: int| 0 <= j < p && #[trigger] a[j] == b[p] as int;
                    assert(a[j] == b[j]);
                }
            }
        }
    }
}

/// An image has one labelling: what [`label`] returns is determined by connection and
/// the raster order.
pub proof fn lemma_labelling_unique(
    input: Seq<bool>,
    s: Structure,
    cols: int,
    a: Seq<i32>,
    m: int,
    b: Seq<i32>,
    n: int,
)
    requires
        is_labelling(input, s, cols, a, m),
        is_labelling(input, s, cols, b, n),
    ensures
        a == b,
        m == n,
{
    lemma_labellings_agree_before(input, s, cols, a, m, b, n, input.len() as int);
    assert(a =~= b);
    if m < n {
        assert(occurs_before(b, n, b.len() as int));
    }
    if n < m {
        assert(occurs_before(a, m, a.len() as int));
    }
}

/// With a structure that looks the same from both sides, two foreground pixels are
/// neighbours iff they are next to each other and the structure connects them.
pub proof fn lemma_symmetric_adjacent(
    input: Seq<bool>,
    s: Structure,
    cols: int,
    i: int,
    j: int,
)
    requires
        cols > 0,
        0 <= i < input.len(),
        0 <= j < input.len(),
        input[i],
        input[j],
        forall|dr: int, dc: int|
            -1 <= dr <= 1 && -1 <= dc <= 1 ==> #[trigger] s.joins(dr, dc) == s.joins(-dr, -dc),
    ensures
        adjacent(input, s, cols, i, j) <==> ({
            let dr = i / cols - j / cols;
            let dc = i % cols - j % cols;
            -1 <= dr <= 1 && -1 <= dc <= 1 && !(dr == 0 && dc == 0) && s.joins(dr, dc)
        }),
{
    let dr = i / cols - j / cols;
    let dc = i % cols - j % cols;
    assert(-dr == j / cols - i / cols);
    assert(-dc == j % cols - i % cols);
    if -1 <= dr <= 1 && -1 <= dc <= 1 {
        assert(s.joins(dr, dc) == s.joins(-dr, -dc));
    }
}

/// Two structures agree on every neighbour; their centres may differ.
pub open spec fn same_neighbours(s: Structure, t: Structure) -> bool {
    forall|k: int| 0 <= k < 9 && k != 4 ==> #[trigger] s.cells@[k] == t.cells@[k]
}

/// Structures that agree on every neighbour connect the same pixels.
proof fn lemma_same_connection(
    input: Seq<bool>,
    s: Structure,
    t: Structure,
    cols: int,
    i: int,
    j: int,
)
    requires
        same_neighbours(s, t),
        connected(input, s, cols, i, j),
    ensures
        connected(input, t, cols, i, j),
{
    let path = choose|path: Seq<int>| #[trigger]
        is_path(input, s, cols, path) && path[0] == i && path.last() == j;
    assert forall|k: int, l: int| 0 <= k < path.len() && l == k + 1 && l < path.len() implies adjacent(
        input,
        t,
        cols,
        #[trigger] path[k],
        #[trigger] path[l],
    ) by {
        assert(adjacent(input, s, cols, path[k], path[l]));
        lemma_same_earlier(s, t, cols, path[k], path[l]);
        lemma_same_earlier(s, t, cols, path[l], path[k]);
    }
    assert(is_path(input, t, cols, path));
}

proof fn lemma_same_earlier(s: Structure, t: Structure, cols: int, i: int, j: int)
    requires
        same_neighbours(s, t),
    ensures
        earlier_neighbour(s, cols, i, j) == earlier_neighbour(t, cols, i, j),
{
    let dr = i / cols - j / cols;
    let dc = i % cols - j % cols;
    if (dr == -1 && -1 <= dc <= 1) || (dr == 0 && dc == -1) {
        let k = (dr + 1) * 3 + (dc + 1);
        assert(s.cells@[k] == t.cells@[k]);
    }
}

proof fn lemma_same_starts(input: Seq<bool>, s: Structure, t: Structure, cols: int, n: nat)
    requires
        same_neighbours(s, t),
    ensures
        starts(input, s, cols, n) == starts(input, t, cols, n),
    decreases n,
{
    if n > 0 {
        let j = n - 1;
        lemma_same_starts(input, s, t, cols, (n - 1) as nat);
        if has_earlier(input, s, cols, j) {
            let i = choose|i: int| 0 <= i < j && input[i] && #[trigger] earlier_neighbour(s, cols, i, j);
            lemma_same_earlier(s, t, cols, i, j);
            assert(has_earlier(input, t, cols, j));
        }
        if has_earlier(input, t, cols, j) {
            let i = choose|i: int| 0 <= i < j && input[i] && #[trigger] earlier_neighbour(t, cols, i, j);
            lemma_same_earlier(s, t, cols, i, j);
            assert(has_earlier(input, s, cols, j));
        }
    }
}

/// The centre of a structure is of no account: structures that agree on every neighbour
/// have the same labellings, and [`label`] takes the same images with either of them.
pub proof fn lemma_centre_is_unused(
    input: Seq<bool>,
    s: Structure,
    t: Structure,
    cols: int,
    out: Seq<i32>,
    n: int,
)
    requires
        same_neighbours(s, t),
    ensures
        is_labelling(input, s, cols, out, n) == is_labelling(input, t, cols, out, n),
        starts(input, s, cols, input.len()) == starts(input, t, cols, input.len()),
{
    assert forall|i: int, j: int| #[trigger]
        connected(input, s, cols, i, j) == connected(input, t, cols, i, j) by {
        if connected(input, s, cols, i, j) {
            lemma_same_connection(input, s, t, cols, i, j);
        }
        if connected(input, t, cols, i, j) {
            lemma_same_connection(input, t, s, cols, i, j);
        }
    }
    lemma_same_starts(input, s, t, cols, input.len());
}

/// What [`label`] returns does not depend on the centre of the structure.
pub proof fn lemma_labels_ignore_centre(
    input: Seq<bool>,
    s: Structure,
    t: Structure,
    cols: int,
    a: Seq<i32>,
    m: int,
    b: Seq<i32>,
    n: int,
)
    requires
        same_neighbours(s, t),
        is_labelling(input, s, cols, a, m),
        is_labelling(input, t, cols, b, n),
    ensures
        a == b,
        m == n,
{
    lemma_centre_is_unused(input, s, t, cols, b, n);
    lemma_labelling_unique(input, s, cols, a, m, b, n);
}

/// Foreground pixels that are next to each other carry one label where the structure
/// connects them from both sides.
pub proof fn lemma_neighbours_share_a_label(
    input: Seq<bool>,
    s: Structure,
    cols: int,
    out: Seq<i32>,
    n: int,
    i: int,
    j: int,
)
    requires
        is_labelling(input, s, cols, out, n),
        cols > 0,
        0 <= i < input.len() && 0 <= j < input.len(),
        input[i] && input[j],
        -1 <= i / cols - j / cols <= 1,
        -1 <= i % cols - j % cols <= 1,
        i != j,
        s.joins(i / cols - j / cols, i % cols - j % cols),
        s.joins(j / cols - i / cols, j % cols - i % cols),
    ensures
        out[i] == out[j],
{
    crate::grid::lemma_flat_of(i, cols);
    crate::grid::lemma_flat_of(j, cols);
    assert(adjacent(input, s, cols, i, j));
    let path = seq![i, j];
    assert(is_path(input, s, cols, path));
    assert(path[0] == i && path.last() == j);
}

/// Labels count up from one as the image is scanned: background has none, the first
/// foreground pixel has the first, and where a label is met for the first time all smaller
/// ones have been met before. There are as many labels as the largest one tells.
pub proof fn lemma_labels_count_up(
    input: Seq<bool>,
    s: Structure,
    cols: int,
    out: Seq<i32>,
    n: int,
    i: int,
)
    requires
        is_labelling(input, s, cols, out, n),
        0 <= i < input.len(),
    ensures
        !input[i] ==> out[i] == 0,
        input[i] ==> 1 <= out[i] <= n,
        input[i] && (forall|j: int| 0 <= j < i ==> !#[trigger] input[j]) ==> out[i] == 1,
        out[i] > 1 ==> exists|j: int| 0 <= j < i && #[trigger] out[j] == out[i] - 1,
        n > 0 ==> exists|j: int| 0 <= j < out.len() && #[trigger] out[j] == n,
{
    if input[i] && out[i] > 1 {
        assert(occurs_before(out, out[i] - 1, i));
        if forall|j: int| 0 <= j < i ==> !#[trigger] input[j] {
            assert(occurs_before(out, 1, i));
            let j = choose|j: int| 0 <= j < i && #[trigger] out[j] == 1;
            assert(!input[j]);
        }
    }
    if n > 0 {
        assert(occurs_before(out, n, out.len() as int));
        let j = choose|j: int| 0 <= j < out.len() && #[trigger] out[j] == n;
        assert(out[j] == n);
    }
}

/// Every neighbour connects.
pub open spec fn is_full(s: Structure) -> bool {
    forall|dr: int, dc: int| -1 <= dr <= 1 && -1 <= dc <= 1 ==> #[trigger] s.joins(dr, dc)
}

/// The neighbours above, below, left and right connect.
pub open spec fn is_cross(s: Structure) -> bool {
    forall|dr: int, dc: int|
        -1 <= dr <= 1 && -1 <= dc <= 1 ==> (#[trigger] s.joins(dr, dc) <==> dr == 0 || dc == 0)
}

/// Two foreground pixels are neighbours with the full structure where they touch, and with
/// the cross where they share an edge.
pub proof fn lemma_common_structures(
    input: Seq<bool>,
    full: Structure,
    cross: Structure,
    cols: int,
    i: int,
    j: int,
)
    requires
        is_full(full),
        is_cross(cross),
        cols > 0,
        0 <= i < input.len() && 0 <= j < input.len(),
        input[i] && input[j],
        i != j,
    ensures
        ({
            let (dr, dc) = (i / cols - j / cols, i % cols - j % cols);
            &&& adjacent(input, full, cols, i, j) <==> -1 <= dr <= 1 && -1 <= dc <= 1
            &&& adjacent(input, cross, cols, i, j) <==> (dr == 0 && (dc == 1 || dc == -1)) || (dc
                == 0 && (dr == 1 || dr == -1))
        }),
{
    crate::grid::lemma_flat_of(i, cols);
    crate::grid::lemma_flat_of(j, cols);
    let (dr, dc) = (i / cols - j / cols, i % cols - j % cols);
    if dr == 0 && dc == 0 {
        assert(i == j);
    }
    assert forall|a: int, b: int| -1 <= a <= 1 && -1 <= b <= 1 implies #[trigger] full.joins(a, b)
        == full.joins(-a, -b) by {}
    assert forall|a: int, b: int| -1 <= a <= 1 && -1 <= b <= 1 implies #[trigger] cross.joins(a, b)
        == cross.joins(-a, -b) by {}
    lemma_symmetric_adjacent(input, full, cols, i, j);
    lemma_symmetric_adjacent(input, cross, cols, i, j);
}

} // verus!
