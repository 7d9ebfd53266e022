//! Histograms that are added up in parts. Every part folds a stretch of the pixels into
//! bins of its own, and the bins of the parts are merged, in any grouping.

use crate::accumulate::{
    folds_to, lemma_fold_adds_all, lemma_fold_concat, lemma_fold_push, lemma_worth_of_both, worth_of,
};
use crate::histogram::members;
use vstd::prelude::*;

verus! {

/// The pixels from `from` to before `to` whose cell is `b`, in ascending order.
pub open spec fn members_between(cells: Seq<Option<usize>>, b: int, from: int, to: int) -> Seq<usize>
    decreases to - from,
{
    if to <= from {
        Seq::empty()
    } else if cells[to - 1] is Some && cells[to - 1]->0 == b {
        members_between(cells, b, from, to - 1).push((to - 1) as usize)
    } else {
        members_between(cells, b, from, to - 1)
    }
}

/// The members of a stretch are those of its two parts.
pub proof fn lemma_members_split(cells: Seq<Option<usize>>, b: int, from: int, mid: int, to: int)
    requires
        from <= mid <= to,
    ensures
        members_between(cells, b, from, to) == members_between(cells, b, from, mid)
            + members_between(cells, b, mid, to),
    decreases to - mid,
{
    if mid < to {
        lemma_members_split(cells, b, from, mid, to - 1);
        assert(members_between(cells, b, from, to) =~= members_between(cells, b, from, mid)
            + members_between(cells, b, mid, to));
    } else {
        assert(members_between(cells, b, mid, to) =~= Seq::<usize>::empty());
        assert(members_between(cells, b, from, mid) + Seq::<usize>::empty() =~= members_between(
            cells,
            b,
            from,
            mid,
        ));
    }
}

/// All members are those of the stretch of all pixels.
pub proof fn lemma_members_of_all(cells: Seq<Option<usize>>, b: int, n: int)
    ensures
        members_between(cells, b, 0, n) == members(cells, b, n),
    decreases n,
{
    if n > 0 {
        lemma_members_of_all(cells, b, n - 1);
    }
}

/// Every bin holds its pixels from `from` to before `to`, folded one after the other.
pub open spec fn folds_stretch<T, F: Fn(T, usize) -> T>(
    step: F,
    start: T,
    cells: Seq<Option<usize>>,
    from: int,
    to: int,
    acc: Seq<T>,
) -> bool {
    forall|b: int|
        0 <= b < acc.len() ==> folds_to(
            step,
            start,
            members_between(cells, b, from, to),
            #[trigger] acc[b],
        )
}

/// `sum` is what `items` add up to in parts: a part is folded, or it is merged of two
/// parts that follow each other. `depth` limits how often parts are divided.
pub open spec fn sums_to<T, C, F: Fn(T, C) -> T, G: Fn(T, T) -> T>(
    step: F,
    plus: G,
    start: T,
    items: Seq<C>,
    sum: T,
    depth: nat,
) -> bool
    decreases depth,
{
    ||| folds_to(step, start, items, sum)
    ||| depth > 0 && exists|a: T, b: T, m: int| #[trigger]
        plus.ensures((a, b), sum) && 0 <= m <= items.len() && sums_to(
            step,
            plus,
            start,
            #[trigger] items.take(m),
            a,
            (depth - 1) as nat,
        ) && sums_to(step, plus, start, items.skip(m), b, (depth - 1) as nat)
}

/// Parts may be divided more often.
proof fn lemma_deeper<T, C, F: Fn(T, C) -> T, G: Fn(T, T) -> T>(
    step: F,
    plus: G,
    start: T,
    items: Seq<C>,
    sum: T,
    depth: nat,
    more: nat,
)
    requires
        sums_to(step, plus, start, items, sum, depth),
        depth <= more,
    ensures
        sums_to(step, plus, start, items, sum, more),
    decreases depth,
{
    if !folds_to(step, start, items, sum) {
        let d = (depth - 1) as nat;
        let (a, b, m) = choose|a: T, b: T, m: int| #[trigger]
            plus.ensures((a, b), sum) && 0 <= m <= items.len() && sums_to(
                step,
                plus,
                start,
                #[trigger] items.take(m),
                a,
                d,
            ) && sums_to(step, plus, start, items.skip(m), b, d);
        lemma_deeper(step, plus, start, items.take(m), a, d, (more - 1) as nat);
        lemma_deeper(step, plus, start, items.skip(m), b, d, (more - 1) as nat);
    }
}

/// Every bin holds its pixels from `from` to before `to`, added up in parts.
pub open spec fn sums_stretch<T, F: Fn(T, usize) -> T, G: Fn(T, T) -> T>(
    step: F,
    plus: G,
    start: T,
    cells: Seq<Option<usize>>,
    from: int,
    to: int,
    acc: Seq<T>,
    depth: nat,
) -> bool {
    forall|b: int|
        0 <= b < acc.len() ==> sums_to(
            step,
            plus,
            start,
            members_between(cells, b, from, to),
            #[trigger] acc[b],
            depth,
        )
}

/// Adds pixel `i` to the bin of its cell.
pub fn add_pixel<T: Copy, F: Fn(T, usize) -> T>(
    acc: &mut Vec<T>,
    cells: &[Option<usize>],
    i: usize,
    step: &F,
)
    requires
        i < cells@.len(),
        cells@[i as int] matches Some(b) ==> b < old(acc)@.len(),
        forall|t: T, k: usize| #[trigger] step.requires((t, k)),
    ensures
        match cells@[i as int] {
            Some(b) => exists|t: T|
                step.ensures((old(acc)@[b as int], i), t) && final(acc)@ == #[trigger] old(
                    acc,
                )@.update(b as int, t),
            None => final(acc)@ == old(acc)@,
        },
        forall|start: T, from: int| #[trigger]
            folds_stretch(*step, start, cells@, from, i as int, old(acc)@) && from <= i
                ==> folds_stretch(*step, start, cells@, from, i + 1, final(acc)@),
{
    let ghost before = acc@;
    if let Some(b) = cells[i] {
        let t: T = step(acc[b], i);
        acc.set(b, t);
        assert(acc@ == before.update(b as int, t));
    }
    proof {
        assert forall|start: T, from: int| #[trigger]
            folds_stretch(*step, start, cells@, from, i as int, before) && from
                <= i implies folds_stretch(*step, start, cells@, from, i + 1, acc@) by {
            assert forall|k: int| 0 <= k < acc@.len() implies folds_to(
                *step,
                start,
                members_between(cells@, k, from, i + 1),
                #[trigger] acc@[k],
            ) by {
                let items = members_between(cells@, k, from, i as int);
                assert(folds_to(*step, start, items, before[k]));
                if cells@[i as int] is Some && cells@[i as int]->0 == k {
                    lemma_fold_push(*step, start, items, before[k], i, acc@[k]);
                }
            }
        }
    }
}

/// Merges the bins of two parts.
pub fn merge_bins<T: Copy, G: Fn(T, T) -> T>(a: &Vec<T>, b: &Vec<T>, plus: &G) -> (out: Vec<T>)
    requires
        a@.len() == b@.len(),
        forall|x: T, y: T| #[trigger] plus.requires((x, y)),
    ensures
        out@.len() == a@.len(),
        forall|k: int| 0 <= k < out@.len() ==> plus.ensures((a@[k], b@[k]), #[trigger] out@[k]),
{
    let mut out: Vec<T> = Vec::new();
    let mut k: usize = 0;
    while k < a.len()
        invariant
            k <= a@.len() == b@.len(),
            forall|x: T, y: T| #[trigger] plus.requires((x, y)),
            out@.len() == k,
            forall|l: int| 0 <= l < k ==> plus.ensures((a@[l], b@[l]), #[trigger] out@[l]),
        decreases a@.len() - k,
    {
        out.push(plus(a[k], b[k]));
        k = k + 1;
    }
    out
}

/// Bins without pixels are a part on their own.
pub proof fn lemma_empty_part<T, F: Fn(T, usize) -> T>(
    step: F,
    start: T,
    cells: Seq<Option<usize>>,
    from: int,
    acc: Seq<T>,
)
    requires
        forall|b: int| 0 <= b < acc.len() ==> #[trigger] acc[b] == start,
    ensures
        folds_stretch(step, start, cells, from, from, acc),
{
}

/// A part that is folded is added up.
pub proof fn lemma_folded_part<T, F: Fn(T, usize) -> T, G: Fn(T, T) -> T>(
    step: F,
    plus: G,
    start: T,
    cells: Seq<Option<usize>>,
    from: int,
    to: int,
    acc: Seq<T>,
)
    requires
        folds_stretch(step, start, cells, from, to, acc),
    ensures
        sums_stretch(step, plus, start, cells, from, to, acc, 0),
{
}

/// The bins of two parts that follow each other, merged, hold the pixels of both.
pub proof fn lemma_merged_parts<T, F: Fn(T, usize) -> T, G: Fn(T, T) -> T>(
    step: F,
    plus: G,
    start: T,
    cells: Seq<Option<usize>>,
    from: int,
    mid: int,
    to: int,
    a: Seq<T>,
    b: Seq<T>,
    out: Seq<T>,
    depth_a: nat,
    depth_b: nat,
)
    requires
        from <= mid <= to,
        a.len() == b.len() == out.len(),
        sums_stretch(step, plus, start, cells, from, mid, a, depth_a),
        sums_stretch(step, plus, start, cells, mid, to, b, depth_b),
        forall|k: int| 0 <= k < out.len() ==> plus.ensures((a[k], b[k]), #[trigger] out[k]),
    ensures
        sums_stretch(step, plus, start, cells, from, to, out, depth_a + depth_b + 1),
{
    assert forall|k: int| 0 <= k < out.len() implies sums_to(
        step,
        plus,
        start,
        members_between(cells, k, from, to),
        #[trigger] out[k],
        depth_a + depth_b + 1,
    ) by {
        let x = members_between(cells, k, from, mid);
        let y = members_between(cells, k, mid, to);
        let items = members_between(cells, k, from, to);
        lemma_members_split(cells, k, from, mid, to);
        let m = x.len() as int;
        assert(items.take(m) =~= x);
        assert(items.skip(m) =~= y);
        assert(sums_to(step, plus, start, x, a[k], depth_a));
        assert(sums_to(step, plus, start, y, b[k], depth_b));
        lemma_deeper(step, plus, start, x, a[k], depth_a, depth_a + depth_b);
        lemma_deeper(step, plus, start, y, b[k], depth_b, depth_a + depth_b);
        assert(plus.ensures((a[k], b[k]), out[k]));
    }
}

/// Merging is exact: merging a part that holds one more pixel is the same as adding the
/// pixel to what is merged, and a part without pixels changes nothing.
pub open spec fn exact<T, C, F: Fn(T, C) -> T, G: Fn(T, T) -> T>(
    step: F,
    plus: G,
    start: T,
) -> bool {
    &&& forall|a: T, s: T| #[trigger] plus.ensures((a, start), s) ==> s == a
    &&& forall|a: T, b: T, c: C, d: T, s: T| #[trigger]
        step.ensures((b, c), d) && #[trigger] plus.ensures((a, d), s) ==> exists|t: T| #[trigger]
            plus.ensures((a, b), t) && step.ensures((t, c), s)
}

/// What is merged with a folded part, is folded on.
proof fn lemma_fold_on<T, C, F: Fn(T, C) -> T, G: Fn(T, T) -> T>(
    step: F,
    plus: G,
    start: T,
    items: Seq<C>,
    a: T,
    b: T,
    sum: T,
)
    requires
        exact::<T, C, F, G>(step, plus, start),
        folds_to(step, start, items, b),
        plus.ensures((a, b), sum),
    ensures
        folds_to(step, a, items, sum),
    decreases items.len(),
{
    if items.len() > 0 {
        let c = items.last();
        let mid = choose|mid: T|
            folds_to(step, start, items.drop_last(), mid) && #[trigger] step.ensures((mid, c), b);
        assert(step.ensures((mid, c), b) && plus.ensures((a, b), sum));
        let t = choose|t: T| #[trigger] plus.ensures((a, mid), t) && step.ensures((t, c), sum);
        lemma_fold_on(step, plus, start, items.drop_last(), a, mid, t);
        assert(step.ensures((t, c), sum));
    }
}

/// Where merging is exact, it does not matter how the pixels were divided: what they add
/// up to in parts is what they add up to one after the other.
pub proof fn lemma_parts_do_not_matter<T, C, F: Fn(T, C) -> T, G: Fn(T, T) -> T>(
    step: F,
    plus: G,
    start: T,
    items: Seq<C>,
    sum: T,
    depth: nat,
)
    requires
        exact::<T, C, F, G>(step, plus, start),
        sums_to(step, plus, start, items, sum, depth),
    ensures
        folds_to(step, start, items, sum),
    decreases depth,
{
    if !folds_to(step, start, items, sum) {
        let d = (depth - 1) as nat;
        let (a, b, m) = choose|a: T, b: T, m: int| #[trigger]
            plus.ensures((a, b), sum) && 0 <= m <= items.len() && sums_to(
                step,
                plus,
                start,
                #[trigger] items.take(m),
                a,
                d,
            ) && sums_to(step, plus, start, items.skip(m), b, d);
        lemma_parts_do_not_matter(step, plus, start, items.take(m), a, d);
        lemma_parts_do_not_matter(step, plus, start, items.skip(m), b, d);
        lemma_fold_on(step, plus, start, items.skip(m), a, b, sum);
        lemma_fold_concat(step, start, items.take(m), a, items.skip(m), sum);
        assert(items.take(m) + items.skip(m) =~= items);
    }
}

/// Where adding a pixel and merging two parts both add up what is there, parts that are
/// merged are worth what their pixels are worth together.
pub proof fn lemma_parts_add_all<T, C, F: Fn(T, C) -> T, G: Fn(T, T) -> T>(
    step: F,
    plus: G,
    start: T,
    items: Seq<C>,
    sum: T,
    depth: nat,
    val: spec_fn(T) -> int,
    item: spec_fn(C) -> int,
)
    requires
        sums_to(step, plus, start, items, sum, depth),
        val(start) == 0,
        forall|t: T, c: C, r: T| #[trigger] step.ensures((t, c), r) ==> val(r) == val(t) + item(c),
        forall|a: T, b: T, r: T| #[trigger] plus.ensures((a, b), r) ==> val(r) == val(a) + val(b),
    ensures
        val(sum) == worth_of(items, item),
    decreases depth,
{
    if folds_to(step, start, items, sum) {
        lemma_fold_adds_all(step, start, items, sum, val, item);
    } else {
        let d = (depth - 1) as nat;
        let (a, b, m) = choose|a: T, b: T, m: int| #[trigger]
            plus.ensures((a, b), sum) && 0 <= m <= items.len() && sums_to(
                step,
                plus,
                start,
                #[trigger] items.take(m),
                a,
                d,
            ) && sums_to(step, plus, start, items.skip(m), b, d);
        lemma_parts_add_all(step, plus, start, items.take(m), a, d, val, item);
        lemma_parts_add_all(step, plus, start, items.skip(m), b, d, val, item);
        lemma_worth_of_both(items.take(m), items.skip(m), item);
        assert(items.take(m) + items.skip(m) =~= items);
    }
}

} // verus!
