//! Adding contributions up. What a value is and how a contribution is added to it is
//! left to the caller; here it is settled which contributions are added to which bin,
//! and in which order.

use vstd::prelude::*;

verus! {

/// Adding `items` to `start`, one after the other, can give `end`.
pub open spec fn folds_to<T, C, F: Fn(T, C) -> T>(
    step: F,
    start: T,
    items: Seq<C>,
    end: T,
) -> bool
    decreases items.len(),
{
    if items.len() == 0 {
        end == start
    } else {
        exists|mid: T|
            folds_to(step, start, items.drop_last(), mid) && #[trigger] step.ensures(
                (mid, items.last()),
                end,
            )
    }
}

/// One item more.
pub proof fn lemma_fold_push<T, C, F: Fn(T, C) -> T>(
    step: F,
    start: T,
    items: Seq<C>,
    mid: T,
    item: C,
    end: T,
)
    requires
        folds_to(step, start, items, mid),
        step.ensures((mid, item), end),
    ensures
        folds_to(step, start, items.push(item), end),
{
    assert(items.push(item).drop_last() =~= items);
    assert(step.ensures((mid, items.push(item).last()), end));
}

/// Two lists of items in turn.
pub proof fn lemma_fold_concat<T, C, F: Fn(T, C) -> T>(
    step: F,
    start: T,
    a: Seq<C>,
    mid: T,
    b: Seq<C>,
    end: T,
)
    requires
        folds_to(step, start, a, mid),
        folds_to(step, mid, b, end),
    ensures
        folds_to(step, start, a + b, end),
    decreases b.len(),
{
    if b.len() == 0 {
        assert(a + b =~= a);
    } else {
        let m = choose|m: T|
            folds_to(step, mid, b.drop_last(), m) && #[trigger] step.ensures((m, b.last()), end);
        lemma_fold_concat(step, start, a, mid, b.drop_last(), m);
        assert((a + b).drop_last() =~= a + b.drop_last());
        assert(step.ensures((m, (a + b).last()), end));
    }
}

/// Where adding one contribution gives one result, so does adding a list of them: bins
/// with the same contributions in the same order hold the same value.
pub proof fn lemma_fold_unique<T, C, F: Fn(T, C) -> T>(
    step: F,
    start: T,
    items: Seq<C>,
    x: T,
    y: T,
)
    requires
        forall|t: T, c: C, a: T, b: T| #[trigger]
            step.ensures((t, c), a) && #[trigger] step.ensures((t, c), b) ==> a == b,
        folds_to(step, start, items, x),
        folds_to(step, start, items, y),
    ensures
        x == y,
    decreases items.len(),
{
    if items.len() > 0 {
        let a = choose|m: T|
            folds_to(step, start, items.drop_last(), m) && #[trigger] step.ensures(
                (m, items.last()),
                x,
            );
        let b = choose|m: T|
            folds_to(step, start, items.drop_last(), m) && #[trigger] step.ensures(
                (m, items.last()),
                y,
            );
        lemma_fold_unique(step, start, items.drop_last(), a, b);
    }
}

/// Adds `items` to `start`, one after the other.
pub fn fold<T, C: Copy, F: Fn(T, C) -> T>(start: T, items: &Vec<C>, step: &F) -> (end: T)
    requires
        forall|t: T, c: C| #[trigger] step.requires((t, c)),
    ensures
        folds_to(*step, start, items@, end),
{
    let ghost first = start;
    let mut acc: T = start;
    let mut i: usize = 0;
    assert(items@.take(0) =~= Seq::<C>::empty());
    while i < items.len()
        invariant
            i <= items@.len(),
            forall|t: T, c: C| #[trigger] step.requires((t, c)),
            folds_to(*step, first, items@.take(i as int), acc),
        decreases items@.len() - i,
    {
        let ghost mid = acc;
        acc = step(acc, items[i]);
        proof {
            lemma_fold_push(*step, first, items@.take(i as int), mid, items@[i as int], acc);
            assert(items@.take(i as int).push(items@[i as int]) =~= items@.take(i + 1));
        }
        i = i + 1;
    }
    assert(items@.take(i as int) =~= items@);
    acc
}

/// `r` is what a bin is reduced to that holds `items`, added to `start`.
pub open spec fn reduces_to<T, C, R, F: Fn(T, C) -> T, G: Fn(T) -> R>(
    step: F,
    finish: G,
    start: T,
    items: Seq<C>,
    r: R,
) -> bool {
    exists|t: T| folds_to(step, start, items, t) && #[trigger] finish.ensures((t,), r)
}

/// Where adding and reducing give one result each, bins with the same contributions in
/// the same order are reduced to the same result.
pub proof fn lemma_reduction_unique<T, C, R, F: Fn(T, C) -> T, G: Fn(T) -> R>(
    step: F,
    finish: G,
    start: T,
    items: Seq<C>,
    x: R,
    y: R,
)
    requires
        forall|t: T, c: C, a: T, b: T| #[trigger]
            step.ensures((t, c), a) && #[trigger] step.ensures((t, c), b) ==> a == b,
        forall|t: T, a: R, b: R| #[trigger]
            finish.ensures((t,), a) && #[trigger] finish.ensures((t,), b) ==> a == b,
        reduces_to(step, finish, start, items, x),
        reduces_to(step, finish, start, items, y),
    ensures
        x == y,
{
    let s = choose|t: T| folds_to(step, start, items, t) && #[trigger] finish.ensures((t,), x);
    let t = choose|t: T| folds_to(step, start, items, t) && #[trigger] finish.ensures((t,), y);
    lemma_fold_unique(step, start, items, s, t);
}

/// A bin without contributions is reduced to what `start` is reduced to.
pub proof fn lemma_empty_bin<T, C, R, F: Fn(T, C) -> T, G: Fn(T) -> R>(
    step: F,
    finish: G,
    start: T,
    items: Seq<C>,
    r: R,
)
    requires
        items.len() == 0,
        reduces_to(step, finish, start, items, r),
    ensures
        finish.ensures((start,), r),
{
    let t = choose|t: T| folds_to(step, start, items, t) && #[trigger] finish.ensures((t,), r);
    assert(t == start);
}

/// The shares that fall into bin `b`, each with the pixel it comes from.
pub open spec fn shares_in<S>(shares: Seq<(usize, S)>, b: int, pixel: usize) -> Seq<(usize, S)>
    decreases shares.len(),
{
    if shares.len() == 0 {
        Seq::empty()
    } else if shares.last().0 == b {
        shares_in(shares.drop_last(), b, pixel).push((pixel, shares.last().1))
    } else {
        shares_in(shares.drop_last(), b, pixel)
    }
}

/// What the first `n` pixels contribute to bin `b`, pixel by pixel, where `shares`
/// gives the shares of each pixel.
pub open spec fn contributions<S>(
    shares: spec_fn(int) -> Seq<(usize, S)>,
    b: int,
    n: int,
) -> Seq<(usize, S)>
    decreases n,
{
    if n <= 0 {
        Seq::empty()
    } else {
        contributions(shares, b, n - 1) + shares_in(shares(n - 1), b, (n - 1) as usize)
    }
}

/// `acc` holds for each bin the contributions of the first `n` pixels, added to
/// `start`.
pub open spec fn accumulates<T, S, F: Fn(T, (usize, S)) -> T>(
    step: F,
    start: T,
    shares: spec_fn(int) -> Seq<(usize, S)>,
    n: int,
    acc: Seq<T>,
) -> bool {
    forall|b: int|
        0 <= b < acc.len() ==> folds_to(
            step,
            start,
            contributions(shares, b, n),
            #[trigger] acc[b],
        )
}

/// As many bins as asked for, each holding `start`.
pub fn filled<T: Copy>(start: T, bins: usize) -> (acc: Vec<T>)
    ensures
        acc@.len() == bins,
        forall|b: int| 0 <= b < bins ==> #[trigger] acc@[b] == start,
{
    let mut acc: Vec<T> = Vec::new();
    let mut b: usize = 0;
    while b < bins
        invariant
            b <= bins,
            acc@.len() == b,
            forall|i: int| 0 <= i < b ==> #[trigger] acc@[i] == start,
        decreases bins - b,
    {
        acc.push(start);
        b = b + 1;
    }
    acc
}

/// Adds the shares of a pixel to the bins that they fall into.
pub fn scatter_pixel<T: Copy, S: Copy, F: Fn(T, (usize, S)) -> T>(
    acc: &mut Vec<T>,
    pixel: usize,
    shares: &Vec<(usize, S)>,
    step: &F,
)
    requires
        forall|t: T, c: (usize, S)| #[trigger] step.requires((t, c)),
        forall|k: int| 0 <= k < shares@.len() ==> (#[trigger] shares@[k]).0 < old(acc)@.len(),
    ensures
        final(acc)@.len() == old(acc)@.len(),
        forall|b: int|
            0 <= b < old(acc)@.len() ==> folds_to(
                *step,
                old(acc)@[b],
                shares_in(shares@, b, pixel),
                #[trigger] final(acc)@[b],
            ),
{
    let ghost first = acc@;
    let mut k: usize = 0;
    assert(shares@.take(0) =~= Seq::<(usize, S)>::empty());
    while k < shares.len()
        invariant
            k <= shares@.len(),
            acc@.len() == first.len(),
            forall|t: T, c: (usize, S)| #[trigger] step.requires((t, c)),
            forall|l: int| 0 <= l < shares@.len() ==> (#[trigger] shares@[l]).0 < first.len(),
            forall|b: int|
                0 <= b < first.len() ==> folds_to(
                    *step,
                    first[b],
                    shares_in(shares@.take(k as int), b, pixel),
                    #[trigger] acc@[b],
                ),
        decreases shares@.len() - k,
    {
        let (bin, share): (usize, S) = shares[k];
        let ghost before = acc@;
        let ghost taken = shares@.take(k as int);
        proof {
            assert(shares@.take(k + 1).drop_last() =~= taken);
            assert(shares@.take(k + 1).last() == shares@[k as int]);
            assert(bin < first.len());
        }
        let sum: T = step(acc[bin], (pixel, share));
        acc.set(bin, sum);
        proof {
            assert forall|b: int| 0 <= b < first.len() implies folds_to(
                *step,
                first[b],
                shares_in(shares@.take(k + 1), b, pixel),
                #[trigger] acc@[b],
            ) by {
                assert(folds_to(*step, first[b], shares_in(taken, b, pixel), before[b]));
                if b == bin {
                    lemma_fold_push(
                        *step,
                        first[b],
                        shares_in(taken, b, pixel),
                        before[b],
                        (pixel, share),
                        sum,
                    );
                }
            }
        }
        k = k + 1;
    }
    assert(shares@.take(shares@.len() as int) =~= shares@);
}

/// One more pixel has been added up.
pub proof fn lemma_accumulate_pixel<T, S, F: Fn(T, (usize, S)) -> T>(
    step: F,
    start: T,
    shares: spec_fn(int) -> Seq<(usize, S)>,
    n: int,
    before: Seq<T>,
    after: Seq<T>,
)
    requires
        0 <= n <= usize::MAX,
        before.len() == after.len(),
        accumulates(step, start, shares, n, before),
        forall|b: int|
            0 <= b < before.len() ==> folds_to(
                step,
                before[b],
                shares_in(shares(n), b, n as usize),
                #[trigger] after[b],
            ),
    ensures
        accumulates(step, start, shares, n + 1, after),
{
    assert forall|b: int| 0 <= b < after.len() implies folds_to(
        step,
        start,
        contributions(shares, b, n + 1),
        #[trigger] after[b],
    ) by {
        assert(folds_to(step, start, contributions(shares, b, n), before[b]));
        lemma_fold_concat(
            step,
            start,
            contributions(shares, b, n),
            before[b],
            shares_in(shares(n), b, n as usize),
            after[b],
        );
    }
}

/// What a list of items is worth: what its items are worth, added up.
pub open spec fn worth_of<C>(items: Seq<C>, item: spec_fn(C) -> int) -> int
    decreases items.len(),
{
    if items.len() == 0 {
        0
    } else {
        worth_of(items.drop_last(), item) + item(items.last())
    }
}

/// Where adding an item makes a value worth as much more as the item is worth, a value to
/// which a list has been added is worth as much more as all its items together: none is
/// left out and none is added twice.
pub proof fn lemma_fold_adds_all<T, C, F: Fn(T, C) -> T>(
    step: F,
    start: T,
    items: Seq<C>,
    end: T,
    val: spec_fn(T) -> int,
    item: spec_fn(C) -> int,
)
    requires
        folds_to(step, start, items, end),
        forall|t: T, c: C, r: T| #[trigger] step.ensures((t, c), r) ==> val(r) == val(t) + item(c),
    ensures
        val(end) == val(start) + worth_of(items, item),
    decreases items.len(),
{
    if items.len() > 0 {
        let mid = choose|mid: T|
            folds_to(step, start, items.drop_last(), mid) && #[trigger] step.ensures(
                (mid, items.last()),
                end,
            );
        lemma_fold_adds_all(step, start, items.drop_last(), mid, val, item);
    }
}

/// Where adding an item keeps what was there, but for the item last added, a value to
/// which a list has been added holds the last item of the list.
pub proof fn lemma_fold_ends_with_last<T, C, F: Fn(T, C) -> T>(
    step: F,
    start: T,
    items: Seq<C>,
    end: T,
    latest: spec_fn(T) -> C,
)
    requires
        folds_to(step, start, items, end),
        items.len() > 0,
        forall|t: T, c: C, r: T| #[trigger] step.ensures((t, c), r) ==> latest(r) == c,
    ensures
        latest(end) == items.last(),
{
}

/// A bin is given what a pixel shares with it, and nothing else; pixels come in ascending
/// order.
pub proof fn lemma_contributions_are_shares<S>(
    shares: spec_fn(int) -> Seq<(usize, S)>,
    b: int,
    n: int,
    i: int,
    s: S,
)
    requires
        0 <= n <= usize::MAX,
        0 <= i <= usize::MAX,
        0 <= b <= usize::MAX,
    ensures
        contributions(shares, b, n).contains((i as usize, s)) <==> i < n && shares(i).contains(
            (b as usize, s),
        ),
        forall|j: int, k: int|
            0 <= j <= k < contributions(shares, b, n).len() ==> (#[trigger] contributions(
                shares,
                b,
                n,
            )[j]).0 <= (#[trigger] contributions(shares, b, n)[k]).0 < n,
    decreases n,
{
    if n > 0 {
        lemma_contributions_are_shares(shares, b, n - 1, i, s);
        let before = contributions(shares, b, n - 1);
        let more = shares_in(shares(n - 1), b, (n - 1) as usize);
        let all = contributions(shares, b, n);
        let e = (i as usize, s);
        lemma_shares_in(shares(n - 1), b, (n - 1) as usize, s);
        if before.contains(e) {
            let k = choose|k: int| 0 <= k < before.len() && before[k] == e;
            assert(all[k] == e);
        }
        if more.contains(e) {
            let k = choose|k: int| 0 <= k < more.len() && more[k] == e;
            assert(all[before.len() + k] == e);
        }
        if all.contains(e) {
            let k = choose|k: int| 0 <= k < all.len() && all[k] == e;
            if k < before.len() {
                assert(before[k] == e);
            } else {
                assert(more[k - before.len()] == e);
            }
        }
        assert forall|j: int, k: int| 0 <= j <= k < all.len() implies (#[trigger] all[j]).0 <= (
        #[trigger] all[k]).0 < n by {
            if k < before.len() {
                assert(all[j] == before[j] && all[k] == before[k]);
            } else {
                assert(all[k] == more[k - before.len()]);
                if j < before.len() {
                    assert(all[j] == before[j]);
                    assert(before[j].0 <= before[j].0 < n - 1);
                } else {
                    assert(all[j] == more[j - before.len()]);
                }
            }
        }
    }
}

proof fn lemma_shares_in<S>(shares: Seq<(usize, S)>, b: int, pixel: usize, s: S)
    requires
        0 <= b <= usize::MAX,
    ensures
        shares_in(shares, b, pixel).contains((pixel, s)) <==> shares.contains((b as usize, s)),
        forall|k: int|
            0 <= k < shares_in(shares, b, pixel).len() ==> (#[trigger] shares_in(
                shares,
                b,
                pixel,
            )[k]).0 == pixel,
    decreases shares.len(),
{
    if shares.len() > 0 {
        let rest = shares.drop_last();
        lemma_shares_in(rest, b, pixel, s);
        let before = shares_in(rest, b, pixel);
        let all = shares_in(shares, b, pixel);
        let share = (b as usize, s);
        let e = (pixel, s);
        if rest.contains(share) {
            let k = choose|k: int| 0 <= k < rest.len() && rest[k] == share;
            assert(shares[k] == share);
        }
        if before.contains(e) {
            let k = choose|k: int| 0 <= k < before.len() && before[k] == e;
            assert(all[k] == e);
        }
        if shares.contains(share) {
            let k = choose|k: int| 0 <= k < shares.len() && shares[k] == share;
            if k < rest.len() {
                assert(rest[k] == share);
            } else {
                assert(all[before.len() as int] == e);
            }
        }
        if all.contains(e) {
            let k = choose|k: int| 0 <= k < all.len() && all[k] == e;
            if k < before.len() {
                assert(before[k] == e);
            } else {
                assert(shares[shares.len() - 1] == share);
            }
        }
    }
}

/// The values of `f` from 0 to before `n`, added up.
pub open spec fn sum_to(f: spec_fn(int) -> int, n: int) -> int
    decreases n,
{
    if n <= 0 {
        0
    } else {
        sum_to(f, n - 1) + f(n - 1)
    }
}

proof fn lemma_sums_add(f: spec_fn(int) -> int, g: spec_fn(int) -> int, h: spec_fn(int) -> int, n: int)
    requires
        forall|b: int| 0 <= b < n ==> #[trigger] h(b) == f(b) + g(b),
    ensures
        sum_to(h, n) == sum_to(f, n) + sum_to(g, n),
    decreases n,
{
    if n > 0 {
        lemma_sums_add(f, g, h, n - 1);
        assert(h(n - 1) == f(n - 1) + g(n - 1));
    }
}

proof fn lemma_sum_of_one(f: spec_fn(int) -> int, at: int, v: int, n: int)
    requires
        forall|b: int|
            0 <= b < n ==> #[trigger] f(b) == if b == at {
                v
            } else {
                0
            },
    ensures
        sum_to(f, n) == if 0 <= at < n {
            v
        } else {
            0
        },
    decreases n,
{
    if n > 0 {
        lemma_sum_of_one(f, at, v, n - 1);
        assert(f(n - 1) == if n - 1 == at {
            v
        } else {
            0
        });
    }
}

/// Two lists in turn are worth what both are worth.
pub proof fn lemma_worth_of_both<C>(a: Seq<C>, b: Seq<C>, item: spec_fn(C) -> int)
    ensures
        worth_of(a + b, item) == worth_of(a, item) + worth_of(b, item),
    decreases b.len(),
{
    if b.len() == 0 {
        assert(a + b =~= a);
    } else {
        lemma_worth_of_both(a, b.drop_last(), item);
        assert((a + b).drop_last() =~= a + b.drop_last());
        assert((a + b).last() == b.last());
    }
}

/// The shares of a pixel, each with the pixel instead of its bin.
pub open spec fn shares_of<S>(shares: Seq<(usize, S)>, pixel: int) -> Seq<(usize, S)> {
    Seq::new(shares.len(), |k: int| (pixel as usize, shares[k].1))
}

proof fn lemma_one_pixel_is_kept<S>(
    shares: Seq<(usize, S)>,
    pixel: int,
    bins: int,
    item: spec_fn((usize, S)) -> int,
)
    requires
        forall|k: int| 0 <= k < shares.len() ==> (#[trigger] shares[k]).0 < bins,
    ensures
        sum_to(|b: int| worth_of(shares_in(shares, b, pixel as usize), item), bins) == worth_of(
            shares_of(shares, pixel),
            item,
        ),
    decreases shares.len(),
{
    let h = |b: int| worth_of(shares_in(shares, b, pixel as usize), item);
    if shares.len() == 0 {
        assert forall|b: int| 0 <= b < bins implies #[trigger] h(b) == if b == -1 {
            0int
        } else {
            0
        } by {}
        lemma_sum_of_one(h, -1, 0, bins);
    } else {
        let rest = shares.drop_last();
        assert forall|k: int| 0 <= k < rest.len() implies (#[trigger] rest[k]).0 < bins by {
            assert(shares[k].0 < bins);
        }
        lemma_one_pixel_is_kept(rest, pixel, bins, item);
        let f = |b: int| worth_of(shares_in(rest, b, pixel as usize), item);
        let last = (pixel as usize, shares.last().1);
        let g = |b: int|
            if b == shares.last().0 {
                item(last)
            } else {
                0
            };
        assert(shares[shares.len() - 1].0 < bins);
        assert forall|b: int| 0 <= b < bins implies #[trigger] h(b) == f(b) + g(b) by {
            let before = shares_in(rest, b, pixel as usize);
            if b == shares.last().0 {
                assert(before.push(last).drop_last() =~= before);
                assert(before.push(last).last() == last);
            }
        }
        lemma_sums_add(f, g, h, bins);
        lemma_sum_of_one(g, shares.last().0 as int, item(last), bins);
        assert(shares_of(shares, pixel).drop_last() =~= shares_of(rest, pixel));
        assert(shares_of(shares, pixel).last() == last);
    }
}

/// Nothing is lost and nothing is added: what all bins are given is worth as much as what
/// all pixels share out.
pub proof fn lemma_contributions_keep_the_total<S>(
    shares: spec_fn(int) -> Seq<(usize, S)>,
    bins: int,
    n: int,
    item: spec_fn((usize, S)) -> int,
)
    requires
        0 <= n <= usize::MAX,
        forall|i: int, k: int|
            0 <= i < n && 0 <= k < shares(i).len() ==> (#[trigger] shares(i)[k]).0 < bins,
    ensures
        sum_to(|b: int| worth_of(contributions(shares, b, n), item), bins) == sum_to(
            |i: int| worth_of(shares_of(shares(i), i), item),
            n,
        ),
    decreases n,
{
    let h = |b: int| worth_of(contributions(shares, b, n), item);
    let p = |i: int| worth_of(shares_of(shares(i), i), item);
    if n == 0 {
        assert forall|b: int| 0 <= b < bins implies #[trigger] h(b) == if b == -1 {
            0int
        } else {
            0
        } by {}
        lemma_sum_of_one(h, -1, 0, bins);
    } else {
        lemma_contributions_keep_the_total(shares, bins, n - 1, item);
        let i = n - 1;
        let f = |b: int| worth_of(contributions(shares, b, i), item);
        let g = |b: int| worth_of(shares_in(shares(i), b, i as usize), item);
        assert forall|b: int| 0 <= b < bins implies #[trigger] h(b) == f(b) + g(b) by {
            lemma_worth_of_both(
                contributions(shares, b, i),
                shares_in(shares(i), b, i as usize),
                item,
            );
        }
        lemma_sums_add(f, g, h, bins);
        lemma_one_pixel_is_kept(shares(i), i, bins, item);
        assert(sum_to(p, n) == sum_to(p, i) + p(i));
    }
}

/// `out` holds for each of `n` bins what its items are reduced to.
pub open spec fn bins_reduce_to<T, C, R, F: Fn(T, C) -> T, G: Fn(T) -> R>(
    step: F,
    finish: G,
    start: T,
    items: spec_fn(int) -> Seq<C>,
    n: int,
    out: Seq<R>,
) -> bool {
    &&& out.len() == n
    &&& forall|b: int| 0 <= b < n ==> reduces_to(step, finish, start, items(b), #[trigger] out[b])
}

/// Where adding an item makes a value worth as much more as the item is worth, and reducing
/// keeps what a value is worth, every bin is worth what its items are worth together.
pub proof fn lemma_worth_of_a_bin<T, C, R, F: Fn(T, C) -> T, G: Fn(T) -> R>(
    step: F,
    finish: G,
    start: T,
    items: spec_fn(int) -> Seq<C>,
    n: int,
    out: Seq<R>,
    val: spec_fn(T) -> int,
    item: spec_fn(C) -> int,
    result: spec_fn(R) -> int,
    b: int,
)
    requires
        bins_reduce_to(step, finish, start, items, n, out),
        val(start) == 0,
        forall|t: T, c: C, r: T| #[trigger] step.ensures((t, c), r) ==> val(r) == val(t) + item(c),
        forall|t: T, r: R| #[trigger] finish.ensures((t,), r) ==> result(r) == val(t),
        0 <= b < n,
    ensures
        out.len() == n,
        result(out[b]) == worth_of(items(b), item),
{
    assert(reduces_to(step, finish, start, items(b), out[b]));
    let t = choose|t: T|
        folds_to(step, start, items(b), t) && #[trigger] finish.ensures((t,), out[b]);
    lemma_fold_adds_all(step, start, items(b), t, val, item);
}

} // verus!
