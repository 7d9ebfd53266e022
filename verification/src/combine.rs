//! Joining two integration results on one grid: the sums of every bin are added up and
//! the means are computed anew. The arithmetic is left to the caller.

use crate::double::{greater, gt, is_nan, nan, rank, rank_of, ZERO};
use crate::model::ErrorModel;
use vstd::prelude::*;

verus! {

/// The double-precision sums of a bin.
#[derive(Debug, Clone, Copy, PartialEq, Eq, Structural)]
pub struct Sums {
    /// Signal.
    pub signal: u64,
    /// Normalization.
    pub norm: u64,
    /// Count.
    pub count: u64,
    /// Variance.
    pub variance: u64,
    /// Squared normalization.
    pub norm2: u64,
}

/// The single-precision means of a bin.
#[derive(Debug, Clone, Copy, PartialEq, Eq, Structural)]
pub struct Means {
    /// Intensity.
    pub intensity: u32,
    /// Standard deviation.
    pub std: u32,
    /// Standard error of the mean.
    pub sem: u32,
}

/// What is combined when two results are joined.
#[derive(Debug, Clone, Copy, PartialEq, Eq, Structural)]
pub struct UnionGates {
    /// The variances and the squared normalizations.
    pub variance: bool,
    /// The spread between the two results, added to the variance.
    pub crossed: bool,
}

/// The value of [`union_gates_1d`].
pub open spec fn gates_1d(em: ErrorModel) -> UnionGates {
    UnionGates { variance: em != ErrorModel::No, crossed: em == ErrorModel::Azimuthal }
}

/// The value of [`union_gates_2d`].
pub open spec fn gates_2d(em: ErrorModel) -> UnionGates {
    UnionGates { variance: em != ErrorModel::No, crossed: false }
}

/// What is combined in one dimension: variances wherever there is an error model, the
/// spread between the results for the azimuthal one.
pub fn union_gates_1d(em: ErrorModel) -> (g: UnionGates)
    ensures
        g.variance == (em != ErrorModel::No),
        g.crossed == (em == ErrorModel::Azimuthal),
        g == gates_1d(em),
{
    let crossed: bool = match em {
        ErrorModel::Azimuthal => true,
        _ => false,
    };
    UnionGates { variance: em.do_variance(), crossed }
}

/// What is combined in two dimensions: variances wherever there is an error model,
/// never the spread between the results.
pub fn union_gates_2d(em: ErrorModel) -> (g: UnionGates)
    ensures
        g.variance == (em != ErrorModel::No),
        !g.crossed,
        g == gates_2d(em),
{
    UnionGates { variance: em.do_variance(), crossed: false }
}

/// `out` holds the joined sums of a bin. The spread between the results, `term`, is
/// weighed by the result with the smaller squared normalization, by the first where
/// they are the same (`term` is told whether by the second); there is none where the
/// normalizations cancel.
pub open spec fn is_joined<A: Fn(u64, u64) -> u64, C: Fn(Sums, Sums, bool) -> Option<u64>>(
    plus: A,
    term: C,
    gates: UnionGates,
    a: Sums,
    b: Sums,
    out: Sums,
) -> bool {
    &&& plus.ensures((a.signal, b.signal), out.signal)
    &&& plus.ensures((a.norm, b.norm), out.norm)
    &&& plus.ensures((a.count, b.count), out.count)
    &&& if gates.variance {
        &&& plus.ensures((a.norm2, b.norm2), out.norm2)
        &&& exists|v: u64| #[trigger]
            plus.ensures((a.variance, b.variance), v) && is_joined_variance(
                plus,
                term,
                gates,
                a,
                b,
                v,
                out.variance,
            )
    } else {
        out.variance == ZERO && out.norm2 == ZERO
    }
}

/// `out` is the variance `v`, with the spread between the results added where that is
/// asked for and there is one.
pub open spec fn is_joined_variance<
    A: Fn(u64, u64) -> u64,
    C: Fn(Sums, Sums, bool) -> Option<u64>,
>(plus: A, term: C, gates: UnionGates, a: Sums, b: Sums, v: u64, out: u64) -> bool {
    if gates.crossed {
        exists|t: Option<u64>| #[trigger]
            term.ensures((a, b, gt(a.norm2, b.norm2)), t) && match t {
                Some(x) => plus.ensures((v, x), out),
                None => out == v,
            }
    } else {
        out == v
    }
}

/// Joins the sums of one bin.
fn join_bin<A: Fn(u64, u64) -> u64, C: Fn(Sums, Sums, bool) -> Option<u64>>(
    plus: &A,
    term: &C,
    gates: UnionGates,
    a: Sums,
    b: Sums,
) -> (out: Sums)
    requires
        forall|x: u64, y: u64| #[trigger] plus.requires((x, y)),
        forall|x: Sums, y: Sums, z: bool| #[trigger] term.requires((x, y, z)),
    ensures
        is_joined(*plus, *term, gates, a, b, out),
{
    let signal: u64 = plus(a.signal, b.signal);
    let norm: u64 = plus(a.norm, b.norm);
    let count: u64 = plus(a.count, b.count);
    if !gates.variance {
        return Sums { signal, norm, count, variance: ZERO, norm2: ZERO };
    }
    let v: u64 = plus(a.variance, b.variance);
    let norm2: u64 = plus(a.norm2, b.norm2);
    let mut variance: u64 = v;
    if gates.crossed {
        let t: Option<u64> = term(a, b, greater(a.norm2, b.norm2));
        if let Some(x) = t {
            variance = plus(v, x);
        }
    }
    proof {
        assert(is_joined_variance(*plus, *term, gates, a, b, v, variance));
    }
    Sums { signal, norm, count, variance, norm2 }
}

/// Joins the sums of two results, bin by bin.
pub fn union_sums<A: Fn(u64, u64) -> u64, C: Fn(Sums, Sums, bool) -> Option<u64>>(
    a: &[Sums],
    b: &[Sums],
    gates: UnionGates,
    plus: &A,
    term: &C,
) -> (out: Vec<Sums>)
    requires
        a@.len() <= b@.len(),
        forall|x: u64, y: u64| #[trigger] plus.requires((x, y)),
        forall|x: Sums, y: Sums, z: bool| #[trigger] term.requires((x, y, z)),
    ensures
        out@.len() == a@.len(),
        forall|i: int|
            0 <= i < out@.len() ==> is_joined(
                *plus,
                *term,
                gates,
                a@[i],
                b@[i],
                #[trigger] out@[i],
            ),
{
    let mut out: Vec<Sums> = Vec::new();
    let mut i: usize = 0;
    while i < a.len()
        invariant
            i <= a@.len() <= b@.len(),
            forall|x: u64, y: u64| #[trigger] plus.requires((x, y)),
            forall|x: Sums, y: Sums, z: bool| #[trigger] term.requires((x, y, z)),
            out@.len() == i,
            forall|k: int|
                0 <= k < i ==> is_joined(*plus, *term, gates, a@[k], b@[k], #[trigger] out@[k]),
        decreases a@.len() - i,
    {
        out.push(join_bin(plus, term, gates, a[i], b[i]));
        i = i + 1;
    }
    out
}

/// `m` holds the means of a bin: those that `means` computes, or `dummy` where the
/// normalization is zero.
pub open spec fn is_mean<M: Fn(Sums) -> Means>(means: M, dummy: u32, s: Sums, m: Means) -> bool {
    if !is_nan(s.norm) && rank(s.norm) == 0 {
        m == (Means { intensity: dummy, std: dummy, sem: dummy })
    } else {
        means.ensures((s,), m)
    }
}

/// `x` is the intensity among the means of a bin.
pub open spec fn is_intensity<M: Fn(Sums) -> Means>(means: M, dummy: u32, s: Sums, x: u32) -> bool {
    exists|m: Means| #[trigger] is_mean(means, dummy, s, m) && x == m.intensity
}

/// Computes the means of every bin.
pub fn recalculate<M: Fn(Sums) -> Means>(sums: &Vec<Sums>, dummy: u32, means: &M) -> (out: Vec<
    Means,
>)
    requires
        forall|s: Sums| #[trigger] means.requires((s,)),
    ensures
        out@.len() == sums@.len(),
        forall|i: int|
            0 <= i < out@.len() ==> is_mean(*means, dummy, sums@[i], #[trigger] out@[i]),
{
    let mut out: Vec<Means> = Vec::new();
    let mut i: usize = 0;
    while i < sums.len()
        invariant
            i <= sums@.len(),
            forall|s: Sums| #[trigger] means.requires((s,)),
            out@.len() == i,
            forall|k: int|
                0 <= k < i ==> is_mean(*means, dummy, sums@[k], #[trigger] out@[k]),
        decreases sums@.len() - i,
    {
        let s: Sums = sums[i];
        if !nan(s.norm) && rank_of(s.norm) == 0 {
            out.push(Means { intensity: dummy, std: dummy, sem: dummy });
        } else {
            out.push(means(s));
        }
        i = i + 1;
    }
    out
}

/// An integration result: the axes of the grid, and for each bin its means, the error
/// of its intensity and its sums. In one dimension there is no azimuthal axis.
#[derive(Debug)]
pub struct Integrated {
    /// Radial bin centers.
    pub radial: Vec<u64>,
    /// Azimuthal bin centers.
    pub azimuthal: Vec<u64>,
    /// Intensities.
    pub intensity: Vec<u32>,
    /// Errors of the intensities.
    pub sigma: Vec<u32>,
    /// Standard deviations.
    pub std: Vec<u32>,
    /// Standard errors of the means.
    pub sem: Vec<u32>,
    /// Sums.
    pub sums: Vec<Sums>,
}

/// `out` is what two results join to: the axes of the first one, the joined sums, the
/// intensities computed anew, and the errors computed anew where there is an error
/// model, else those of the first result.
pub open spec fn is_union<
    A: Fn(u64, u64) -> u64,
    C: Fn(Sums, Sums, bool) -> Option<u64>,
    M: Fn(Sums) -> Means,
>(
    a: Integrated,
    b: Integrated,
    gates: UnionGates,
    dummy: u32,
    plus: A,
    term: C,
    means: M,
    out: Integrated,
) -> bool {
    let n = a.sums@.len();
    &&& out.radial@ == a.radial@
    &&& out.azimuthal@ == a.azimuthal@
    &&& out.sums@.len() == n
    &&& out.intensity@.len() == n
    &&& forall|i: int|
        0 <= i < n ==> is_joined(plus, term, gates, a.sums@[i], b.sums@[i], #[trigger] out.sums@[i])
    &&& if gates.variance {
        &&& out.sigma@ == out.sem@
        &&& out.std@.len() == n
        &&& out.sem@.len() == n
        &&& forall|i: int|
            0 <= i < n ==> is_mean(
                means,
                dummy,
                out.sums@[i],
                (Means {
                    intensity: #[trigger] out.intensity@[i],
                    std: out.std@[i],
                    sem: out.sem@[i],
                }),
            )
    } else {
        &&& out.sigma@ == a.sigma@
        &&& out.std@ == a.std@
        &&& out.sem@ == a.sem@
        &&& forall|i: int|
            0 <= i < n ==> is_intensity(means, dummy, out.sums@[i], #[trigger] out.intensity@[i])
    }
}

/// A copy of a list.
fn copied<T: Copy>(items: &Vec<T>) -> (out: Vec<T>)
    ensures
        out@ == items@,
{
    let mut out: Vec<T> = Vec::new();
    let mut i: usize = 0;
    while i < items.len()
        invariant
            i <= items@.len(),
            out@ == items@.take(i as int),
        decreases items@.len() - i,
    {
        out.push(items[i]);
        assert(items@.take(i + 1) =~= items@.take(i as int).push(items@[i as int]));
        i = i + 1;
    }
    assert(items@.take(i as int) =~= items@);
    out
}

/// Joins two results, see [`is_union`].
fn join_results<
    A: Fn(u64, u64) -> u64,
    C: Fn(Sums, Sums, bool) -> Option<u64>,
    M: Fn(Sums) -> Means,
>(
    a: &Integrated,
    b: &Integrated,
    gates: UnionGates,
    dummy: u32,
    plus: &A,
    term: &C,
    means: &M,
) -> (out: Integrated)
    requires
        a.sums@.len() <= b.sums@.len(),
        forall|x: u64, y: u64| #[trigger] plus.requires((x, y)),
        forall|x: Sums, y: Sums, z: bool| #[trigger] term.requires((x, y, z)),
        forall|s: Sums| #[trigger] means.requires((s,)),
    ensures
        is_union(*a, *b, gates, dummy, *plus, *term, *means, out),
{
    let sums: Vec<Sums> = union_sums(&a.sums, &b.sums, gates, plus, term);
    let all: Vec<Means> = recalculate(&sums, dummy, means);
    let mut intensity: Vec<u32> = Vec::new();
    let mut std: Vec<u32> = Vec::new();
    let mut sem: Vec<u32> = Vec::new();
    let mut sigma: Vec<u32> = Vec::new();
    let mut i: usize = 0;
    while i < all.len()
        invariant
            i <= all@.len(),
            intensity@.len() == i,
            std@.len() == i,
            sem@.len() == i,
            sigma@ == sem@,
            forall|k: int| 0 <= k < i ==> #[trigger] intensity@[k] == all@[k].intensity,
            forall|k: int| 0 <= k < i ==> #[trigger] std@[k] == all@[k].std,
            forall|k: int| 0 <= k < i ==> #[trigger] sem@[k] == all@[k].sem,
        decreases all@.len() - i,
    {
        let m: Means = all[i];
        intensity.push(m.intensity);
        std.push(m.std);
        sem.push(m.sem);
        sigma.push(m.sem);
        i = i + 1;
    }
    proof {
        assert forall|k: int| 0 <= k < sums@.len() implies is_mean(
            *means,
            dummy,
            sums@[k],
            (Means { intensity: #[trigger] intensity@[k], std: std@[k], sem: sem@[k] }),
        ) by {
            assert(is_mean(*means, dummy, sums@[k], all@[k]));
            assert(all@[k] == (Means { intensity: intensity@[k], std: std@[k], sem: sem@[k] }));
        }
    }
    if !gates.variance {
        sigma = copied(&a.sigma);
        std = copied(&a.std);
        sem = copied(&a.sem);
        proof {
            assert forall|k: int| 0 <= k < sums@.len() implies is_intensity(
                *means,
                dummy,
                sums@[k],
                #[trigger] intensity@[k],
            ) by {
                assert(is_mean(*means, dummy, sums@[k], all@[k]));
            }
        }
    }
    let radial: Vec<u64> = copied(&a.radial);
    let azimuthal: Vec<u64> = copied(&a.azimuthal);
    Integrated { radial, azimuthal, intensity, sigma, std, sem, sums }
}

/// Joins two results in one dimension, with the gates of [`union_gates_1d`].
pub fn union1d<
    A: Fn(u64, u64) -> u64,
    C: Fn(Sums, Sums, bool) -> Option<u64>,
    M: Fn(Sums) -> Means,
>(
    a: &Integrated,
    b: &Integrated,
    em: ErrorModel,
    dummy: u32,
    plus: A,
    term: C,
    means: M,
) -> (out: Integrated)
    requires
        a.sums@.len() <= b.sums@.len(),
        forall|x: u64, y: u64| #[trigger] plus.requires((x, y)),
        forall|x: Sums, y: Sums, z: bool| #[trigger] term.requires((x, y, z)),
        forall|s: Sums| #[trigger] means.requires((s,)),
    ensures
        is_union(
            *a,
            *b,
            (UnionGates { variance: em != ErrorModel::No, crossed: em == ErrorModel::Azimuthal }),
            dummy,
            plus,
            term,
            means,
            out,
        ),
        is_union(*a, *b, gates_1d(em), dummy, plus, term, means, out),
{
    let gates: UnionGates = union_gates_1d(em);
    join_results(a, b, gates, dummy, &plus, &term, &means)
}

/// Joins two results in two dimensions, with the gates of [`union_gates_2d`].
pub fn union2d<
    A: Fn(u64, u64) -> u64,
    C: Fn(Sums, Sums, bool) -> Option<u64>,
    M: Fn(Sums) -> Means,
>(
    a: &Integrated,
    b: &Integrated,
    em: ErrorModel,
    dummy: u32,
    plus: A,
    term: C,
    means: M,
) -> (out: Integrated)
    requires
        a.sums@.len() <= b.sums@.len(),
        forall|x: u64, y: u64| #[trigger] plus.requires((x, y)),
        forall|x: Sums, y: Sums, z: bool| #[trigger] term.requires((x, y, z)),
        forall|s: Sums| #[trigger] means.requires((s,)),
    ensures
        is_union(
            *a,
            *b,
            (UnionGates { variance: em != ErrorModel::No, crossed: false }),
            dummy,
            plus,
            term,
            means,
            out,
        ),
        is_union(*a, *b, gates_2d(em), dummy, plus, term, means, out),
{
    let gates: UnionGates = union_gates_2d(em);
    join_results(a, b, gates, dummy, &plus, &term, &means)
}

/// The means that `means` gives are those that three formulas give, one for each.
pub open spec fn follows<M: Fn(Sums) -> Means>(
    means: M,
    intensity: spec_fn(Sums) -> u32,
    std: spec_fn(Sums) -> u32,
    sem: spec_fn(Sums) -> u32,
) -> bool {
    forall|s: Sums, m: Means| #[trigger]
        means.ensures((s,), m) ==> m.intensity == intensity(s) && m.std == std(s) && m.sem == sem(s)
}

/// The normalization of a bin is zero, of either sign: the bin is empty.
pub open spec fn is_empty_bin(s: Sums) -> bool {
    s.norm == 0 || s.norm == 0x8000_0000_0000_0000
}

/// The means of a joined bin are those of its joined sums, each in its own place: the
/// intensity, and with an error model the standard deviation and the standard error, which
/// is the error of the intensity too. An empty bin has the dummy value in all of them.
/// Without an error model the errors are those of the first result.
pub proof fn lemma_union_means<
    A: Fn(u64, u64) -> u64,
    C: Fn(Sums, Sums, bool) -> Option<u64>,
    M: Fn(Sums) -> Means,
>(
    a: Integrated,
    b: Integrated,
    gates: UnionGates,
    dummy: u32,
    plus: A,
    term: C,
    means: M,
    out: Integrated,
    intensity: spec_fn(Sums) -> u32,
    std: spec_fn(Sums) -> u32,
    sem: spec_fn(Sums) -> u32,
    i: int,
)
    requires
        is_union(a, b, gates, dummy, plus, term, means, out),
        follows(means, intensity, std, sem),
        0 <= i < a.sums@.len(),
    ensures
        out.sums@.len() == a.sums@.len(),
        out.intensity@.len() == a.sums@.len(),
        out.intensity@[i] == if is_empty_bin(out.sums@[i]) {
            dummy
        } else {
            intensity(out.sums@[i])
        },
        gates.variance ==> {
            &&& out.std@.len() == a.sums@.len()
            &&& out.sem@.len() == a.sums@.len()
            &&& out.sigma@.len() == a.sums@.len()
            &&& out.std@[i] == if is_empty_bin(out.sums@[i]) {
                dummy
            } else {
                std(out.sums@[i])
            }
            &&& out.sem@[i] == if is_empty_bin(out.sums@[i]) {
                dummy
            } else {
                sem(out.sums@[i])
            }
            &&& out.sigma@[i] == out.sem@[i]
        },
        !gates.variance ==> out.std@ == a.std@ && out.sem@ == a.sem@ && out.sigma@ == a.sigma@,
        out.radial@ == a.radial@,
        out.azimuthal@ == a.azimuthal@,
{
    let s = out.sums@[i];
    if gates.variance {
        let m = Means { intensity: out.intensity@[i], std: out.std@[i], sem: out.sem@[i] };
        assert(is_mean(means, dummy, s, m));
    } else {
        assert(is_intensity(means, dummy, s, out.intensity@[i]));
        let m = choose|m: Means| #[trigger]
            is_mean(means, dummy, s, m) && out.intensity@[i] == m.intensity;
    }
}

/// Numbers are added exactly; `val` is what a number is worth.
pub open spec fn sums_exactly<A: Fn(u64, u64) -> u64>(plus: A, val: spec_fn(u64) -> int) -> bool {
    forall|x: u64, y: u64, r: u64| #[trigger] plus.ensures((x, y), r) ==> val(r) == val(x) + val(y)
}

/// The sums of a joined bin are the sums of both: signal to signal, normalization to
/// normalization, count to count, and with an error model variance to variance and squared
/// normalization to squared normalization. For the spread between the results the variance
/// grows by the term of the two bins, weighed by the one of the smaller squared
/// normalization, the first where they are the same.
pub proof fn lemma_joined_sums<A: Fn(u64, u64) -> u64, C: Fn(Sums, Sums, bool) -> Option<u64>>(
    plus: A,
    term: C,
    gates: UnionGates,
    a: Sums,
    b: Sums,
    out: Sums,
    val: spec_fn(u64) -> int,
    spread: spec_fn(Sums, Sums, bool) -> Option<u64>,
)
    requires
        is_joined(plus, term, gates, a, b, out),
        sums_exactly(plus, val),
        val(0) == 0,
        forall|x: Sums, y: Sums, second: bool, t: Option<u64>| #[trigger]
            term.ensures((x, y, second), t) ==> t == spread(x, y, second),
    ensures
        val(out.signal) == val(a.signal) + val(b.signal),
        val(out.norm) == val(a.norm) + val(b.norm),
        val(out.count) == val(a.count) + val(b.count),
        gates.variance ==> val(out.norm2) == val(a.norm2) + val(b.norm2),
        gates.variance && !gates.crossed ==> val(out.variance) == val(a.variance) + val(b.variance),
        gates.variance && gates.crossed ==> val(out.variance) == val(a.variance) + val(b.variance)
            + match spread(
            a,
            b,
            !is_nan(a.norm2) && !is_nan(b.norm2) && rank(b.norm2) < rank(a.norm2),
        ) {
            Some(x) => val(x),
            None => 0,
        },
        !gates.variance ==> val(out.variance) == 0 && val(out.norm2) == 0,
{
}

/// Without the spread between the results it does not matter which of two bins comes first.
pub proof fn lemma_joining_commutes<A: Fn(u64, u64) -> u64, C: Fn(Sums, Sums, bool) -> Option<u64>>(
    plus: A,
    term: C,
    gates: UnionGates,
    a: Sums,
    b: Sums,
    x: Sums,
    y: Sums,
)
    requires
        !gates.crossed,
        forall|p: u64, q: u64, r: u64, t: u64| #[trigger]
            plus.ensures((p, q), r) && #[trigger] plus.ensures((q, p), t) ==> r == t,
        is_joined(plus, term, gates, a, b, x),
        is_joined(plus, term, gates, b, a, y),
    ensures
        x == y,
{
}

/// The bins of a result that was joined under an error model: signal, normalization and
/// count are those of both. Without an error model there is no variance; with one the
/// variance is that of both, and in one dimension under the azimuthal model, and nowhere
/// else, the spread between them is added.
pub proof fn lemma_joined_under_a_model<
    A: Fn(u64, u64) -> u64,
    C: Fn(Sums, Sums, bool) -> Option<u64>,
    M: Fn(Sums) -> Means,
>(
    a: Integrated,
    b: Integrated,
    em: ErrorModel,
    two_d: bool,
    dummy: u32,
    plus: A,
    term: C,
    means: M,
    out: Integrated,
    val: spec_fn(u64) -> int,
    spread: spec_fn(Sums, Sums, bool) -> Option<u64>,
    i: int,
)
    requires
        is_union(
            a,
            b,
            if two_d {
                gates_2d(em)
            } else {
                gates_1d(em)
            },
            dummy,
            plus,
            term,
            means,
            out,
        ),
        sums_exactly(plus, val),
        val(0) == 0,
        forall|x: Sums, y: Sums, second: bool, t: Option<u64>| #[trigger]
            term.ensures((x, y, second), t) ==> t == spread(x, y, second),
        0 <= i < a.sums@.len(),
    ensures
        ({
            let (x, y, z) = (a.sums@[i], b.sums@[i], out.sums@[i]);
            let between = match spread(
                x,
                y,
                !is_nan(x.norm2) && !is_nan(y.norm2) && rank(y.norm2) < rank(x.norm2),
            ) {
                Some(t) => val(t),
                None => 0,
            };
            &&& val(z.signal) == val(x.signal) + val(y.signal)
            &&& val(z.norm) == val(x.norm) + val(y.norm)
            &&& val(z.count) == val(x.count) + val(y.count)
            &&& em == ErrorModel::No ==> val(z.variance) == 0 && val(z.norm2) == 0
            &&& em != ErrorModel::No ==> val(z.norm2) == val(x.norm2) + val(y.norm2)
                && val(z.variance) == val(x.variance) + val(y.variance) + if em
                == ErrorModel::Azimuthal && !two_d {
                between
            } else {
                0
            }
        }),
{
    let gates = if two_d {
        gates_2d(em)
    } else {
        gates_1d(em)
    };
    lemma_joined_sums(
        plus,
        term,
        gates,
        a.sums@[i],
        b.sums@[i],
        out.sums@[i],
        val,
        spread,
    );
}

} // verus!
