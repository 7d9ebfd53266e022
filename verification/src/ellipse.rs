//! Decisions of the algebraic ellipse fit. The fit solves an eigenproblem of the
//! scatter of the points; which solution is taken, when the points are shifted and
//! tried again, and which failures there are, is decided here.

use vstd::prelude::*;

verus! {

/// Why there is no ellipse.
#[derive(Debug, Clone, Copy, PartialEq, Eq, Structural)]
pub enum EllipseError {
    /// The scatter matrix is singular, that of the shifted points too.
    SingularMatrix,
    /// No eigenvector satisfies the three criteria of an ellipse.
    NoValidEigenvalue,
    /// The squared semi-axes are not positive.
    NegativeSqrt,
}

/// What follows from the inversion of the scatter matrix.
#[derive(Debug, Clone, Copy, PartialEq, Eq, Structural)]
pub enum FitStep {
    /// Go on with the inverse.
    Solve,
    /// Shift the points and try once more.
    Shift,
}

/// Decides what follows from the inversion of the scatter matrix. `shifted` tells
/// whether the points have been shifted already.
pub fn after_inverse(invertible: bool, shifted: bool) -> (r: Result<FitStep, EllipseError>)
    ensures
        r == if invertible {
            Ok::<FitStep, EllipseError>(FitStep::Solve)
        } else if !shifted {
            Ok::<FitStep, EllipseError>(FitStep::Shift)
        } else {
            Err::<FitStep, EllipseError>(EllipseError::SingularMatrix)
        },
{
    if invertible {
        Ok(FitStep::Solve)
    } else if !shifted {
        Ok(FitStep::Shift)
    } else {
        Err(EllipseError::SingularMatrix)
    }
}

/// An eigenvector and what is known of the conic that it describes.
#[derive(Debug, Clone, Copy, PartialEq, Eq, Structural)]
pub struct Candidate {
    /// The eigenvalue is real and finite, and there is a vector.
    pub usable: bool,
    /// The discriminant is that of an ellipse.
    pub elliptic: bool,
    /// The conic is not degenerate.
    pub proper: bool,
    /// The ellipse has real points.
    pub real: bool,
}

impl Candidate {
    /// The eigenvector describes an ellipse.
    pub open spec fn valid(self) -> bool {
        self.usable && self.elliptic && self.proper && self.real
    }
}

/// The eigenvector to be taken: the last one that describes an ellipse.
pub fn choose_conic(candidates: &[Candidate]) -> (r: Result<usize, EllipseError>)
    ensures
        match r {
            Ok(k) => k < candidates@.len() && candidates@[k as int].valid() && forall|j: int|
                k < j < candidates@.len() ==> !(#[trigger] candidates@[j]).valid(),
            Err(e) => e == EllipseError::NoValidEigenvalue && forall|j: int|
                0 <= j < candidates@.len() ==> !(#[trigger] candidates@[j]).valid(),
        },
{
    let mut chosen: Option<usize> = None;
    let mut k: usize = 0;
    while k < candidates.len()
        invariant
            k <= candidates@.len(),
            match chosen {
                Some(c) => c < k && candidates@[c as int].valid() && forall|j: int|
                    c < j < k ==> !(#[trigger] candidates@[j]).valid(),
                None => forall|j: int| 0 <= j < k ==> !(#[trigger] candidates@[j]).valid(),
            },
        decreases candidates@.len() - k,
    {
        let c: Candidate = candidates[k];
        if c.usable && c.elliptic && c.proper && c.real {
            chosen = Some(k);
        }
        k = k + 1;
    }
    match chosen {
        Some(c) => Ok(c),
        None => Err(EllipseError::NoValidEigenvalue),
    }
}

/// What is done with the two semi-axes.
#[derive(Debug, Clone, Copy, PartialEq, Eq, Structural)]
pub struct AxesStep {
    /// The second one is the longer one: they change places.
    pub swap: bool,
    /// The ellipse lies along the axes: its angle is zero.
    pub upright: bool,
}

/// Checks the squared semi-axes, which must not be zero or less, and orders them.
/// `upright` tells whether the two
/// quadratic coefficients of the conic are the same; the axes then keep their places.
pub fn order_axes(
    first_at_most_zero: bool,
    second_at_most_zero: bool,
    second_longer: bool,
    upright: bool,
) -> (r: Result<AxesStep, EllipseError>)
    ensures
        r == if first_at_most_zero || second_at_most_zero {
            Err::<AxesStep, EllipseError>(EllipseError::NegativeSqrt)
        } else {
            Ok::<AxesStep, EllipseError>(AxesStep { swap: second_longer && !upright, upright })
        },
{
    if first_at_most_zero || second_at_most_zero {
        return Err(EllipseError::NegativeSqrt);
    }
    Ok(AxesStep { swap: second_longer && !upright, upright })
}

/// What is known of the two squared semi-axes.
#[derive(Debug, Clone, Copy, PartialEq, Eq, Structural)]
pub struct AxesSigns {
    /// The first one is zero or less.
    pub first_at_most_zero: bool,
    /// The second one is zero or less.
    pub second_at_most_zero: bool,
    /// The second semi-axis is the longer one.
    pub second_longer: bool,
    /// The two quadratic coefficients of the conic are the same.
    pub upright: bool,
}

/// A fit that succeeded.
#[derive(Debug)]
pub struct Fitted<M> {
    /// The inverse of the scatter matrix.
    pub inverse: M,
    /// The points had to be shifted.
    pub shifted: bool,
    /// The eigenvector taken.
    pub conic: usize,
    /// What is done with the semi-axes.
    pub axes: AxesStep,
}

/// `m` is the inverse of the scatter matrix of the points, or of the shifted points
/// where the points have none.
pub open spec fn is_inverse<M, V: Fn(bool) -> Option<M>>(invert: V, shifted: bool, m: M) -> bool {
    &&& shifted ==> invert.ensures((false,), None)
    &&& invert.ensures((shifted,), Some(m))
}

/// `k` is the last candidate that describes an ellipse.
pub open spec fn is_last_valid(candidates: Seq<Candidate>, k: int) -> bool {
    &&& 0 <= k < candidates.len()
    &&& candidates[k].valid()
    &&& forall|j: int| k < j < candidates.len() ==> !(#[trigger] candidates[j]).valid()
}

/// No candidate describes an ellipse.
pub open spec fn none_valid(candidates: Seq<Candidate>) -> bool {
    forall|j: int| 0 <= j < candidates.len() ==> !(#[trigger] candidates[j]).valid()
}

/// The eigenvectors of `m` are `candidates`, and `k` is the one taken.
pub open spec fn takes<M, C: Fn(&M) -> Vec<Candidate>>(
    conics: C,
    m: M,
    candidates: Vec<Candidate>,
    k: int,
) -> bool {
    conics.ensures((&m,), candidates) && is_last_valid(candidates@, k)
}

/// Eigenvector `k` is the one taken of those of `m`.
pub open spec fn is_taken<M, C: Fn(&M) -> Vec<Candidate>>(conics: C, m: M, k: int) -> bool {
    exists|cs: Vec<Candidate>| #[trigger] takes(conics, m, cs, k)
}

/// `step` follows from what is known of the semi-axes of conic `k`.
pub open spec fn is_axes_step<M, X: Fn(&M, usize) -> AxesSigns>(
    axes: X,
    m: M,
    k: usize,
    step: AxesStep,
) -> bool {
    exists|x: AxesSigns| #[trigger]
        axes.ensures((&m, k), x) && !x.first_at_most_zero && !x.second_at_most_zero && step == (
        AxesStep { swap: x.second_longer && !x.upright, upright: x.upright })
}

/// `f` is a fit.
pub open spec fn is_fit<
    M,
    V: Fn(bool) -> Option<M>,
    C: Fn(&M) -> Vec<Candidate>,
    X: Fn(&M, usize) -> AxesSigns,
>(invert: V, conics: C, axes: X, f: Fitted<M>) -> bool {
    &&& is_inverse(invert, f.shifted, f.inverse)
    &&& is_taken(conics, f.inverse, f.conic as int)
    &&& is_axes_step(axes, f.inverse, f.conic, f.axes)
}

/// No eigenvector of the inverse describes an ellipse.
pub open spec fn has_no_conic<M, V: Fn(bool) -> Option<M>, C: Fn(&M) -> Vec<Candidate>>(
    invert: V,
    conics: C,
    s: bool,
    m: M,
    cs: Vec<Candidate>,
) -> bool {
    is_inverse(invert, s, m) && conics.ensures((&m,), cs) && none_valid(cs@)
}

/// The conic taken has a squared semi-axis that is zero or less.
pub open spec fn has_no_axes<
    M,
    V: Fn(bool) -> Option<M>,
    C: Fn(&M) -> Vec<Candidate>,
    X: Fn(&M, usize) -> AxesSigns,
>(invert: V, conics: C, axes: X, s: bool, m: M, k: usize, x: AxesSigns) -> bool {
    &&& is_inverse(invert, s, m)
    &&& is_taken(conics, m, k as int)
    &&& axes.ensures((&m, k), x)
    &&& x.first_at_most_zero || x.second_at_most_zero
}

/// Fits an ellipse. `invert` gives the inverse of the scatter matrix of the points, or
/// of the shifted points, `conics` its eigenvectors, and `axes` the semi-axes of the
/// conic that one of them describes.
pub fn fit_ellipse<
    M,
    V: Fn(bool) -> Option<M>,
    C: Fn(&M) -> Vec<Candidate>,
    X: Fn(&M, usize) -> AxesSigns,
>(invert: V, conics: C, axes: X) -> (r: Result<Fitted<M>, EllipseError>)
    requires
        forall|b: bool| #[trigger] invert.requires((b,)),
        forall|m: M| #[trigger] conics.requires((&m,)),
        forall|m: M, k: usize| #[trigger] axes.requires((&m, k)),
    ensures
        match r {
            Ok(f) => is_fit(invert, conics, axes, f),
            Err(EllipseError::SingularMatrix) => invert.ensures((false,), None)
                && invert.ensures((true,), None),
            Err(EllipseError::NoValidEigenvalue) => exists|s: bool, m: M, cs: Vec<Candidate>|
                #[trigger] has_no_conic(invert, conics, s, m, cs),
            Err(EllipseError::NegativeSqrt) => exists|
                s: bool,
                m: M,
                k: usize,
                x: AxesSigns,
            | #[trigger] has_no_axes(invert, conics, axes, s, m, k, x),
        },
{
    let mut shifted: bool = false;
    let mut found: Option<M> = invert(false);
    match after_inverse(found.is_some(), false) {
        Ok(FitStep::Solve) => {},
        _ => {
            shifted = true;
            found = invert(true);
        },
    }
    let inverse: M = match found {
        Some(m) => m,
        None => {
            return Err(EllipseError::SingularMatrix);
        },
    };
    assert(is_inverse(invert, shifted, inverse));
    let candidates: Vec<Candidate> = conics(&inverse);
    let conic: usize = match choose_conic(&candidates) {
        Ok(k) => k,
        Err(e) => {
            assert(has_no_conic(invert, conics, shifted, inverse, candidates));
            return Err(e);
        },
    };
    assert(takes(conics, inverse, candidates, conic as int));
    let signs: AxesSigns = axes(&inverse, conic);
    match order_axes(
        signs.first_at_most_zero,
        signs.second_at_most_zero,
        signs.second_longer,
        signs.upright,
    ) {
        Ok(step) => {
            assert(axes.ensures((&inverse, conic), signs));
            Ok(Fitted { inverse, shifted, conic, axes: step })
        },
        Err(e) => {
            assert(has_no_axes(invert, conics, axes, shifted, inverse, conic, signs));
            Err(e)
        },
    }
}

/// Of a longer list of eigenvectors the last one is taken where it describes an ellipse,
/// else the one that is taken without it.
pub proof fn lemma_one_more_candidate(candidates: Seq<Candidate>, c: Candidate, k: int)
    ensures
        is_last_valid(candidates.push(c), k) <==> if c.usable && c.elliptic && c.proper && c.real {
            k == candidates.len()
        } else {
            is_last_valid(candidates, k)
        },
        none_valid(candidates.push(c)) <==> none_valid(candidates) && !(c.usable && c.elliptic
            && c.proper && c.real),
{
    let more = candidates.push(c);
    assert(more[candidates.len() as int] == c);
    assert forall|j: int| 0 <= j < candidates.len() implies more[j] == candidates[j] by {}
    if is_last_valid(more, k) && !c.valid() {
        assert forall|j: int| k < j < candidates.len() implies !(
        #[trigger] candidates[j]).valid() by {
            assert(!more[j].valid());
        }
    }
    if none_valid(more) {
        assert forall|j: int| 0 <= j < candidates.len() implies !(
        #[trigger] candidates[j]).valid() by {
            assert(!more[j].valid());
        }
    }
}

/// A fit uses the points as they are wherever their scatter matrix has an inverse, and the
/// shifted points only where it has none. Its axes change places where the second is the
/// longer one, but not where the ellipse lies along the axes.
pub proof fn lemma_fit<
    M,
    V: Fn(bool) -> Option<M>,
    C: Fn(&M) -> Vec<Candidate>,
    X: Fn(&M, usize) -> AxesSigns,
>(
    invert: V,
    conics: C,
    axes: X,
    f: Fitted<M>,
    plain: Option<M>,
    moved: Option<M>,
    signs: AxesSigns,
)
    requires
        is_fit(invert, conics, axes, f),
        forall|m: Option<M>| #[trigger] invert.ensures((false,), m) ==> m == plain,
        forall|m: Option<M>| #[trigger] invert.ensures((true,), m) ==> m == moved,
        forall|x: AxesSigns| #[trigger] axes.ensures((&f.inverse, f.conic), x) ==> x == signs,
    ensures
        f.shifted ==> plain is None && moved == Some(f.inverse),
        !f.shifted ==> plain == Some(f.inverse),
        f.shifted <==> plain is None,
        !signs.first_at_most_zero && !signs.second_at_most_zero,
        signs.upright ==> f.axes.upright && !f.axes.swap,
        !signs.upright ==> !f.axes.upright && f.axes.swap == signs.second_longer,
{
}

/// There is no fit where each eigenvector fails one of the criteria of an ellipse, or where
/// the one taken has a squared semi-axis that is zero or less.
pub proof fn lemma_why_there_is_no_fit<
    M,
    V: Fn(bool) -> Option<M>,
    C: Fn(&M) -> Vec<Candidate>,
    X: Fn(&M, usize) -> AxesSigns,
>(
    invert: V,
    conics: C,
    axes: X,
    s: bool,
    m: M,
    cs: Vec<Candidate>,
    k: usize,
    x: AxesSigns,
)
    ensures
        has_no_conic(invert, conics, s, m, cs) ==> forall|j: int|
            0 <= j < cs@.len() ==> {
                let c = #[trigger] cs@[j];
                !c.usable || !c.elliptic || !c.proper || !c.real
            },
        has_no_axes(invert, conics, axes, s, m, k, x) ==> x.first_at_most_zero
            || x.second_at_most_zero,
{
    if has_no_conic(invert, conics, s, m, cs) {
        assert forall|j: int| 0 <= j < cs@.len() implies {
            let c = #[trigger] cs@[j];
            !c.usable || !c.elliptic || !c.proper || !c.real
        } by {
            assert(!cs@[j].valid());
        }
    }
}

/// The eigenvector that a fit takes meets all criteria of an ellipse, and none after it
/// does. Where the fit fails for its semi-axes, it is that same eigenvector whose squared
/// semi-axes are not positive, of the points as they are wherever they can be used.
pub proof fn lemma_taken_conic<
    M,
    V: Fn(bool) -> Option<M>,
    C: Fn(&M) -> Vec<Candidate>,
    X: Fn(&M, usize) -> AxesSigns,
>(
    invert: V,
    conics: C,
    axes: X,
    f: Fitted<M>,
    shifted: bool,
    m: M,
    k: usize,
    x: AxesSigns,
    plain: Option<M>,
    moved: Option<M>,
    cs: Seq<Candidate>,
    signs: AxesSigns,
)
    requires
        is_fit(invert, conics, axes, f) && m == f.inverse && k == f.conic && shifted == f.shifted
            || has_no_axes(invert, conics, axes, shifted, m, k, x),
        forall|r: Option<M>| #[trigger] invert.ensures((false,), r) ==> r == plain,
        forall|r: Option<M>| #[trigger] invert.ensures((true,), r) ==> r == moved,
        forall|v: Vec<Candidate>| #[trigger] conics.ensures((&m,), v) ==> v@ == cs,
        forall|s: AxesSigns| #[trigger] axes.ensures((&m, k), s) ==> s == signs,
    ensures
        shifted <==> plain is None,
        shifted ==> moved == Some(m),
        !shifted ==> plain == Some(m),
        k < cs.len(),
        cs[k as int].usable && cs[k as int].elliptic && cs[k as int].proper && cs[k as int].real,
        forall|j: int|
            k < j < cs.len() ==> !((#[trigger] cs[j]).usable && cs[j].elliptic && cs[j].proper
                && cs[j].real),
        has_no_axes(invert, conics, axes, shifted, m, k, x) ==> signs.first_at_most_zero
            || signs.second_at_most_zero,
{
    let v = choose|v: Vec<Candidate>| #[trigger] takes(conics, m, v, k as int);
    assert(v@ == cs);
    assert forall|j: int| k < j < cs.len() implies !((#[trigger] cs[j]).usable && cs[j].elliptic
        && cs[j].proper && cs[j].real) by {
        assert(!v@[j].valid());
    }
}

} // verus!
