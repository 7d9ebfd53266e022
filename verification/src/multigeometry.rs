//! Integration of several frames, each with its own geometry, into one result.

use crate::accumulate::sum_to;
use crate::double::{greater, is_nan, rank, INFINITY, NEG_INFINITY, ZERO};
use vstd::prelude::*;

verus! {

/// Why frames are refused.
#[derive(Debug, Clone, Copy, PartialEq, Eq, Structural)]
pub enum FramesError {
    /// There is no frame.
    Empty,
    /// There are not as many frames as geometries.
    Mismatch,
}

/// A set of geometries that share a radial and an azimuthal grid.
#[derive(Debug, Clone, Copy)]
pub struct MultiGeometry {
    /// Number of geometries.
    pub geometries: usize,
    /// Common radial range; found from the data where it is not given.
    pub radial_range: Option<(u64, u64)>,
    /// Common azimuthal range in degrees; found from the data where it is not given.
    pub azimuth_range: Option<(u64, u64)>,
    /// Value for bins without data.
    pub empty: u64,
}

/// Some array holds the value.
pub open spec fn occurs(arrays: Seq<Vec<u64>>, v: u64) -> bool {
    exists|a: int, k: int|
        0 <= a < arrays.len() && 0 <= k < arrays[a]@.len() && #[trigger] arrays[a]@[k] == v
}

/// `(lo, hi)` are the smallest and the largest of the positions of all geometries,
/// NaNs left out, starting from infinity.
pub open spec fn is_common_range(arrays: Seq<Vec<u64>>, lo: u64, hi: u64) -> bool {
    &&& !is_nan(lo)
    &&& !is_nan(hi)
    &&& forall|a: int, k: int|
        0 <= a < arrays.len() && 0 <= k < arrays[a]@.len() ==> is_nan(#[trigger] arrays[a]@[k])
            || rank(lo) <= rank(arrays[a]@[k]) <= rank(hi)
    &&& lo == INFINITY || occurs(arrays, lo)
    &&& hi == NEG_INFINITY || occurs(arrays, hi)
}

/// The range of the positions of all geometries.
pub fn guess_range(arrays: &Vec<Vec<u64>>) -> (r: (u64, u64))
    ensures
        is_common_range(arrays@, r.0, r.1),
{
    let mut lo: u64 = INFINITY;
    let mut hi: u64 = NEG_INFINITY;
    let mut a: usize = 0;
    while a < arrays.len()
        invariant
            a <= arrays@.len(),
            !is_nan(lo),
            !is_nan(hi),
            forall|b: int, k: int|
                0 <= b < a && 0 <= k < arrays@[b]@.len() ==> is_nan(#[trigger] arrays@[b]@[k])
                    || rank(lo) <= rank(arrays@[b]@[k]) <= rank(hi),
            lo == INFINITY || occurs(arrays@, lo),
            hi == NEG_INFINITY || occurs(arrays@, hi),
        decreases arrays@.len() - a,
    {
        let array: &Vec<u64> = &arrays[a];
        let mut i: usize = 0;
        while i < array.len()
            invariant
                a < arrays@.len(),
                array@ == arrays@[a as int]@,
                i <= array@.len(),
                !is_nan(lo),
                !is_nan(hi),
                forall|b: int, k: int|
                    0 <= b < a && 0 <= k < arrays@[b]@.len() ==> is_nan(#[trigger] arrays@[b]@[k])
                        || rank(lo) <= rank(arrays@[b]@[k]) <= rank(hi),
                forall|k: int|
                    0 <= k < i ==> is_nan(#[trigger] arrays@[a as int]@[k]) || rank(lo) <= rank(
                        arrays@[a as int]@[k],
                    ) <= rank(hi),
                lo == INFINITY || occurs(arrays@, lo),
                hi == NEG_INFINITY || occurs(arrays@, hi),
            decreases array@.len() - i,
        {
            let v: u64 = array[i];
            assert(arrays@[a as int]@[i as int] == v);
            assert(occurs(arrays@, v));
            if greater(lo, v) {
                lo = v;
            }
            if greater(v, hi) {
                hi = v;
            }
            i = i + 1;
        }
        a = a + 1;
    }
    (lo, hi)
}

/// The value of [`MultiGeometry::check_frames`].
pub open spec fn frames_check(frames: int, geometries: int) -> Result<(), FramesError> {
    if frames == 0 {
        Err(FramesError::Empty)
    } else if frames != geometries {
        Err(FramesError::Mismatch)
    } else {
        Ok(())
    }
}

impl MultiGeometry {
    /// Geometries with ranges to be found from the data, and zero for bins without
    /// data.
    pub fn new(geometries: usize) -> (m: Self)
        ensures
            m.geometries == geometries,
            m.radial_range is None,
            m.azimuth_range is None,
            m.empty == ZERO,
    {
        MultiGeometry { geometries, radial_range: None, azimuth_range: None, empty: ZERO }
    }

    /// The radial range of the grid: the given one, else that of the radial positions
    /// of all geometries.
    pub fn effective_radial_range(&self, radial: &Vec<Vec<u64>>) -> (r: (u64, u64))
        ensures
            self.radial_range is Some ==> r == self.radial_range->0,
            self.radial_range is None ==> is_common_range(radial@, r.0, r.1),
    {
        match self.radial_range {
            Some(r) => r,
            None => guess_range(radial),
        }
    }

    /// The azimuthal range of the grid: the given one, else that of the azimuthal
    /// positions of all geometries.
    pub fn effective_azimuth_range(&self, azimuthal: &Vec<Vec<u64>>) -> (r: (u64, u64))
        ensures
            self.azimuth_range is Some ==> r == self.azimuth_range->0,
            self.azimuth_range is None ==> is_common_range(azimuthal@, r.0, r.1),
    {
        match self.azimuth_range {
            Some(r) => r,
            None => guess_range(azimuthal),
        }
    }

    /// Checks that there is a frame for each geometry, and one at all.
    pub fn check_frames(&self, frames: usize) -> (r: Result<(), FramesError>)
        ensures
            r == if frames == 0 {
                Err::<(), FramesError>(FramesError::Empty)
            } else if frames != self.geometries {
                Err::<(), FramesError>(FramesError::Mismatch)
            } else {
                Ok::<(), FramesError>(())
            },
            r == frames_check(frames as int, self.geometries as int),
    {
        if frames == 0 {
            Err(FramesError::Empty)
        } else if frames != self.geometries {
            Err(FramesError::Mismatch)
        } else {
            Ok(())
        }
    }

    /// Integrates the frames of all geometries into one result: `integrate` gives the
    /// result of one geometry, `join` joins two results. The results are joined in the
    /// order of the geometries, from the first on.
    pub fn integrate<R, I: Fn(usize) -> R, J: Fn(R, R) -> R>(
        &self,
        frames: usize,
        integrate: I,
        join: J,
    ) -> (r: Result<R, FramesError>)
        requires
            forall|k: usize| k < self.geometries ==> #[trigger] integrate.requires((k,)),
            forall|a: R, b: R| #[trigger] join.requires((a, b)),
        ensures
            match r {
                Ok(out) => 0 < frames == self.geometries && joins_to(
                    integrate,
                    join,
                    frames as int,
                    out,
                ),
                Err(e) => e == if frames == 0 {
                    FramesError::Empty
                } else {
                    FramesError::Mismatch
                } && (frames == 0 || frames != self.geometries),
            },
    {
        match self.check_frames(frames) {
            Err(e) => Err(e),
            Ok(_) => {
                let mut acc: R = integrate(0);
                let mut k: usize = 1;
                while k < frames
                    invariant
                        1 <= k <= frames == self.geometries,
                        forall|k: usize|
                            k < self.geometries ==> #[trigger] integrate.requires((k,)),
                        forall|a: R, b: R| #[trigger] join.requires((a, b)),
                        joins_to(integrate, join, k as int, acc),
                    decreases frames - k,
                {
                    let ghost before = acc;
                    let next: R = integrate(k);
                    let ghost added = next;
                    acc = join(acc, next);
                    proof {
                        assert(join.ensures((before, added), acc));
                    }
                    k = k + 1;
                }
                Ok(acc)
            },
        }
    }
}

/// `out` is what joining the results of the first `n` geometries, in their order, gives.
pub open spec fn joins_to<R, I: Fn(usize) -> R, J: Fn(R, R) -> R>(
    integrate: I,
    join: J,
    n: int,
    out: R,
) -> bool
    decreases n,
{
    if n <= 1 {
        integrate.ensures((0,), out)
    } else {
        exists|a: R, b: R|
            joins_to(integrate, join, n - 1, a) && integrate.ensures(((n - 1) as usize,), b)
                && #[trigger] join.ensures((a, b), out)
    }
}

/// The common range is determined, up to the sign of a zero.
pub proof fn lemma_common_range_unique(
    arrays: Seq<Vec<u64>>,
    lo: u64,
    hi: u64,
    lo2: u64,
    hi2: u64,
)
    requires
        is_common_range(arrays, lo, hi),
        is_common_range(arrays, lo2, hi2),
    ensures
        rank(lo) == rank(lo2),
        rank(hi) == rank(hi2),
{
    assert forall|v: u64| occurs(arrays, v) && !is_nan(v) implies #[trigger] rank(lo) <= #[trigger] rank(v)
        && rank(lo2) <= rank(v) && rank(v) <= rank(hi) && rank(v) <= rank(hi2) by {
        let (a, k) = choose|a: int, k: int|
            0 <= a < arrays.len() && 0 <= k < arrays[a]@.len() && #[trigger] arrays[a]@[k] == v;
        assert(arrays[a]@[k] == v);
    }
}

/// Where joining adds what two results are worth, the joined result is worth what the
/// results of all geometries are worth together: each of them is taken in once.
pub proof fn lemma_joined_results<R, I: Fn(usize) -> R, J: Fn(R, R) -> R>(
    integrate: I,
    join: J,
    n: int,
    out: R,
    val: spec_fn(R) -> int,
    worth: spec_fn(int) -> int,
)
    requires
        joins_to(integrate, join, n, out),
        1 <= n <= usize::MAX,
        forall|k: usize, r: R| #[trigger] integrate.ensures((k,), r) ==> val(r) == worth(k as int),
        forall|a: R, b: R, r: R| #[trigger] join.ensures((a, b), r) ==> val(r) == val(a) + val(b),
    ensures
        val(out) == sum_to(worth, n),
    decreases n,
{
    if n > 1 {
        let (a, b) = choose|a: R, b: R|
            joins_to(integrate, join, n - 1, a) && integrate.ensures(((n - 1) as usize,), b)
                && #[trigger] join.ensures((a, b), out);
        lemma_joined_results(integrate, join, n - 1, a, val, worth);
    } else {
        assert(integrate.ensures((0,), out));
        assert(sum_to(worth, 0) == 0);
    }
}

/// What joining takes over from the result joined to, comes from the first geometry.
pub proof fn lemma_first_geometry_leads<R, A, I: Fn(usize) -> R, J: Fn(R, R) -> R>(
    integrate: I,
    join: J,
    n: int,
    out: R,
    axes: spec_fn(R) -> A,
    first: A,
)
    requires
        joins_to(integrate, join, n, out),
        forall|r: R| #[trigger] integrate.ensures((0,), r) ==> axes(r) == first,
        forall|a: R, b: R, r: R| #[trigger] join.ensures((a, b), r) ==> axes(r) == axes(a),
    ensures
        axes(out) == first,
    decreases n,
{
    if n > 1 {
        let (a, b) = choose|a: R, b: R|
            joins_to(integrate, join, n - 1, a) && integrate.ensures(((n - 1) as usize,), b)
                && #[trigger] join.ensures((a, b), out);
        lemma_first_geometry_leads(integrate, join, n - 1, a, axes, first);
    } else {
        assert(integrate.ensures((0,), out));
    }
}

/// Frames are taken where there is one for each geometry and one at all; that there is none
/// at all is told first.
pub proof fn lemma_frames(frames: int, geometries: int)
    ensures
        frames_check(frames, geometries) is Ok <==> frames == geometries && frames != 0,
        frames_check(frames, geometries) == Err::<(), FramesError>(FramesError::Empty) <==> frames
            == 0,
        frames_check(frames, geometries) == Err::<(), FramesError>(FramesError::Mismatch)
            <==> frames != 0 && frames != geometries,
{
}

} // verus!
