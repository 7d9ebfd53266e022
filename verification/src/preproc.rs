//! Preprocessing of a detector frame: which pixels are valid, and which corrections
//! apply to each of them in which order.
//!
//! Every pixel becomes a row of signal, variance, normalization and count. The
//! values are single-precision bit patterns. What is decided here is all but the
//! arithmetic: where a row starts, which corrections follow, and what becomes of the
//! corrected numbers.

use crate::builder::{is_masked, mask_fits, masked_out};
use crate::ieee::{
    finite, greater, gt, is_finite, is_nan, magnitude, rank, same_number, zero, ONE,
};
use crate::accumulate::{fold, folds_to};
use vstd::prelude::*;

verus! {

/// Optional correction inputs and flags. All arrays that are present have the length
/// of the frame.
pub struct PreprocOptions<'a> {
    /// Dark current to subtract from the signal.
    pub dark: Option<&'a [u32]>,
    /// Flat field: multiplies the normalization and is checked for the dummy value.
    pub flat: Option<&'a [u32]>,
    /// Solid-angle correction: multiplies the normalization.
    pub solidangle: Option<&'a [u32]>,
    /// Polarization correction: multiplies the normalization.
    pub polarization: Option<&'a [u32]>,
    /// Absorption correction: multiplies the normalization.
    pub absorption: Option<&'a [u32]>,
    /// Mask: pixel invalid where `mask[i] != 0`.
    pub mask: Option<&'a [i8]>,
    /// Per-pixel variance, used unless the error model is Poisson's.
    pub variance: Option<&'a [u32]>,
    /// Variance of the dark current, added where it is subtracted.
    pub dark_variance: Option<&'a [u32]>,
    /// Where the normalization starts.
    pub normalization_factor: u32,
    /// Poisson error model: the variance is the signal, but at least one.
    pub poissonian: bool,
    /// Check the signal for the dummy value.
    pub check_dummy: bool,
    /// The dummy value.
    pub dummy: u32,
    /// Tolerance around the dummy value; zero compares exactly.
    pub delta_dummy: u32,
    /// Divide signal and variance by the normalization.
    pub apply_normalization: bool,
}

/// The array, if there is one, has `n` values.
pub open spec fn array_fits(array: Option<&[u32]>, n: int) -> bool {
    match array {
        Some(a) => a@.len() == n,
        None => true,
    }
}

/// A correction of a pixel.
#[derive(Debug, Clone, Copy, PartialEq, Eq, Structural)]
pub enum Correction {
    /// Subtract from the signal.
    Dark(u32),
    /// Add to the variance.
    DarkVariance(u32),
    /// Multiply the normalization with the flat field.
    Flat(u32),
    /// Multiply the normalization with the polarization.
    Polarization(u32),
    /// Multiply the normalization with the solid angle.
    SolidAngle(u32),
    /// Multiply the normalization with the absorption.
    Absorption(u32),
}

/// Where the row of a valid pixel starts, and the corrections that follow.
#[derive(Debug)]
pub struct PixelStart {
    /// The signal.
    pub signal: u32,
    /// The variance.
    pub variance: u32,
    /// The normalization.
    pub norm: u32,
    /// The corrections, in the order in which they are applied.
    pub corrections: Vec<Correction>,
}

/// The distance of a value from the dummy value, as far as it matters: larger than a
/// tolerance that is not zero.
#[derive(Debug, Clone, Copy, PartialEq, Eq, Structural)]
pub struct DummyDistance {
    /// The signal differs from the dummy value by more than the tolerance.
    pub signal: bool,
    /// The flat field differs from the dummy value by more than the tolerance.
    pub flat: bool,
}

/// The value is not the dummy value: it differs from it, by more than the tolerance
/// where that is not zero.
pub open spec fn not_dummy(value: u32, dummy: u32, delta_dummy: u32, far: bool) -> bool {
    if magnitude(delta_dummy) == 0 {
        is_nan(value) || is_nan(dummy) || rank(value) != rank(dummy)
    } else {
        far
    }
}

/// Tests whether a value is valid with regard to the dummy value. `far` tells
/// whether it differs from it by more than the tolerance.
pub fn dummy_ok(value: u32, dummy: u32, delta_dummy: u32, far: bool) -> (b: bool)
    ensures
        b == not_dummy(value, dummy, delta_dummy, far),
{
    if zero(delta_dummy) {
        !same_number(value, dummy)
    } else {
        far
    }
}

/// One correction where the array is there.
pub open spec fn correction(
    array: Option<&[u32]>,
    i: int,
    make: spec_fn(u32) -> Correction,
) -> Seq<Correction> {
    match array {
        Some(a) => seq![make(a@[i])],
        None => Seq::empty(),
    }
}

impl<'a> PreprocOptions<'a> {
    /// All arrays have `n` values.
    pub open spec fn fits(&self, n: int) -> bool {
        &&& array_fits(self.dark, n)
        &&& array_fits(self.flat, n)
        &&& array_fits(self.solidangle, n)
        &&& array_fits(self.polarization, n)
        &&& array_fits(self.absorption, n)
        &&& mask_fits(self.mask, n)
        &&& array_fits(self.variance, n)
        &&& array_fits(self.dark_variance, n)
    }

    /// No correction, no mask, no error model; the normalization starts at `factor`.
    pub fn plain(factor: u32) -> (o: Self)
        ensures
            o.dark is None,
            o.flat is None,
            o.solidangle is None,
            o.polarization is None,
            o.absorption is None,
            o.mask is None,
            o.variance is None,
            o.dark_variance is None,
            o.normalization_factor == factor,
            !o.poissonian,
            !o.check_dummy,
            o.dummy == 0,
            o.delta_dummy == 0,
            !o.apply_normalization,
    {
        PreprocOptions {
            dark: None,
            flat: None,
            solidangle: None,
            polarization: None,
            absorption: None,
            mask: None,
            variance: None,
            dark_variance: None,
            normalization_factor: factor,
            poissonian: false,
            check_dummy: false,
            dummy: 0,
            delta_dummy: 0,
            apply_normalization: false,
        }
    }

    /// Pixel `i` is valid: its signal is finite, it is not masked, and neither its
    /// signal, where that is checked, nor its flat field is the dummy value.
    pub open spec fn is_valid(&self, data: Seq<u32>, i: int, far: DummyDistance) -> bool {
        &&& is_finite(data[i])
        &&& !masked_out(self.mask, i)
        &&& self.check_dummy ==> not_dummy(data[i], self.dummy, self.delta_dummy, far.signal)
        &&& self.flat is Some ==> not_dummy(
            (self.flat->0)@[i],
            self.dummy,
            self.delta_dummy,
            far.flat,
        )
    }

    /// Where the variance of pixel `i` starts.
    pub open spec fn first_variance(&self, data: Seq<u32>, i: int) -> u32 {
        if self.poissonian {
            if gt(data[i], ONE) {
                data[i]
            } else {
                ONE
            }
        } else {
            match self.variance {
                Some(v) => v@[i],
                None => 0,
            }
        }
    }

    /// The corrections of pixel `i`, in the order in which they are applied.
    pub open spec fn corrections(&self, i: int) -> Seq<Correction> {
        correction(self.dark, i, |x: u32| Correction::Dark(x)) + (if self.dark is Some {
            correction(self.dark_variance, i, |x: u32| Correction::DarkVariance(x))
        } else {
            Seq::empty()
        }) + correction(self.flat, i, |x: u32| Correction::Flat(x)) + correction(
            self.polarization,
            i,
            |x: u32| Correction::Polarization(x),
        ) + correction(self.solidangle, i, |x: u32| Correction::SolidAngle(x)) + correction(
            self.absorption,
            i,
            |x: u32| Correction::Absorption(x),
        )
    }

    /// Tests [`PreprocOptions::is_valid`].
    fn check(&self, data: &[u32], i: usize, far: DummyDistance) -> (b: bool)
        requires
            self.fits(data@.len() as int),
            i < data@.len(),
        ensures
            b == self.is_valid(data@, i as int, far),
    {
        if !finite(data[i]) || is_masked(self.mask, i) {
            return false;
        }
        if self.check_dummy && !dummy_ok(data[i], self.dummy, self.delta_dummy, far.signal) {
            return false;
        }
        match self.flat {
            Some(flat) => dummy_ok(flat[i], self.dummy, self.delta_dummy, far.flat),
            None => true,
        }
    }

    /// Starts the row of pixel `i`: where it starts and which corrections follow, or
    /// nothing where the pixel is not valid and its row is zero.
    pub fn start_pixel(&self, data: &[u32], i: usize, far: DummyDistance) -> (p: Option<PixelStart>)
        requires
            self.fits(data@.len() as int),
            i < data@.len(),
        ensures
            p is Some <==> self.is_valid(data@, i as int, far),
            p is Some ==> (p->0).signal == data@[i as int] && (p->0).norm
                == self.normalization_factor && (p->0).variance == self.first_variance(
                data@,
                i as int,
            ) && (p->0).corrections@ == self.corrections(i as int),
    {
        if !self.check(data, i, far) {
            return None;
        }
        let variance: u32 = if self.poissonian {
            if greater(data[i], ONE) {
                data[i]
            } else {
                ONE
            }
        } else {
            match self.variance {
                Some(v) => v[i],
                None => 0,
            }
        };
        let mut corrections: Vec<Correction> = Vec::new();
        if let Some(dark) = self.dark {
            corrections.push(Correction::Dark(dark[i]));
            if let Some(dv) = self.dark_variance {
                corrections.push(Correction::DarkVariance(dv[i]));
            }
        }
        if let Some(flat) = self.flat {
            corrections.push(Correction::Flat(flat[i]));
        }
        if let Some(pol) = self.polarization {
            corrections.push(Correction::Polarization(pol[i]));
        }
        if let Some(sa) = self.solidangle {
            corrections.push(Correction::SolidAngle(sa[i]));
        }
        if let Some(ab) = self.absorption {
            corrections.push(Correction::Absorption(ab[i]));
        }
        assert(corrections@ =~= self.corrections(i as int));
        Some(
            PixelStart {
                signal: data[i],
                variance,
                norm: self.normalization_factor,
                corrections,
            },
        )
    }
}

/// What becomes of the corrected numbers of a pixel.
#[derive(Debug, Clone, Copy, PartialEq, Eq, Structural)]
pub enum Finish {
    /// The row is zero.
    Drop,
    /// The row is signal, variance, normalization and a count of one.
    Keep,
    /// As [`Finish::Keep`], with the signal divided by the normalization, the variance
    /// by its square, and the normalization set to one.
    Divide,
}

/// Signal, variance and normalization of a pixel.
pub type Numbers = (u32, u32, u32);

/// What [`finish_pixel`] decides.
pub open spec fn finish_of(n: Numbers, apply_normalization: bool) -> Finish {
    if !(is_finite(n.0) && is_finite(n.1) && is_finite(n.2) && magnitude(n.2) != 0) {
        Finish::Drop
    } else if apply_normalization {
        Finish::Divide
    } else {
        Finish::Keep
    }
}

/// Decides what becomes of the corrected numbers of a pixel: they are dropped unless
/// all are finite and the normalization is not zero.
pub fn finish_pixel(signal: u32, variance: u32, norm: u32, apply_normalization: bool) -> (f: Finish)
    ensures
        f == finish_of((signal, variance, norm), apply_normalization),
{
    if !(finite(signal) && finite(norm) && finite(variance) && !zero(norm)) {
        Finish::Drop
    } else if apply_normalization {
        Finish::Divide
    } else {
        Finish::Keep
    }
}

/// The row of a pixel that is not valid.
pub const ZERO_ROW: [u32; 4] = [0, 0, 0, 0];

/// `row` is the row of a pixel whose corrected numbers are `n`: zero, or signal,
/// variance, normalization and a count of one. `divide` gives the signal divided by
/// the normalization and the variance divided by its square.
pub open spec fn is_finished<D: Fn(Numbers) -> (u32, u32)>(
    n: Numbers,
    apply_normalization: bool,
    divide: D,
    row: Seq<u32>,
) -> bool {
    match finish_of(n, apply_normalization) {
        Finish::Drop => row == ZERO_ROW@,
        Finish::Keep => row == seq![n.0, n.1, n.2, ONE],
        Finish::Divide => exists|m: (u32, u32)| #[trigger]
            divide.ensures((n,), m) && row == seq![m.0, m.1, ONE, ONE],
    }
}

/// `row` is the row of pixel `i`: zero where the pixel is not valid, else what follows
/// from its numbers once the corrections are carried out, one after the other.
pub open spec fn is_row<F: Fn(Numbers, Correction) -> Numbers, D: Fn(Numbers) -> (u32, u32)>(
    data: Seq<u32>,
    opt: PreprocOptions<'_>,
    i: int,
    far: DummyDistance,
    correct: F,
    divide: D,
    row: Seq<u32>,
) -> bool {
    if opt.is_valid(data, i, far) {
        exists|n: Numbers|
            folds_to(
                correct,
                (data[i], opt.first_variance(data, i), opt.normalization_factor),
                opt.corrections(i),
                n,
            ) && #[trigger] is_finished(n, opt.apply_normalization, divide, row)
    } else {
        row == ZERO_ROW@
    }
}

/// The row of one pixel, see [`is_row`].
fn preproc_row<F: Fn(Numbers, Correction) -> Numbers, D: Fn(Numbers) -> (u32, u32)>(
    data: &[u32],
    opt: &PreprocOptions<'_>,
    i: usize,
    far: DummyDistance,
    correct: &F,
    divide: &D,
) -> (row: [u32; 4])
    requires
        opt.fits(data@.len() as int),
        i < data@.len(),
        forall|n: Numbers, c: Correction| #[trigger] correct.requires((n, c)),
        forall|n: Numbers| #[trigger] divide.requires((n,)),
    ensures
        is_row(data@, *opt, i as int, far, *correct, *divide, row@),
{
    match opt.start_pixel(data, i, far) {
        None => ZERO_ROW,
        Some(start) => {
            let n: Numbers = fold(
                (start.signal, start.variance, start.norm),
                &start.corrections,
                correct,
            );
            let row: [u32; 4] = match finish_pixel(n.0, n.1, n.2, opt.apply_normalization) {
                Finish::Drop => ZERO_ROW,
                Finish::Keep => [n.0, n.1, n.2, ONE],
                Finish::Divide => {
                    let m: (u32, u32) = divide(n);
                    let divided: [u32; 4] = [m.0, m.1, ONE, ONE];
                    assert(divided@ =~= seq![m.0, m.1, ONE, ONE]);
                    divided
                },
            };
            proof {
                if finish_of(n, opt.apply_normalization) == Finish::Keep {
                    assert(row@ =~= seq![n.0, n.1, n.2, ONE]);
                }
                assert(is_finished(n, opt.apply_normalization, *divide, row@));
            }
            row
        },
    }
}

/// Preprocesses a frame into rows of signal, variance, normalization and count, one
/// after the other. `far` holds the distances from the dummy value for each pixel;
/// `correct` carries one correction out, `divide` the division by the normalization.
pub fn preproc4<F: Fn(Numbers, Correction) -> Numbers, D: Fn(Numbers) -> (u32, u32)>(
    data: &[u32],
    opt: &PreprocOptions<'_>,
    far: &[DummyDistance],
    correct: F,
    divide: D,
) -> (out: Vec<u32>)
    requires
        opt.fits(data@.len() as int),
        far@.len() == data@.len(),
        4 * data@.len() <= usize::MAX,
        forall|n: Numbers, c: Correction| #[trigger] correct.requires((n, c)),
        forall|n: Numbers| #[trigger] divide.requires((n,)),
    ensures
        out@.len() == 4 * data@.len(),
        forall|i: int|
            0 <= i < data@.len() ==> is_row(
                data@,
                *opt,
                i,
                #[trigger] far@[i],
                correct,
                divide,
                out@.subrange(4 * i, 4 * i + 4),
            ),
{
    let mut out: Vec<u32> = Vec::new();
    let mut i: usize = 0;
    while i < data.len()
        invariant
            i <= data@.len(),
            opt.fits(data@.len() as int),
            far@.len() == data@.len(),
            4 * data@.len() <= usize::MAX,
            forall|n: Numbers, c: Correction| #[trigger] correct.requires((n, c)),
            forall|n: Numbers| #[trigger] divide.requires((n,)),
            out@.len() == 4 * i,
            forall|k: int|
                0 <= k < i ==> is_row(
                    data@,
                    *opt,
                    k,
                    #[trigger] far@[k],
                    correct,
                    divide,
                    out@.subrange(4 * k, 4 * k + 4),
                ),
        decreases data@.len() - i,
    {
        let row: [u32; 4] = preproc_row(data, opt, i, far[i], &correct, &divide);
        let ghost before = out@;
        out.push(row[0]);
        out.push(row[1]);
        out.push(row[2]);
        out.push(row[3]);
        proof {
            assert(out@.subrange(4 * i, 4 * i + 4) =~= row@);
            assert forall|k: int| 0 <= k < i + 1 implies is_row(
                data@,
                *opt,
                k,
                #[trigger] far@[k],
                correct,
                divide,
                out@.subrange(4 * k, 4 * k + 4),
            ) by {
                if k < i {
                    assert(out@.subrange(4 * k, 4 * k + 4) =~= before.subrange(4 * k, 4 * k + 4));
                }
            }
        }
        i = i + 1;
    }
    out
}

/// A pixel that is not valid counts nothing: its row is zero.
pub proof fn lemma_invalid_row_is_zero<
    F: Fn(Numbers, Correction) -> Numbers,
    D: Fn(Numbers) -> (u32, u32),
>(
    data: Seq<u32>,
    opt: PreprocOptions<'_>,
    i: int,
    far: DummyDistance,
    correct: F,
    divide: D,
    row: Seq<u32>,
)
    requires
        is_row(data, opt, i, far, correct, divide, row),
        !is_finite(data[i]) || masked_out(opt.mask, i),
    ensures
        row == seq![0u32, 0, 0, 0],
{
    assert(row =~= seq![0u32, 0, 0, 0]);
}

/// A row counts one pixel or none, and one that counts none is zero.
pub proof fn lemma_row_counts<
    F: Fn(Numbers, Correction) -> Numbers,
    D: Fn(Numbers) -> (u32, u32),
>(
    data: Seq<u32>,
    opt: PreprocOptions<'_>,
    i: int,
    far: DummyDistance,
    correct: F,
    divide: D,
    row: Seq<u32>,
)
    requires
        is_row(data, opt, i, far, correct, divide, row),
    ensures
        row.len() == 4,
        row[3] == ONE || row == seq![0u32, 0, 0, 0],
{
    if row[3] != ONE {
        assert(row =~= seq![0u32, 0, 0, 0]);
    }
}

/// When a correction is due: the dark current and its variance first, then what multiplies
/// the normalization.
pub open spec fn due(c: Correction) -> int {
    match c {
        Correction::Dark(_) => 0,
        Correction::DarkVariance(_) => 1,
        Correction::Flat(_) => 2,
        Correction::Polarization(_) => 3,
        Correction::SolidAngle(_) => 4,
        Correction::Absorption(_) => 5,
    }
}

/// The array is there and holds `v` for pixel `i`.
pub open spec fn given(array: Option<&[u32]>, i: int, v: u32) -> bool {
    array is Some && (array->0)@[i] == v
}

/// Every correction whose array is given is carried out, each once and in its turn, with
/// the value of the pixel, and no other is; none depends on which other arrays are given,
/// but that the variance of the dark current goes with the dark current.
pub proof fn lemma_corrections_are_those_given(opt: PreprocOptions<'_>, i: int)
    ensures
        forall|a: int, b: int|
            0 <= a < b < opt.corrections(i).len() ==> due(#[trigger] opt.corrections(i)[a]) < due(
                #[trigger] opt.corrections(i)[b],
            ),
        forall|v: u32| #[trigger]
            opt.corrections(i).contains(Correction::Dark(v)) <==> given(opt.dark, i, v),
        forall|v: u32| #[trigger]
            opt.corrections(i).contains(Correction::DarkVariance(v)) <==> opt.dark is Some && given(opt.dark_variance, i, v),
        forall|v: u32| #[trigger]
            opt.corrections(i).contains(Correction::Flat(v)) <==> given(opt.flat, i, v),
        forall|v: u32| #[trigger]
            opt.corrections(i).contains(Correction::Polarization(v)) <==> given(opt.polarization, i, v),
        forall|v: u32| #[trigger]
            opt.corrections(i).contains(Correction::SolidAngle(v)) <==> given(opt.solidangle, i, v),
        forall|v: u32| #[trigger]
            opt.corrections(i).contains(Correction::Absorption(v)) <==> given(opt.absorption, i, v),
{
    let dv = if opt.dark is Some {
        opt.dark_variance
    } else {
        None
    };
    let c0 = Seq::<Correction>::empty();
    let c1 = c0 + correction(opt.dark, i, |x: u32| Correction::Dark(x));
    let c2 = c1 + correction(dv, i, |x: u32| Correction::DarkVariance(x));
    let c3 = c2 + correction(opt.flat, i, |x: u32| Correction::Flat(x));
    let c4 = c3 + correction(opt.polarization, i, |x: u32| Correction::Polarization(x));
    let c5 = c4 + correction(opt.solidangle, i, |x: u32| Correction::SolidAngle(x));
    let c6 = c5 + correction(opt.absorption, i, |x: u32| Correction::Absorption(x));
    assert(opt.corrections(i) =~= c6);
    lemma_one_more(c0, opt.dark, i, |x: u32| Correction::Dark(x), 0);
    lemma_one_more(c1, dv, i, |x: u32| Correction::DarkVariance(x), 1);
    lemma_one_more(c2, opt.flat, i, |x: u32| Correction::Flat(x), 2);
    lemma_one_more(c3, opt.polarization, i, |x: u32| Correction::Polarization(x), 3);
    lemma_one_more(c4, opt.solidangle, i, |x: u32| Correction::SolidAngle(x), 4);
    lemma_one_more(c5, opt.absorption, i, |x: u32| Correction::Absorption(x), 5);
}

/// The corrections are in their turn, and due before `t`.
spec fn in_turn(cs: Seq<Correction>, t: int) -> bool {
    &&& forall|k: int| 0 <= k < cs.len() ==> due(#[trigger] cs[k]) < t
    &&& forall|a: int, b: int|
        0 <= a < b < cs.len() ==> due(#[trigger] cs[a]) < due(#[trigger] cs[b])
}

/// A correction that is due at `t`, where it is given.
proof fn lemma_one_more(
    cs: Seq<Correction>,
    array: Option<&[u32]>,
    i: int,
    make: spec_fn(u32) -> Correction,
    t: int,
)
    requires
        in_turn(cs, t),
        forall|v: u32| due(#[trigger] make(v)) == t,
    ensures
        in_turn(cs + correction(array, i, make), t + 1),
        forall|c: Correction|
            due(c) < t ==> #[trigger] (cs + correction(array, i, make)).contains(c) == cs.contains(
                c,
            ),
        forall|c: Correction|
            due(c) == t ==> #[trigger] (cs + correction(array, i, make)).contains(c) == (
            array is Some && c == make((array->0)@[i])),
{
    let more = cs + correction(array, i, make);
    assert forall|c: Correction| due(c) < t implies #[trigger] more.contains(c) == cs.contains(c) by {
        if cs.contains(c) {
            let k = choose|k: int| 0 <= k < cs.len() && cs[k] == c;
            assert(more[k] == c);
        }
    }
    if array is Some {
        assert(more[cs.len() as int] == make((array->0)@[i]));
    }
}

/// Corrections are carried out exactly; `val` is what a number is worth. The dark current
/// is subtracted from the signal, its variance is added to the variance, and everything
/// else multiplies the normalization.
pub open spec fn corrects_exactly<F: Fn(Numbers, Correction) -> Numbers>(
    correct: F,
    val: spec_fn(u32) -> int,
) -> bool {
    forall|n: Numbers, c: Correction, m: Numbers| #[trigger]
        correct.ensures((n, c), m) ==> match c {
            Correction::Dark(x) => val(m.0) == val(n.0) - val(x) && m.1 == n.1 && m.2 == n.2,
            Correction::DarkVariance(x) => m.0 == n.0 && val(m.1) == val(n.1) + val(x) && m.2
                == n.2,
            Correction::Flat(x) => m.0 == n.0 && m.1 == n.1 && val(m.2) == val(n.2) * val(x),
            Correction::Polarization(x) => m.0 == n.0 && m.1 == n.1 && val(m.2) == val(n.2) * val(
                x,
            ),
            Correction::SolidAngle(x) => m.0 == n.0 && m.1 == n.1 && val(m.2) == val(n.2) * val(x),
            Correction::Absorption(x) => m.0 == n.0 && m.1 == n.1 && val(m.2) == val(n.2) * val(x),
        }
}

/// What the value of an array for pixel `i` is worth, `other` without the array.
pub open spec fn worth(
    array: Option<&[u32]>,
    i: int,
    val: spec_fn(u32) -> int,
    other: int,
) -> int {
    match array {
        Some(a) => val(a@[i]),
        None => other,
    }
}

/// One correction more, or none.
proof fn lemma_fold_correction<F: Fn(Numbers, Correction) -> Numbers>(
    correct: F,
    start: Numbers,
    items: Seq<Correction>,
    array: Option<&[u32]>,
    i: int,
    make: spec_fn(u32) -> Correction,
    end: Numbers,
) -> (mid: Numbers)
    requires
        folds_to(correct, start, items + correction(array, i, make), end),
    ensures
        folds_to(correct, start, items, mid),
        match array {
            Some(a) => correct.ensures((mid, make(a@[i])), end),
            None => mid == end,
        },
{
    let all = items + correction(array, i, make);
    match array {
        Some(a) => {
            let mid = choose|mid: Numbers|
                folds_to(correct, start, all.drop_last(), mid) && #[trigger] correct.ensures(
                    (mid, all.last()),
                    end,
                );
            assert(all.drop_last() =~= items);
            assert(all.last() == make(a@[i]));
            mid
        },
        None => {
            assert(all =~= items);
            end
        },
    }
}

/// What the corrections of a pixel make of its numbers: the dark current is subtracted from
/// the signal, its variance goes to the variance, and the normalization is multiplied by
/// the flat field, the polarization, the solid angle and the absorption, each where it is
/// given.
pub proof fn lemma_corrected_numbers<F: Fn(Numbers, Correction) -> Numbers>(
    opt: PreprocOptions<'_>,
    i: int,
    correct: F,
    val: spec_fn(u32) -> int,
    start: Numbers,
    end: Numbers,
)
    requires
        folds_to(correct, start, opt.corrections(i), end),
        corrects_exactly(correct, val),
    ensures
        val(end.0) == val(start.0) - worth(opt.dark, i, val, 0),
        val(end.1) == val(start.1) + (if opt.dark is Some {
            worth(opt.dark_variance, i, val, 0)
        } else {
            0
        }),
        val(end.2) == val(start.2) * worth(opt.flat, i, val, 1) * worth(
            opt.polarization,
            i,
            val,
            1,
        ) * worth(opt.solidangle, i, val, 1) * worth(opt.absorption, i, val, 1),
{
    let dark = |x: u32| Correction::Dark(x);
    let variance = |x: u32| Correction::DarkVariance(x);
    let flat = |x: u32| Correction::Flat(x);
    let pol = |x: u32| Correction::Polarization(x);
    let solid = |x: u32| Correction::SolidAngle(x);
    let abs = |x: u32| Correction::Absorption(x);
    let dv = if opt.dark is Some {
        opt.dark_variance
    } else {
        None
    };
    let c0 = Seq::<Correction>::empty();
    let c1 = correction(opt.dark, i, dark);
    let c2 = c1 + correction(dv, i, variance);
    let c3 = c2 + correction(opt.flat, i, flat);
    let c4 = c3 + correction(opt.polarization, i, pol);
    let c5 = c4 + correction(opt.solidangle, i, solid);
    assert(opt.corrections(i) =~= c5 + correction(opt.absorption, i, abs));
    let m5 = lemma_fold_correction(correct, start, c5, opt.absorption, i, abs, end);
    let m4 = lemma_fold_correction(correct, start, c4, opt.solidangle, i, solid, m5);
    let m3 = lemma_fold_correction(correct, start, c3, opt.polarization, i, pol, m4);
    let m2 = lemma_fold_correction(correct, start, c2, opt.flat, i, flat, m3);
    let m1 = lemma_fold_correction(correct, start, c1, dv, i, variance, m2);
    assert(c1 =~= c0 + correction(opt.dark, i, dark));
    let m0 = lemma_fold_correction(correct, start, c0, opt.dark, i, dark, m1);
    assert(m0 == start);
    let (wf, wp) = (worth(opt.flat, i, val, 1), worth(opt.polarization, i, val, 1));
    let (ws, wa) = (worth(opt.solidangle, i, val, 1), worth(opt.absorption, i, val, 1));
    assert(val(m2.2) == val(start.2));
    assert(val(m3.2) == val(m2.2) * wf) by {
        if opt.flat is None {
            assert(val(m2.2) * 1 == val(m2.2)) by (nonlinear_arith);
        }
    }
    assert(val(m4.2) == val(m3.2) * wp) by {
        if opt.polarization is None {
            assert(val(m3.2) * 1 == val(m3.2)) by (nonlinear_arith);
        }
    }
    assert(val(m5.2) == val(m4.2) * ws) by {
        if opt.solidangle is None {
            assert(val(m4.2) * 1 == val(m4.2)) by (nonlinear_arith);
        }
    }
    assert(val(end.2) == val(m5.2) * wa) by {
        if opt.absorption is None {
            assert(val(m5.2) * 1 == val(m5.2)) by (nonlinear_arith);
        }
    }
}

/// Where the variance of a pixel starts: under counting noise it is the signal or one,
/// whichever is greater, else what is given for the pixel, or zero.
pub proof fn lemma_first_variance(opt: PreprocOptions<'_>, data: Seq<u32>, i: int)
    requires
        is_finite(data[i]),
    ensures
        ({
            let v = opt.first_variance(data, i);
            &&& opt.poissonian ==> {
                &&& v == data[i] || v == ONE
                &&& rank(v) >= rank(data[i])
                &&& rank(v) >= rank(ONE)
            }
            &&& !opt.poissonian && opt.variance is Some ==> v == (opt.variance->0)@[i]
            &&& !opt.poissonian && opt.variance is None ==> v == 0
        }),
{
}

/// The value is taken for the dummy value: it is the same number, or within the tolerance
/// where that is not zero.
pub open spec fn taken_for_dummy(opt: PreprocOptions<'_>, value: u32, far: bool) -> bool {
    if opt.delta_dummy == 0 || opt.delta_dummy == 0x8000_0000 {
        value == opt.dummy && !is_nan(value) || (value == 0 || value == 0x8000_0000) && (opt.dummy
            == 0 || opt.dummy == 0x8000_0000)
    } else {
        !far
    }
}

/// Which pixels count: those that are finite and not masked, whose signal is not taken for
/// the dummy value where that is checked, nor their flat field, and whose corrected numbers
/// are finite with a normalization other than zero. All other rows are zero.
pub proof fn lemma_which_rows_count<
    F: Fn(Numbers, Correction) -> Numbers,
    D: Fn(Numbers) -> (u32, u32),
>(
    data: Seq<u32>,
    opt: PreprocOptions<'_>,
    i: int,
    far: DummyDistance,
    correct: F,
    divide: D,
    row: Seq<u32>,
)
    requires
        is_row(data, opt, i, far, correct, divide, row),
    ensures
        row.len() == 4,
        row[3] == ONE <==> {
            &&& data[i] < 0x7f80_0000 || 0x8000_0000 <= data[i] < 0xff80_0000
            &&& opt.mask matches Some(m) ==> m@[i] == 0
            &&& opt.check_dummy ==> !taken_for_dummy(opt, data[i], far.signal)
            &&& opt.flat matches Some(f) ==> !taken_for_dummy(opt, f@[i], far.flat)
            &&& exists|n: Numbers|
                #[trigger] folds_to(
                    correct,
                    (data[i], opt.first_variance(data, i), opt.normalization_factor),
                    opt.corrections(i),
                    n,
                ) && is_finite(n.0) && is_finite(n.1) && is_finite(n.2) && n.2 != 0 && n.2
                    != 0x8000_0000 && is_finished(n, opt.apply_normalization, divide, row)
        },
        row[3] == ONE || row =~= seq![0u32, 0, 0, 0],
{
    assert(ZERO_ROW@ =~= seq![0u32, 0, 0, 0]);
    if opt.is_valid(data, i, far) {
        let n = choose|n: Numbers|
            folds_to(
                correct,
                (data[i], opt.first_variance(data, i), opt.normalization_factor),
                opt.corrections(i),
                n,
            ) && #[trigger] is_finished(n, opt.apply_normalization, divide, row);
        if finish_of(n, opt.apply_normalization) != Finish::Drop {
            assert(folds_to(
                correct,
                (data[i], opt.first_variance(data, i), opt.normalization_factor),
                opt.corrections(i),
                n,
            ));
        }
    }
}

/// The row of a pixel that counts: its corrected signal, variance and normalization, see
/// [`lemma_corrected_numbers`]; where the normalization is applied, it is one, and signal
/// and variance are what dividing gives.
pub proof fn lemma_row_of_a_counting_pixel<
    F: Fn(Numbers, Correction) -> Numbers,
    D: Fn(Numbers) -> (u32, u32),
>(
    data: Seq<u32>,
    opt: PreprocOptions<'_>,
    i: int,
    far: DummyDistance,
    correct: F,
    divide: D,
    val: spec_fn(u32) -> int,
    row: Seq<u32>,
) -> (n: Numbers)
    requires
        is_row(data, opt, i, far, correct, divide, row),
        corrects_exactly(correct, val),
        row[3] == ONE,
    ensures
        val(n.0) == val(data[i]) - worth(opt.dark, i, val, 0),
        val(n.1) == val(opt.first_variance(data, i)) + (if opt.dark is Some {
            worth(opt.dark_variance, i, val, 0)
        } else {
            0
        }),
        val(n.2) == val(opt.normalization_factor) * worth(opt.flat, i, val, 1) * worth(
            opt.polarization,
            i,
            val,
            1,
        ) * worth(opt.solidangle, i, val, 1) * worth(opt.absorption, i, val, 1),
        !opt.apply_normalization ==> row[0] == n.0 && row[1] == n.1 && row[2] == n.2,
        opt.apply_normalization ==> divide.ensures((n,), (row[0], row[1])) && row[2] == ONE,
{
    lemma_which_rows_count(data, opt, i, far, correct, divide, row);
    let start = (data[i], opt.first_variance(data, i), opt.normalization_factor);
    let n = choose|n: Numbers|
        #[trigger] folds_to(correct, start, opt.corrections(i), n) && is_finite(n.0) && is_finite(
            n.1,
        ) && is_finite(n.2) && n.2 != 0 && n.2 != 0x8000_0000 && is_finished(
            n,
            opt.apply_normalization,
            divide,
            row,
        );
    lemma_corrected_numbers(opt, i, correct, val, start, n);
    n
}

} // verus!
