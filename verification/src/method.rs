//! Integration methods and radial units, by name.

use crate::model::ErrorModel;
use vstd::prelude::*;
use vstd::string::*;

verus! {

/// How pixels are split over bins.
#[derive(Debug, Clone, Copy, PartialEq, Eq, Structural)]
pub enum Split {
    /// Not at all.
    No,
    /// By their bounding box.
    Bbox,
    /// By their area.
    Full,
}

/// How bins are summed up.
#[derive(Debug, Clone, Copy, PartialEq, Eq, Structural)]
pub enum Algo {
    /// Directly.
    Histogram,
    /// By a sparse matrix, row by row.
    Csr,
    /// By a look-up table.
    Lut,
    /// By a sparse matrix, column by column.
    Csc,
}

/// An integration method.
#[derive(Debug, Clone, Copy, PartialEq, Eq, Structural)]
pub struct Method {
    /// How pixels are split.
    pub split: Split,
    /// How bins are summed up.
    pub algo: Algo,
}

/// A unit of the radial axis.
#[derive(Debug, Clone, Copy, PartialEq, Eq, Structural)]
pub enum RadialUnit {
    /// Scattering vector in inverse nanometres.
    QNmInv,
    /// Scattering vector in inverse angstroms.
    QAInv,
    /// Scattering angle in degrees.
    TthDeg,
    /// Scattering angle in radians.
    TthRad,
    /// Radius in millimetres.
    RMm,
    /// Radius in metres.
    RM,
}

/// Why a method is refused.
#[derive(Debug, Clone, Copy, PartialEq, Eq, Structural)]
pub enum MethodError {
    /// Fewer than two words.
    TooShort,
    /// The first word names no way of splitting.
    UnknownSplit,
    /// The second word names no algorithm.
    UnknownAlgo,
}

/// The way of splitting that a word names.
pub open spec fn split_named(s: Seq<char>) -> Option<Split> {
    if s == "no"@ {
        Some(Split::No)
    } else if s == "bbox"@ {
        Some(Split::Bbox)
    } else if s == "full"@ {
        Some(Split::Full)
    } else {
        None
    }
}

/// The algorithm that a word names.
pub open spec fn algo_named(s: Seq<char>) -> Option<Algo> {
    if s == "histogram"@ {
        Some(Algo::Histogram)
    } else if s == "csr"@ {
        Some(Algo::Csr)
    } else if s == "lut"@ {
        Some(Algo::Lut)
    } else if s == "csc"@ {
        Some(Algo::Csc)
    } else {
        None
    }
}

/// Tests whether two texts are the same.
fn same_text(a: &str, b: &str) -> (r: bool)
    ensures
        r == (a@ == b@),
{
    String::from_str(a) == String::from_str(b)
}

/// Names a way of splitting.
fn split_of(s: &str) -> (r: Option<Split>)
    ensures
        r == split_named(s@),
{
    if same_text(s, "no") {
        Some(Split::No)
    } else if same_text(s, "bbox") {
        Some(Split::Bbox)
    } else if same_text(s, "full") {
        Some(Split::Full)
    } else {
        None
    }
}

/// Names an algorithm.
fn algo_of(s: &str) -> (r: Option<Algo>)
    ensures
        r == algo_named(s@),
{
    if same_text(s, "histogram") {
        Some(Algo::Histogram)
    } else if same_text(s, "csr") {
        Some(Algo::Csr)
    } else if same_text(s, "lut") {
        Some(Algo::Lut)
    } else if same_text(s, "csc") {
        Some(Algo::Csc)
    } else {
        None
    }
}

/// The method that a list of words names: a way of splitting and an algorithm; further
/// words are ignored. Without a list it is the plain histogram.
pub open spec fn method_named(words: Option<Seq<Seq<char>>>) -> Result<Method, MethodError> {
    match words {
        None => Ok(Method { split: Split::No, algo: Algo::Histogram }),
        Some(w) => if w.len() < 2 {
            Err(MethodError::TooShort)
        } else if split_named(w[0]) is None {
            Err(MethodError::UnknownSplit)
        } else if algo_named(w[1]) is None {
            Err(MethodError::UnknownAlgo)
        } else {
            Ok(Method { split: split_named(w[0])->0, algo: algo_named(w[1])->0 })
        },
    }
}

/// The characters of a list of words.
pub open spec fn texts(words: Seq<String>) -> Seq<Seq<char>> {
    Seq::new(words.len(), |k: int| words[k]@)
}

/// Reads a method, see [`method_named`].
pub fn parse_method(method: Option<&[String]>) -> (r: Result<Method, MethodError>)
    ensures
        r == method_named(
            match method {
                Some(m) => Some(texts(m@)),
                None => None,
            },
        ),
{
    let m: &[String] = match method {
        Some(m) => m,
        None => {
            return Ok(Method { split: Split::No, algo: Algo::Histogram });
        },
    };
    if m.len() < 2 {
        return Err(MethodError::TooShort);
    }
    let split: Split = match split_of(m[0].as_str()) {
        Some(s) => s,
        None => {
            return Err(MethodError::UnknownSplit);
        },
    };
    let algo: Algo = match algo_of(m[1].as_str()) {
        Some(a) => a,
        None => {
            return Err(MethodError::UnknownAlgo);
        },
    };
    Ok(Method { split, algo })
}

/// The unit that a name stands for.
pub open spec fn unit_named(s: Seq<char>) -> Option<RadialUnit> {
    if s == "q_nm^-1"@ {
        Some(RadialUnit::QNmInv)
    } else if s == "q_A^-1"@ {
        Some(RadialUnit::QAInv)
    } else if s == "2th_deg"@ {
        Some(RadialUnit::TthDeg)
    } else if s == "2th_rad"@ {
        Some(RadialUnit::TthRad)
    } else if s == "r_mm"@ {
        Some(RadialUnit::RMm)
    } else if s == "r_m"@ {
        Some(RadialUnit::RM)
    } else {
        None
    }
}

/// Reads a radial unit; none where the name is unknown.
pub fn radial_unit(name: &str) -> (u: Option<RadialUnit>)
    ensures
        u == unit_named(name@),
{
    if same_text(name, "q_nm^-1") {
        Some(RadialUnit::QNmInv)
    } else if same_text(name, "q_A^-1") {
        Some(RadialUnit::QAInv)
    } else if same_text(name, "2th_deg") {
        Some(RadialUnit::TthDeg)
    } else if same_text(name, "2th_rad") {
        Some(RadialUnit::TthRad)
    } else if same_text(name, "r_mm") {
        Some(RadialUnit::RMm)
    } else if same_text(name, "r_m") {
        Some(RadialUnit::RM)
    } else {
        None
    }
}

impl Method {
    /// The sums of a one-dimensional result have single precision: only those of the
    /// plain histogram do.
    pub fn single_precision_sums(self) -> (b: bool)
        ensures
            b == (self.split == Split::No && self.algo == Algo::Histogram),
    {
        match (self.split, self.algo) {
            (Split::No, Algo::Histogram) => true,
            _ => false,
        }
    }
}

/// What is asked of an integration: the corrections, the error model, the method and
/// the ranges, with numbers as bit patterns.
#[derive(Debug, Clone, Copy)]
pub struct IntegrationOptions {
    /// Correct for the solid angle.
    pub correct_solid_angle: bool,
    /// Polarization factor.
    pub polarization_factor: Option<u64>,
    /// Normalization factor.
    pub normalization_factor: u32,
    /// Error model.
    pub error_model: ErrorModel,
    /// Method.
    pub method: Method,
    /// Radial range.
    pub radial_range: Option<(u64, u64)>,
    /// Azimuthal range.
    pub azimuth_range: Option<(u64, u64)>,
}

/// Assembles the options; none where the code of the error model is unknown.
pub fn integration_options(
    correct_solid_angle: bool,
    polarization_factor: Option<u64>,
    normalization_factor: u32,
    error_model_code: i32,
    method: Method,
    radial_range: Option<(u64, u64)>,
    azimuth_range: Option<(u64, u64)>,
) -> (o: Option<IntegrationOptions>)
    ensures
        o is Some <==> 0 <= error_model_code <= 4,
        o is Some ==> ({
            let x = o->0;
            &&& x.correct_solid_angle == correct_solid_angle
            &&& x.polarization_factor == polarization_factor
            &&& x.normalization_factor == normalization_factor
            &&& x.error_model.code() == error_model_code
            &&& x.method == method
            &&& x.radial_range == radial_range
            &&& x.azimuth_range == azimuth_range
        }),
{
    match ErrorModel::from_code(error_model_code) {
        Some(error_model) => Some(
            IntegrationOptions {
                correct_solid_angle,
                polarization_factor,
                normalization_factor,
                error_model,
                method,
                radial_range,
                azimuth_range,
            },
        ),
        None => None,
    }
}

/// Pixel widths are given on both axes of a grid or on neither.
pub fn widths_agree(width0: bool, width1: bool) -> (b: bool)
    ensures
        b == (width0 == width1),
{
    width0 == width1
}

/// The name of a way of splitting.
pub open spec fn split_name(s: Split) -> Seq<char> {
    match s {
        Split::No => "no"@,
        Split::Bbox => "bbox"@,
        Split::Full => "full"@,
    }
}

/// The name of an algorithm.
pub open spec fn algo_name(a: Algo) -> Seq<char> {
    match a {
        Algo::Histogram => "histogram"@,
        Algo::Csr => "csr"@,
        Algo::Lut => "lut"@,
        Algo::Csc => "csc"@,
    }
}

/// The name of a unit.
pub open spec fn unit_name(u: RadialUnit) -> Seq<char> {
    match u {
        RadialUnit::QNmInv => "q_nm^-1"@,
        RadialUnit::QAInv => "q_A^-1"@,
        RadialUnit::TthDeg => "2th_deg"@,
        RadialUnit::TthRad => "2th_rad"@,
        RadialUnit::RMm => "r_mm"@,
        RadialUnit::RM => "r_m"@,
    }
}

/// Every way of splitting is read back from its name, and nothing else is read.
pub proof fn lemma_split_names(s: Split, text: Seq<char>)
    ensures
        split_named(text) == Some(s) <==> text == split_name(s),
{
    reveal_strlit("no");
    reveal_strlit("bbox");
    reveal_strlit("full");
    assert("bbox"@[0] != "full"@[0]);
}

/// Every algorithm is read back from its name, and nothing else is read.
pub proof fn lemma_algo_names(a: Algo, text: Seq<char>)
    ensures
        algo_named(text) == Some(a) <==> text == algo_name(a),
{
    reveal_strlit("histogram");
    reveal_strlit("csr");
    reveal_strlit("lut");
    reveal_strlit("csc");
    assert("csr"@[2] != "csc"@[2] && "lut"@[0] != "csr"@[0] && "lut"@[0] != "csc"@[0]);
}

/// Every unit is read back from its name, and nothing else is read.
pub proof fn lemma_unit_names(u: RadialUnit, text: Seq<char>)
    ensures
        unit_named(text) == Some(u) <==> text == unit_name(u),
{
    reveal_strlit("q_nm^-1");
    reveal_strlit("q_A^-1");
    reveal_strlit("2th_deg");
    reveal_strlit("2th_rad");
    reveal_strlit("r_mm");
    reveal_strlit("r_m");
    assert("q_nm^-1"@[0] != "2th_deg"@[0] && "q_nm^-1"@[0] != "2th_rad"@[0]);
    assert("2th_deg"@[4] != "2th_rad"@[4]);
    assert("q_nm^-1"@.len() == 7 && "q_A^-1"@.len() == 6 && "2th_deg"@.len() == 7);
    assert("2th_rad"@.len() == 7 && "r_mm"@.len() == 4 && "r_m"@.len() == 3);
}

/// A method is read from its two names, whatever words follow them; the first word tells
/// how pixels are split and the second how bins are summed up. A word that is missing or
/// unknown is refused, the first one first.
pub proof fn lemma_method_words(words: Seq<Seq<char>>, m: Method)
    ensures
        method_named(Some(words)) == Ok::<Method, MethodError>(m) <==> words.len() >= 2 && words[0]
            == split_name(m.split) && words[1] == algo_name(m.algo),
        method_named(Some(words)) == Err::<Method, MethodError>(MethodError::TooShort)
            <==> words.len() < 2,
        words.len() >= 2 ==> (method_named(Some(words)) == Err::<Method, MethodError>(
            MethodError::UnknownSplit,
        ) <==> split_named(words[0]) is None),
        words.len() >= 2 ==> (method_named(Some(words)) == Err::<Method, MethodError>(
            MethodError::UnknownAlgo,
        ) <==> split_named(words[0]) is Some && algo_named(words[1]) is None),
        words.len() >= 2 ==> method_named(Some(words)) == method_named(Some(words.take(2))),
{
    if words.len() >= 2 {
        lemma_split_names(m.split, words[0]);
        lemma_algo_names(m.algo, words[1]);
        assert(words.take(2)[0] == words[0] && words.take(2)[1] == words[1]);
    }
}

} // verus!
