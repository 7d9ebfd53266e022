//! Error models: how the variance of an intensity is estimated.

use vstd::prelude::*;

verus! {

/// How the variance of an intensity is estimated.
#[derive(Debug, Clone, Copy, PartialEq, Eq, Structural)]
pub enum ErrorModel {
    /// Not at all.
    No,
    /// From a variance given per pixel.
    Variance,
    /// From the signal, as counting noise.
    Poisson,
    /// From the spread of the pixels within a bin.
    Azimuthal,
    /// Counting noise, with the spread within a bin as a check.
    Hybrid,
}

impl ErrorModel {
    /// The code of a model.
    pub open spec fn code(self) -> i32 {
        match self {
            ErrorModel::No => 0,
            ErrorModel::Variance => 1,
            ErrorModel::Poisson => 2,
            ErrorModel::Azimuthal => 3,
            ErrorModel::Hybrid => 4,
        }
    }

    /// The value of [`ErrorModel::do_variance`].
    pub open spec fn estimates(self) -> bool {
        self != ErrorModel::No
    }

    /// The value of [`ErrorModel::mergeable`].
    pub open spec fn merges(self) -> bool {
        self != ErrorModel::Azimuthal
    }

    /// The value of [`ErrorModel::poissonian`].
    pub open spec fn counts_noise(self) -> bool {
        self == ErrorModel::Poisson || self == ErrorModel::Hybrid
    }

    /// The model of a code, if the code is one.
    pub fn from_code(code: i32) -> (m: Option<Self>)
        ensures
            m is Some <==> 0 <= code <= 4,
            m is Some ==> (m->0).code() == code,
    {
        match code {
            0 => Some(ErrorModel::No),
            1 => Some(ErrorModel::Variance),
            2 => Some(ErrorModel::Poisson),
            3 => Some(ErrorModel::Azimuthal),
            4 => Some(ErrorModel::Hybrid),
            _ => None,
        }
    }

    /// The model estimates a variance.
    pub fn do_variance(self) -> (b: bool)
        ensures
            b == (self != ErrorModel::No),
            b == self.estimates(),
    {
        match self {
            ErrorModel::No => false,
            _ => true,
        }
    }

    /// The bins of parts of the pixels can be merged. The spread within a bin cannot be
    /// added up from parts.
    pub fn mergeable(self) -> (b: bool)
        ensures
            b == (self != ErrorModel::Azimuthal),
            b == self.merges(),
    {
        match self {
            ErrorModel::Azimuthal => false,
            _ => true,
        }
    }

    /// The variance of a pixel is taken from its signal.
    pub fn poissonian(self) -> (b: bool)
        ensures
            b == (self == ErrorModel::Poisson || self == ErrorModel::Hybrid),
            b == self.counts_noise(),
    {
        match self {
            ErrorModel::Poisson => true,
            ErrorModel::Hybrid => true,
            _ => false,
        }
    }
}

/// The variance of a pixel where the preprocessing is repeated, without one for the hybrid
/// model.
pub open spec fn internal_variance(em: ErrorModel, variance: u32) -> u32 {
    if em == ErrorModel::Hybrid {
        0
    } else {
        variance
    }
}

/// The value of [`internal_variance`].
pub fn internal_preproc_variance(em: ErrorModel, variance: u32) -> (v: u32)
    ensures
        v == internal_variance(em, variance),
{
    match em {
        ErrorModel::Hybrid => 0,
        _ => variance,
    }
}

/// Different models have different codes.
pub proof fn lemma_codes_tell_models_apart(a: ErrorModel, b: ErrorModel)
    requires
        a.code() == b.code(),
    ensures
        a == b,
{
}

/// How models are coded and what they do. Every model but the first estimates a variance;
/// that of a given variance and that of the spread within a bin do not take it from the
/// signal; and of all only that of the spread cannot be merged from parts.
pub proof fn lemma_models(em: ErrorModel)
    ensures
        0 <= em.code() <= 4,
        em.estimates() <==> em.code() > 0,
        em.counts_noise() <==> em.code() == 2 || em.code() == 4,
        !em.merges() <==> em.code() == 3,
        em.counts_noise() ==> em.estimates() && em.merges(),
        internal_variance(em, 1) == 0 <==> em.code() == 4,
{
}

} // verus!
