//! The state of a cached device engine: the matrix, the fixed corrections and the
//! shape of the result, checked once and used for every frame.

use crate::launch::{
    correction_args, csr_plan, csr_shape, has_enough_work, has_room, histogram_plan,
    histogram_shape, is_given, lemma_csr_work, lemma_histogram_work, lemma_lut_work,
    lemma_room_of_buffers, lut_plan, lut_shape, switch_of, Arg, Buf, Corrections4Args, Corrections4aArgs, HistKind, HistogramScalars,
    Kern, Plan, PlanShape, MAP_GROUP,
};
use vstd::prelude::*;

verus! {

/// Which correction arrays are given.
#[derive(Debug, Clone, Copy, PartialEq, Eq, Structural)]
pub struct CorrPresence {
    /// Dark current.
    pub dark: bool,
    /// Variance of the dark current.
    pub dark_variance: bool,
    /// Flat field.
    pub flat: bool,
    /// Solid angle.
    pub solidangle: bool,
    /// Polarization.
    pub polarization: bool,
    /// Absorption.
    pub absorption: bool,
    /// Mask.
    pub mask: bool,
}

/// The fixed corrections of an engine, as kernel arguments. Flags are 0 or 1.
#[derive(Debug, Clone, Copy, PartialEq, Eq, Structural)]
pub struct CorrConfig {
    /// Code of the error model.
    pub error_model: i8,
    /// Code of the type of the image.
    pub dtype: i8,
    /// Subtract the dark current.
    pub do_dark: i8,
    /// Add the variance of the dark current.
    pub do_dark_variance: i8,
    /// Divide by the flat field.
    pub do_flat: i8,
    /// Divide by the solid angle.
    pub do_solidangle: i8,
    /// Divide by the polarization.
    pub do_polarization: i8,
    /// Divide by the absorption.
    pub do_absorption: i8,
    /// Leave out masked pixels.
    pub do_mask: i8,
    /// Leave out pixels at the dummy value.
    pub do_dummy: i8,
    /// The dummy value.
    pub dummy: u32,
    /// Tolerance around the dummy value.
    pub delta_dummy: u32,
    /// Where the normalization starts.
    pub normalization_factor: u32,
    /// Divide by the normalization.
    pub apply_normalization: i8,
}

/// A flag as a number.
pub open spec fn flag(b: bool) -> i8 {
    if b {
        1
    } else {
        0
    }
}

/// The value of [`flag`].
fn flag_of(b: bool) -> (f: i8)
    ensures
        f == flag(b),
{
    if b {
        1
    } else {
        0
    }
}

/// The value of [`corr_from_kwargs`].
pub open spec fn config_of(
    given: CorrPresence,
    error_model: i32,
    dtype: i32,
    dummy: Option<u32>,
    delta_dummy: u32,
    normalization_factor: u32,
    apply_normalization: bool,
) -> CorrConfig {
    CorrConfig {
        error_model: error_model as i8,
        dtype: dtype as i8,
        do_dark: flag(given.dark),
        do_dark_variance: flag(given.dark_variance),
        do_flat: flag(given.flat),
        do_solidangle: flag(given.solidangle),
        do_polarization: flag(given.polarization),
        do_absorption: flag(given.absorption),
        do_mask: flag(given.mask),
        do_dummy: flag(dummy is Some),
        dummy: match dummy {
            Some(d) => d,
            None => 0,
        },
        delta_dummy,
        normalization_factor,
        apply_normalization: flag(apply_normalization),
    }
}

/// The corrections as kernel arguments: a correction is on where its array is given,
/// and the dummy value is checked where there is one. Codes keep their low byte.
pub fn corr_from_kwargs(
    given: CorrPresence,
    error_model: i32,
    dtype: i32,
    dummy: Option<u32>,
    delta_dummy: u32,
    normalization_factor: u32,
    apply_normalization: bool,
) -> (c: CorrConfig)
    ensures
        c == (CorrConfig {
            error_model: error_model as i8,
            dtype: dtype as i8,
            do_dark: flag(given.dark),
            do_dark_variance: flag(given.dark_variance),
            do_flat: flag(given.flat),
            do_solidangle: flag(given.solidangle),
            do_polarization: flag(given.polarization),
            do_absorption: flag(given.absorption),
            do_mask: flag(given.mask),
            do_dummy: flag(dummy is Some),
            dummy: match dummy {
                Some(d) => d,
                None => 0,
            },
            delta_dummy,
            normalization_factor,
            apply_normalization: flag(apply_normalization),
        }),
        c == config_of(
            given,
            error_model,
            dtype,
            dummy,
            delta_dummy,
            normalization_factor,
            apply_normalization,
        ),
{
    let value: u32 = match dummy {
        Some(d) => d,
        None => 0,
    };
    CorrConfig {
        error_model: #[verifier::truncate] (error_model as i8),
        dtype: #[verifier::truncate] (dtype as i8),
        do_dark: flag_of(given.dark),
        do_dark_variance: flag_of(given.dark_variance),
        do_flat: flag_of(given.flat),
        do_solidangle: flag_of(given.solidangle),
        do_polarization: flag_of(given.polarization),
        do_absorption: flag_of(given.absorption),
        do_mask: flag_of(given.mask),
        do_dummy: flag_of(dummy.is_some()),
        dummy: value,
        delta_dummy,
        normalization_factor,
        apply_normalization: flag_of(apply_normalization),
    }
}

impl CorrConfig {
    /// The arguments of the correction of single-precision images.
    pub open spec fn corr4_args(self) -> Corrections4Args {
        Corrections4Args {
            error_model: self.error_model,
            do_dark: self.do_dark,
            do_dark_variance: self.do_dark_variance,
            do_flat: self.do_flat,
            do_solidangle: self.do_solidangle,
            do_polarization: self.do_polarization,
            do_absorption: self.do_absorption,
            do_mask: self.do_mask,
            do_dummy: self.do_dummy,
            dummy: self.dummy,
            delta_dummy: self.delta_dummy,
            normalization_factor: self.normalization_factor,
            apply_normalization: self.apply_normalization,
        }
    }

    /// The arguments of the correction of images of any type.
    pub fn to_csr_args(self) -> (a: Corrections4aArgs)
        ensures
            a.dtype == self.dtype,
            a.base() == self.corr4_args(),
    {
        Corrections4aArgs {
            dtype: self.dtype,
            error_model: self.error_model,
            do_dark: self.do_dark,
            do_dark_variance: self.do_dark_variance,
            do_flat: self.do_flat,
            do_solidangle: self.do_solidangle,
            do_polarization: self.do_polarization,
            do_absorption: self.do_absorption,
            do_mask: self.do_mask,
            do_dummy: self.do_dummy,
            dummy: self.dummy,
            delta_dummy: self.delta_dummy,
            normalization_factor: self.normalization_factor,
            apply_normalization: self.apply_normalization,
        }
    }

    /// The arguments of the correction of single-precision images.
    pub fn to_corr4_args(self) -> (a: Corrections4Args)
        ensures
            a == self.corr4_args(),
    {
        Corrections4Args {
            error_model: self.error_model,
            do_dark: self.do_dark,
            do_dark_variance: self.do_dark_variance,
            do_flat: self.do_flat,
            do_solidangle: self.do_solidangle,
            do_polarization: self.do_polarization,
            do_absorption: self.do_absorption,
            do_mask: self.do_mask,
            do_dummy: self.do_dummy,
            dummy: self.dummy,
            delta_dummy: self.delta_dummy,
            normalization_factor: self.normalization_factor,
            apply_normalization: self.apply_normalization,
        }
    }
}

/// The matrix of an engine, one kind per algorithm.
#[derive(Debug)]
pub enum GpuMatrix {
    /// A sparse matrix.
    Csr {
        /// Coefficients.
        data: Vec<u32>,
        /// Pixel indices.
        indices: Vec<i32>,
        /// Bin pointers.
        indptr: Vec<i32>,
        /// Work items per bin.
        wg_min: usize,
    },
    /// A look-up table.
    Lut {
        /// Pixel indices.
        idx: Vec<i32>,
        /// Coefficients.
        coef: Vec<u32>,
        /// Slots per bin.
        lut_size: usize,
        /// Work-group size.
        block_size: usize,
    },
    /// Positions to be binned.
    Histogram {
        /// Radial positions.
        radial: Vec<u32>,
        /// Azimuthal positions.
        azimuthal: Vec<u32>,
        /// The ranges.
        scalars: HistogramScalars,
        /// Work-group size.
        block_size: usize,
    },
}

/// Why an engine is refused, or a frame by an engine.
#[derive(Debug, Clone, Copy, PartialEq, Eq, Structural)]
pub enum EngineError {
    /// There is not one bin pointer more than there are bins.
    PointerLength,
    /// There are not as many indices as coefficients.
    EntryLength,
    /// The table does not have the slots of all bins.
    TableLength,
    /// There is not one position per pixel.
    PositionLength,
    /// The image does not have the engine's number of pixels.
    ImageLength,
    /// A one-dimensional result is asked of a two-dimensional engine.
    NotOneD,
    /// A two-dimensional result is asked of a one-dimensional engine.
    NotTwoD,
}

/// The checked state of an engine.
#[derive(Debug)]
pub struct GpuEngine {
    /// The matrix.
    pub matrix: GpuMatrix,
    /// The fixed corrections.
    pub corr: CorrConfig,
    /// Fill value for bins without data.
    pub empty: u32,
    /// Number of pixels.
    pub image_size: usize,
    /// Number of radial bins.
    pub bins0: usize,
    /// Number of azimuthal bins of a two-dimensional engine.
    pub bins1: Option<usize>,
}

/// The number of bins of an engine.
pub open spec fn bin_count(bins0: int, bins1: Option<usize>) -> int {
    match bins1 {
        Some(b) => bins0 * b,
        None => bins0,
    }
}

impl GpuEngine {
    /// The number of bins: the product of both axes in two dimensions.
    pub fn bins(bins0: usize, bins1: Option<usize>) -> (n: usize)
        requires
            bin_count(bins0 as int, bins1) <= usize::MAX,
        ensures
            n == bin_count(bins0 as int, bins1),
    {
        match bins1 {
            Some(b) => bins0 * b,
            None => bins0,
        }
    }

    /// The matrix fits the bins and the pixels.
    pub open spec fn wf(&self) -> bool {
        let n = bin_count(self.bins0 as int, self.bins1);
        match self.matrix {
            GpuMatrix::Csr { data, indices, indptr, wg_min } => {
                &&& indptr@.len() == n + 1
                &&& indices@.len() == data@.len()
            },
            GpuMatrix::Lut { idx, coef, lut_size, block_size } => {
                &&& idx@.len() == n * lut_size
                &&& coef@.len() == n * lut_size
            },
            GpuMatrix::Histogram { radial, azimuthal, scalars, block_size } => {
                &&& radial@.len() == self.image_size
                &&& azimuthal@.len() == self.image_size
            },
        }
    }

    /// Buffer lengths and work sizes fit the machine's and the device's integers.
    pub open spec fn fits_device(&self) -> bool {
        let n = bin_count(self.bins0 as int, self.bins1);
        &&& n <= usize::MAX
        &&& 4 * self.image_size <= usize::MAX
        &&& match self.matrix {
            GpuMatrix::Csr { data, indices, indptr, wg_min } => {
                &&& n <= i32::MAX
                &&& 8 * n <= usize::MAX
                &&& n * wg_min <= usize::MAX
                &&& 32 * wg_min <= usize::MAX
                &&& n + MAP_GROUP <= usize::MAX
                &&& self.image_size + MAP_GROUP <= usize::MAX
            },
            GpuMatrix::Lut { idx, coef, lut_size, block_size } => {
                &&& 0 < block_size
                &&& 8 * n <= usize::MAX
                &&& n * lut_size <= usize::MAX
                &&& n + block_size <= usize::MAX
                &&& self.image_size + block_size <= usize::MAX
            },
            GpuMatrix::Histogram { radial, azimuthal, scalars, block_size } => {
                &&& 0 < block_size
                &&& n <= u32::MAX
                &&& 2 * n <= usize::MAX
                &&& self.image_size <= u32::MAX
                &&& self.bins1 is Some ==> self.bins0 <= u32::MAX && self.bins1->0 <= u32::MAX
                &&& n + block_size <= usize::MAX
                &&& self.image_size + block_size <= usize::MAX
            },
        }
    }

    /// Tests [`GpuEngine::fits_device`].
    pub fn check_device(&self) -> (b: bool)
        ensures
            b == self.fits_device(),
    {
        let counted: Option<usize> = match self.bins1 {
            Some(b) => self.bins0.checked_mul(b),
            None => Some(self.bins0),
        };
        let n: usize = match counted {
            Some(n) => n,
            None => {
                return false;
            },
        };
        let size: usize = self.image_size;
        let max: usize = usize::MAX;
        if size > max / 4 {
            return false;
        }
        match &self.matrix {
            GpuMatrix::Csr { data, indices, indptr, wg_min } => n <= i32::MAX as usize && n <= max
                / 8 && n.checked_mul(*wg_min).is_some() && *wg_min <= max / 32 && n <= max
                - MAP_GROUP && size <= max - MAP_GROUP,
            GpuMatrix::Lut { idx, coef, lut_size, block_size } => 0 < *block_size && n <= max / 8
                && n.checked_mul(*lut_size).is_some() && n <= max - *block_size && size <= max
                - *block_size,
            GpuMatrix::Histogram { radial, azimuthal, scalars, block_size } => {
                let wide: bool = match self.bins1 {
                    Some(b) => self.bins0 > u32::MAX as usize || b > u32::MAX as usize,
                    None => false,
                };
                0 < *block_size && n <= u32::MAX as usize && n <= max / 2 && size
                    <= u32::MAX as usize && !wide && n <= max - *block_size && size <= max
                    - *block_size
            },
        }
    }

    /// The run of one frame.
    pub open spec fn run_shape(&self, c: Corrections4aArgs) -> PlanShape {
        let n = bin_count(self.bins0 as int, self.bins1);
        let size = self.image_size as int;
        match self.matrix {
            GpuMatrix::Csr { data, indices, indptr, wg_min } => csr_shape(
                size,
                data@.len() as int,
                n,
                c,
                self.empty,
                wg_min as int,
            ),
            GpuMatrix::Lut { idx, coef, lut_size, block_size } => lut_shape(
                size,
                n,
                lut_size as int,
                c.base(),
                self.empty,
                block_size as int,
            ),
            GpuMatrix::Histogram { radial, azimuthal, scalars, block_size } => histogram_shape(
                size,
                n,
                c.base(),
                HistogramScalars { empty: self.empty, ..scalars },
                block_size as int,
                match self.bins1 {
                    Some(b) => HistKind::TwoD { bins_rad: self.bins0, bins_azim: b },
                    None => HistKind::OneD,
                },
            ),
        }
    }

    /// The corrections with the type of the image.
    pub open spec fn csr_args(&self) -> Corrections4aArgs {
        let c = self.corr;
        Corrections4aArgs {
            dtype: c.dtype,
            error_model: c.error_model,
            do_dark: c.do_dark,
            do_dark_variance: c.do_dark_variance,
            do_flat: c.do_flat,
            do_solidangle: c.do_solidangle,
            do_polarization: c.do_polarization,
            do_absorption: c.do_absorption,
            do_mask: c.do_mask,
            do_dummy: c.do_dummy,
            dummy: c.dummy,
            delta_dummy: c.delta_dummy,
            normalization_factor: c.normalization_factor,
            apply_normalization: c.apply_normalization,
        }
    }

    /// An engine for a sparse matrix.
    pub fn build_csr(
        data: Vec<u32>,
        indices: Vec<i32>,
        indptr: Vec<i32>,
        bins0: usize,
        bins1: Option<usize>,
        image_size: usize,
        corr: CorrConfig,
        empty: u32,
        wg_min: usize,
    ) -> (r: Result<Self, EngineError>)
        requires
            bin_count(bins0 as int, bins1) < usize::MAX,
        ensures
            indptr@.len() != bin_count(bins0 as int, bins1) + 1 ==> r == Err::<Self, EngineError>(
                EngineError::PointerLength,
            ),
            indptr@.len() == bin_count(bins0 as int, bins1) + 1 && indices@.len() != data@.len()
                ==> r == Err::<Self, EngineError>(EngineError::EntryLength),
            indptr@.len() == bin_count(bins0 as int, bins1) + 1 && indices@.len() == data@.len()
                ==> r == Ok::<Self, EngineError>(
                GpuEngine {
                    matrix: GpuMatrix::Csr { data, indices, indptr, wg_min },
                    corr,
                    empty,
                    image_size,
                    bins0,
                    bins1,
                },
            ),
            r is Ok ==> (r->Ok_0).wf(),
    {
        let n: usize = Self::bins(bins0, bins1);
        if indptr.len() != n + 1 {
            return Err(EngineError::PointerLength);
        }
        if indices.len() != data.len() {
            return Err(EngineError::EntryLength);
        }
        Ok(
            GpuEngine {
                matrix: GpuMatrix::Csr { data, indices, indptr, wg_min },
                corr,
                empty,
                image_size,
                bins0,
                bins1,
            },
        )
    }

    /// An engine for a look-up table.
    pub fn build_lut(
        idx: Vec<i32>,
        coef: Vec<u32>,
        lut_size: usize,
        bins0: usize,
        bins1: Option<usize>,
        image_size: usize,
        corr: CorrConfig,
        empty: u32,
        block_size: usize,
    ) -> (r: Result<Self, EngineError>)
        requires
            bin_count(bins0 as int, bins1) <= usize::MAX,
            bin_count(bins0 as int, bins1) * lut_size <= usize::MAX,
        ensures
            ({
                let slots = bin_count(bins0 as int, bins1) * lut_size;
                if idx@.len() != slots || coef@.len() != slots {
                    r == Err::<Self, EngineError>(EngineError::TableLength)
                } else {
                    r == Ok::<Self, EngineError>(
                        GpuEngine {
                            matrix: GpuMatrix::Lut { idx, coef, lut_size, block_size },
                            corr,
                            empty,
                            image_size,
                            bins0,
                            bins1,
                        },
                    )
                }
            }),
            r is Ok ==> (r->Ok_0).wf(),
    {
        let n: usize = Self::bins(bins0, bins1);
        if idx.len() != n * lut_size || coef.len() != n * lut_size {
            return Err(EngineError::TableLength);
        }
        Ok(
            GpuEngine {
                matrix: GpuMatrix::Lut { idx, coef, lut_size, block_size },
                corr,
                empty,
                image_size,
                bins0,
                bins1,
            },
        )
    }

    /// An engine that bins positions.
    pub fn build_histogram(
        radial: Vec<u32>,
        azimuthal: Vec<u32>,
        scalars: HistogramScalars,
        bins0: usize,
        bins1: Option<usize>,
        image_size: usize,
        corr: CorrConfig,
        empty: u32,
        block_size: usize,
    ) -> (r: Result<Self, EngineError>)
        ensures
            if radial@.len() != image_size || azimuthal@.len() != image_size {
                r == Err::<Self, EngineError>(EngineError::PositionLength)
            } else {
                r == Ok::<Self, EngineError>(
                    GpuEngine {
                        matrix: GpuMatrix::Histogram { radial, azimuthal, scalars, block_size },
                        corr,
                        empty,
                        image_size,
                        bins0,
                        bins1,
                    },
                )
            },
            r is Ok ==> (r->Ok_0).wf(),
    {
        if radial.len() != image_size || azimuthal.len() != image_size {
            return Err(EngineError::PositionLength);
        }
        Ok(
            GpuEngine {
                matrix: GpuMatrix::Histogram { radial, azimuthal, scalars, block_size },
                corr,
                empty,
                image_size,
                bins0,
                bins1,
            },
        )
    }

    /// Plans the run of one frame.
    fn plan(&self) -> (p: Plan)
        requires
            self.wf(),
            self.fits_device(),
        ensures
            p.shape() == self.run_shape(self.csr_args()),
    {
        let n: usize = Self::bins(self.bins0, self.bins1);
        let size: usize = self.image_size;
        match &self.matrix {
            GpuMatrix::Csr { data, indices, indptr, wg_min } => csr_plan(
                size,
                data.len(),
                n,
                &self.corr.to_csr_args(),
                self.empty,
                *wg_min,
            ),
            GpuMatrix::Lut { idx, coef, lut_size, block_size } => lut_plan(
                size,
                n,
                *lut_size,
                &self.corr.to_corr4_args(),
                self.empty,
                *block_size,
            ),
            GpuMatrix::Histogram { radial, azimuthal, scalars, block_size } => {
                let kind: HistKind = match self.bins1 {
                    Some(b) => HistKind::TwoD { bins_rad: self.bins0, bins_azim: b },
                    None => HistKind::OneD,
                };
                let ranges = HistogramScalars {
                    radial_mini: scalars.radial_mini,
                    radial_maxi: scalars.radial_maxi,
                    check_azim: scalars.check_azim,
                    azim_mini: scalars.azim_mini,
                    azim_maxi: scalars.azim_maxi,
                    empty: self.empty,
                };
                histogram_plan(size, n, &self.corr.to_corr4_args(), &ranges, *block_size, &kind)
            },
        }
    }

    /// Plans the one-dimensional integration of a frame of `image_len` pixels.
    pub fn integrate1d(&self, image_len: usize) -> (r: Result<Plan, EngineError>)
        requires
            self.wf(),
            self.fits_device(),
        ensures
            self.bins1 is Some ==> r == Err::<Plan, EngineError>(EngineError::NotOneD),
            self.bins1 is None && image_len != self.image_size ==> r == Err::<Plan, EngineError>(
                EngineError::ImageLength,
            ),
            self.bins1 is None && image_len == self.image_size ==> r is Ok && (r->Ok_0).shape()
                == self.run_shape(self.csr_args()),
    {
        if self.bins1.is_some() {
            return Err(EngineError::NotOneD);
        }
        if image_len != self.image_size {
            return Err(EngineError::ImageLength);
        }
        Ok(self.plan())
    }

    /// Plans the two-dimensional integration of a frame of `image_len` pixels.
    pub fn integrate2d(&self, image_len: usize) -> (r: Result<Plan, EngineError>)
        requires
            self.wf(),
            self.fits_device(),
        ensures
            self.bins1 is None ==> r == Err::<Plan, EngineError>(EngineError::NotTwoD),
            self.bins1 is Some && image_len != self.image_size ==> r == Err::<Plan, EngineError>(
                EngineError::ImageLength,
            ),
            self.bins1 is Some && image_len == self.image_size ==> r is Ok && (r->Ok_0).shape()
                == self.run_shape(self.csr_args()),
    {
        if self.bins1.is_none() {
            return Err(EngineError::NotTwoD);
        }
        if image_len != self.image_size {
            return Err(EngineError::ImageLength);
        }
        Ok(self.plan())
    }
}

/// Whether the array of a buffer is given.
pub open spec fn is_present(given: CorrPresence, buf: Buf) -> bool {
    match buf {
        Buf::Dark => given.dark,
        Buf::DarkVariance => given.dark_variance,
        Buf::Flat => given.flat,
        Buf::SolidAngle => given.solidangle,
        Buf::Polarization => given.polarization,
        Buf::Absorption => given.absorption,
        Buf::Mask => given.mask,
        _ => false,
    }
}

/// A correction is switched on at the kernel where its array is given, whatever else is
/// given; the dummy value is checked where there is one, and the scalars are handed on.
pub proof fn lemma_given_arrays_switch_corrections_on(
    given: CorrPresence,
    error_model: i32,
    dtype: i32,
    dummy: Option<u32>,
    delta_dummy: u32,
    normalization_factor: u32,
    apply_normalization: bool,
    buf: Buf,
)
    ensures
        ({
            let c = config_of(
                given,
                error_model,
                dtype,
                dummy,
                delta_dummy,
                normalization_factor,
                apply_normalization,
            );
            let a = c.corr4_args();
            &&& match switch_of(a, buf) {
                Some(f) => f == 1 && is_present(given, buf) || f == 0 && !is_present(given, buf),
                None => !is_present(given, buf),
            }
            &&& a.do_dummy == 1 <==> dummy is Some
            &&& a.do_dummy == 0 <==> dummy is None
            &&& dummy is Some ==> a.dummy == dummy->0
            &&& a.delta_dummy == delta_dummy
            &&& a.normalization_factor == normalization_factor
            &&& a.apply_normalization == 1 <==> apply_normalization
            &&& a.apply_normalization == 0 <==> !apply_normalization
            &&& -128 <= error_model <= 127 ==> a.error_model == error_model
            &&& -128 <= dtype <= 127 ==> c.dtype == dtype
        }),
{
}

impl GpuEngine {
    /// The run of an engine corrects the image with the engine's corrections and then sums
    /// over its matrix: the kernel that does so is that of the matrix, and bins without
    /// data get the engine's fill value.
    pub proof fn lemma_run_of_an_engine(&self)
        ensures
            ({
                let p = self.run_shape(self.csr_args());
                let n = bin_count(self.bins0 as int, self.bins1);
                let sum = p.launches[2];
                let last = p.launches.last();
                let correct = p.launches[1].1;
                let args = correction_args(self.corr.corr4_args());
                &&& correct.len() >= args.len()
                &&& correct.skip(correct.len() - args.len()) == args
                &&& match self.matrix {
                    GpuMatrix::Csr { data, indices, indptr, wg_min } => {
                        &&& sum.0 == Kern::CsrIntegrate4
                        &&& is_given(sum.1, Buf::CsrData) && is_given(sum.1, Buf::CsrIndices)
                        &&& is_given(sum.1, Buf::CsrIndptr)
                        &&& correct[1] == Arg::Char(self.corr.dtype)
                        &&& sum.1.contains(Arg::Int(n as i32))
                    },
                    GpuMatrix::Lut { idx, coef, lut_size, block_size } => {
                        sum.0 == Kern::LutIntegrate4 && is_given(sum.1, Buf::Lut)
                    },
                    GpuMatrix::Histogram { radial, azimuthal, scalars, block_size } => {
                        &&& sum.0 == if self.bins1 is None {
                            Kern::Histogram1d
                        } else {
                            Kern::Histogram2d
                        }
                        &&& is_given(sum.1, Buf::Radial) && is_given(sum.1, Buf::Azimuthal)
                        &&& last.1.contains(Arg::Uint(n as u32))
                    },
                }
                &&& last.1.contains(Arg::Real(self.empty))
            }),
    {
        let p = self.run_shape(self.csr_args());
        let n = bin_count(self.bins0 as int, self.bins1);
        let sum = p.launches[2].1;
        let correct = p.launches[1].1;
        let args = correction_args(self.corr.corr4_args());
        assert(self.csr_args().base() == self.corr.corr4_args());
        assert(correct.skip(correct.len() - args.len()) =~= args);
        match self.matrix {
            GpuMatrix::Csr { data, indices, indptr, wg_min } => {
                assert(sum[1] == Arg::Buf(Buf::CsrData) && sum[2] == Arg::Buf(Buf::CsrIndices));
                assert(sum[3] == Arg::Buf(Buf::CsrIndptr) && sum[4] == Arg::Int(n as i32));
                assert(sum[5] == Arg::Real(self.empty));
            },
            GpuMatrix::Lut { idx, coef, lut_size, block_size } => {
                assert(sum[1] == Arg::Buf(Buf::Lut) && sum[2] == Arg::Real(self.empty));
            },
            GpuMatrix::Histogram { radial, azimuthal, scalars, block_size } => {
                let last = p.launches[3].1;
                assert(sum[0] == Arg::Buf(Buf::Radial) && sum[1] == Arg::Buf(Buf::Azimuthal));
                assert(last[5] == Arg::Uint(n as u32) && last[6] == Arg::Real(self.empty));
            },
        }
    }
}

impl GpuEngine {
    /// How many entries the matrix or the table of an engine has.
    pub open spec fn entries(&self) -> int {
        match self.matrix {
            GpuMatrix::Csr { data, indices, indptr, wg_min } => data@.len() as int,
            GpuMatrix::Lut { idx, coef, lut_size, block_size } => coef@.len() as int,
            GpuMatrix::Histogram { radial, azimuthal, scalars, block_size } => 0,
        }
    }

    /// The run of an engine that fits the device makes every buffer once, with room for its
    /// pixels, bins and entries, and every kernel has enough work items.
    pub proof fn lemma_fitting_engine(&self, k: int)
        requires
            self.wf(),
            self.fits_device(),
            self.matrix is Csr ==> self.matrix->wg_min > 0,
            self.matrix is Csr ==> self.matrix->data@.len() <= usize::MAX,
            self.matrix is Histogram ==> 8 * bin_count(self.bins0 as int, self.bins1) <= usize::MAX,
            0 <= k < self.run_shape(self.csr_args()).launches.len(),
        ensures
            ({
                let p = self.run_shape(self.csr_args());
                let n = bin_count(self.bins0 as int, self.bins1);
                let size = self.image_size as int;
                &&& has_room(p.allocs, size, n, self.entries())
                &&& has_enough_work(p.launches[k], size, n)
            }),
    {
        let c = self.csr_args();
        let n = bin_count(self.bins0 as int, self.bins1);
        let size = self.image_size as int;
        assert(0 <= n) by {
            if let Some(b) = self.bins1 {
                assert(0 <= self.bins0 * b) by (nonlinear_arith);
            }
        }
        assert(0 <= n * 0 <= usize::MAX) by (nonlinear_arith);
        let none = HistogramScalars {
            radial_mini: 0,
            radial_maxi: 0,
            check_azim: 0,
            azim_mini: 0,
            azim_maxi: 0,
            empty: 0,
        };
        match self.matrix {
            GpuMatrix::Csr { data, indices, indptr, wg_min } => {
                lemma_room_of_buffers(
                    size,
                    data@.len() as int,
                    n,
                    0,
                    c,
                    none,
                    self.empty,
                    wg_min as int,
                    HistKind::OneD,
                );
                lemma_csr_work(size, n, c, self.empty, wg_min as int, k);
            },
            GpuMatrix::Lut { idx, coef, lut_size, block_size } => {
                assert(0 <= n * lut_size) by (nonlinear_arith)
                    requires
                        0 <= n,
                        0 <= lut_size,
                ;
                lemma_room_of_buffers(
                    size,
                    0,
                    n,
                    lut_size as int,
                    c,
                    none,
                    self.empty,
                    block_size as int,
                    HistKind::OneD,
                );
                lemma_lut_work(size, n, c.base(), self.empty, block_size as int, k);
            },
            GpuMatrix::Histogram { radial, azimuthal, scalars, block_size } => {
                let s = HistogramScalars { empty: self.empty, ..scalars };
                let kind = match self.bins1 {
                    Some(b) => HistKind::TwoD { bins_rad: self.bins0, bins_azim: b },
                    None => HistKind::OneD,
                };
                lemma_room_of_buffers(size, 0, n, 0, c, s, self.empty, block_size as int, kind);
                lemma_histogram_work(size, n, c.base(), s, block_size as int, kind, k);
            },
        }
    }
}

} // verus!
