//! Plans of device runs: which buffers are made, which kernels run on them with which
//! arguments and sizes, and what is read back. A plan is carried out step by step by
//! whoever holds the device.

use vstd::prelude::*;

verus! {

/// A buffer on the device.
#[derive(Debug, Clone, Copy, PartialEq, Eq, Structural)]
pub enum Buf {
    /// The image.
    Image,
    /// Variance per pixel.
    Variance,
    /// Dark current.
    Dark,
    /// Variance of the dark current.
    DarkVariance,
    /// Flat field.
    Flat,
    /// Solid angle.
    SolidAngle,
    /// Polarization.
    Polarization,
    /// Absorption.
    Absorption,
    /// Mask.
    Mask,
    /// Coefficients of the sparse matrix.
    CsrData,
    /// Pixel indices of the sparse matrix.
    CsrIndices,
    /// Bin pointers of the sparse matrix.
    CsrIndptr,
    /// Look-up table.
    Lut,
    /// Radial positions.
    Radial,
    /// Azimuthal positions.
    Azimuthal,
    /// Corrected pixels, four lanes each.
    Output4,
    /// Sums of the bins, eight lanes each.
    Merged8,
    /// Average intensity.
    Averint,
    /// Standard deviation.
    Std,
    /// Standard error of the mean.
    Sem,
    /// Histogram of the signal, two lanes per bin.
    HistoSig,
    /// Histogram of the variance, two lanes per bin.
    HistoVar,
    /// Histogram of the normalization, two lanes per bin.
    HistoNrm,
    /// Histogram of the squared normalization, two lanes per bin.
    HistoNrm2,
    /// Histogram of the counts.
    HistoCnt,
}

/// The type of a buffer's elements.
#[derive(Debug, Clone, Copy, PartialEq, Eq, Structural)]
pub enum Elem {
    /// Single-precision number.
    Real,
    /// 32-bit signed integer.
    Int,
    /// 32-bit unsigned integer.
    Uint,
    /// 8-bit signed integer.
    Char,
    /// Entry of the look-up table.
    Point,
}

/// How kernels access a buffer.
#[derive(Debug, Clone, Copy, PartialEq, Eq, Structural)]
pub enum Access {
    /// They read it.
    Read,
    /// They write it.
    Write,
    /// They do both.
    ReadWrite,
}

/// A buffer to be made.
#[derive(Debug, Clone, Copy, PartialEq, Eq, Structural)]
pub struct Alloc {
    /// The buffer.
    pub buf: Buf,
    /// Type of its elements.
    pub elem: Elem,
    /// Number of its elements.
    pub len: usize,
    /// How it is accessed.
    pub access: Access,
}

/// A kernel.
#[derive(Debug, Clone, Copy, PartialEq, Eq, Structural)]
pub enum Kern {
    /// Clears intensity, deviation and sums.
    MemsetNg,
    /// Clears intensity, error and sums.
    MemsetOut,
    /// Clears the histograms.
    MemsetHistograms,
    /// Corrects an image of any type.
    Corrections4a,
    /// Corrects an image of single-precision numbers.
    Corrections4,
    /// Sums the bins of a sparse matrix.
    CsrIntegrate4,
    /// Sums the bins of a look-up table.
    LutIntegrate4,
    /// Fills a one-dimensional histogram.
    Histogram1d,
    /// Fills a two-dimensional histogram.
    Histogram2d,
    /// Averages the bins of a histogram.
    HistogramPostproc,
}

impl Kern {
    /// The kernel's name.
    pub open spec fn label(self) -> Seq<char> {
        match self {
            Kern::MemsetNg => "memset_ng"@,
            Kern::MemsetOut => "memset_out"@,
            Kern::MemsetHistograms => "memset_histograms"@,
            Kern::Corrections4a => "corrections4a"@,
            Kern::Corrections4 => "corrections4"@,
            Kern::CsrIntegrate4 => "csr_integrate4"@,
            Kern::LutIntegrate4 => "lut_integrate4"@,
            Kern::Histogram1d => "histogram_1d_preproc"@,
            Kern::Histogram2d => "histogram_2d_preproc"@,
            Kern::HistogramPostproc => "histogram_postproc"@,
        }
    }

    /// The kernel's name.
    pub fn name(self) -> (s: &'static str)
        ensures
            s@ == self.label(),
    {
        match self {
            Kern::MemsetNg => "memset_ng",
            Kern::MemsetOut => "memset_out",
            Kern::MemsetHistograms => "memset_histograms",
            Kern::Corrections4a => "corrections4a",
            Kern::Corrections4 => "corrections4",
            Kern::CsrIntegrate4 => "csr_integrate4",
            Kern::LutIntegrate4 => "lut_integrate4",
            Kern::Histogram1d => "histogram_1d_preproc",
            Kern::Histogram2d => "histogram_2d_preproc",
            Kern::HistogramPostproc => "histogram_postproc",
        }
    }
}

/// An argument of a kernel.
#[derive(Debug, Clone, Copy, PartialEq, Eq, Structural)]
pub enum Arg {
    /// A buffer.
    Buf(Buf),
    /// An 8-bit signed integer.
    Char(i8),
    /// A 32-bit signed integer.
    Int(i32),
    /// A 32-bit unsigned integer.
    Uint(u32),
    /// A single-precision number, as its bit pattern.
    Real(u32),
    /// Local memory of so many bytes.
    Local(usize),
}

/// A kernel to be run.
#[derive(Debug)]
pub struct Launch {
    /// The kernel.
    pub kern: Kern,
    /// Its arguments.
    pub args: Vec<Arg>,
    /// Number of work items.
    pub global: usize,
    /// Number of work items to a group.
    pub local: usize,
}

impl Launch {
    /// The kernel with its arguments and sizes.
    pub open spec fn shape(&self) -> (Kern, Seq<Arg>, usize, usize) {
        (self.kern, self.args@, self.global, self.local)
    }
}

/// A device run.
#[derive(Debug)]
pub struct Plan {
    /// The buffers to be made.
    pub allocs: Vec<Alloc>,
    /// The kernels to be run, in this order.
    pub launches: Vec<Launch>,
    /// The buffers to be read back, in this order, whole.
    pub reads: Vec<Buf>,
}

/// The kernels with their arguments and sizes.
pub open spec fn launch_shapes(launches: Seq<Launch>) -> Seq<(Kern, Seq<Arg>, usize, usize)> {
    Seq::new(launches.len(), |k: int| launches[k].shape())
}

/// What a plan holds: the buffers made, the kernels run and the buffers read back.
pub struct PlanShape {
    /// The buffers made.
    pub allocs: Seq<Alloc>,
    /// The kernels with their arguments and sizes.
    pub launches: Seq<(Kern, Seq<Arg>, usize, usize)>,
    /// The buffers read back.
    pub reads: Seq<Buf>,
}

impl Plan {
    /// What the plan holds.
    pub open spec fn shape(&self) -> PlanShape {
        PlanShape {
            allocs: self.allocs@,
            launches: launch_shapes(self.launches@),
            reads: self.reads@,
        }
    }
}

/// The smallest multiple of `group` that is not smaller than `n`.
pub open spec fn rounded_up(n: int, group: int) -> int {
    ((n + group - 1) / group) * group
}

/// Rounding up gives the smallest multiple of the group size that holds all items.
pub proof fn lemma_rounded_up(n: int, group: int, m: int)
    requires
        0 <= n,
        0 < group,
    ensures
        n <= rounded_up(n, group) < n + group,
        rounded_up(n, group) % group == 0,
        n <= m * group ==> rounded_up(n, group) <= m * group,
{
    let q = (n + group - 1) / group;
    vstd::arithmetic::div_mod::lemma_fundamental_div_mod(n + group - 1, group);
    assert(group * q == q * group) by (nonlinear_arith);
    vstd::arithmetic::div_mod::lemma_mod_multiples_basic(q, group);
    if n <= m * group && q > m {
        assert(q * group >= m * group + group) by (nonlinear_arith)
            requires
                q >= m + 1,
                0 < group,
        ;
    }
    if q <= m {
        assert(q * group <= m * group) by (nonlinear_arith)
            requires
                q <= m,
                0 < group,
        ;
    }
}

/// The value of [`rounded_up`].
fn round_up(n: usize, group: usize) -> (r: usize)
    requires
        0 < group,
        n + group <= usize::MAX,
    ensures
        r == rounded_up(n as int, group as int),
{
    proof {
        lemma_rounded_up(n as int, group as int, 0);
    }
    ((n + group - 1) / group) * group
}

/// The scalar arguments of the kernel that corrects the image. The flags are 0 or 1.
#[derive(Debug, Clone, Copy, PartialEq, Eq, Structural)]
pub struct Corrections4Args {
    /// Code of the error model.
    pub error_model: i8,
    /// Subtract the dark current.
    pub do_dark: i8,
    /// Add the variance of the dark current.
    pub do_dark_variance: i8,
    /// Divide by the flat field.
    pub do_flat: i8,
    /// Divide by the solid angle.
    pub do_solidangle: i8,
    /// Divide by the polarization.
    pub do_polarization: i8,
    /// Divide by the absorption.
    pub do_absorption: i8,
    /// Leave out masked pixels.
    pub do_mask: i8,
    /// Leave out pixels at the dummy value.
    pub do_dummy: i8,
    /// The dummy value.
    pub dummy: u32,
    /// Tolerance around the dummy value.
    pub delta_dummy: u32,
    /// Where the normalization starts.
    pub normalization_factor: u32,
    /// Divide by the normalization.
    pub apply_normalization: i8,
}

/// The scalar arguments of the kernel that corrects an image of any type. The flags
/// are 0 or 1.
#[derive(Debug, Clone, Copy, PartialEq, Eq, Structural)]
pub struct Corrections4aArgs {
    /// Code of the type of the image: -4 stands for 32-bit signed integers, 32 for
    /// single-precision numbers.
    pub dtype: i8,
    /// Code of the error model.
    pub error_model: i8,
    /// Subtract the dark current.
    pub do_dark: i8,
    /// Add the variance of the dark current.
    pub do_dark_variance: i8,
    /// Divide by the flat field.
    pub do_flat: i8,
    /// Divide by the solid angle.
    pub do_solidangle: i8,
    /// Divide by the polarization.
    pub do_polarization: i8,
    /// Divide by the absorption.
    pub do_absorption: i8,
    /// Leave out masked pixels.
    pub do_mask: i8,
    /// Leave out pixels at the dummy value.
    pub do_dummy: i8,
    /// The dummy value.
    pub dummy: u32,
    /// Tolerance around the dummy value.
    pub delta_dummy: u32,
    /// Where the normalization starts.
    pub normalization_factor: u32,
    /// Divide by the normalization.
    pub apply_normalization: i8,
}

impl Corrections4aArgs {
    /// The arguments other than the type of the image.
    pub open spec fn base(self) -> Corrections4Args {
        Corrections4Args {
            error_model: self.error_model,
            do_dark: self.do_dark,
            do_dark_variance: self.do_dark_variance,
            do_flat: self.do_flat,
            do_solidangle: self.do_solidangle,
            do_polarization: self.do_polarization,
            do_absorption: self.do_absorption,
            do_mask: self.do_mask,
            do_dummy: self.do_dummy,
            dummy: self.dummy,
            delta_dummy: self.delta_dummy,
            normalization_factor: self.normalization_factor,
            apply_normalization: self.apply_normalization,
        }
    }

    /// The value of [`Corrections4aArgs::base`].
    pub fn to_base(&self) -> (c: Corrections4Args)
        ensures
            c == self.base(),
    {
        Corrections4Args {
            error_model: self.error_model,
            do_dark: self.do_dark,
            do_dark_variance: self.do_dark_variance,
            do_flat: self.do_flat,
            do_solidangle: self.do_solidangle,
            do_polarization: self.do_polarization,
            do_absorption: self.do_absorption,
            do_mask: self.do_mask,
            do_dummy: self.do_dummy,
            dummy: self.dummy,
            delta_dummy: self.delta_dummy,
            normalization_factor: self.normalization_factor,
            apply_normalization: self.apply_normalization,
        }
    }
}

/// The arguments of the correction that follow the image: the error model, the
/// arrays with their flags, the dummy value, the normalization and the output.
pub open spec fn correction_args(c: Corrections4Args) -> Seq<Arg> {
    seq![
        Arg::Char(c.error_model),
        Arg::Buf(Buf::Variance),
        Arg::Char(c.do_dark),
        Arg::Buf(Buf::Dark),
        Arg::Char(c.do_dark_variance),
        Arg::Buf(Buf::DarkVariance),
        Arg::Char(c.do_flat),
        Arg::Buf(Buf::Flat),
        Arg::Char(c.do_solidangle),
        Arg::Buf(Buf::SolidAngle),
        Arg::Char(c.do_polarization),
        Arg::Buf(Buf::Polarization),
        Arg::Char(c.do_absorption),
        Arg::Buf(Buf::Absorption),
        Arg::Char(c.do_mask),
        Arg::Buf(Buf::Mask),
        Arg::Char(c.do_dummy),
        Arg::Real(c.dummy),
        Arg::Real(c.delta_dummy),
        Arg::Real(c.normalization_factor),
        Arg::Char(c.apply_normalization),
        Arg::Buf(Buf::Output4),
    ]
}

/// Appends [`correction_args`].
fn push_correction_args(args: &mut Vec<Arg>, c: &Corrections4Args)
    ensures
        final(args)@ == old(args)@ + correction_args(*c),
{
    args.push(Arg::Char(c.error_model));
    args.push(Arg::Buf(Buf::Variance));
    args.push(Arg::Char(c.do_dark));
    args.push(Arg::Buf(Buf::Dark));
    args.push(Arg::Char(c.do_dark_variance));
    args.push(Arg::Buf(Buf::DarkVariance));
    args.push(Arg::Char(c.do_flat));
    args.push(Arg::Buf(Buf::Flat));
    args.push(Arg::Char(c.do_solidangle));
    args.push(Arg::Buf(Buf::SolidAngle));
    args.push(Arg::Char(c.do_polarization));
    args.push(Arg::Buf(Buf::Polarization));
    args.push(Arg::Char(c.do_absorption));
    args.push(Arg::Buf(Buf::Absorption));
    args.push(Arg::Char(c.do_mask));
    args.push(Arg::Buf(Buf::Mask));
    args.push(Arg::Char(c.do_dummy));
    args.push(Arg::Real(c.dummy));
    args.push(Arg::Real(c.delta_dummy));
    args.push(Arg::Real(c.normalization_factor));
    args.push(Arg::Char(c.apply_normalization));
    args.push(Arg::Buf(Buf::Output4));
    assert(args@ =~= old(args)@ + correction_args(*c));
}

/// A buffer to be made.
pub open spec fn alloc_of(buf: Buf, elem: Elem, len: int, access: Access) -> Alloc {
    Alloc { buf, elem, len: len as usize, access }
}

/// The buffers of the pixels: the image and the correction arrays of `size` values.
pub open spec fn input_allocs(size: int, image: Elem) -> Seq<Alloc> {
    seq![
        alloc_of(Buf::Image, image, size, Access::Read),
        alloc_of(Buf::Variance, Elem::Real, size, Access::Read),
        alloc_of(Buf::Dark, Elem::Real, size, Access::Read),
        alloc_of(Buf::DarkVariance, Elem::Real, size, Access::Read),
        alloc_of(Buf::Flat, Elem::Real, size, Access::Read),
        alloc_of(Buf::SolidAngle, Elem::Real, size, Access::Read),
        alloc_of(Buf::Polarization, Elem::Real, size, Access::Read),
        alloc_of(Buf::Absorption, Elem::Real, size, Access::Read),
        alloc_of(Buf::Mask, Elem::Char, size, Access::Read),
    ]
}

/// Appends [`input_allocs`].
fn push_input_allocs(allocs: &mut Vec<Alloc>, size: usize, image: Elem)
    ensures
        final(allocs)@ == old(allocs)@ + input_allocs(size as int, image),
{
    let len: usize = size;
    let access: Access = Access::Read;
    let elem: Elem = Elem::Real;
    allocs.push(Alloc { buf: Buf::Image, elem: image, len, access });
    allocs.push(Alloc { buf: Buf::Variance, elem, len, access });
    allocs.push(Alloc { buf: Buf::Dark, elem, len, access });
    allocs.push(Alloc { buf: Buf::DarkVariance, elem, len, access });
    allocs.push(Alloc { buf: Buf::Flat, elem, len, access });
    allocs.push(Alloc { buf: Buf::SolidAngle, elem, len, access });
    allocs.push(Alloc { buf: Buf::Polarization, elem, len, access });
    allocs.push(Alloc { buf: Buf::Absorption, elem, len, access });
    allocs.push(Alloc { buf: Buf::Mask, elem: Elem::Char, len, access });
    assert(allocs@ =~= old(allocs)@ + input_allocs(size as int, image));
}

/// The buffers of the sums of a sparse run over `bins` bins and `size` pixels.
pub open spec fn sum_allocs(size: int, bins: int) -> Seq<Alloc> {
    seq![
        alloc_of(Buf::Output4, Elem::Real, 4 * size, Access::ReadWrite),
        alloc_of(Buf::Merged8, Elem::Real, 8 * bins, Access::Write),
        alloc_of(Buf::Averint, Elem::Real, bins, Access::ReadWrite),
        alloc_of(Buf::Std, Elem::Real, bins, Access::ReadWrite),
        alloc_of(Buf::Sem, Elem::Real, bins, Access::ReadWrite),
    ]
}

/// Appends [`sum_allocs`].
fn push_sum_allocs(allocs: &mut Vec<Alloc>, size: usize, bins: usize)
    requires
        4 * size <= usize::MAX,
        8 * bins <= usize::MAX,
    ensures
        final(allocs)@ == old(allocs)@ + sum_allocs(size as int, bins as int),
{
    let elem: Elem = Elem::Real;
    allocs.push(Alloc { buf: Buf::Output4, elem, len: 4 * size, access: Access::ReadWrite });
    allocs.push(Alloc { buf: Buf::Merged8, elem, len: 8 * bins, access: Access::Write });
    allocs.push(Alloc { buf: Buf::Averint, elem, len: bins, access: Access::ReadWrite });
    allocs.push(Alloc { buf: Buf::Std, elem, len: bins, access: Access::ReadWrite });
    allocs.push(Alloc { buf: Buf::Sem, elem, len: bins, access: Access::ReadWrite });
    assert(allocs@ =~= old(allocs)@ + sum_allocs(size as int, bins as int));
}

/// The work-group size of the kernels that map pixels or bins one by one.
pub const MAP_GROUP: usize = 256;

/// The buffers of the sparse matrix.
pub open spec fn csr_allocs(nnz: int, bins: int) -> Seq<Alloc> {
    seq![
        alloc_of(Buf::CsrData, Elem::Real, nnz, Access::Read),
        alloc_of(Buf::CsrIndices, Elem::Int, nnz, Access::Read),
        alloc_of(Buf::CsrIndptr, Elem::Int, bins + 1, Access::Read),
    ]
}

/// The kernels of a run over a sparse matrix: clear, correct, sum. The last one has
/// one group of `wg_min` work items per bin, with a row of eight lanes of local memory
/// for each of them.
pub open spec fn csr_launches(
    size: int,
    bins: int,
    c: Corrections4aArgs,
    empty: u32,
    wg_min: int,
) -> Seq<(Kern, Seq<Arg>, usize, usize)> {
    seq![
        (
            Kern::MemsetNg,
            seq![Arg::Buf(Buf::Averint), Arg::Buf(Buf::Std), Arg::Buf(Buf::Merged8)],
            rounded_up(bins, MAP_GROUP as int) as usize,
            MAP_GROUP,
        ),
        (
            Kern::Corrections4a,
            seq![Arg::Buf(Buf::Image), Arg::Char(c.dtype)] + correction_args(c.base()),
            rounded_up(size, MAP_GROUP as int) as usize,
            MAP_GROUP,
        ),
        (
            Kern::CsrIntegrate4,
            seq![
                Arg::Buf(Buf::Output4),
                Arg::Buf(Buf::CsrData),
                Arg::Buf(Buf::CsrIndices),
                Arg::Buf(Buf::CsrIndptr),
                Arg::Int(bins as i32),
                Arg::Real(empty),
                Arg::Char(c.error_model),
                Arg::Buf(Buf::Merged8),
                Arg::Buf(Buf::Averint),
                Arg::Buf(Buf::Std),
                Arg::Buf(Buf::Sem),
                Arg::Local((32 * wg_min) as usize),
            ],
            (bins * wg_min) as usize,
            wg_min as usize,
        ),
    ]
}

/// The plan of a run over a sparse matrix with `nnz` entries and `bins` bins on an image
/// of `size` pixels.
pub open spec fn csr_shape(
    size: int,
    nnz: int,
    bins: int,
    c: Corrections4aArgs,
    empty: u32,
    wg_min: int,
) -> PlanShape {
    PlanShape {
        allocs: input_allocs(size, Elem::Int) + csr_allocs(nnz, bins) + sum_allocs(size, bins),
        launches: csr_launches(size, bins, c, empty, wg_min),
        reads: seq![Buf::Averint, Buf::Std, Buf::Sem, Buf::Merged8],
    }
}

/// Plans a run over a sparse matrix with `nnz` entries and `bins` bins on an image of
/// `size` pixels of 32-bit integers.
pub fn csr_plan(
    size: usize,
    nnz: usize,
    bins: usize,
    corr: &Corrections4aArgs,
    empty: u32,
    wg_min: usize,
) -> (plan: Plan)
    requires
        bins <= i32::MAX,
        4 * size <= usize::MAX,
        size + MAP_GROUP <= usize::MAX,
        8 * bins <= usize::MAX,
        bins + MAP_GROUP <= usize::MAX,
        bins * wg_min <= usize::MAX,
        32 * wg_min <= usize::MAX,
    ensures
        plan.shape() == csr_shape(
            size as int,
            nnz as int,
            bins as int,
            *corr,
            empty,
            wg_min as int,
        ),
{
    let mut allocs: Vec<Alloc> = Vec::new();
    push_input_allocs(&mut allocs, size, Elem::Int);
    allocs.push(Alloc { buf: Buf::CsrData, elem: Elem::Real, len: nnz, access: Access::Read });
    allocs.push(Alloc { buf: Buf::CsrIndices, elem: Elem::Int, len: nnz, access: Access::Read });
    allocs.push(
        Alloc { buf: Buf::CsrIndptr, elem: Elem::Int, len: bins + 1, access: Access::Read },
    );
    assert(allocs@ =~= input_allocs(size as int, Elem::Int) + csr_allocs(nnz as int, bins as int));
    push_sum_allocs(&mut allocs, size, bins);
    let clear = Launch {
        kern: Kern::MemsetNg,
        args: vec![Arg::Buf(Buf::Averint), Arg::Buf(Buf::Std), Arg::Buf(Buf::Merged8)],
        global: round_up(bins, MAP_GROUP),
        local: MAP_GROUP,
    };
    let mut args: Vec<Arg> = vec![Arg::Buf(Buf::Image), Arg::Char(corr.dtype)];
    push_correction_args(&mut args, &corr.to_base());
    let correct = Launch {
        kern: Kern::Corrections4a,
        args,
        global: round_up(size, MAP_GROUP),
        local: MAP_GROUP,
    };
    let sum = Launch {
        kern: Kern::CsrIntegrate4,
        args: vec![
            Arg::Buf(Buf::Output4),
            Arg::Buf(Buf::CsrData),
            Arg::Buf(Buf::CsrIndices),
            Arg::Buf(Buf::CsrIndptr),
            Arg::Int(bins as i32),
            Arg::Real(empty),
            Arg::Char(corr.error_model),
            Arg::Buf(Buf::Merged8),
            Arg::Buf(Buf::Averint),
            Arg::Buf(Buf::Std),
            Arg::Buf(Buf::Sem),
            Arg::Local(32 * wg_min),
        ],
        global: bins * wg_min,
        local: wg_min,
    };
    let ghost want = csr_launches(size as int, bins as int, *corr, empty, wg_min as int);
    assert(clear.args@ =~= want[0].1);
    assert(correct.args@ =~= want[1].1);
    assert(sum.args@ =~= want[2].1);
    let launches: Vec<Launch> = vec![clear, correct, sum];
    assert(launch_shapes(launches@) =~= want);
    let reads: Vec<Buf> = vec![Buf::Averint, Buf::Std, Buf::Sem, Buf::Merged8];
    assert(reads@ =~= seq![Buf::Averint, Buf::Std, Buf::Sem, Buf::Merged8]);
    Plan { allocs, launches, reads }
}

/// The kernels of a run over a look-up table: clear, correct, sum, all in groups of
/// `block`.
pub open spec fn lut_launches(
    size: int,
    bins: int,
    c: Corrections4Args,
    empty: u32,
    block: int,
) -> Seq<(Kern, Seq<Arg>, usize, usize)> {
    seq![
        (
            Kern::MemsetOut,
            seq![Arg::Buf(Buf::Averint), Arg::Buf(Buf::Sem), Arg::Buf(Buf::Merged8)],
            rounded_up(bins, block) as usize,
            block as usize,
        ),
        (
            Kern::Corrections4,
            seq![Arg::Buf(Buf::Image)] + correction_args(c),
            rounded_up(size, block) as usize,
            block as usize,
        ),
        (
            Kern::LutIntegrate4,
            seq![
                Arg::Buf(Buf::Output4),
                Arg::Buf(Buf::Lut),
                Arg::Real(empty),
                Arg::Buf(Buf::Merged8),
                Arg::Buf(Buf::Averint),
                Arg::Buf(Buf::Std),
                Arg::Buf(Buf::Sem),
            ],
            rounded_up(bins, block) as usize,
            block as usize,
        ),
    ]
}

/// The plan of a run over a look-up table of `bins` rows of `lut_size` slots on an image
/// of `size` pixels.
pub open spec fn lut_shape(
    size: int,
    bins: int,
    lut_size: int,
    c: Corrections4Args,
    empty: u32,
    block: int,
) -> PlanShape {
    PlanShape {
        allocs: input_allocs(size, Elem::Real).push(
            alloc_of(Buf::Lut, Elem::Point, bins * lut_size, Access::Read),
        ) + sum_allocs(size, bins),
        launches: lut_launches(size, bins, c, empty, block),
        reads: seq![Buf::Averint, Buf::Std, Buf::Sem, Buf::Merged8],
    }
}

/// Plans a run over a look-up table of `bins` rows of `lut_size` slots on an image of
/// `size` pixels of single-precision numbers.
pub fn lut_plan(
    size: usize,
    bins: usize,
    lut_size: usize,
    corr: &Corrections4Args,
    empty: u32,
    block_size: usize,
) -> (plan: Plan)
    requires
        0 < block_size,
        bins * lut_size <= usize::MAX,
        4 * size <= usize::MAX,
        size + block_size <= usize::MAX,
        8 * bins <= usize::MAX,
        bins + block_size <= usize::MAX,
    ensures
        plan.shape() == lut_shape(
            size as int,
            bins as int,
            lut_size as int,
            *corr,
            empty,
            block_size as int,
        ),
{
    let mut allocs: Vec<Alloc> = Vec::new();
    push_input_allocs(&mut allocs, size, Elem::Real);
    assert(allocs@ =~= input_allocs(size as int, Elem::Real));
    allocs.push(
        Alloc { buf: Buf::Lut, elem: Elem::Point, len: bins * lut_size, access: Access::Read },
    );
    push_sum_allocs(&mut allocs, size, bins);
    let over_bins: usize = round_up(bins, block_size);
    let over_pixels: usize = round_up(size, block_size);
    let clear = Launch {
        kern: Kern::MemsetOut,
        args: vec![Arg::Buf(Buf::Averint), Arg::Buf(Buf::Sem), Arg::Buf(Buf::Merged8)],
        global: over_bins,
        local: block_size,
    };
    let mut args: Vec<Arg> = vec![Arg::Buf(Buf::Image)];
    push_correction_args(&mut args, corr);
    let correct = Launch {
        kern: Kern::Corrections4,
        args,
        global: over_pixels,
        local: block_size,
    };
    let sum = Launch {
        kern: Kern::LutIntegrate4,
        args: vec![
            Arg::Buf(Buf::Output4),
            Arg::Buf(Buf::Lut),
            Arg::Real(empty),
            Arg::Buf(Buf::Merged8),
            Arg::Buf(Buf::Averint),
            Arg::Buf(Buf::Std),
            Arg::Buf(Buf::Sem),
        ],
        global: over_bins,
        local: block_size,
    };
    let ghost want = lut_launches(size as int, bins as int, *corr, empty, block_size as int);
    assert(clear.args@ =~= want[0].1);
    assert(correct.args@ =~= want[1].1);
    assert(sum.args@ =~= want[2].1);
    let launches: Vec<Launch> = vec![clear, correct, sum];
    assert(launch_shapes(launches@) =~= want);
    let reads: Vec<Buf> = vec![Buf::Averint, Buf::Std, Buf::Sem, Buf::Merged8];
    assert(reads@ =~= seq![Buf::Averint, Buf::Std, Buf::Sem, Buf::Merged8]);
    Plan { allocs, launches, reads }
}

/// The ranges of a histogram run.
#[derive(Debug, Clone, Copy, PartialEq, Eq, Structural)]
pub struct HistogramScalars {
    /// Smallest radial position.
    pub radial_mini: u32,
    /// Largest radial position.
    pub radial_maxi: u32,
    /// Check the azimuth, in one dimension.
    pub check_azim: i8,
    /// Smallest azimuthal position.
    pub azim_mini: u32,
    /// Largest azimuthal position.
    pub azim_maxi: u32,
    /// Fill value for bins without data.
    pub empty: u32,
}

/// The shape of a histogram.
#[derive(Debug, Clone, Copy, PartialEq, Eq, Structural)]
pub enum HistKind {
    /// One axis.
    OneD,
    /// A grid.
    TwoD {
        /// Number of radial bins.
        bins_rad: usize,
        /// Number of azimuthal bins.
        bins_azim: usize,
    },
}

/// The buffers of a histogram run over `bins` bins and `size` pixels, other than those
/// of the image.
pub open spec fn histogram_allocs(size: int, bins: int) -> Seq<Alloc> {
    seq![
        alloc_of(Buf::Radial, Elem::Real, size, Access::Read),
        alloc_of(Buf::Azimuthal, Elem::Real, size, Access::Read),
        alloc_of(Buf::Output4, Elem::Real, 4 * size, Access::ReadWrite),
        alloc_of(Buf::HistoSig, Elem::Real, 2 * bins, Access::ReadWrite),
        alloc_of(Buf::HistoVar, Elem::Real, 2 * bins, Access::ReadWrite),
        alloc_of(Buf::HistoNrm, Elem::Real, 2 * bins, Access::ReadWrite),
        alloc_of(Buf::HistoNrm2, Elem::Real, 2 * bins, Access::ReadWrite),
        alloc_of(Buf::HistoCnt, Elem::Uint, bins, Access::ReadWrite),
        alloc_of(Buf::Averint, Elem::Real, bins, Access::Write),
        alloc_of(Buf::Std, Elem::Real, bins, Access::Write),
        alloc_of(Buf::Sem, Elem::Real, bins, Access::Write),
    ]
}

/// The histograms, as arguments.
pub open spec fn histogram_args() -> Seq<Arg> {
    seq![
        Arg::Buf(Buf::HistoSig),
        Arg::Buf(Buf::HistoVar),
        Arg::Buf(Buf::HistoNrm),
        Arg::Buf(Buf::HistoNrm2),
        Arg::Buf(Buf::HistoCnt),
    ]
}

/// The arguments of the kernel that fills the histograms.
pub open spec fn fill_args(size: int, bins: int, s: HistogramScalars, kind: HistKind) -> Seq<Arg> {
    let head = seq![
        Arg::Buf(Buf::Radial),
        Arg::Buf(Buf::Azimuthal),
        Arg::Buf(Buf::Output4),
    ] + histogram_args() + seq![Arg::Uint(size as u32)];
    match kind {
        HistKind::OneD => head + seq![
            Arg::Uint(bins as u32),
            Arg::Real(s.radial_mini),
            Arg::Real(s.radial_maxi),
            Arg::Char(s.check_azim),
            Arg::Real(s.azim_mini),
            Arg::Real(s.azim_maxi),
        ],
        HistKind::TwoD { bins_rad, bins_azim } => head + seq![
            Arg::Uint(bins_rad as u32),
            Arg::Uint(bins_azim as u32),
            Arg::Real(s.radial_mini),
            Arg::Real(s.radial_maxi),
            Arg::Real(s.azim_mini),
            Arg::Real(s.azim_maxi),
        ],
    }
}

/// The kernels of a histogram run: clear, correct, fill, average, all in groups of
/// `block`.
pub open spec fn histogram_launches(
    size: int,
    bins: int,
    c: Corrections4Args,
    s: HistogramScalars,
    block: int,
    kind: HistKind,
) -> Seq<(Kern, Seq<Arg>, usize, usize)> {
    seq![
        (
            Kern::MemsetHistograms,
            histogram_args() + seq![Arg::Uint(bins as u32)],
            rounded_up(bins, block) as usize,
            block as usize,
        ),
        (
            Kern::Corrections4,
            seq![Arg::Buf(Buf::Image)] + correction_args(c),
            rounded_up(size, block) as usize,
            block as usize,
        ),
        (
            if kind is OneD {
                Kern::Histogram1d
            } else {
                Kern::Histogram2d
            },
            fill_args(size, bins, s, kind),
            rounded_up(size, block) as usize,
            block as usize,
        ),
        (
            Kern::HistogramPostproc,
            histogram_args() + seq![
                Arg::Uint(bins as u32),
                Arg::Real(s.empty),
                Arg::Buf(Buf::Averint),
                Arg::Buf(Buf::Std),
                Arg::Buf(Buf::Sem),
            ],
            rounded_up(bins, block) as usize,
            block as usize,
        ),
    ]
}

/// The plan of a histogram run over `bins` bins on an image of `size` pixels.
pub open spec fn histogram_shape(
    size: int,
    bins: int,
    c: Corrections4Args,
    s: HistogramScalars,
    block: int,
    kind: HistKind,
) -> PlanShape {
    PlanShape {
        allocs: input_allocs(size, Elem::Real) + histogram_allocs(size, bins),
        launches: histogram_launches(size, bins, c, s, block, kind),
        reads: seq![
            Buf::Averint,
            Buf::Std,
            Buf::Sem,
            Buf::HistoSig,
            Buf::HistoVar,
            Buf::HistoNrm,
            Buf::HistoNrm2,
            Buf::HistoCnt,
        ],
    }
}

/// Appends [`histogram_args`].
fn push_histogram_args(args: &mut Vec<Arg>)
    ensures
        final(args)@ == old(args)@ + histogram_args(),
{
    args.push(Arg::Buf(Buf::HistoSig));
    args.push(Arg::Buf(Buf::HistoVar));
    args.push(Arg::Buf(Buf::HistoNrm));
    args.push(Arg::Buf(Buf::HistoNrm2));
    args.push(Arg::Buf(Buf::HistoCnt));
    assert(args@ =~= old(args)@ + histogram_args());
}

/// The kernel that fills the histograms.
fn fill_launch(
    size: usize,
    bins: usize,
    scalars: &HistogramScalars,
    global: usize,
    local: usize,
    kind: &HistKind,
) -> (l: Launch)
    requires
        size <= u32::MAX,
        bins <= u32::MAX,
        match kind {
            HistKind::OneD => true,
            HistKind::TwoD { bins_rad, bins_azim } => *bins_rad <= u32::MAX && *bins_azim
                <= u32::MAX,
        },
    ensures
        l.kern == if kind is OneD {
            Kern::Histogram1d
        } else {
            Kern::Histogram2d
        },
        l.args@ == fill_args(size as int, bins as int, *scalars, *kind),
        l.global == global,
        l.local == local,
{
    let mut args: Vec<Arg> = vec![
        Arg::Buf(Buf::Radial),
        Arg::Buf(Buf::Azimuthal),
        Arg::Buf(Buf::Output4),
    ];
    push_histogram_args(&mut args);
    args.push(Arg::Uint(size as u32));
    match *kind {
        HistKind::OneD => {
            args.push(Arg::Uint(bins as u32));
            args.push(Arg::Real(scalars.radial_mini));
            args.push(Arg::Real(scalars.radial_maxi));
            args.push(Arg::Char(scalars.check_azim));
            args.push(Arg::Real(scalars.azim_mini));
            args.push(Arg::Real(scalars.azim_maxi));
            assert(args@ =~= fill_args(size as int, bins as int, *scalars, *kind));
            Launch { kern: Kern::Histogram1d, args, global, local }
        },
        HistKind::TwoD { bins_rad, bins_azim } => {
            args.push(Arg::Uint(bins_rad as u32));
            args.push(Arg::Uint(bins_azim as u32));
            args.push(Arg::Real(scalars.radial_mini));
            args.push(Arg::Real(scalars.radial_maxi));
            args.push(Arg::Real(scalars.azim_mini));
            args.push(Arg::Real(scalars.azim_maxi));
            assert(args@ =~= fill_args(size as int, bins as int, *scalars, *kind));
            Launch { kern: Kern::Histogram2d, args, global, local }
        },
    }
}

/// The buffers of a histogram run.
fn histogram_buffers(size: usize, bins: usize) -> (allocs: Vec<Alloc>)
    requires
        4 * size <= usize::MAX,
        2 * bins <= usize::MAX,
    ensures
        allocs@ == input_allocs(size as int, Elem::Real) + histogram_allocs(
            size as int,
            bins as int,
        ),
{
    let mut allocs: Vec<Alloc> = Vec::new();
    push_input_allocs(&mut allocs, size, Elem::Real);
    let elem: Elem = Elem::Real;
    let both: Access = Access::ReadWrite;
    allocs.push(Alloc { buf: Buf::Radial, elem, len: size, access: Access::Read });
    allocs.push(Alloc { buf: Buf::Azimuthal, elem, len: size, access: Access::Read });
    allocs.push(Alloc { buf: Buf::Output4, elem, len: 4 * size, access: both });
    allocs.push(Alloc { buf: Buf::HistoSig, elem, len: 2 * bins, access: both });
    allocs.push(Alloc { buf: Buf::HistoVar, elem, len: 2 * bins, access: both });
    allocs.push(Alloc { buf: Buf::HistoNrm, elem, len: 2 * bins, access: both });
    allocs.push(Alloc { buf: Buf::HistoNrm2, elem, len: 2 * bins, access: both });
    allocs.push(Alloc { buf: Buf::HistoCnt, elem: Elem::Uint, len: bins, access: both });
    allocs.push(Alloc { buf: Buf::Averint, elem, len: bins, access: Access::Write });
    allocs.push(Alloc { buf: Buf::Std, elem, len: bins, access: Access::Write });
    allocs.push(Alloc { buf: Buf::Sem, elem, len: bins, access: Access::Write });
    assert(allocs@ =~= input_allocs(size as int, Elem::Real) + histogram_allocs(
        size as int,
        bins as int,
    ));
    allocs
}

/// Plans a histogram run over `bins` bins on an image of `size` pixels of
/// single-precision numbers.
pub fn histogram_plan(
    size: usize,
    bins: usize,
    corr: &Corrections4Args,
    scalars: &HistogramScalars,
    block_size: usize,
    kind: &HistKind,
) -> (plan: Plan)
    requires
        0 < block_size,
        4 * size <= usize::MAX,
        2 * bins <= usize::MAX,
        size <= u32::MAX,
        bins <= u32::MAX,
        size + block_size <= usize::MAX,
        bins + block_size <= usize::MAX,
        match kind {
            HistKind::OneD => true,
            HistKind::TwoD { bins_rad, bins_azim } => *bins_rad <= u32::MAX && *bins_azim
                <= u32::MAX,
        },
    ensures
        plan.shape() == histogram_shape(
            size as int,
            bins as int,
            *corr,
            *scalars,
            block_size as int,
            *kind,
        ),
{
    let allocs: Vec<Alloc> = histogram_buffers(size, bins);
    let over_bins: usize = round_up(bins, block_size);
    let over_pixels: usize = round_up(size, block_size);
    let mut args: Vec<Arg> = Vec::new();
    push_histogram_args(&mut args);
    args.push(Arg::Uint(bins as u32));
    let clear = Launch {
        kern: Kern::MemsetHistograms,
        args,
        global: over_bins,
        local: block_size,
    };
    let mut args: Vec<Arg> = vec![Arg::Buf(Buf::Image)];
    push_correction_args(&mut args, corr);
    let correct = Launch {
        kern: Kern::Corrections4,
        args,
        global: over_pixels,
        local: block_size,
    };
    let fill: Launch = fill_launch(size, bins, scalars, over_pixels, block_size, kind);
    let mut args: Vec<Arg> = Vec::new();
    push_histogram_args(&mut args);
    args.push(Arg::Uint(bins as u32));
    args.push(Arg::Real(scalars.empty));
    args.push(Arg::Buf(Buf::Averint));
    args.push(Arg::Buf(Buf::Std));
    args.push(Arg::Buf(Buf::Sem));
    let average = Launch {
        kern: Kern::HistogramPostproc,
        args,
        global: over_bins,
        local: block_size,
    };
    let ghost want = histogram_launches(
        size as int,
        bins as int,
        *corr,
        *scalars,
        block_size as int,
        *kind,
    );
    assert(clear.args@ =~= want[0].1);
    assert(correct.args@ =~= want[1].1);
    assert(fill.args@ =~= want[2].1);
    assert(average.args@ =~= want[3].1);
    let launches: Vec<Launch> = vec![clear, correct, fill, average];
    assert(launch_shapes(launches@) =~= want);
    let reads: Vec<Buf> = vec![
        Buf::Averint,
        Buf::Std,
        Buf::Sem,
        Buf::HistoSig,
        Buf::HistoVar,
        Buf::HistoNrm,
        Buf::HistoNrm2,
        Buf::HistoCnt,
    ];
    let ghost shape = histogram_shape(
        size as int,
        bins as int,
        *corr,
        *scalars,
        block_size as int,
        *kind,
    );
    assert(reads@ =~= shape.reads);
    Plan { allocs, launches, reads }
}

/// The buffer is among those made.
pub open spec fn made(allocs: Seq<Alloc>, buf: Buf) -> bool {
    exists|k: int| 0 <= k < allocs.len() && (#[trigger] allocs[k]).buf == buf
}

/// Every buffer among the arguments is made.
pub open spec fn args_made(allocs: Seq<Alloc>, args: Seq<Arg>) -> bool {
    forall|j: int|
        0 <= j < args.len() && (#[trigger] args[j]) is Buf ==> made(allocs, args[j]->Buf_0)
}

/// Every buffer that a kernel gets or that is read back is made.
pub open spec fn is_closed(p: PlanShape) -> bool {
    &&& forall|i: int|
        0 <= i < p.launches.len() ==> args_made(p.allocs, (#[trigger] p.launches[i]).1)
    &&& forall|i: int| 0 <= i < p.reads.len() ==> made(p.allocs, #[trigger] p.reads[i])
}

/// Joined argument lists whose buffers are made.
proof fn lemma_args_made_joined(allocs: Seq<Alloc>, a: Seq<Arg>, b: Seq<Arg>)
    requires
        args_made(allocs, a),
        args_made(allocs, b),
    ensures
        args_made(allocs, a + b),
{
    assert forall|j: int| 0 <= j < (a + b).len() && (#[trigger] (a + b)[j]) is Buf implies made(
        allocs,
        (a + b)[j]->Buf_0,
    ) by {
        if j < a.len() {
            assert((a + b)[j] == a[j]);
        } else {
            assert((a + b)[j] == b[j - a.len()]);
        }
    }
}

/// The buffers of the correction are made with those of the pixels and the output.
proof fn lemma_correction_args_made(
    allocs: Seq<Alloc>,
    size: int,
    image: Elem,
    c: Corrections4Args,
)
    requires
        allocs.len() >= 9,
        allocs.take(9) == input_allocs(size, image),
        made(allocs, Buf::Output4),
    ensures
        args_made(allocs, correction_args(c)),
        made(allocs, Buf::Image),
{
    let inputs = input_allocs(size, image);
    assert forall|k: int| 0 <= k < 9 implies made(allocs, (#[trigger] inputs[k]).buf) by {
        assert(allocs[k] == allocs.take(9)[k]);
    }
    assert(inputs[0].buf == Buf::Image);
    assert(inputs[1].buf == Buf::Variance);
    assert(inputs[2].buf == Buf::Dark);
    assert(inputs[3].buf == Buf::DarkVariance);
    assert(inputs[4].buf == Buf::Flat);
    assert(inputs[5].buf == Buf::SolidAngle);
    assert(inputs[6].buf == Buf::Polarization);
    assert(inputs[7].buf == Buf::Absorption);
    assert(inputs[8].buf == Buf::Mask);
}

/// A run over a sparse matrix uses only buffers that its plan makes.
pub proof fn lemma_csr_plan_closed(
    size: int,
    nnz: int,
    bins: int,
    c: Corrections4aArgs,
    empty: u32,
    wg_min: int,
)
    ensures
        is_closed(csr_shape(size, nnz, bins, c, empty, wg_min)),
{
    let allocs = input_allocs(size, Elem::Int) + csr_allocs(nnz, bins) + sum_allocs(size, bins);
    let launches = csr_launches(size, bins, c, empty, wg_min);
    assert(allocs.take(9) =~= input_allocs(size, Elem::Int));
    assert(allocs[9].buf == Buf::CsrData && allocs[10].buf == Buf::CsrIndices && allocs[11].buf
        == Buf::CsrIndptr && allocs[12].buf == Buf::Output4 && allocs[13].buf == Buf::Merged8
        && allocs[14].buf == Buf::Averint && allocs[15].buf == Buf::Std && allocs[16].buf
        == Buf::Sem);
    lemma_correction_args_made(allocs, size, Elem::Int, c.base());
    let head = seq![Arg::Buf(Buf::Image), Arg::Char(c.dtype)];
    assert(args_made(allocs, head));
    lemma_args_made_joined(allocs, head, correction_args(c.base()));
    assert(args_made(allocs, launches[0].1));
    assert(args_made(allocs, launches[1].1));
    assert(args_made(allocs, launches[2].1));
}

/// A run over a look-up table uses only buffers that its plan makes.
pub proof fn lemma_lut_plan_closed(
    size: int,
    bins: int,
    lut_size: int,
    c: Corrections4Args,
    empty: u32,
    block: int,
)
    ensures
        is_closed(lut_shape(size, bins, lut_size, c, empty, block)),
{
    let allocs = input_allocs(size, Elem::Real).push(
        alloc_of(Buf::Lut, Elem::Point, bins * lut_size, Access::Read),
    ) + sum_allocs(size, bins);
    let launches = lut_launches(size, bins, c, empty, block);
    assert(allocs.take(9) =~= input_allocs(size, Elem::Real));
    assert(allocs[9].buf == Buf::Lut && allocs[10].buf == Buf::Output4 && allocs[11].buf
        == Buf::Merged8 && allocs[12].buf == Buf::Averint && allocs[13].buf == Buf::Std
        && allocs[14].buf == Buf::Sem);
    lemma_correction_args_made(allocs, size, Elem::Real, c);
    let head = seq![Arg::Buf(Buf::Image)];
    assert(args_made(allocs, head));
    lemma_args_made_joined(allocs, head, correction_args(c));
    assert(args_made(allocs, launches[0].1));
    assert(args_made(allocs, launches[1].1));
    assert(args_made(allocs, launches[2].1));
}

/// A histogram run uses only buffers that its plan makes.
pub proof fn lemma_histogram_plan_closed(
    size: int,
    bins: int,
    c: Corrections4Args,
    s: HistogramScalars,
    block: int,
    kind: HistKind,
)
    ensures
        is_closed(histogram_shape(size, bins, c, s, block, kind)),
{
    let allocs = input_allocs(size, Elem::Real) + histogram_allocs(size, bins);
    let launches = histogram_launches(size, bins, c, s, block, kind);
    assert(allocs.take(9) =~= input_allocs(size, Elem::Real));
    assert(allocs[9].buf == Buf::Radial && allocs[10].buf == Buf::Azimuthal && allocs[11].buf
        == Buf::Output4 && allocs[12].buf == Buf::HistoSig && allocs[13].buf == Buf::HistoVar
        && allocs[14].buf == Buf::HistoNrm && allocs[15].buf == Buf::HistoNrm2 && allocs[16].buf
        == Buf::HistoCnt && allocs[17].buf == Buf::Averint && allocs[18].buf == Buf::Std
        && allocs[19].buf == Buf::Sem);
    lemma_correction_args_made(allocs, size, Elem::Real, c);
    let image = seq![Arg::Buf(Buf::Image)];
    assert(args_made(allocs, image));
    lemma_args_made_joined(allocs, image, correction_args(c));
    assert(args_made(allocs, histogram_args()));
    assert(args_made(allocs, launches[0].1));
    assert(args_made(allocs, launches[1].1));
    assert(args_made(allocs, launches[2].1));
    assert(args_made(allocs, launches[3].1));
}

/// The flag that switches the correction on which reads a buffer; none for the other
/// buffers.
pub open spec fn switch_of(c: Corrections4Args, buf: Buf) -> Option<i8> {
    match buf {
        Buf::Dark => Some(c.do_dark),
        Buf::DarkVariance => Some(c.do_dark_variance),
        Buf::Flat => Some(c.do_flat),
        Buf::SolidAngle => Some(c.do_solidangle),
        Buf::Polarization => Some(c.do_polarization),
        Buf::Absorption => Some(c.do_absorption),
        Buf::Mask => Some(c.do_mask),
        _ => None,
    }
}

/// Every correction array is handed over once, directly behind the flag that switches its
/// correction on.
pub proof fn lemma_flags_precede_arrays(c: Corrections4Args, buf: Buf)
    requires
        switch_of(c, buf) is Some,
    ensures
        ({
            let args = correction_args(c);
            exists|k: int|
                1 <= k < args.len() && #[trigger] args[k] == Arg::Buf(buf) && args[k - 1]
                    == Arg::Char(switch_of(c, buf)->0)
        }),
        forall|i: int, j: int|
            0 <= i < j < correction_args(c).len() && #[trigger] correction_args(c)[i] == Arg::Buf(
                buf,
            ) ==> #[trigger] correction_args(c)[j] != Arg::Buf(buf),
{
    let args = correction_args(c);
    assert(args[3] == Arg::Buf(Buf::Dark));
    assert(args[5] == Arg::Buf(Buf::DarkVariance));
    assert(args[7] == Arg::Buf(Buf::Flat));
    assert(args[9] == Arg::Buf(Buf::SolidAngle));
    assert(args[11] == Arg::Buf(Buf::Polarization));
    assert(args[13] == Arg::Buf(Buf::Absorption));
    assert(args[15] == Arg::Buf(Buf::Mask));
}

/// Two sets of corrections with the same arguments are the same.
pub proof fn lemma_correction_args_tell_all(c: Corrections4Args, d: Corrections4Args)
    requires
        correction_args(c) == correction_args(d),
    ensures
        c == d,
{
    let (a, b) = (correction_args(c), correction_args(d));
    assert(a[0] == b[0] && a[2] == b[2] && a[4] == b[4] && a[6] == b[6] && a[8] == b[8]);
    assert(a[10] == b[10] && a[12] == b[12] && a[14] == b[14] && a[16] == b[16]);
    assert(a[17] == b[17] && a[18] == b[18] && a[19] == b[19] && a[20] == b[20]);
}

/// The number of items that a kernel works through one by one: pixels where it corrects
/// them or fills a histogram, else bins.
pub open spec fn items_of(kern: Kern, size: int, bins: int) -> int {
    match kern {
        Kern::Corrections4a | Kern::Corrections4 | Kern::Histogram1d | Kern::Histogram2d => size,
        _ => bins,
    }
}

/// A kernel has whole groups of work items, at least one work item for each of its items,
/// and no group to spare.
pub open spec fn has_enough_work(
    launch: (Kern, Seq<Arg>, usize, usize),
    size: int,
    bins: int,
) -> bool {
    let n = items_of(launch.0, size, bins);
    let (global, local) = (launch.2 as int, launch.3 as int);
    &&& 0 < local
    &&& global % local == 0
    &&& n <= global
    &&& launch.0 == Kern::CsrIntegrate4 ==> global == n * local
    &&& launch.0 != Kern::CsrIntegrate4 ==> global < n + local
}

/// The kernels of a run over a sparse matrix have enough work items; the sum of a bin has a
/// group of its own.
pub proof fn lemma_csr_work(
    size: int,
    bins: int,
    c: Corrections4aArgs,
    empty: u32,
    wg_min: int,
    k: int,
)
    requires
        0 <= size && size + MAP_GROUP <= usize::MAX,
        0 <= bins && bins + MAP_GROUP <= usize::MAX,
        0 < wg_min <= usize::MAX,
        bins * wg_min <= usize::MAX,
        0 <= k < csr_launches(size, bins, c, empty, wg_min).len(),
    ensures
        has_enough_work(csr_launches(size, bins, c, empty, wg_min)[k], size, bins),
{
    lemma_rounded_up(size, MAP_GROUP as int, 0);
    lemma_rounded_up(bins, MAP_GROUP as int, 0);
    vstd::arithmetic::div_mod::lemma_mod_multiples_basic(bins, wg_min);
    assert(bins <= bins * wg_min) by (nonlinear_arith)
        requires
            0 <= bins,
            1 <= wg_min,
    ;
}

/// The kernels of a run over a look-up table have enough work items.
pub proof fn lemma_lut_work(
    size: int,
    bins: int,
    c: Corrections4Args,
    empty: u32,
    block: int,
    k: int,
)
    requires
        0 < block,
        0 <= size && size + block <= usize::MAX,
        0 <= bins && bins + block <= usize::MAX,
        0 <= k < lut_launches(size, bins, c, empty, block).len(),
    ensures
        has_enough_work(lut_launches(size, bins, c, empty, block)[k], size, bins),
{
    lemma_rounded_up(size, block, 0);
    lemma_rounded_up(bins, block, 0);
}

/// The kernels of a histogram run have enough work items.
pub proof fn lemma_histogram_work(
    size: int,
    bins: int,
    c: Corrections4Args,
    s: HistogramScalars,
    block: int,
    kind: HistKind,
    k: int,
)
    requires
        0 < block,
        0 <= size && size + block <= usize::MAX,
        0 <= bins && bins + block <= usize::MAX,
        0 <= k < histogram_launches(size, bins, c, s, block, kind).len(),
    ensures
        has_enough_work(histogram_launches(size, bins, c, s, block, kind)[k], size, bins),
{
    lemma_rounded_up(size, block, 0);
    lemma_rounded_up(bins, block, 0);
}

/// A kernel is given a buffer.
pub open spec fn is_given(args: Seq<Arg>, buf: Buf) -> bool {
    exists|j: int| 0 <= j < args.len() && #[trigger] args[j] == Arg::Buf(buf)
}

/// The run goes in order: first the sums are cleared, then the image is corrected, and only
/// then are the corrected pixels read. Everything read back is given to the last kernel.
pub open spec fn runs_in_order(p: PlanShape, clears: Kern, corrects: Kern) -> bool {
    let n = p.launches.len() as int;
    &&& n >= 3
    &&& p.launches[0].0 == clears && !is_given(p.launches[0].1, Buf::Output4)
    &&& p.launches[1].0 == corrects && is_given(p.launches[1].1, Buf::Image) && is_given(
        p.launches[1].1,
        Buf::Output4,
    )
    &&& is_given(p.launches[2].1, Buf::Output4) && !is_given(p.launches[2].1, Buf::Image)
    &&& forall|k: int|
        0 <= k < p.reads.len() ==> is_given(p.launches[n - 1].1, #[trigger] p.reads[k])
    &&& forall|i: int, j: int|
        0 <= i < j < p.reads.len() ==> #[trigger] p.reads[i] != #[trigger] p.reads[j]
}

proof fn lemma_given_behind(head: Seq<Arg>, tail: Seq<Arg>, buf: Buf)
    ensures
        is_given(head + tail, buf) <==> is_given(head, buf) || is_given(tail, buf),
{
    if is_given(head, buf) {
        let j = choose|j: int| 0 <= j < head.len() && #[trigger] head[j] == Arg::Buf(buf);
        assert((head + tail)[j] == Arg::Buf(buf));
    }
    if is_given(tail, buf) {
        let j = choose|j: int| 0 <= j < tail.len() && #[trigger] tail[j] == Arg::Buf(buf);
        assert((head + tail)[head.len() + j] == Arg::Buf(buf));
    }
    if is_given(head + tail, buf) {
        let j = choose|j: int|
            0 <= j < (head + tail).len() && #[trigger] (head + tail)[j] == Arg::Buf(buf);
        if j < head.len() {
            assert(head[j] == Arg::Buf(buf));
        } else {
            assert(tail[j - head.len()] == Arg::Buf(buf));
        }
    }
}

/// A run over a sparse matrix goes in order.
pub proof fn lemma_csr_order(
    size: int,
    nnz: int,
    bins: int,
    c: Corrections4aArgs,
    empty: u32,
    wg_min: int,
)
    ensures
        runs_in_order(
            csr_shape(size, nnz, bins, c, empty, wg_min),
            Kern::MemsetNg,
            Kern::Corrections4a,
        ),
{
    let p = csr_shape(size, nnz, bins, c, empty, wg_min);
    let head = seq![Arg::Buf(Buf::Image), Arg::Char(c.dtype)];
    let tail = correction_args(c.base());
    assert(head[0] == Arg::Buf(Buf::Image));
    assert(tail[21] == Arg::Buf(Buf::Output4));
    lemma_given_behind(head, tail, Buf::Image);
    lemma_given_behind(head, tail, Buf::Output4);
    let sum = p.launches[2].1;
    assert(sum[0] == Arg::Buf(Buf::Output4) && sum[7] == Arg::Buf(Buf::Merged8));
    assert(sum[8] == Arg::Buf(Buf::Averint) && sum[9] == Arg::Buf(Buf::Std));
    assert(sum[10] == Arg::Buf(Buf::Sem));
}

/// A run over a look-up table goes in order.
pub proof fn lemma_lut_order(
    size: int,
    bins: int,
    lut_size: int,
    c: Corrections4Args,
    empty: u32,
    block: int,
)
    ensures
        runs_in_order(
            lut_shape(size, bins, lut_size, c, empty, block),
            Kern::MemsetOut,
            Kern::Corrections4,
        ),
{
    let p = lut_shape(size, bins, lut_size, c, empty, block);
    let head = seq![Arg::Buf(Buf::Image)];
    let tail = correction_args(c);
    assert(head[0] == Arg::Buf(Buf::Image));
    assert(tail[21] == Arg::Buf(Buf::Output4));
    lemma_given_behind(head, tail, Buf::Image);
    lemma_given_behind(head, tail, Buf::Output4);
    let sum = p.launches[2].1;
    assert(sum[0] == Arg::Buf(Buf::Output4) && sum[3] == Arg::Buf(Buf::Merged8));
    assert(sum[4] == Arg::Buf(Buf::Averint) && sum[5] == Arg::Buf(Buf::Std));
    assert(sum[6] == Arg::Buf(Buf::Sem));
}

/// A histogram run goes in order.
pub proof fn lemma_histogram_order(
    size: int,
    bins: int,
    c: Corrections4Args,
    s: HistogramScalars,
    block: int,
    kind: HistKind,
)
    ensures
        runs_in_order(
            histogram_shape(size, bins, c, s, block, kind),
            Kern::MemsetHistograms,
            Kern::Corrections4,
        ),
{
    let p = histogram_shape(size, bins, c, s, block, kind);
    let head = seq![Arg::Buf(Buf::Image)];
    let tail = correction_args(c);
    assert(head[0] == Arg::Buf(Buf::Image));
    assert(tail[21] == Arg::Buf(Buf::Output4));
    lemma_given_behind(head, tail, Buf::Image);
    lemma_given_behind(head, tail, Buf::Output4);
    let fill = p.launches[2].1;
    assert(fill[2] == Arg::Buf(Buf::Output4));
    let last = p.launches[3].1;
    assert(last[0] == Arg::Buf(Buf::HistoSig) && last[1] == Arg::Buf(Buf::HistoVar));
    assert(last[2] == Arg::Buf(Buf::HistoNrm) && last[3] == Arg::Buf(Buf::HistoNrm2));
    assert(last[4] == Arg::Buf(Buf::HistoCnt) && last[7] == Arg::Buf(Buf::Averint));
    assert(last[8] == Arg::Buf(Buf::Std) && last[9] == Arg::Buf(Buf::Sem));
}

/// A range is handed to the histogram kernel with its smaller end directly before its
/// larger one, the radial range before the azimuthal one.
pub proof fn lemma_ranges_of_the_histogram(size: int, bins: int, s: HistogramScalars, kind: HistKind)
    ensures
        ({
            let args = fill_args(size, bins, s, kind);
            exists|i: int, j: int|
                0 <= i < i + 1 < j < j + 1 < args.len() && #[trigger] args[i] == Arg::Real(
                    s.radial_mini,
                ) && args[i + 1] == Arg::Real(s.radial_maxi) && #[trigger] args[j] == Arg::Real(
                    s.azim_mini,
                ) && args[j + 1] == Arg::Real(s.azim_maxi)
        }),
{
    let args = fill_args(size, bins, s, kind);
    match kind {
        HistKind::OneD => {
            assert(args[10] == Arg::Real(s.radial_mini) && args[11] == Arg::Real(s.radial_maxi));
            assert(args[13] == Arg::Real(s.azim_mini) && args[14] == Arg::Real(s.azim_maxi));
        },
        HistKind::TwoD { bins_rad, bins_azim } => {
            assert(args[11] == Arg::Real(s.radial_mini) && args[12] == Arg::Real(s.radial_maxi));
            assert(args[13] == Arg::Real(s.azim_mini) && args[14] == Arg::Real(s.azim_maxi));
        },
    }
}

/// How many numbers a buffer holds in a run on `size` pixels and `bins` bins: one to a
/// pixel, four to a corrected pixel, eight sums to a bin, pairs for a histogram, and one to
/// a bin else. `entries` is the number of entries of the matrix or of the table.
pub open spec fn room_of(buf: Buf, size: int, bins: int, entries: int) -> int {
    match buf {
        Buf::Output4 => 4 * size,
        Buf::Merged8 => 8 * bins,
        Buf::HistoSig | Buf::HistoVar | Buf::HistoNrm | Buf::HistoNrm2 => 2 * bins,
        Buf::HistoCnt | Buf::Averint | Buf::Std | Buf::Sem => bins,
        Buf::CsrData | Buf::CsrIndices | Buf::Lut => entries,
        Buf::CsrIndptr => bins + 1,
        _ => size,
    }
}

/// The buffers are made once each, with room for what they hold.
pub open spec fn has_room(allocs: Seq<Alloc>, size: int, bins: int, entries: int) -> bool {
    &&& forall|k: int|
        0 <= k < allocs.len() ==> (#[trigger] allocs[k]).len == room_of(
            allocs[k].buf,
            size,
            bins,
            entries,
        )
    &&& forall|i: int, j: int|
        0 <= i < j < allocs.len() ==> (#[trigger] allocs[i]).buf != (#[trigger] allocs[j]).buf
}

/// The buffers of every run have room for what they hold.
pub proof fn lemma_room_of_buffers(
    size: int,
    nnz: int,
    bins: int,
    lut_size: int,
    c: Corrections4aArgs,
    s: HistogramScalars,
    empty: u32,
    group: int,
    kind: HistKind,
)
    requires
        0 <= size && 4 * size <= usize::MAX,
        0 <= bins && 8 * bins <= usize::MAX,
        bins < usize::MAX,
        0 <= nnz <= usize::MAX,
        0 <= bins * lut_size <= usize::MAX,
    ensures
        has_room(csr_shape(size, nnz, bins, c, empty, group).allocs, size, bins, nnz),
        has_room(
            lut_shape(size, bins, lut_size, c.base(), empty, group).allocs,
            size,
            bins,
            bins * lut_size,
        ),
        has_room(histogram_shape(size, bins, c.base(), s, group, kind).allocs, size, bins, 0),
{
}

/// Different kernels have different names.
pub proof fn lemma_names_tell_kernels_apart(a: Kern, b: Kern)
    requires
        a.label() == b.label(),
    ensures
        a == b,
{
    reveal_strlit("memset_ng");
    reveal_strlit("memset_out");
    reveal_strlit("memset_histograms");
    reveal_strlit("corrections4a");
    reveal_strlit("corrections4");
    reveal_strlit("csr_integrate4");
    reveal_strlit("lut_integrate4");
    reveal_strlit("histogram_1d_preproc");
    reveal_strlit("histogram_2d_preproc");
    reveal_strlit("histogram_postproc");
    assert("memset_ng"@.len() == 9 && "memset_out"@.len() == 10);
    assert("memset_histograms"@.len() == 17 && "corrections4a"@.len() == 13);
    assert("corrections4"@.len() == 12 && "csr_integrate4"@.len() == 14);
    assert("lut_integrate4"@.len() == 14 && "histogram_1d_preproc"@.len() == 20);
    assert("histogram_2d_preproc"@.len() == 20 && "histogram_postproc"@.len() == 18);
    assert("csr_integrate4"@[0] != "lut_integrate4"@[0]);
    assert("histogram_1d_preproc"@[10] != "histogram_2d_preproc"@[10]);
}

} // verus!
