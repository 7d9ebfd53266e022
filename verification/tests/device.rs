use rsfai::array::Array;
use rsfai::device::{
    build_gpu_lut, high_lane, merged_col, pack_1d, pack_2d, pack_histogram_1d, pack_histogram_2d,
    transpose_to_azim_rad, transpose_u32_to_azim_rad, HistogramOutput, LutPoint, PipelineOutput,
};
use rsfai::engine::{corr_from_kwargs, CorrConfig, CorrPresence, EngineError, GpuEngine};
use rsfai::launch::{
    csr_plan, histogram_plan, lut_plan, Access, Arg, Buf, Elem, HistKind, HistogramScalars, Kern,
    Plan,
};
use rsfai::program::{choose_device, csr_compile_options, csr_program_source, GPU};

fn directive() -> String {
    format!("#{}{} ", "inc", "lude")
}

#[test]
fn program_text_drops_directives() {
    let first = format!("{}\"a.h\"\nint a;\r\n  {}\"kept\"\n", directive(), directive());
    let second = format!("float b;\n\n{}<x>", directive());
    let text = csr_program_source(&[&first, &second]);
    assert_eq!(text, format!("int a;\n  {}\"kept\"\nfloat b;\n\n", directive()));
    assert_eq!(csr_program_source(&[]), "");
    assert_eq!(csr_program_source(&["", "x"]), "x\n");
}

#[test]
fn compile_options_name_both_sizes() {
    assert_eq!(
        csr_compile_options(1000, 1023183),
        "-Dcl_khr_fp64=0 -D NBINS=1000 -D NIMAGE=1023183"
    );
    assert_eq!(csr_compile_options(0, 7), "-Dcl_khr_fp64=0 -D NBINS=0 -D NIMAGE=7");
}

#[test]
fn devices_are_chosen_by_type() {
    assert_eq!(choose_device(&[2, GPU, GPU], true), Some(1));
    assert_eq!(choose_device(&[2, GPU], false), Some(0));
    assert_eq!(choose_device(&[2, 8], true), Some(0));
    assert_eq!(choose_device(&[], true), None);
}

#[test]
fn lanes_are_picked_from_accumulators() {
    let merged: Vec<u32> = (0..16).collect();
    assert_eq!(merged_col(&merged, 2, 4), vec![4, 12]);
    assert_eq!(high_lane(&[1, 2, 3, 4], 2), vec![1, 3]);
    assert_eq!(transpose_to_azim_rad(&[1, 2, 3, 4, 5, 6], 2, 3), vec![1, 4, 2, 5, 3, 6]);
    assert_eq!(transpose_u32_to_azim_rad(&[1, 2, 3, 4], 2, 2), vec![1, 3, 2, 4]);
}

#[test]
fn pipeline_output_becomes_a_result() {
    let out = || PipelineOutput {
        intensity: vec![1, 2],
        std: vec![3, 4],
        sem: vec![5, 6],
        merged8: (10..26).collect(),
    };
    let r = pack_1d(out());
    assert_eq!((r.intensity, r.std, r.sem), (vec![1, 2], vec![3, 4], vec![5, 6]));
    assert_eq!((r.signal, r.variance), (vec![10, 18], vec![12, 20]));
    assert_eq!((r.normalization, r.count, r.norm_sq), (vec![14, 22], vec![16, 24], vec![17, 25]));
    let r = pack_2d(out(), 2, 1);
    assert_eq!(r.signal, vec![10, 18]);
    let out = PipelineOutput {
        intensity: vec![1, 2, 3, 4],
        std: vec![0; 4],
        sem: vec![0; 4],
        merged8: (0..32).collect(),
    };
    let r = pack_2d(out, 2, 2);
    assert_eq!(r.intensity, vec![1, 3, 2, 4]);
    assert_eq!(r.count, vec![6, 22, 14, 30]);
}

#[test]
fn histogram_output_becomes_a_result() {
    let out = || HistogramOutput {
        intensity: vec![1, 2, 3, 4],
        std: vec![5, 6, 7, 8],
        sem: vec![9, 10, 11, 12],
        histo_sig: (20..28).collect(),
        histo_var: (30..38).collect(),
        histo_nrm: (40..48).collect(),
        histo_nrm2: (50..58).collect(),
        count: vec![1, 0, 2, 0],
    };
    let r = pack_histogram_1d(out());
    assert_eq!(r.signal, (20..28).collect::<Vec<u32>>());
    assert_eq!(r.sigma, vec![9, 10, 11, 12]);
    assert_eq!(r.count, vec![1, 0, 2, 0]);
    let r = pack_histogram_2d(out(), 2, 2);
    assert_eq!(r.intensity, vec![1, 3, 2, 4]);
    assert_eq!(r.sigma, vec![9, 11, 10, 12]);
    assert_eq!(r.signal, vec![20, 24, 22, 26]);
    assert_eq!(r.norm_sq, vec![50, 54, 52, 56, 51, 55, 53, 57]);
    assert_eq!(r.count, vec![1, 2, 0, 0]);
}

#[test]
fn tables_become_points() {
    let lut = build_gpu_lut(&[1, 2, 3, 4], &[5, 6, 7, 8], 2, 2);
    let got: Vec<(i32, u32)> = lut.iter().map(|p: &LutPoint| (p.idx, p.coef)).collect();
    assert_eq!(got, vec![(1, 5), (3, 7), (2, 6), (4, 8)]);
}

fn nothing() -> CorrPresence {
    CorrPresence {
        dark: false,
        dark_variance: false,
        flat: false,
        solidangle: false,
        polarization: false,
        absorption: false,
        mask: false,
    }
}

fn config() -> CorrConfig {
    corr_from_kwargs(CorrPresence { mask: true, ..nothing() }, 2, 8, Some(7), 3, 1, true)
}

#[test]
fn corrections_are_flagged() {
    let c = config();
    assert_eq!((c.error_model, c.dtype, c.do_mask, c.do_dark), (2, 8, 1, 0));
    assert_eq!((c.do_dummy, c.dummy, c.delta_dummy), (1, 7, 3));
    assert_eq!((c.normalization_factor, c.apply_normalization), (1, 1));
    let c = corr_from_kwargs(nothing(), 0, 0, None, 3, 1, false);
    assert_eq!((c.do_dummy, c.dummy, c.apply_normalization), (0, 0, 0));
    let a = config().to_csr_args();
    assert_eq!((a.dtype, a.do_mask), (8, 1));
    assert!(a.to_base() == config().to_corr4_args());
}

/// Every buffer that a kernel or a read names is made, once.
fn closed(plan: &Plan) -> bool {
    let made = |b: &Buf| plan.allocs.iter().filter(|a| a.buf == *b).count() == 1;
    plan.reads.iter().all(|b| made(b))
        && plan.launches.iter().all(|l| {
            l.args.iter().all(|a| match a {
                Arg::Buf(b) => made(b),
                _ => true,
            }) && l.global % l.local == 0
        })
}

#[test]
fn sparse_runs_are_planned() {
    let plan = csr_plan(300, 50, 10, &config().to_csr_args(), 9, 32);
    assert!(closed(&plan));
    assert_eq!(plan.allocs.len(), 17);
    let names: Vec<&str> = plan.launches.iter().map(|l| l.kern.name()).collect();
    assert_eq!(names, vec!["memset_ng", "corrections4a", "csr_integrate4"]);
    assert_eq!((plan.launches[0].global, plan.launches[0].local), (256, 256));
    assert_eq!((plan.launches[1].global, plan.launches[1].local), (512, 256));
    assert_eq!((plan.launches[2].global, plan.launches[2].local), (320, 32));
    assert!(plan.launches[2].args[4] == Arg::Int(10));
    assert!(plan.launches[2].args[11] == Arg::Local(1024));
    assert!(plan.launches[1].args[1] == Arg::Char(8));
    let indptr = plan.allocs.iter().find(|a| a.buf == Buf::CsrIndptr).unwrap();
    assert!(indptr.len == 11 && indptr.elem == Elem::Int && indptr.access == Access::Read);
}

#[test]
fn table_runs_are_planned() {
    let plan = lut_plan(300, 10, 4, &config().to_corr4_args(), 9, 128);
    assert!(closed(&plan));
    let names: Vec<&str> = plan.launches.iter().map(|l| l.kern.name()).collect();
    assert_eq!(names, vec!["memset_out", "corrections4", "lut_integrate4"]);
    assert_eq!((plan.launches[1].global, plan.launches[2].global), (384, 128));
    let lut = plan.allocs.iter().find(|a| a.buf == Buf::Lut).unwrap();
    assert!(lut.len == 40 && lut.elem == Elem::Point);
    assert!(plan.reads == vec![Buf::Averint, Buf::Std, Buf::Sem, Buf::Merged8]);
}

fn scalars() -> HistogramScalars {
    HistogramScalars {
        radial_mini: 1,
        radial_maxi: 2,
        check_azim: 1,
        azim_mini: 3,
        azim_maxi: 4,
        empty: 5,
    }
}

#[test]
fn histogram_runs_are_planned() {
    let c = config().to_corr4_args();
    let one = histogram_plan(300, 10, &c, &scalars(), 64, &HistKind::OneD);
    assert!(closed(&one));
    assert!(one.launches[2].kern == Kern::Histogram1d);
    assert_eq!(one.launches[2].args.len(), 15);
    assert!(one.launches[2].args[12] == Arg::Char(1));
    let kind = HistKind::TwoD { bins_rad: 5, bins_azim: 2 };
    let two = histogram_plan(300, 10, &c, &scalars(), 64, &kind);
    assert!(closed(&two));
    assert!(two.launches[2].kern == Kern::Histogram2d);
    assert!(two.launches[2].args[9] == Arg::Uint(5) && two.launches[2].args[10] == Arg::Uint(2));
    assert!(two.launches[3].args[6] == Arg::Real(5));
    assert_eq!(two.reads.len(), 8);
}

#[test]
fn engines_refuse_what_does_not_fit() {
    let csr = |indptr: Vec<i32>, indices: Vec<i32>, bins1: Option<usize>| {
        GpuEngine::build_csr(vec![1, 2], indices, indptr, 2, bins1, 6, config(), 0, 32)
    };
    let engine = csr(vec![0, 1, 2], vec![0, 5], None).unwrap();
    assert!(csr(vec![0, 1], vec![0, 5], None).unwrap_err() == EngineError::PointerLength);
    assert!(csr(vec![0, 1, 2], vec![0], None).unwrap_err() == EngineError::EntryLength);
    assert!(engine.check_device());
    let plan = engine.integrate1d(6).unwrap();
    assert!(closed(&plan) && plan.launches.len() == 3);
    assert!(engine.integrate1d(7).unwrap_err() == EngineError::ImageLength);
    assert!(engine.integrate2d(6).unwrap_err() == EngineError::NotTwoD);
    let grid = csr(vec![0, 0, 1, 1, 2, 2, 2], vec![0, 5], Some(3)).unwrap();
    assert!(grid.integrate1d(6).unwrap_err() == EngineError::NotOneD);
    assert!(grid.integrate2d(6).unwrap().launches[2].args[4] == Arg::Int(6));
    assert!(grid.integrate2d(5).unwrap_err() == EngineError::ImageLength);

    let lut = |idx: Vec<i32>, coef: Vec<u32>, block: usize| {
        GpuEngine::build_lut(idx, coef, 2, 3, None, 6, config(), 0, block)
    };
    assert!(lut(vec![0; 6], vec![0; 6], 0).unwrap().check_device() == false);
    assert!(lut(vec![0; 5], vec![0; 6], 64).unwrap_err() == EngineError::TableLength);
    assert!(lut(vec![0; 6], vec![0; 5], 64).unwrap_err() == EngineError::TableLength);
    let plan = lut(vec![0; 6], vec![0; 6], 64).unwrap().integrate1d(6).unwrap();
    assert!(plan.launches[2].kern == Kern::LutIntegrate4);

    let hist = |radial: Vec<u32>, azimuthal: Vec<u32>, bins1: Option<usize>| {
        GpuEngine::build_histogram(radial, azimuthal, scalars(), 3, bins1, 4, config(), 0, 64)
    };
    assert!(hist(vec![0; 3], vec![0; 4], None).unwrap_err() == EngineError::PositionLength);
    assert!(hist(vec![0; 4], vec![0; 3], None).unwrap_err() == EngineError::PositionLength);
    let plan = hist(vec![0; 4], vec![0; 4], Some(2)).unwrap().integrate2d(4).unwrap();
    assert!(plan.launches[2].kern == Kern::Histogram2d);
    assert_eq!(GpuEngine::bins(3, Some(4)), 12);
    assert_eq!(GpuEngine::bins(3, None), 3);
}

#[test]
fn arrays_know_their_shape() {
    let a = Array { data: vec![1, 2, 3, 4, 5, 6], shape: vec![2, 3] };
    assert_eq!(a.len(), 6);
    assert!(!a.is_empty());
    assert_eq!(a.dims2(), (2, 3));
    let e: Array<u8> = Array { data: vec![], shape: vec![0] };
    assert!(e.is_empty());
}
