use sp1_gpu_plonk::fields::{Fq, Fr};
use sp1_gpu_plonk::g1::G1Affine;
use sp1_gpu_plonk::gpu_kernels::{
    fixup_operands, kernel_check_indices, kernel_scalars, quotient_download_len,
};
use sp1_gpu_plonk::gpu_plan::{
    coset_step, fixup_mode, fold_places, fold_uploads, keep_lroz_device, plan_fold, quotient_path,
    switched_on, use_gpu_quotient, CosetStep, FixupMode, PolyInput, QuotientPath,
};
use sp1_gpu_plonk::ntt_buffer::{pack_padded, split_packed, NttBuffer};
use sp1_gpu_plonk::quotient_plan::{plan_quotient, CosetAddresses, QuotientStep};
use sp1_gpu_plonk::solver::{PlonkScsSolver, SolveError, SolveOutputs};
use sp1_gpu_plonk::static_cache::{
    CanonicalSlot, PlonkCanonicalCache, PlonkStaticCache, StaticCachePlan,
};
use sp1_gpu_plonk::{BN254Fq, BN254Fr, BN254G1Affine};

const GIB: usize = 1 << 30;

#[test]
fn the_plan_from_settings() {
    let plan = |s| StaticCachePlan::from_env(s, None);
    assert_eq!(plan(None), None);
    for off in ["", "0", "off", "OFF", "false", "FALSE", "00", "many", "-1"] {
        assert_eq!(plan(Some(off)), None);
    }
    for on in ["1", "on", "ON", "true", "TRUE"] {
        let expected = StaticCachePlan { max_arrays: 1, safety_margin_bytes: 2 * GIB };
        assert_eq!(plan(Some(on)), Some(expected));
    }
    assert_eq!(plan(Some("3")).unwrap().max_arrays, 3);
    let with = |m| StaticCachePlan::from_env(Some("2"), Some(m)).unwrap().safety_margin_bytes;
    assert_eq!(with("0"), 0);
    assert_eq!(with("5"), 5 * GIB);
    assert_eq!(with("much"), 2 * GIB);
    let huge = usize::MAX.to_string();
    assert_eq!(StaticCachePlan::from_env(None, Some(&huge)), None);
    assert_eq!(StaticCachePlan::from_env(Some("off"), Some(&huge)), None);
    let none = StaticCachePlan::default();
    assert_eq!((none.max_arrays, none.safety_margin_bytes), (0, 0));
}

#[test]
fn arrays_are_kept_in_order() {
    let plan = StaticCachePlan { max_arrays: 3, safety_margin_bytes: 100 };
    let mut cache = PlonkStaticCache::new();
    assert_eq!(cache.slot_ptr(0), None);
    let mut fill = cache.ensure_populated(plan, 10, true).unwrap();
    let mut slots = Vec::new();
    while let Some(slot) = fill.decide(420) {
        slots.push(slot);
        fill.record(&mut cache, Some(1000 + slot as u64));
    }
    assert_eq!(slots, vec![0, 1, 3]);
    assert_eq!(cache.slot_ptr(3), Some(1003));
    assert_eq!(cache.slot_ptr(4), None);
    assert_eq!(cache.slot_ptr(5), None);
    assert_eq!(cache.slot_ptr(9), None);
    assert!(cache.ensure_populated(plan, 10, true).is_none());
}

#[test]
fn all_arrays_are_kept() {
    let plan = StaticCachePlan { max_arrays: 100, safety_margin_bytes: 0 };
    for has_qm in [false, true] {
        let mut cache = PlonkStaticCache::new();
        let mut fill = cache.ensure_populated(plan, 1, has_qm).unwrap();
        let mut slots = Vec::new();
        while let Some(slot) = fill.decide(32) {
            slots.push(slot);
            fill.record(&mut cache, Some(slot as u64));
        }
        let mut expected = vec![0, 1, 3, 5, 6, 7, 8];
        if has_qm {
            expected.push(2);
        }
        assert_eq!(slots, expected);
    }
}

#[test]
fn uploads_stop_at_the_margin_or_an_error() {
    let plan = StaticCachePlan { max_arrays: 8, safety_margin_bytes: 100 };
    let mut cache = PlonkStaticCache::new();
    let mut fill = cache.ensure_populated(plan, 10, false).unwrap();
    assert_eq!(fill.decide(420), Some(0));
    fill.record(&mut cache, Some(5));
    assert_eq!(fill.decide(419), None);
    assert_eq!(fill.decide(10_000), None);
    assert_eq!(cache.slot_ptr(0), Some(5));
    assert_eq!(cache.slot_ptr(1), None);

    let mut cache = PlonkStaticCache::new();
    let mut fill = cache.ensure_populated(plan, 10, false).unwrap();
    assert_eq!(fill.decide(420), Some(0));
    fill.record(&mut cache, None);
    assert_eq!(fill.decide(10_000), None);
    assert_eq!(cache.slot_ptr(0), None);
}

#[test]
fn polynomials_are_kept_where_they_fit() {
    let mut cache = PlonkCanonicalCache::new();
    let mut fill = cache.ensure_populated(64, [Some(8); 8], &[8, 16]).unwrap();
    let mut tried = Vec::new();
    while let Some((slot, len)) = fill.current() {
        tried.push(slot);
        let address = if fill.fits(320) && slot != CanonicalSlot::Qk {
            Some(len as u64 * 100 + tried.len() as u64)
        } else {
            None
        };
        fill.record(&mut cache, address);
    }
    assert_eq!(
        tried,
        vec![
            CanonicalSlot::Ql,
            CanonicalSlot::Qr,
            CanonicalSlot::Qo,
            CanonicalSlot::Qk,
            CanonicalSlot::S1,
            CanonicalSlot::S2,
            CanonicalSlot::S3,
            CanonicalSlot::Qm,
            CanonicalSlot::Qcp(0),
            CanonicalSlot::Qcp(1),
        ]
    );
    assert_eq!(cache.get(CanonicalSlot::Ql), Some((801, 8)));
    assert_eq!(cache.get(CanonicalSlot::Qk), None);
    assert_eq!(cache.get(CanonicalSlot::Qcp(0)), Some((809, 8)));
    assert_eq!(cache.get(CanonicalSlot::Qcp(1)), None);
    assert!(cache.ensure_populated(64, [None; 8], &[]).is_none());

    let inputs = plan_fold(&cache, 6, Some(5000), 1, 2);
    let device = |address, len| PolyInput::Device { address, len };
    assert_eq!(
        inputs,
        vec![
            device(801, 8),
            device(802, 8),
            device(808, 8),
            device(803, 8),
            PolyInput::Host,
            device(807, 8),
            PolyInput::Host,
            device(5000, 8),
            device(5256, 8),
            device(5512, 8),
            PolyInput::Host,
            PolyInput::Host,
            PolyInput::Host,
            PolyInput::Host,
            device(805, 8),
            device(806, 8),
            device(809, 8),
            PolyInput::Host,
        ]
    );
    let empty = PlonkCanonicalCache::new();
    assert!(plan_fold(&empty, 6, None, 0, 0).iter().all(|p| *p == PolyInput::Host));
}

#[test]
fn settings_of_the_device() {
    let big = 24 * (GIB as u64);
    assert!(use_gpu_quotient(None, false, big));
    assert!(use_gpu_quotient(Some("0"), false, 20 * (GIB as u64)));
    assert!(!use_gpu_quotient(None, false, 20 * (GIB as u64) - 1));
    assert!(!use_gpu_quotient(Some("1"), false, big));
    assert!(!use_gpu_quotient(None, true, big));
    assert!(keep_lroz_device(None, true));
    assert!(!keep_lroz_device(None, false));
    assert!(!keep_lroz_device(Some("0"), true));
    assert!(keep_lroz_device(Some(""), false));
    assert_eq!(fixup_mode(None), FixupMode::Fold);
    assert_eq!(fixup_mode(Some("fold")), FixupMode::Fold);
    assert_eq!(fixup_mode(Some("recompute")), FixupMode::Recompute);
    assert_eq!(fixup_mode(Some("fixup")), FixupMode::Fixup);
    assert!(switched_on(Some("1")));
    assert!(!switched_on(Some("yes")));
    assert!(!switched_on(None));
    assert_eq!(quotient_path(true, false, false, false, false), QuotientPath::Device);
    assert_eq!(quotient_path(false, true, true, true, true), QuotientPath::DeviceWires);
    assert_eq!(quotient_path(false, true, true, true, false), QuotientPath::Streamed);
}

fn outputs() -> SolveOutputs {
    let one = |x: u32| BN254Fr { limbs: [x, 0, 0, 0, 0, 0, 0, 0] };
    SolveOutputs {
        l: vec![one(1)],
        r: vec![one(2)],
        o: vec![one(3)],
        bsb22_poly: vec![one(4), one(5)],
        bsb22_commit: BN254G1Affine {
            x: BN254Fq { limbs: [1, 0, 0, 0, 0, 0, 0, 0] },
            y: BN254Fq { limbs: [2, 0, 0, 0, 0, 0, 0, 0] },
        },
    }
}

#[test]
fn a_solve_step_by_step() {
    assert!(matches!(PlonkScsSolver::new(false, 1, 2, 3, 4), Err(SolveError::NotCreated)));
    let solver = PlonkScsSolver::new(true, 4, 1, 7, 2).unwrap();
    assert_eq!(solver.n_wires(), 4);
    assert_eq!(solver.n_lro(), 1);
    assert_eq!(solver.bsb22_n_committed(), 7);
    assert_eq!(solver.bsb22_domain_size(), 2);

    let w = solver.solve(128, 2, 0, 99, 0, outputs()).ok().unwrap();
    assert_eq!(w.l.len(), 1);
    assert_eq!(w.bsb22_polys.len(), 1);
    assert_eq!(w.bsb22_polys[0].len(), 2);
    let g = G1Affine { x: Fq::from_u64(1), y: Fq::from_u64(2) };
    assert_eq!(G1Affine::from_bn254(&w.bsb22_commitments[0]), g);

    let error = |r: Result<sp1_gpu_plonk::types::PlonkWitnessData, SolveError>| r.err().unwrap();
    assert_eq!(
        error(solver.solve(127, 2, 0, 99, 0, outputs())),
        SolveError::WiresLength { got: 127, want: 128 }
    );
    assert_eq!(
        error(solver.solve(128, 1, 0, 99, 0, outputs())),
        SolveError::TooFewPoints { got: 1, need: 2 }
    );
    assert_eq!(
        error(solver.solve(128, 2, -3, 99, 0, outputs())),
        SolveError::FirstStage { code: -3 }
    );
    assert_eq!(error(solver.solve(128, 2, 0, 0, 0, outputs())), SolveError::NoPolynomial);
    assert_eq!(
        error(solver.solve(128, 2, 0, 99, 5, outputs())),
        SolveError::SecondStage { code: 5 }
    );
    assert_eq!(PlonkScsSolver::accept_first_stage(0, 99), Ok(99));
    assert_eq!(solver.check_inputs(128, 3), Ok(()));
}

#[test]
fn blindings_of_the_solver() {
    let mut bytes = [0u8; 64];
    bytes[0] = 1;
    bytes[4] = 2;
    bytes[32] = 3;
    bytes[63] = 4;
    let b = PlonkScsSolver::derive_blindings(&bytes);
    assert_eq!(b[0].limbs, [1, 2, 0, 0, 0, 0, 0, 0]);
    assert_eq!(b[1].limbs, [3, 0, 0, 0, 0, 0, 0, 0x0400_0000]);
    assert_eq!(Fr::from_bn254fr(&BN254Fr { limbs: [1, 0, 0, 0, 0, 0, 0, 0] }), Fr::one());
}

#[test]
fn the_transform_buffer_grows() {
    let unit = 256 << 20;
    let mut b = NttBuffer::new();
    assert_eq!(b.free_ntt_buffer(), (None, 0));
    assert_eq!(b.request(0), None);
    assert_eq!(b.request(1), Some(unit));
    assert_eq!(b.record(11, unit), None);
    assert_eq!(b.request(unit), None);
    assert_eq!(b.request(unit + 1), Some(2 * unit));
    assert_eq!(b.record(12, 2 * unit), Some(11));
    assert_eq!(b.ntt_buffer_size(), 2 * unit);
    assert_eq!(b.release(), Some(12));
    assert_eq!(b.ntt_buffer_size(), 0);
    b.record(13, unit);
    assert_eq!(b.free_ntt_buffer(), (Some(13), unit));
}

#[test]
fn zero_polynomials_are_left_out() {
    let mut cache = PlonkCanonicalCache::new();
    let lens = [Some(4), None, Some(4), Some(4), None, Some(4), Some(4), None];
    let mut fill = cache.ensure_populated(0, lens, &[4, 4]).unwrap();
    let mut tried = 0;
    while let Some((_, len)) = fill.current() {
        tried += 1;
        let address = if fill.fits(GIB) { Some(tried) } else { None };
        fill.record(&mut cache, address);
        assert_eq!(len, 4);
    }
    assert_eq!(tried, 7);
    assert_eq!(cache.get(CanonicalSlot::Qr), None);
    assert_eq!(cache.get(CanonicalSlot::S1), None);
    assert_eq!(cache.get(CanonicalSlot::Qm), None);
    assert_eq!(cache.get(CanonicalSlot::Ql), Some((1, 4)));
    assert_eq!(cache.get(CanonicalSlot::S3), Some((5, 4)));
    assert_eq!(cache.get(CanonicalSlot::Qcp(1)), Some((7, 4)));
    assert!(cache.ensure_populated(0, [Some(9); 8], &[9]).is_none());
    assert_eq!(cache.get(CanonicalSlot::Qr), None);
    assert_eq!(cache.get(CanonicalSlot::Ql), Some((1, 4)));
}

#[test]
fn packed_polynomials() {
    let f = |v: &[u64]| -> Vec<Fr> { v.iter().map(|x| Fr::from_u64(*x)).collect() };
    let polys = vec![f(&[1, 2, 3]), f(&[4, 5]), f(&[])];
    let all = pack_padded(&polys, 3);
    assert_eq!(all, f(&[1, 2, 3, 4, 5, 0, 0, 0, 0]));
    assert_eq!(split_packed(&all, 3, 3)[1], f(&[4, 5, 0]));
    let full = vec![f(&[1, 2]), f(&[3, 4])];
    assert_eq!(split_packed(&pack_padded(&full, 2), 2, 2), full);
}

#[test]
fn the_steps_of_a_quotient() {
    let a = CosetAddresses { l: 1, r: 2, o: 3, z: 4, qk_plus_pi: Some(5) };
    let steps = plan_quotient(&a, 8, false);
    assert_eq!(
        steps[2..10],
        [
            QuotientStep::RunKernel { output: 1 },
            QuotientStep::Free { address: 2 },
            QuotientStep::Free { address: 3 },
            QuotientStep::Free { address: 4 },
            QuotientStep::Free { address: 5 },
            QuotientStep::UploadPoints,
            QuotientStep::Synchronize,
            QuotientStep::ClearTwiddles,
        ]
    );
    for address in 2..6 {
        let freed = QuotientStep::Free { address };
        assert_eq!(steps.iter().filter(|s| **s == freed).count(), 1);
    }
    assert!(!steps.contains(&QuotientStep::Free { address: 1 }));
    assert_eq!(steps.last(), Some(&QuotientStep::Download { address: 1, len: 30 }));
    let all = plan_quotient(&a, 8, true);
    assert_eq!(all.last(), Some(&QuotientStep::Download { address: 1, len: 32 }));
    let a = CosetAddresses { qk_plus_pi: None, ..a };
    let steps = plan_quotient(&a, 8, false);
    assert_eq!(steps.last(), Some(&QuotientStep::Download { address: 1, len: 32 }));
    assert!(!steps.contains(&QuotientStep::Free { address: 5 }));
    assert_eq!(
        steps[..5],
        [
            QuotientStep::FreeTransformBuffer,
            QuotientStep::ClearTwiddles,
            QuotientStep::FillCache,
            QuotientStep::RunKernel { output: 1 },
            QuotientStep::Synchronize,
        ]
    );
}

#[test]
fn places_of_a_linear_combination() {
    let inputs = [
        PolyInput::Host,
        PolyInput::Device { address: 70, len: 9 },
        PolyInput::Host,
    ];
    assert_eq!(fold_uploads(&inputs), vec![0, 2]);
    assert_eq!(fold_places(&inputs, &[4, 5, 6], &[100, 200]), vec![(100, 4), (70, 9), (200, 6)]);
}

#[test]
fn operands_of_kernels() {
    let f = Fr::from_u64;
    let k = kernel_scalars(&f(2), &f(3), &f(4), &f(5));
    assert_eq!((k.alpha, k.beta, k.gamma, k.coset_shift), (f(2), f(3), f(4), f(5)));
    assert_eq!((k.beta_k1, k.beta_k2, k.alpha_sq, k.one), (f(15), f(75), f(4), f(1)));
    let two = fixup_operands(&[f(7), f(8)]).unwrap();
    assert_eq!((two.degree, two.a, two.b, two.c), (1, f(7), f(8), f(0)));
    let three = fixup_operands(&[f(0), f(8), f(9)]).unwrap();
    assert_eq!((three.degree, three.a, three.b, three.c), (2, f(0), f(8), f(9)));
    assert!(fixup_operands(&[f(0), f(0)]).is_none());
    assert_eq!(quotient_download_len(8, false), 30);
    assert_eq!(quotient_download_len(8, true), 32);
    assert!(kernel_check_indices(1 << 20).is_empty());
    let indices = kernel_check_indices(1 << 25);
    assert_eq!(indices.len(), 138);
    assert_eq!(indices[1], 133_577_408);
}

#[test]
fn the_blinding_of_values_on_the_coset() {
    let (recompute, fold, fixup) = (FixupMode::Recompute, FixupMode::Fold, FixupMode::Fixup);
    for mode in [recompute, fold, fixup] {
        for on_device in [false, true] {
            assert_eq!(coset_step(mode, false, on_device), CosetStep::Plain);
        }
    }
    assert_eq!(coset_step(recompute, true, true), CosetStep::Recompute);
    assert_eq!(coset_step(recompute, true, false), CosetStep::Recompute);
    assert_eq!(coset_step(fixup, true, true), CosetStep::FixUp);
    assert_eq!(coset_step(fixup, true, false), CosetStep::FixUp);
    assert_eq!(coset_step(fold, true, true), CosetStep::FixUp);
    assert_eq!(coset_step(fold, true, false), CosetStep::Fold);
}
