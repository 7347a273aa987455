//! The kernels against the scalar reference, dispatch and calibration.
use maxsim_lut::kernel::calibrate::{
    calibrate, calibrated, fastest, least, measure_fastest, measure_with, probe_shapes,
    verified_kernels, winner, Probe,
};
use maxsim_lut::kernel::dispatch::{
    cpu_kernels, env_force_scalar, env_no_calibrate, env_pin, kernels_under_test,
};
use maxsim_lut::kernel::{maxsim, run, scalar, Args};
use maxsim_lut::{
    supported_kernels, warm_up, Arith, Codes, ColbertPacking, CpuFeatures, Dispatch, Kernel, Lut,
    PreparedQuery, ScalarReason,
};

/// The host's single-precision arithmetic.
struct Native;

impl Arith for Native {
    fn div(a: u32, b: u32) -> u32 {
        (f32::from_bits(a) / f32::from_bits(b)).to_bits()
    }
    fn mul(a: u32, b: u32) -> u32 {
        (f32::from_bits(a) * f32::from_bits(b)).to_bits()
    }
    fn add(a: u32, b: u32) -> u32 {
        (f32::from_bits(a) + f32::from_bits(b)).to_bits()
    }
    fn from_i32(x: i32) -> u32 {
        (x as f32).to_bits()
    }
    fn round_to_i32(x: u32) -> i32 {
        f32::from_bits(x).round() as i32
    }
}

fn bits(v: &[f32]) -> Vec<u32> {
    v.iter().map(|x| x.to_bits()).collect()
}

/// Deterministic xorshift.
struct Rng(u64);

impl Rng {
    fn next(&mut self) -> u64 {
        let mut x = self.0;
        x ^= x << 13;
        x ^= x >> 7;
        x ^= x << 17;
        self.0 = x;
        x
    }
    fn f32(&mut self, lo: f32, hi: f32) -> f32 {
        lo + (hi - lo) * ((self.next() >> 40) as f32 / (1u64 << 24) as f32)
    }
}

/// An x86 CPU with every vector kernel, and an Arm one.
fn cpus() -> [CpuFeatures; 2] {
    [
        CpuFeatures::X86_64 {
            avx512f: true,
            avx512bw: true,
            avx512vnni: true,
            avxvnni: true,
            avx2: true,
        },
        CpuFeatures::Aarch64 { dotprod: true, i8mm: true },
    ]
}

/// A truthful runner keeps every candidate; one that corrupts a single
/// kernel's result drops exactly that kernel; one that corrupts all of them
/// leaves nothing, which is what makes dispatch fall back to the reference.
#[test]
fn the_self_check_rejects_a_kernel_that_disagrees() {
    for cpu in cpus() {
        let cands = cpu_kernels(cpu);
        assert!(!cands.is_empty());
        let probes: Vec<Probe> = probe_shapes()
            .iter()
            .map(|&(nbits, dim, nq, ntok)| {
                Probe::new::<Native>(nbits, dim, nq, ntok).expect("probe shapes are valid")
            })
            .collect();

        assert_eq!(
            verified_kernels::<Native, _>(&cands, &probes, run::<Native>),
            cands.to_vec(),
            "the real kernels must all verify on this CPU"
        );

        let liar = cands[cands.len() - 1];
        let kept = verified_kernels::<Native, _>(
            &cands,
            &probes,
            |k: Kernel, lut: &Lut, args: &Args| {
                let s = run::<Native>(k, lut, args);
                if k == liar {
                    (f32::from_bits(s) + 1.0).to_bits()
                } else {
                    s
                }
            },
        );
        assert!(!kept.contains(&liar), "{liar:?} lied and was still accepted");
        assert_eq!(kept.len(), cands.len() - 1, "only the liar should be dropped");

        let none = verified_kernels::<Native, _>(
            &cands,
            &probes,
            |_k: Kernel, _lut: &Lut, _args: &Args| f32::NAN.to_bits(),
        );
        assert!(none.is_empty(), "every kernel lied but {none:?} survived");
    }
}

/// Calibration only ever returns something dispatch may legally run: a
/// kernel the CPU supports, or the scalar reference if none verified.
#[test]
fn calibration_picks_a_supported_kernel() {
    for cpu in cpus() {
        let k = calibrated(&Dispatch::new::<Native>(cpu, None, None, None));
        assert!(
            cpu_kernels(cpu).contains(&k) || matches!(k, Kernel::Scalar(_)),
            "calibration returned {k:?}, which is not executable here"
        );
        assert_ne!(
            k,
            Kernel::Scalar(ScalarReason::SelfCheckFailed),
            "a kernel this CPU claims to support disagreed with the scalar reference"
        );
    }
}

/// Every kernel agrees bitwise with the scalar reference.
#[test]
fn every_supported_kernel_matches_scalar_bitwise() {
    let mut kernels = kernels_under_test(cpus()[0]);
    kernels.extend(cpu_kernels(cpus()[1]));
    // Several independent draws per shape: one seed proves a shape works
    // for one arrangement of bytes, not that the fold and the tails are
    // right for the values that land near their boundaries.
    for seed in [0x452821E638D01377u64, 0x13198A2E03707344, 0xBE5466CF34E90C6C] {
        check_shapes(&kernels, Rng(seed));
    }
    println!("kernels exercised: {kernels:?}");
}

fn check_shapes(kernels: &[Kernel], mut rng: Rng) {
    for &nq in &[1usize, 3, 7, 8, 9, 16, 17, 32] {
        for &nbits in &[1usize, 2, 4] {
            for &dim in &[8usize, 16, 40, 48, 96, 128, 200, 256] {
                let p = ColbertPacking::new(nbits).unwrap();
                let n = 1usize << nbits;
                let mut w: Vec<f32> = (0..n).map(|_| rng.f32(-0.4, 0.4)).collect();
                w.sort_by(|a, b| a.total_cmp(b));
                let lut = Lut::new::<_, Native>(&p, &bits(&w)).unwrap();
                let query: Vec<f32> = (0..nq * dim).map(|_| rng.f32(-1.0, 1.0)).collect();
                let q = PreparedQuery::new::<Native>(&lut, &bits(&query), nq, dim).unwrap();
                let ntok = 11;
                let pdim = dim / lut.keys_per_byte();
                let row_stride = pdim + 3;
                let packed: Vec<u8> = (0..ntok * row_stride)
                    .map(|_| (rng.next() >> 56) as u8)
                    .collect();
                let ncent = 5;
                let codes: Vec<u32> = (0..ntok)
                    .map(|_| (rng.next() % ncent as u64) as u32)
                    .collect();
                let cdot: Vec<f32> = (0..ncent * nq).map(|_| rng.f32(-1.0, 1.0)).collect();
                let cdot = bits(&cdot);
                let inv: Vec<f32> = (0..ntok).map(|_| rng.f32(0.5, 1.5)).collect();
                let inv = bits(&inv);
                for with_cdot in [false, true] {
                    for with_inv in [false, true] {
                        let args = Args {
                            query: &q,
                            packed: &packed,
                            row_stride,
                            n_tokens: ntok,
                            codes: if with_cdot {
                                Codes::U32(&codes)
                            } else {
                                Codes::Absent
                            },
                            cdot: if with_cdot { &cdot } else { q.zeros() },
                            cdot_stride: if with_cdot { nq } else { 0 },
                            inv_norms: if with_inv { Some(&inv) } else { None },
                        };
                        let want = scalar::<Native>(&lut, &args);
                        for &k in kernels {
                            let got = run::<Native>(k, &lut, &args);
                            assert_eq!(
                                got, want,
                                "{k:?}: nq {nq} nbits {nbits} dim {dim} cdot {with_cdot} inv {with_inv}"
                            );
                        }
                    }
                }
            }
        }
    }
}

/// One row, one token, small numbers: the score can be worked out by hand.
#[test]
fn a_score_can_be_worked_out_by_hand() {
    // Table: bucket 0 is -1 (code -127), bucket 1 is 1 (code 127).
    let lut = Lut::colbert::<Native>(1, &bits(&[-1.0, 1.0])).unwrap();
    let q: [f32; 8] = [127.0, -64.0, 0.0, 0.0, 0.0, 0.0, 0.0, 1.0];
    let query = PreparedQuery::new::<Native>(&lut, &bits(&q), 1, 8).unwrap();
    assert_eq!(query.codes(), [127, -64, 0, 0, 0, 0, 0, 1]);
    // Two tokens: dims 0 and 7 set; then dim 1 set.
    let packed = [0b1000_0001u8, 0b0100_0000u8];
    let cdot = bits(&[0.5, 0.25]);
    let inv = bits(&[2.0, 1.0]);
    let args = Args {
        query: &query,
        packed: &packed,
        row_stride: 1,
        n_tokens: 2,
        codes: Codes::U32(&[1, 0]),
        cdot: &cdot,
        cdot_stride: 1,
        inv_norms: Some(&inv),
    };
    let sqw = f32::from_bits(query.sqw()[0]);
    let first = (sqw * (127 * (127 + 64 + 1)) as f32 + 0.25) * 2.0;
    let second = (sqw * (127 * (-127 - 64 - 1)) as f32 + 0.5) * 1.0;
    assert!(first > second);
    for k in kernels_under_test(cpus()[0]) {
        assert_eq!(run::<Native>(k, &lut, &args), first.to_bits(), "{k:?}");
    }
    for k in cpu_kernels(cpus()[1]) {
        assert_eq!(run::<Native>(k, &lut, &args), first.to_bits(), "{k:?}");
    }
}

#[test]
fn kernels_are_listed_widest_first() {
    let x86 = |avx512: bool, avxvnni: bool, avx2: bool| {
        supported_kernels(CpuFeatures::X86_64 {
            avx512f: avx512,
            avx512bw: avx512,
            avx512vnni: avx512,
            avxvnni,
            avx2,
        })
    };
    assert_eq!(x86(true, true, true), [Kernel::Avx512Vnni, Kernel::Avx2Vnni, Kernel::Avx2]);
    assert_eq!(x86(true, false, true), [Kernel::Avx512Vnni, Kernel::Avx2]);
    assert_eq!(x86(false, true, true), [Kernel::Avx2Vnni, Kernel::Avx2]);
    assert_eq!(x86(false, false, true), [Kernel::Avx2]);
    assert_eq!(x86(false, false, false), []);
    let arm = |dotprod: bool, i8mm: bool| supported_kernels(CpuFeatures::Aarch64 { dotprod, i8mm });
    assert_eq!(arm(true, true), [Kernel::NeonI8mm, Kernel::NeonSdot]);
    assert_eq!(arm(true, false), [Kernel::NeonSdot]);
    assert_eq!(arm(false, true), [Kernel::NeonI8mm]);
    assert_eq!(arm(false, false), []);
    assert_eq!(supported_kernels(CpuFeatures::Other), []);
    // A part of AVX-512 is no AVX-512.
    let partial = CpuFeatures::X86_64 {
        avx512f: true,
        avx512bw: false,
        avx512vnni: true,
        avxvnni: false,
        avx2: true,
    };
    assert_eq!(supported_kernels(partial), [Kernel::Avx2]);
}

#[test]
fn labels_name_kernels() {
    let all = [
        (Kernel::NeonSdot, "neon-sdot"),
        (Kernel::NeonI8mm, "neon-i8mm"),
        (Kernel::Avx2, "avx2"),
        (Kernel::Avx2Vnni, "avx2-vnni"),
        (Kernel::Avx512Vnni, "avx512-vnni"),
    ];
    for (k, name) in all {
        assert!(k.is_simd());
        assert_eq!(k.label(), name);
        assert_eq!(env_pin(Some(name)), Some(k));
    }
    let reasons = [
        (ScalarReason::Forced, "scalar (Forced)"),
        (ScalarReason::DimNotSimdAligned, "scalar (DimNotSimdAligned)"),
        (ScalarReason::NoNibbleTables, "scalar (NoNibbleTables)"),
        (ScalarReason::CpuUnsupported, "scalar (CpuUnsupported)"),
        (ScalarReason::SelfCheckFailed, "scalar (SelfCheckFailed)"),
    ];
    for (r, name) in reasons {
        assert!(!Kernel::Scalar(r).is_simd());
        assert_eq!(Kernel::Scalar(r).label(), name);
        assert_eq!(env_pin(Some(name)), None);
    }
    assert_eq!(env_pin(Some("AVX2")), None);
    assert_eq!(env_pin(None), None);
}

#[test]
fn switches_are_one_or_true() {
    for on in ["1", "true", "TRUE", "True", "tRuE"] {
        assert!(env_force_scalar(Some(on)) && env_no_calibrate(Some(on)), "{on}");
    }
    for off in ["0", "", "yes", "11", "truth", "tru"] {
        assert!(!env_force_scalar(Some(off)) && !env_no_calibrate(Some(off)), "{off}");
    }
    assert!(!env_force_scalar(None) && !env_no_calibrate(None));
}

#[test]
fn dispatch_follows_its_precedence() {
    let w: Vec<f32> = (0..16).map(|i| i as f32 * 0.05 - 0.4).collect();
    let lut = Lut::colbert::<Native>(4, &bits(&w)).unwrap();
    let x86 = cpus()[0];
    let first = Dispatch::new::<Native>(x86, None, None, Some("1"));
    assert_eq!(first.kernels(), supported_kernels(x86));
    assert_eq!(first.choice(), Kernel::Avx512Vnni);
    assert_eq!(lut.kernel(128, &first), Kernel::Avx512Vnni);
    // The process's pin comes before the calibrated choice.
    let pinned = Dispatch::new::<Native>(x86, None, Some("avx2"), Some("1"));
    assert_eq!(lut.kernel(128, &pinned), Kernel::Avx2);
    // The table's pin comes before the process's.
    let vnni = lut.clone().pin_kernel(Some(Kernel::Avx2Vnni));
    assert_eq!(vnni.kernel(128, &pinned), Kernel::Avx2Vnni);
    // A pin the CPU cannot run is ignored.
    let neon = lut.clone().pin_kernel(Some(Kernel::NeonSdot));
    assert_eq!(neon.kernel(128, &pinned), Kernel::Avx2);
    let strange = Dispatch::new::<Native>(x86, None, Some("neon-i8mm"), Some("true"));
    assert_eq!(neon.kernel(128, &strange), Kernel::Avx512Vnni);
    // The shape comes before any pin.
    assert_eq!(vnni.kernel(12, &pinned), Kernel::Scalar(ScalarReason::DimNotSimdAligned));
    assert_eq!(vnni.kernel(264, &pinned), Kernel::Scalar(ScalarReason::DimNotSimdAligned));
    // The forced-scalar switches come before everything.
    let forced = Dispatch::new::<Native>(x86, Some("1"), Some("avx2"), Some("1"));
    assert_eq!(vnni.kernel(12, &forced), Kernel::Scalar(ScalarReason::Forced));
    let scalar_lut = vnni.clone().force_scalar(true);
    assert_eq!(scalar_lut.kernel(128, &pinned), Kernel::Scalar(ScalarReason::Forced));
    // No vector kernel at all.
    let none = Dispatch::new::<Native>(CpuFeatures::Other, None, None, None);
    assert_eq!(none.choice(), Kernel::Scalar(ScalarReason::CpuUnsupported));
    assert_eq!(lut.kernel(128, &none), Kernel::Scalar(ScalarReason::CpuUnsupported));
}

#[test]
fn warming_up_reports_the_calibrated_choice() {
    let w: Vec<f32> = (0..16).map(|i| i as f32 * 0.05 - 0.4).collect();
    let lut = Lut::colbert::<Native>(4, &bits(&w)).unwrap();
    for cpu in cpus() {
        let off = Dispatch::new::<Native>(cpu, None, None, Some("1"));
        assert_eq!(warm_up(&off), cpu_kernels(cpu)[0]);
        let on = Dispatch::new::<Native>(cpu, None, None, None);
        let k = warm_up(&on);
        assert!(cpu_kernels(cpu).contains(&k));
        // Decided once: every later question has the same answer.
        for _ in 0..3 {
            assert_eq!(warm_up(&on), k);
            assert_eq!(calibrated(&on), k);
            assert_eq!(on.choice(), k);
            assert_eq!(lut.kernel(128, &on), k);
        }
    }
    let unsupported = Kernel::Scalar(ScalarReason::CpuUnsupported);
    assert_eq!(
        warm_up(&Dispatch::new::<Native>(CpuFeatures::Other, None, None, None)),
        unsupported
    );
    assert_eq!(calibrate::<Native>(CpuFeatures::Other, false), unsupported);
    // A lone candidate needs no timing.
    let lone = CpuFeatures::Aarch64 { dotprod: true, i8mm: false };
    assert_eq!(calibrate::<Native>(lone, false), Kernel::NeonSdot);
    assert_eq!(calibrate::<Native>(cpus()[0], true), Kernel::Avx512Vnni);
}

#[test]
fn the_first_of_the_smallest_timings_wins() {
    assert_eq!(fastest(&[7]), 0);
    assert_eq!(fastest(&[7, 3, 5, 3]), 1);
    assert_eq!(fastest(&[2, 2]), 0);
}

#[test]
fn probes_of_an_impossible_shape_are_none() {
    assert!(Probe::new::<Native>(3, 128, 4, 4).is_none());
    assert!(Probe::new::<Native>(4, 264, 4, 4).is_none());
    assert!(Probe::new::<Native>(2, 10, 4, 4).is_none());
    assert!(Probe::new::<Native>(8, 3, 0, 0).is_some());
}

/// The first probe's query component 1 is `37 / 251 - 0.5`, and its first two
/// bytes are 0 and 97.
#[test]
fn probes_hold_their_synthetic_content() {
    let p = Probe::new::<Native>(4, 128, 32, 64).unwrap();
    let args = p.args();
    assert_eq!(args.packed.len(), 64 * 64);
    assert_eq!(args.packed[..4], [0, 97, 194, 35]);
    assert_eq!(args.inv_norms.unwrap()[1], (0.8f32 + 1.0 * 0.05).to_bits());
    assert_eq!(args.inv_norms.unwrap()[7], (0.8f32 + 0.0 * 0.05).to_bits());
    let row: Vec<f32> = (0..128).map(|i| ((i * 37 % 251) as f32 / 251.0) - 0.5).collect();
    let m = row.iter().fold(0.0f32, |m, &x| m.max(x.abs()));
    assert_eq!(args.query.scales()[0], (m / 127.0).to_bits());
    let w = (0..16).map(|i| -0.35 + 0.7 * (i as f32 + 0.5) / 16.0);
    let m = w.fold(0.0f32, |m, x: f32| m.max(x.abs()));
    assert_eq!(p.lut().scale(), (m / 127.0).to_bits());
}

#[test]
fn an_empty_list_of_candidates_leaves_the_reference() {
    let none = Kernel::Scalar(ScalarReason::SelfCheckFailed);
    assert_eq!(measure_fastest::<Native>(&[], Kernel::Avx2), none);
    assert_eq!(winner(&[], &[]), none);
}

/// Calibration measures only what passed the self-check.
#[test]
fn calibration_never_picks_a_kernel_that_disagrees() {
    for cpu in cpus() {
        let cands = cpu_kernels(cpu);
        for &honest in &cands {
            let k = measure_with::<Native, _>(
                &cands,
                cands[0],
                |k: Kernel, lut: &Lut, args: &Args| {
                    let s = run::<Native>(k, lut, args);
                    if k == honest {
                        s
                    } else {
                        s ^ 1
                    }
                },
            );
            assert_eq!(k, honest);
        }
        let k = measure_with::<Native, _>(
            &cands,
            cands[0],
            |_k: Kernel, _lut: &Lut, _args: &Args| f32::NAN.to_bits(),
        );
        assert_eq!(k, Kernel::Scalar(ScalarReason::SelfCheckFailed));
        assert!(cands.contains(&measure_with::<Native, _>(&cands, cands[0], run::<Native>)));
    }
}

#[test]
fn repetitions_are_reduced_by_minimum() {
    assert_eq!(least(&[9]), 9);
    assert_eq!(least(&[9, 4, 6, 4]), 4);
    assert_eq!(winner(&[Kernel::Avx512Vnni, Kernel::Avx2], &[5, 4]), Kernel::Avx2);
    assert_eq!(winner(&[Kernel::Avx512Vnni, Kernel::Avx2], &[4, 4]), Kernel::Avx512Vnni);
    assert_eq!(winner(&[Kernel::Avx2], &[]), Kernel::Avx2);
}

/// Where a switch, the shape or a pin settles the kernel, the decision without
/// calibration is the decision with it.
#[test]
fn a_settled_kernel_needs_no_calibration() {
    let w: Vec<f32> = (0..16).map(|i| i as f32 * 0.05 - 0.4).collect();
    let lut = Lut::colbert::<Native>(4, &bits(&w)).unwrap();
    let whole: Vec<f32> = (0..256).map(|i| i as f32 * 0.01 - 1.0).collect();
    let unfactored = Lut::colbert::<Native>(8, &bits(&whole)).unwrap();
    let x86 = cpus()[0];
    let plain = Dispatch::uncalibrated(x86, None, None);
    assert!(!plain.settles(&lut, 128));
    assert!(!plain.settles(&lut.clone().pin_kernel(Some(Kernel::NeonSdot)), 128));
    assert!(!Dispatch::uncalibrated(x86, None, Some("neon-sdot")).settles(&lut, 128));
    let full = Dispatch::new::<Native>(x86, None, None, Some("1"));
    for (table, dim) in [
        (lut.clone(), 12),
        (lut.clone(), 264),
        (unfactored, 128),
        (lut.clone().force_scalar(true), 128),
        (lut.clone().pin_kernel(Some(Kernel::Avx2)), 128),
    ] {
        assert!(plain.settles(&table, dim));
        assert_eq!(table.kernel(dim, &plain), table.kernel(dim, &full));
    }
    let forced = Dispatch::uncalibrated(x86, Some("1"), None);
    assert!(forced.settles(&lut, 128));
    assert_eq!(lut.kernel(128, &forced), Kernel::Scalar(ScalarReason::Forced));
    let pinned = Dispatch::uncalibrated(x86, None, Some("avx2"));
    assert!(pinned.settles(&lut, 128));
    assert_eq!(lut.kernel(128, &pinned), Kernel::Avx2);
    // Its choice is the first listed.
    assert_eq!(plain.choice(), Kernel::Avx512Vnni);
    assert_eq!(
        Dispatch::uncalibrated(CpuFeatures::Other, None, None).choice(),
        Kernel::Scalar(ScalarReason::CpuUnsupported)
    );
}

#[test]
fn dispatched_scores_have_the_reference_bits() {
    for cpu in cpus() {
        for (nbits, dim, nq, ntok) in probe_shapes() {
            let p = Probe::new::<Native>(nbits, dim, nq, ntok).unwrap();
            let args = p.args();
            let want = scalar::<Native>(p.lut(), &args);
            let free = Dispatch::new::<Native>(cpu, None, None, None);
            assert_eq!(maxsim::<Native>(p.lut(), &args, &free), want);
            for &k in free.kernels() {
                let pinned = p.lut().clone().pin_kernel(Some(k));
                assert_eq!(pinned.kernel(dim, &free), k);
                assert_eq!(maxsim::<Native>(&pinned, &args, &free), want);
            }
        }
    }
}
