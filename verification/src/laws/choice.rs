//! Which kernel runs and how it is found, told over what the CPU reports, the
//! texts of the variables and the measurements.
use crate::float::Arith;
use crate::kernel::calibrate::{
    agrees, calibrate, calibrated, compared, disagrees, fastest, fastest_repetition, is_fastest, is_least,
    iterated, judged, kept, least, measure_fastest, measure_with, measured, probe_shapes, sampled,
    screened, shapes, time_once, timed_for, verified_kernels, warm_up, winner, won, Probe, REPS,
};
use crate::kernel::dispatch::{
    cpu_kernels, env_force_scalar, env_no_calibrate, env_pin, kernels_under_test, select,
    supported_kernels, CpuFeatures, Dispatch,
};
use crate::kernel::{run, scalar, Args, Kernel, ScalarReason};
use crate::lut::{Lut, NibbleTables};
use crate::text::ascii_lower;
use vstd::prelude::*;

verus! {

/// A CPU can execute the kernels whose instructions it reports, and they are
/// listed widest first; AVX-512 and AVX-VNNI bring AVX2 with them.
pub proof fn a_cpu_executes_what_it_reports(
    cpu: CpuFeatures,
    r: Vec<Kernel>,
    s: Vec<Kernel>,
    t: Vec<Kernel>,
)
    requires
        call_ensures(supported_kernels, (cpu,), r),
        call_ensures(cpu_kernels, (cpu,), s),
        call_ensures(kernels_under_test, (cpu,), t),
    ensures
        s@ == r@,
        t@.len() == r@.len() + 1,
        t@[0] == Kernel::Scalar(ScalarReason::Forced),
        forall|i: int| 0 <= i < r@.len() ==> t@[i + 1] == #[trigger] r@[i],
        cpu is Other ==> r@.len() == 0,
        cpu matches CpuFeatures::Aarch64 { dotprod, i8mm } ==> {
            &&& dotprod && i8mm ==> r@ == seq![Kernel::NeonI8mm, Kernel::NeonSdot]
            &&& dotprod && !i8mm ==> r@ == seq![Kernel::NeonSdot]
            &&& !dotprod && i8mm ==> r@ == seq![Kernel::NeonI8mm]
            &&& !dotprod && !i8mm ==> r@.len() == 0
        },
        cpu matches CpuFeatures::X86_64 { avx512f, avx512bw, avx512vnni, avxvnni, avx2 } ==> {
            let wide = avx512f && avx512bw && avx512vnni;
            &&& wide && avxvnni ==> r@ == seq![Kernel::Avx512Vnni, Kernel::Avx2Vnni, Kernel::Avx2]
            &&& wide && !avxvnni ==> r@ == seq![Kernel::Avx512Vnni, Kernel::Avx2]
            &&& !wide && avxvnni ==> r@ == seq![Kernel::Avx2Vnni, Kernel::Avx2]
            &&& !wide && !avxvnni && avx2 ==> r@ == seq![Kernel::Avx2]
            &&& !wide && !avxvnni && !avx2 ==> r@.len() == 0
        },
{
    match cpu {
        CpuFeatures::Aarch64 { dotprod, i8mm } => {
            if dotprod && i8mm {
                assert(r@ =~= seq![Kernel::NeonI8mm, Kernel::NeonSdot]);
            } else if dotprod {
                assert(r@ =~= seq![Kernel::NeonSdot]);
            }
        },
        CpuFeatures::X86_64 { avx512f, avx512bw, avx512vnni, avxvnni, avx2 } => {
            if avx512f && avx512bw && avx512vnni {
                if avxvnni {
                    assert(r@ =~= seq![Kernel::Avx512Vnni, Kernel::Avx2Vnni, Kernel::Avx2]);
                } else {
                    assert(r@ =~= seq![Kernel::Avx512Vnni, Kernel::Avx2]);
                }
            } else if avxvnni {
                assert(r@ =~= seq![Kernel::Avx2Vnni, Kernel::Avx2]);
            } else if avx2 {
                assert(r@ =~= seq![Kernel::Avx2]);
            }
        },
        CpuFeatures::Other => {},
    }
}

/// A switch is on where its variable is `1`, or `true` in letters of either
/// case, and nowhere else.
pub proof fn a_switch_is_one_or_true(value: Option<&str>, r: bool, s: bool)
    requires
        call_ensures(env_force_scalar, (value,), r),
        call_ensures(env_no_calibrate, (value,), s),
    ensures
        r == s,
        value is None ==> !r,
        value matches Some(v) ==> (r <==> v@ == seq!['1'] || (v@.len() == 4 && (v@[0] == 't'
            || v@[0] == 'T') && (v@[1] == 'r' || v@[1] == 'R') && (v@[2] == 'u' || v@[2] == 'U')
            && (v@[3] == 'e' || v@[3] == 'E'))),
{
    reveal_strlit("1");
    reveal_strlit("true");
    assert("1"@ =~= seq!['1']);
    if let Some(v) = value {
        assert forall|i: int| 0 <= i < 4 && v@.len() == 4 implies (#[trigger] ascii_lower(v@[i])
            == ascii_lower("true"@[i])) == (v@[i] == "true"@[i] || v@[i] as u32 + 32
            == "true"@[i] as u32) by {}
        if v@.len() == 4 {
            assert(ascii_lower(v@[0]) == ascii_lower(v@[0]));
            assert(ascii_lower(v@[1]) == ascii_lower(v@[1]));
            assert(ascii_lower(v@[2]) == ascii_lower(v@[2]));
            assert(ascii_lower(v@[3]) == ascii_lower(v@[3]));
        }
    }
}

/// A pin names a kernel by the text the kernel is shown as, letter by letter;
/// no other text pins anything.
pub proof fn a_pin_names_a_kernel_by_its_label(value: Option<&str>, r: Option<Kernel>)
    requires
        call_ensures(env_pin, (value,), r),
    ensures
        value is None ==> r is None,
        value matches Some(v) ==> {
            &&& v@ == "neon-sdot"@ ==> r == Some(Kernel::NeonSdot)
            &&& v@ == "neon-i8mm"@ ==> r == Some(Kernel::NeonI8mm)
            &&& v@ == "avx2"@ ==> r == Some(Kernel::Avx2)
            &&& v@ == "avx2-vnni"@ ==> r == Some(Kernel::Avx2Vnni)
            &&& v@ == "avx512-vnni"@ ==> r == Some(Kernel::Avx512Vnni)
            &&& r matches Some(k) ==> forall|s: String| #[trigger]
                call_ensures(Kernel::label, (&k,), s) ==> s@ == v@
            &&& r is Some || (v@ != "neon-sdot"@ && v@ != "neon-i8mm"@ && v@ != "avx2"@ && v@
                != "avx2-vnni"@ && v@ != "avx512-vnni"@)
        },
{
    reveal_strlit("neon-sdot");
    reveal_strlit("neon-i8mm");
    reveal_strlit("avx2");
    reveal_strlit("avx2-vnni");
    reveal_strlit("avx512-vnni");
    assert("neon-sdot"@[5] == 's' && "neon-i8mm"@[5] == 'i');
    assert("neon-sdot"@[0] == 'n' && "neon-i8mm"@[0] == 'n' && "avx2"@[0] == 'a');
    assert("avx2-vnni"@[0] == 'a' && "avx512-vnni"@[0] == 'a');
    assert("avx2"@.len() == 4 && "avx2-vnni"@.len() == 9 && "avx512-vnni"@.len() == 11);
}

/// What a kernel is shown as.
pub proof fn a_kernel_is_shown_by_its_name(k: Kernel, s: String, simd: bool)
    requires
        call_ensures(Kernel::label, (&k,), s),
        call_ensures(Kernel::is_simd, (&k,), simd),
    ensures
        simd <==> k == Kernel::NeonSdot || k == Kernel::NeonI8mm || k == Kernel::Avx2 || k
            == Kernel::Avx2Vnni || k == Kernel::Avx512Vnni,
        k == Kernel::NeonSdot ==> s@ == "neon-sdot"@,
        k == Kernel::NeonI8mm ==> s@ == "neon-i8mm"@,
        k == Kernel::Avx2 ==> s@ == "avx2"@,
        k == Kernel::Avx2Vnni ==> s@ == "avx2-vnni"@,
        k == Kernel::Avx512Vnni ==> s@ == "avx512-vnni"@,
        k == Kernel::Scalar(ScalarReason::Forced) ==> s@ == "scalar ("@ + "Forced"@ + ")"@,
        k == Kernel::Scalar(ScalarReason::DimNotSimdAligned) ==> s@ == "scalar ("@
            + "DimNotSimdAligned"@ + ")"@,
        k == Kernel::Scalar(ScalarReason::NoNibbleTables) ==> s@ == "scalar ("@ + "NoNibbleTables"@
            + ")"@,
        k == Kernel::Scalar(ScalarReason::CpuUnsupported) ==> s@ == "scalar ("@ + "CpuUnsupported"@
            + ")"@,
        k == Kernel::Scalar(ScalarReason::SelfCheckFailed) ==> s@ == "scalar ("@
            + "SelfCheckFailed"@ + ")"@,
{
}

/// The order of precedence: a forced-scalar switch, of the table or of the
/// process; the shape; the table's pin, where the CPU has the kernel; the
/// process's pin, where it has it; the calibrated choice.
pub proof fn the_kernel_follows_the_precedence<A: Arith>(
    cpu: CpuFeatures,
    force: Option<&str>,
    pin: Option<&str>,
    skip: Option<&str>,
    d: Dispatch,
    forced: bool,
    pinned: Option<Kernel>,
    kernels: Vec<Kernel>,
    choice: Kernel,
    lut: &Lut,
    lut_forced: bool,
    lut_pin: Option<Kernel>,
    nibble: Option<&NibbleTables>,
    dim: usize,
    k: Kernel,
    s: Kernel,
    early: bool,
)
    requires
        call_ensures(Dispatch::new::<A>, (cpu, force, pin, skip), d) || call_ensures(
            Dispatch::uncalibrated,
            (cpu, force, pin),
            d,
        ),
        call_ensures(env_force_scalar, (force,), forced),
        call_ensures(env_pin, (pin,), pinned),
        call_ensures(supported_kernels, (cpu,), kernels),
        call_ensures(Dispatch::choice, (&d,), choice),
        call_ensures(Lut::force_scalar_set, (lut,), lut_forced),
        call_ensures(Lut::pinned_kernel, (lut,), lut_pin),
        call_ensures(Lut::nibble_tables, (lut,), nibble),
        call_ensures(Lut::kernel, (lut, dim, &d), k),
        call_ensures(select, (lut, dim, &d), s),
        call_ensures(Dispatch::settles, (&d, lut, dim), early),
    ensures
        s == k,
        k == (if lut_forced || forced {
            Kernel::Scalar(ScalarReason::Forced)
        } else if dim % 8 != 0 || dim > 256 {
            Kernel::Scalar(ScalarReason::DimNotSimdAligned)
        } else if nibble is None {
            Kernel::Scalar(ScalarReason::NoNibbleTables)
        } else if lut_pin is Some && kernels@.contains(lut_pin->Some_0) {
            lut_pin->Some_0
        } else if pinned is Some && kernels@.contains(pinned->Some_0) {
            pinned->Some_0
        } else {
            choice
        }),
        early <==> lut_forced || forced || dim % 8 != 0 || dim > 256 || nibble is None || (lut_pin
            is Some && kernels@.contains(lut_pin->Some_0)) || (pinned is Some && kernels@.contains(
            pinned->Some_0,
        )),
        forall|l: &[Kernel]| #[trigger] call_ensures(Dispatch::kernels, (&d,), l) ==> l@
            == kernels@,
{
}

/// The fastest is the first of the timings that none is below, and the least
/// of the samples is the sample that none is below.
pub proof fn the_fastest_and_the_least_are_the_smallest(
    timings: &[u128],
    w: usize,
    samples: &[u128],
    m: u128,
)
    requires
        call_ensures(fastest, (timings,), w),
        call_ensures(least, (samples,), m),
    ensures
        w < timings@.len(),
        forall|i: int| 0 <= i < timings@.len() ==> timings@[w as int] <= #[trigger] timings@[i],
        forall|i: int| 0 <= i < w ==> timings@[w as int] < #[trigger] timings@[i],
        exists|i: int| 0 <= i < samples@.len() && #[trigger] samples@[i] == m,
        forall|i: int| 0 <= i < samples@.len() ==> m <= #[trigger] samples@[i],
{
    assert(samples@.contains(m));
}

/// Of the kernels that passed the self-check the first of the fastest wins,
/// the only one untimed, and without any the scalar reference.
pub proof fn the_winner_is_the_fastest_that_passed(
    verified: &[Kernel],
    timings: &[u128],
    r: Kernel,
) -> (w: int)
    requires
        call_ensures(winner, (verified, timings), r),
        verified@.len() > 1 ==> timings@.len() == verified@.len(),
    ensures
        verified@.len() == 0 ==> r == Kernel::Scalar(ScalarReason::SelfCheckFailed),
        verified@.len() > 0 ==> 0 <= w < verified@.len() && r == verified@[w],
        verified@.len() > 1 ==> {
            &&& forall|i: int| 0 <= i < timings@.len() ==> timings@[w] <= #[trigger] timings@[i]
            &&& forall|i: int| 0 <= i < w ==> timings@[w] < #[trigger] timings@[i]
        },
{
    if verified@.len() > 1 {
        choose|w: int| #[trigger] is_fastest(timings@, w) && r == verified@[w]
    } else {
        0
    }
}

/// The places of the candidates that were kept.
proof fn lemma_kept(cands: Seq<Kernel>, keep: Seq<bool>) -> (at: Seq<int>)
    requires
        keep.len() <= cands.len(),
    ensures
        at.len() == kept(cands, keep).len(),
        forall|j: int|
            0 <= j < at.len() ==> 0 <= #[trigger] at[j] < keep.len() && keep[at[j]] && kept(
                cands,
                keep,
            )[j] == cands[at[j]],
        forall|i: int, j: int| 0 <= i < j < at.len() ==> #[trigger] at[i] < #[trigger] at[j],
        forall|i: int| 0 <= i < keep.len() && #[trigger] keep[i] ==> at.contains(i),
    decreases keep.len(),
{
    if keep.len() == 0 {
        seq![]
    } else {
        let rest = keep.drop_last();
        let before = lemma_kept(cands, rest);
        let last = keep.len() - 1;
        let at = if keep.last() {
            before.push(last)
        } else {
            before
        };
        assert forall|j: int| 0 <= j < at.len() implies 0 <= #[trigger] at[j] < keep.len()
            && keep[at[j]] && kept(cands, keep)[j] == cands[at[j]] by {
            if j < before.len() {
                assert(at[j] == before[j]);
                assert(rest[before[j]] == keep[before[j]]);
            }
        }
        assert forall|i: int, j: int| 0 <= i < j < at.len() implies #[trigger] at[i]
            < #[trigger] at[j] by {
            assert(at[i] == before[i]);
            if j < before.len() {
                assert(at[j] == before[j]);
            }
        }
        assert forall|i: int| 0 <= i < keep.len() && #[trigger] keep[i] implies at.contains(i) by {
            if i < last {
                assert(rest[i] == keep[i]);
                assert(before.contains(i));
                let j = choose|j: int| 0 <= j < before.len() && before[j] == i;
                assert(at[j] == i);
            } else {
                assert(at[before.len() as int] == i);
            }
        }
        at
    }
}

/// What a self-check ran and found: the places of the kept, what each of them
/// scored on each probe, and where each other differed.
proof fn lemma_checked<'a, A: Arith, F: Fn(Kernel, &Lut, &Args) -> u32>(
    score: F,
    cands: Seq<Kernel>,
    probes: Seq<Probe>,
    keep: Seq<bool>,
) -> (w: (Seq<int>, Seq<Seq<(Args<'a>, u32)>>, Seq<(int, Args<'a>, u32, u32)>))
    requires
        keep.len() == cands.len(),
        forall|i: int|
            0 <= i < keep.len() ==> judged::<A, F>(score, cands[i], probes, #[trigger] keep[i]),
    ensures
        w.0.len() == kept(cands, keep).len(),
        forall|j: int|
            0 <= j < w.0.len() ==> 0 <= #[trigger] w.0[j] < cands.len() && kept(cands, keep)[j]
                == cands[w.0[j]],
        forall|i: int, j: int| 0 <= i < j < w.0.len() ==> #[trigger] w.0[i] < #[trigger] w.0[j],
        w.1.len() == cands.len(),
        w.2.len() == cands.len(),
        forall|l: int, j: int|
            0 <= l < w.0.len() && 0 <= j < probes.len() ==> {
                let (args, x) = #[trigger] w.1[w.0[l]][j];
                &&& probes[j].poses(args)
                &&& call_ensures(score, (cands[w.0[l]], &probes[j].table(), &args), x)
                &&& call_ensures(scalar::<A>, (&probes[j].table(), &args), x)
            },
        forall|i: int|
            0 <= i < cands.len() && !w.0.contains(i) ==> {
                let (j, args, x, y) = #[trigger] w.2[i];
                &&& 0 <= j < probes.len()
                &&& probes[j].poses(args)
                &&& call_ensures(score, (cands[i], &probes[j].table(), &args), x)
                &&& call_ensures(scalar::<A>, (&probes[j].table(), &args), y)
                &&& x != y
            },
{
    let at = lemma_kept(cands, keep);
    let alike = |i: int, j: int|
        choose|v: (Args<'a>, u32)|
            probes[j].poses(v.0) && #[trigger] call_ensures(
                score,
                (cands[i], &probes[j].table(), &v.0),
                v.1,
            ) && call_ensures(scalar::<A>, (&probes[j].table(), &v.0), v.1);
    let apart = |i: int|
        choose|v: (int, Args<'a>, u32, u32)|
            0 <= v.0 < probes.len() && probes[v.0].poses(v.1) && #[trigger] call_ensures(
                score,
                (cands[i], &probes[v.0].table(), &v.1),
                v.2,
            ) && #[trigger] call_ensures(scalar::<A>, (&probes[v.0].table(), &v.1), v.3) && v.2
                != v.3;
    let w = (
        at,
        Seq::new(cands.len(), |i: int| Seq::new(probes.len(), |j: int| alike(i, j))),
        Seq::new(cands.len(), |i: int| apart(i)),
    );
    assert forall|l: int, j: int| 0 <= l < w.0.len() && 0 <= j < probes.len() implies {
        let (args, x) = #[trigger] w.1[w.0[l]][j];
        &&& probes[j].poses(args)
        &&& call_ensures(score, (cands[w.0[l]], &probes[j].table(), &args), x)
        &&& call_ensures(scalar::<A>, (&probes[j].table(), &args), x)
    } by {
        let i = at[l];
        assert(keep[i]);
        assert(judged::<A, F>(score, cands[i], probes, keep[i]));
        assert(agrees::<A, F>(score, cands[i], probes[j]));
        let x = choose|x: u32| #[trigger] compared::<A, F>(score, cands[i], probes[j], x, x);
        let args: Args<'a> = choose|args: Args|
            probes[j].poses(args) && #[trigger] call_ensures(
                score,
                (cands[i], &probes[j].table(), &args),
                x,
            ) && call_ensures(scalar::<A>, (&probes[j].table(), &args), x);
        let v: (Args<'a>, u32) = (args, x);
        assert(probes[j].poses(v.0) && call_ensures(
            score,
            (cands[i], &probes[j].table(), &v.0),
            v.1,
        ) && call_ensures(scalar::<A>, (&probes[j].table(), &v.0), v.1));
        assert(w.1[i][j] == alike(i, j));
    }
    assert forall|i: int| 0 <= i < cands.len() && !w.0.contains(i) implies {
        let (j, args, x, y) = #[trigger] w.2[i];
        &&& 0 <= j < probes.len()
        &&& probes[j].poses(args)
        &&& call_ensures(score, (cands[i], &probes[j].table(), &args), x)
        &&& call_ensures(scalar::<A>, (&probes[j].table(), &args), y)
        &&& x != y
    } by {
        assert(!keep[i]);
        assert(judged::<A, F>(score, cands[i], probes, keep[i]));
        let j = choose|j: int|
            0 <= j < probes.len() && disagrees::<A, F>(score, cands[i], #[trigger] probes[j]);
        let (x, y) = choose|x: u32, y: u32| #[trigger]
            compared::<A, F>(score, cands[i], probes[j], x, y) && x != y;
        let args: Args<'a> = choose|args: Args|
            probes[j].poses(args) && #[trigger] call_ensures(
                score,
                (cands[i], &probes[j].table(), &args),
                x,
            ) && call_ensures(scalar::<A>, (&probes[j].table(), &args), y);
        let v: (int, Args<'a>, u32, u32) = (j, args, x, y);
        assert(0 <= v.0 < probes.len() && probes[v.0].poses(v.1) && call_ensures(
            score,
            (cands[i], &probes[v.0].table(), &v.1),
            v.2,
        ) && call_ensures(scalar::<A>, (&probes[v.0].table(), &v.1), v.3) && v.2 != v.3);
        assert(w.2[i] == apart(i));
    }
    w
}

/// The self-check keeps, in order, the candidates that reproduced the scalar
/// reference on every probe. Of each of those the runner's score and the
/// reference's score on each probe were the same bits; of every other they
/// differed on some probe. (`w.0` are the places of the kept; `w.1` the
/// arguments and the score of candidate and probe; `w.2` the probe, the
/// arguments and the two scores where a candidate differed.)
pub proof fn the_self_check_keeps_what_reproduces_the_reference<
    'a,
    A: Arith,
    F: Fn(Kernel, &Lut, &Args) -> u32,
>(cands: &[Kernel], probes: &'a [Probe], score: F, r: Vec<Kernel>) -> (w: (
    Seq<int>,
    Seq<Seq<(Args<'a>, u32)>>,
    Seq<(int, Args<'a>, u32, u32)>,
))
    requires
        call_ensures(verified_kernels::<A, F>, (cands, probes, score), r),
    ensures
        w.0.len() == r@.len(),
        forall|j: int|
            0 <= j < w.0.len() ==> 0 <= #[trigger] w.0[j] < cands@.len() && r@[j] == cands@[w.0[j]],
        forall|i: int, j: int| 0 <= i < j < w.0.len() ==> #[trigger] w.0[i] < #[trigger] w.0[j],
        w.1.len() == cands@.len(),
        w.2.len() == cands@.len(),
        forall|l: int, j: int|
            0 <= l < w.0.len() && 0 <= j < probes@.len() ==> {
                let (args, x) = #[trigger] w.1[w.0[l]][j];
                &&& probes@[j].poses(args)
                &&& call_ensures(score, (cands@[w.0[l]], &probes@[j].table(), &args), x)
                &&& call_ensures(scalar::<A>, (&probes@[j].table(), &args), x)
            },
        forall|i: int|
            0 <= i < cands@.len() && !w.0.contains(i) ==> {
                let (j, args, x, y) = #[trigger] w.2[i];
                &&& 0 <= j < probes@.len()
                &&& probes@[j].poses(args)
                &&& call_ensures(score, (cands@[i], &probes@[j].table(), &args), x)
                &&& call_ensures(scalar::<A>, (&probes@[j].table(), &args), y)
                &&& x != y
            },
{
    let keep = choose|keep: Seq<bool>|
        keep.len() == cands@.len() && r@ == #[trigger] kept(cands@, keep) && forall|i: int|
            0 <= i < keep.len() ==> judged::<A, F>(score, cands@[i], probes@, #[trigger] keep[i]);
    lemma_checked::<A, F>(score, cands@, probes@, keep)
}

/// Measuring a runner's candidates puts each to the self-check, times those
/// that passed on the first probe, and returns the first of the fastest; the
/// only one untimed; the scalar reference where none passed. The timing of a
/// kernel is the smallest of five repetitions of that kernel. (`w.0` are the
/// probes, `w.1` what the self-check found, `w.2` the repetitions and `w.3` the
/// timings of those that passed, each with the repetition it is the time of,
/// `w.4` the place of the winner among them.)
pub proof fn measuring_returns_the_fastest_that_reproduced_the_reference<
    'a,
    A: Arith,
    F: Fn(Kernel, &Lut, &Args) -> u32,
>(cands: &[Kernel], fallback: Kernel, score: F, r: Kernel) -> (w: (
    Seq<Probe>,
    (Seq<int>, Seq<Seq<(Args<'a>, u32)>>, Seq<(int, Args<'a>, u32, u32)>),
    Seq<Seq<(u128, Args<'a>)>>,
    Seq<(u128, int)>,
    int,
))
    requires
        call_ensures(measure_with::<A, F>, (cands, fallback, score), r),
    ensures
        w.0.len() == 4,
        w.0[0].built::<A>(4, 128, 32, 64),
        w.0[1].built::<A>(4, 40, 9, 5),
        w.0[2].built::<A>(2, 96, 17, 7),
        w.0[3].built::<A>(1, 256, 1, 3),
        forall|j: int|
            0 <= j < w.1.0.len() ==> 0 <= #[trigger] w.1.0[j] < cands@.len(),
        forall|i: int, j: int|
            0 <= i < j < w.1.0.len() ==> #[trigger] w.1.0[i] < #[trigger] w.1.0[j],
        w.1.1.len() == cands@.len(),
        w.1.2.len() == cands@.len(),
        forall|l: int, j: int|
            0 <= l < w.1.0.len() && 0 <= j < 4 ==> {
                let (args, x) = #[trigger] w.1.1[w.1.0[l]][j];
                &&& w.0[j].poses(args)
                &&& call_ensures(score, (cands@[w.1.0[l]], &w.0[j].table(), &args), x)
                &&& call_ensures(scalar::<A>, (&w.0[j].table(), &args), x)
            },
        forall|i: int|
            0 <= i < cands@.len() && !w.1.0.contains(i) ==> {
                let (j, args, x, y) = #[trigger] w.1.2[i];
                &&& 0 <= j < 4
                &&& w.0[j].poses(args)
                &&& call_ensures(score, (cands@[i], &w.0[j].table(), &args), x)
                &&& call_ensures(scalar::<A>, (&w.0[j].table(), &args), y)
                &&& x != y
            },
        w.1.0.len() == 0 ==> r == Kernel::Scalar(ScalarReason::SelfCheckFailed),
        w.1.0.len() > 0 ==> 0 <= w.4 < w.1.0.len() && r == cands@[w.1.0[w.4]],
        w.1.0.len() > 1 ==> {
            &&& w.2.len() == w.1.0.len()
            &&& w.3.len() == w.1.0.len()
            &&& forall|l: int| 0 <= l < w.3.len() ==> w.3[w.4].0 <= (#[trigger] w.3[l]).0
            &&& forall|l: int| 0 <= l < w.4 ==> w.3[w.4].0 < (#[trigger] w.3[l]).0
            &&& forall|l: int| 0 <= l < w.2.len() ==> (#[trigger] w.2[l]).len() == 5
            &&& forall|l: int, i: int|
                0 <= l < w.2.len() && 0 <= i < 5 ==> {
                    let (took, args) = #[trigger] w.2[l][i];
                    &&& w.3[l].0 <= took
                    &&& w.0[0].poses(args)
                    &&& call_ensures(
                        time_once::<F>,
                        (cands@[w.1.0[l]], &w.0[0].table(), &args, &score),
                        took,
                    )
                }
            &&& forall|l: int|
                0 <= l < w.3.len() ==> 0 <= (#[trigger] w.3[l]).1 < 5 && w.2[l][w.3[l].1].0
                    == w.3[l].0
        },
{
    let (probes, keep, timings) = choose|
        probes: Seq<Probe>,
        keep: Seq<bool>,
        timings: Seq<u128>,
    | #[trigger]
        screened::<A, F>(score, cands@, probes, keep) && #[trigger] won(
            kept(cands@, keep),
            timings,
            r,
        ) && (kept(cands@, keep).len() > 1 ==> timed_for::<F>(
            score,
            kept(cands@, keep),
            probes[0],
            timings,
        ));
    assert(measured::<A, F>(score, cands@, r));
    let verified = kept(cands@, keep);
    let found = lemma_checked::<A, F>(score, cands@, probes, keep);
    let place = if verified.len() > 1 {
        choose|w: int| #[trigger] is_fastest(timings, w) && r == verified[w]
    } else {
        0
    };
    let samples = |l: int|
        choose|s: Seq<u128>| #[trigger]
            is_least(s, timings[l]) && s.len() == REPS && forall|i: int|
                0 <= i < s.len() ==> sampled::<F>(score, verified[l], probes[0], #[trigger] s[i]);
    let posed = |l: int, i: int|
        choose|args: Args<'a>|
            probes[0].poses(args) && #[trigger] call_ensures(
                time_once::<F>,
                (verified[l], &probes[0].table(), &args, &score),
                samples(l)[i],
            );
    let which = |l: int| samples(l).index_of(timings[l]);
    let reps = Seq::new(
        verified.len(),
        |l: int| Seq::new(5, |i: int| (samples(l)[i], posed(l, i))),
    );
    if verified.len() > 1 {
        assert forall|l: int, i: int| 0 <= l < reps.len() && 0 <= i < 5 implies {
            let (took, args) = #[trigger] reps[l][i];
            &&& timings[l] <= took
            &&& probes[0].poses(args)
            &&& call_ensures(
                time_once::<F>,
                (cands@[found.0[l]], &probes[0].table(), &args, &score),
                took,
            )
        } by {
            assert(fastest_repetition::<F>(score, verified[l], probes[0], timings[l]));
            assert(is_least(samples(l), timings[l]));
            assert(sampled::<F>(score, verified[l], probes[0], samples(l)[i]));
            assert(reps[l][i] == (samples(l)[i], posed(l, i)));
            assert(verified[l] == cands@[found.0[l]]);
        }
        assert forall|l: int| 0 <= l < timings.len() implies 0 <= #[trigger] which(l) < 5
            && reps[l][which(l)].0 == timings[l] by {
            assert(fastest_repetition::<F>(score, verified[l], probes[0], timings[l]));
            assert(is_least(samples(l), timings[l]));
            let taken = samples(l);
            assert(taken.contains(timings[l]));
            let i = which(l);
            assert(reps[l][i] == (samples(l)[i], posed(l, i)));
        }
    }
    let best = Seq::new(timings.len(), |l: int| (timings[l], which(l)));
    if verified.len() > 1 {
        assert forall|l: int| 0 <= l < best.len() implies best[place].0 <= (#[trigger] best[l]).0
            && 0 <= best[l].1 < 5 && reps[l][best[l].1].0 == best[l].0 && (l < place
            ==> best[place].0 < best[l].0) by {
            assert(best[l] == (timings[l], which(l)));
            assert(best[place] == (timings[place], which(place)));
            assert(timings[place] <= timings[l]);
        }
    }
    (probes, found, reps, best, place)
}

/// What is measured is a candidate that itself reproduced the reference.
proof fn lemma_reproduced<'a, A: Arith, F: Fn(Kernel, &Lut, &Args) -> u32>(
    score: F,
    cands: Seq<Kernel>,
    r: Kernel,
) -> (w: (Seq<Probe>, Seq<(Args<'a>, u32)>))
    requires
        measured::<A, F>(score, cands, r),
    ensures
        w.0.len() == 4,
        w.0[0].built::<A>(4, 128, 32, 64),
        w.0[1].built::<A>(4, 40, 9, 5),
        w.0[2].built::<A>(2, 96, 17, 7),
        w.0[3].built::<A>(1, 256, 1, 3),
        r != Kernel::Scalar(ScalarReason::SelfCheckFailed) ==> {
            &&& cands.contains(r)
            &&& w.1.len() == 4
            &&& forall|j: int|
                0 <= j < 4 ==> {
                    let (args, x) = #[trigger] w.1[j];
                    &&& w.0[j].poses(args)
                    &&& call_ensures(score, (r, &w.0[j].table(), &args), x)
                    &&& call_ensures(scalar::<A>, (&w.0[j].table(), &args), x)
                }
        },
{
    let (probes, keep, timings) = choose|
        probes: Seq<Probe>,
        keep: Seq<bool>,
        timings: Seq<u128>,
    | #[trigger]
        screened::<A, F>(score, cands, probes, keep) && #[trigger] won(
            kept(cands, keep),
            timings,
            r,
        ) && (kept(cands, keep).len() > 1 ==> timed_for::<F>(
            score,
            kept(cands, keep),
            probes[0],
            timings,
        ));
    let verified = kept(cands, keep);
    let found = lemma_checked::<A, F>(score, cands, probes, keep);
    if verified.len() > 0 {
        let place = if verified.len() > 1 {
            choose|w: int| #[trigger] is_fastest(timings, w) && r == verified[w]
        } else {
            0
        };
        let i = found.0[place];
        assert(r == cands[i]);
        let shown = Seq::new(4, |j: int| found.1[i][j]);
        assert forall|j: int| 0 <= j < 4 implies {
            let (args, x) = #[trigger] shown[j];
            &&& probes[j].poses(args)
            &&& call_ensures(score, (r, &probes[j].table(), &args), x)
            &&& call_ensures(scalar::<A>, (&probes[j].table(), &args), x)
        } by {
            assert(shown[j] == found.1[found.0[place]][j]);
        }
        (probes, shown)
    } else {
        (probes, seq![])
    }
}

/// A kernel must prove itself before dispatch uses it: what calibration finds,
/// and what a decision that was calibrated keeps, is the scalar reference, or
/// a kernel of the list that ran on each of the four probes and gave the bits
/// the scalar reference gave.
pub proof fn a_kernel_proves_itself_before_it_is_used<'a, A: Arith>(
    cands: &[Kernel],
    fallback: Kernel,
    r: Kernel,
) -> (w: (Seq<Probe>, Seq<(Args<'a>, u32)>))
    requires
        call_ensures(measure_fastest::<A>, (cands, fallback), r),
    ensures
        w.0.len() == 4,
        w.0[0].built::<A>(4, 128, 32, 64),
        w.0[1].built::<A>(4, 40, 9, 5),
        w.0[2].built::<A>(2, 96, 17, 7),
        w.0[3].built::<A>(1, 256, 1, 3),
        cands@.len() == 0 ==> r == Kernel::Scalar(ScalarReason::SelfCheckFailed),
        r != Kernel::Scalar(ScalarReason::SelfCheckFailed) ==> {
            &&& cands@.contains(r)
            &&& w.1.len() == 4
            &&& forall|j: int|
                0 <= j < 4 ==> {
                    let (args, x) = #[trigger] w.1[j];
                    &&& w.0[j].poses(args)
                    &&& call_ensures(run::<A>, (r, &w.0[j].table(), &args), x)
                    &&& call_ensures(scalar::<A>, (&w.0[j].table(), &args), x)
                }
        },
{
    lemma_reproduced::<A, _>(run::<A>, cands@, r)
}

/// What a decision chooses: nothing but the scalar reference where the CPU has
/// no vector kernel, the first listed where calibration is switched off, else
/// a kernel that proved itself or the scalar reference.
pub proof fn a_decision_chooses_what_proved_itself<'a, A: Arith>(
    cpu: CpuFeatures,
    force: Option<&str>,
    pin: Option<&str>,
    skip: Option<&str>,
    d: Dispatch,
    kernels: Vec<Kernel>,
    off: bool,
    choice: Kernel,
) -> (w: (Seq<Probe>, Seq<(Args<'a>, u32)>))
    requires
        call_ensures(Dispatch::new::<A>, (cpu, force, pin, skip), d),
        call_ensures(supported_kernels, (cpu,), kernels),
        call_ensures(env_no_calibrate, (skip,), off),
        call_ensures(Dispatch::choice, (&d,), choice),
    ensures
        kernels@.len() == 0 ==> choice == Kernel::Scalar(ScalarReason::CpuUnsupported),
        kernels@.len() > 0 && off ==> choice == kernels@[0],
        kernels@.len() > 0 && !off ==> {
            &&& w.0.len() == 4
            &&& choice != Kernel::Scalar(ScalarReason::SelfCheckFailed) ==> {
                &&& kernels@.contains(choice)
                &&& w.1.len() == 4
                &&& forall|j: int|
                    0 <= j < 4 ==> {
                        let (args, x) = #[trigger] w.1[j];
                        &&& w.0[j].poses(args)
                        &&& call_ensures(run::<A>, (choice, &w.0[j].table(), &args), x)
                        &&& call_ensures(scalar::<A>, (&w.0[j].table(), &args), x)
                    }
            }
        },
{
    if kernels@.len() > 0 && !off {
        lemma_reproduced::<A, _>(run::<A>, kernels@, choice)
    } else {
        (seq![], seq![])
    }
}

/// A repetition scores the arguments eight times.
pub proof fn a_repetition_is_eight_scores<F: Fn(Kernel, &Lut, &Args) -> u32>(
    k: Kernel,
    lut: &Lut,
    args: &Args,
    score: &F,
    took: u128,
) -> (results: Seq<u32>)
    requires
        call_ensures(time_once::<F>, (k, lut, args, score), took),
    ensures
        results.len() == 8,
        forall|i: int|
            0 <= i < 8 ==> call_ensures(*score, (k, lut, args), #[trigger] results[i]),
{
    choose|results: Seq<u32>| #[trigger] iterated::<F>(*score, k, *lut, *args, results)
}

/// Calibrating finds what a decision chooses: see
/// [`a_decision_chooses_what_proved_itself`].
pub proof fn calibrating_finds_what_proved_itself<'a, A: Arith>(
    cpu: CpuFeatures,
    off: bool,
    kernels: Vec<Kernel>,
    r: Kernel,
) -> (w: (Seq<Probe>, Seq<(Args<'a>, u32)>))
    requires
        call_ensures(calibrate::<A>, (cpu, off), r),
        call_ensures(supported_kernels, (cpu,), kernels),
    ensures
        kernels@.len() == 0 ==> r == Kernel::Scalar(ScalarReason::CpuUnsupported),
        kernels@.len() > 0 && off ==> r == kernels@[0],
        kernels@.len() > 0 && !off ==> {
            &&& w.0.len() == 4
            &&& r != Kernel::Scalar(ScalarReason::SelfCheckFailed) ==> {
                &&& kernels@.contains(r)
                &&& w.1.len() == 4
                &&& forall|j: int|
                    0 <= j < 4 ==> {
                        let (args, x) = #[trigger] w.1[j];
                        &&& w.0[j].poses(args)
                        &&& call_ensures(run::<A>, (r, &w.0[j].table(), &args), x)
                        &&& call_ensures(scalar::<A>, (&w.0[j].table(), &args), x)
                    }
            }
        },
{
    if kernels@.len() > 0 && !off {
        lemma_reproduced::<A, _>(run::<A>, kernels@, r)
    } else {
        (seq![], seq![])
    }
}

/// The shapes the self-check scores: the working point first, which is the one
/// timed, and every code width a vector kernel takes among them.
pub proof fn the_self_check_scores_four_shapes(r: [(usize, usize, usize, usize); 4])
    requires
        call_ensures(probe_shapes, (), r),
    ensures
        r[0] == (4usize, 128usize, 32usize, 64usize),
        r[1] == (4usize, 40usize, 9usize, 5usize),
        r[2] == (2usize, 96usize, 17usize, 7usize),
        r[3] == (1usize, 256usize, 1usize, 3usize),
{
    assert(r@[0] == shapes()[0]);
    assert(r@[1] == shapes()[1]);
    assert(r@[2] == shapes()[2]);
    assert(r@[3] == shapes()[3]);
}

/// A decision without calibration chooses the first kernel listed, and what
/// calibration and warming up report of any decision is its choice.
pub proof fn what_is_reported_is_the_choice(
    cpu: CpuFeatures,
    force: Option<&str>,
    pin: Option<&str>,
    d: Dispatch,
    kernels: Vec<Kernel>,
    first: Kernel,
    e: Dispatch,
    choice: Kernel,
    c: Kernel,
    w: Kernel,
)
    requires
        call_ensures(Dispatch::uncalibrated, (cpu, force, pin), d),
        call_ensures(supported_kernels, (cpu,), kernels),
        call_ensures(Dispatch::choice, (&d,), first),
        call_ensures(Dispatch::choice, (&e,), choice),
        call_ensures(calibrated, (&e,), c),
        call_ensures(warm_up, (&e,), w),
    ensures
        kernels@.len() == 0 ==> first == Kernel::Scalar(ScalarReason::CpuUnsupported),
        kernels@.len() > 0 ==> first == kernels@[0],
        c == choice,
        w == choice,
{
}

} // verus!
