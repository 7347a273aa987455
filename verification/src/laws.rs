//! Laws of whole calls: what the calls of the library return, told over what a
//! host hands in, and what several calls return, side by side.
use crate::error::Error;
use crate::float::{deterministic, Arith};
use crate::kernel::calibrate::{calibrated, measured, warm_up};
use crate::kernel::dispatch::{
    executable, settled, switched_on, text_of, vectorisable, CpuFeatures, Dispatch,
};
use crate::kernel::{maxsim, run, scalar, Args, Kernel, ScalarReason};
use crate::lut::{Lut, LutView};
use crate::packing::Layout;
use crate::query::{a_query_fits_the_tables_of_its_weights, PreparedQuery};
use crate::scorer::{DocView, Scorer, ScorerView};
use vstd::arithmetic::power2::pow2;
use vstd::prelude::*;

pub mod choice;
pub mod document;
pub mod numbers;
pub mod query;
pub mod score;
pub mod table;
pub mod texts;

verus! {

/// All kernels agree bit for bit: whatever two of them return for the same
/// table and arguments is equal.
pub proof fn any_two_kernels_agree<A: Arith>(
    j: Kernel,
    k: Kernel,
    lut: Lut,
    args: Args,
    x: u32,
    y: u32,
)
    requires
        deterministic::<A>(),
        call_ensures(run::<A>, (j, &lut, &args), x),
        call_ensures(run::<A>, (k, &lut, &args), y),
    ensures
        x == y,
{
    assert(args.scored::<A>(lut@, y));
}

/// Dispatch returns the bits of the scalar reference, whichever kernel it
/// selects.
pub proof fn dispatch_returns_the_reference_bits<A: Arith>(
    d: Dispatch,
    lut: Lut,
    args: Args,
    x: u32,
    y: u32,
)
    requires
        deterministic::<A>(),
        call_ensures(maxsim::<A>, (&lut, &args, &d), x),
        call_ensures(scalar::<A>, (&lut, &args), y),
    ensures
        x == y,
{
    assert(args.scored::<A>(lut@, y));
}

/// Scoring a document under one decision and under another returns the same
/// bits.
pub proof fn any_two_decisions_score_alike<A: Arith>(
    s: Scorer,
    doc: DocView,
    c: Dispatch,
    d: Dispatch,
    x: Result<u32, Error>,
    y: Result<u32, Error>,
)
    requires
        deterministic::<A>(),
        call_ensures(Scorer::try_score::<A>, (&s, doc, &c), x),
        call_ensures(Scorer::try_score::<A>, (&s, doc, &d), y),
    ensures
        x is Ok <==> y is Ok,
        x is Ok ==> x->Ok_0 == y->Ok_0,
{
    if x is Ok {
        assert(s@.scored::<A>(doc, y->Ok_0));
    }
}

/// A decision is made once: what [`calibrated`] and [`warm_up`] return of it
/// is the same at every call, and so is the kernel of a table. Where nothing
/// else settles that, it is the calibrated one.
pub proof fn a_decision_stays(
    d: Dispatch,
    lut: Lut,
    dim: usize,
    c: Kernel,
    w: Kernel,
    r: Kernel,
    x: Kernel,
    y: Kernel,
)
    requires
        call_ensures(calibrated, (&d,), c),
        call_ensures(warm_up, (&d,), w),
        call_ensures(warm_up, (&d,), r),
        call_ensures(Lut::kernel, (&lut, dim, &d), x),
        call_ensures(Lut::kernel, (&lut, dim, &d), y),
    ensures
        c == w,
        w == r,
        x == y,
        !settled(lut@, dim as nat, d@) ==> x == w,
{
}

/// What warming up returns: a kernel of the CPU, or that it has none, and
/// under a deterministic arithmetic never a failed self-check; the first
/// listed where calibration is switched off. A table that nothing else settles
/// runs it.
pub proof fn warming_up_names_the_kernel_that_runs<A: Arith>(
    cpu: CpuFeatures,
    force_scalar: Option<&str>,
    pin: Option<&str>,
    no_calibrate: Option<&str>,
    d: Dispatch,
    r: Kernel,
    lut: Lut,
    dim: usize,
    k: Kernel,
)
    requires
        call_ensures(Dispatch::new::<A>, (cpu, force_scalar, pin, no_calibrate), d),
        call_ensures(warm_up, (&d,), r),
        call_ensures(Lut::kernel, (&lut, dim, &d), k),
    ensures
        executable(cpu).len() == 0 <==> r == Kernel::Scalar(ScalarReason::CpuUnsupported),
        executable(cpu).len() > 0 && switched_on(text_of(no_calibrate)) ==> r == executable(
            cpu,
        )[0],
        executable(cpu).len() > 0 && !switched_on(text_of(no_calibrate)) ==> measured::<A, _>(
            run::<A>,
            executable(cpu),
            r,
        ),
        deterministic::<A>() ==> executable(cpu).contains(r) || executable(cpu).len() == 0,
        deterministic::<A>() ==> r != Kernel::Scalar(ScalarReason::SelfCheckFailed),
        !switched_on(text_of(force_scalar)) && pin is None && !lut@.force_scalar && lut@.pin is None
            && vectorisable(lut@, dim as nat) ==> k == r,
{
}

/// Tables of the same weights and layout are interchangeable for a query, and
/// so are a table and itself forced or pinned; no table of another width,
/// scale or other weights accepts the query.
pub proof fn a_query_is_accepted_by_the_tables_of_its_weights<A: Arith>(
    a: LutView,
    b: Lut,
    layout: Layout,
    weights: Seq<u32>,
    q: PreparedQuery,
    query: Seq<u32>,
    r: Result<Scorer, Error>,
)
    requires
        a.wf(),
        b.wf(),
        q@.built_from::<A>(a, query),
        call_ensures(Scorer::try_new, (&b, &q), r),
    ensures
        deterministic::<A>() && a.nbits == b@.nbits && weights.len() == pow2(a.nbits) && (forall|
            byte: u8,
            k: nat,
        |
            k < a.kpb() ==> #[trigger] layout(byte, k) < pow2(a.nbits)) && a.built_from::<A>(
            layout,
            weights,
        ) && b@.built_from::<A>(layout, weights) ==> r is Ok,
        b@ == (LutView { force_scalar: b@.force_scalar, pin: b@.pin, ..a }) ==> r is Ok,
        a.nbits != b@.nbits || a.scale != b@.scale || a.fused != b@.fused ==> r
            == Err::<Scorer, Error>(Error::LutMismatch),
        r is Ok ==> r->Ok_0@ == (ScorerView { lut: b, query: q, cdot: None, num_centroids: 0 }),
{
    a_query_fits_the_tables_of_its_weights::<A>(a, b@, layout, weights, q@, query);
}

} // verus!
