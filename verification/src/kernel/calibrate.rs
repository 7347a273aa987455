//! Calibration: the fastest kernel that reproduces the scalar reference.
//!
//! Which int8 dot instruction is fastest is a property of the core, not of
//! the instruction set, so the candidates are measured. Each is scored
//! against the scalar reference on a few synthetic documents and dropped if
//! it disagrees anywhere; the survivors are timed with their arms interleaved
//! and reduced by minimum.
use super::dispatch::{cpu_kernels, executable, lemma_executable, CpuFeatures, Dispatch};
use super::model::{score_is_unique, Args};
use super::scalar::scalar;
use super::{run, runnable, Kernel, ScalarReason};
use crate::codes::Codes;
use crate::error::MAX_DIM;
use crate::float::{
    addition, conversion, deterministic, product, quotient, Arith,
};
use crate::lut::Lut;
use crate::packing::{colbert_layout, lemma_keys_at, supported};
use crate::query::{rows_up, stride_of, PreparedQuery};
use std::time::Instant;
use vstd::arithmetic::power2::{lemma2_to64, pow2};
use vstd::prelude::*;

verus! {

/// The declaration of [`std::time::Instant`]: a point in time, opaque.
#[verifier::external_type_specification]
#[verifier::external_body]
pub struct ExInstant(std::time::Instant);

/// [`std::time::Instant::now`]: nothing is claimed of the point in time.
pub assume_specification[ std::time::Instant::now ]() -> (r: std::time::Instant);

/// [`std::time::Instant::elapsed`]: nothing is claimed of the time passed.
pub assume_specification[ std::time::Instant::elapsed ](at: &std::time::Instant) -> (r: std::time::Duration);

/// [`std::time::Duration::as_nanos`]: nothing is claimed of the count.
pub assume_specification[ std::time::Duration::as_nanos ](d: &std::time::Duration) -> (r: u128);

/// [`std::hint::black_box`]: gives its argument back.
pub assume_specification<T>[ std::hint::black_box::<T> ](x: T) -> (r: T)
    ensures
        r == x,
;

/// `-0.35`.
const WEIGHT_LOW: u32 = 0xbeb3_3333;

/// `0.7`.
const WEIGHT_SPAN: u32 = 0x3f33_3333;

/// `0.5`.
const HALF: u32 = 0x3f00_0000;

/// `-0.5`.
const MINUS_HALF: u32 = 0xbf00_0000;

/// `251.0`.
const QUERY_PERIOD: u32 = 0x437b_0000;

/// `0.8`.
const INV_LOW: u32 = 0x3f4c_cccd;

/// `0.05`.
const INV_STEP: u32 = 0x3d4c_cccd;

/// `w` is weight `i` of `n` of a probe: `-0.35 + 0.7 * (i + 0.5) / n`.
pub closed spec fn probe_weight<A: Arith>(i: int, n: int, w: u32) -> bool {
    exists|f: u32, h: u32, p: u32, d: u32, q: u32| #[trigger]
        conversion::<A>(i as i32, f) && #[trigger] addition::<A>(f, HALF, h)
            && #[trigger] product::<A>(WEIGHT_SPAN, h, p) && #[trigger] conversion::<A>(n as i32, d)
            && #[trigger] quotient::<A>(p, d, q) && addition::<A>(WEIGHT_LOW, q, w)
}

/// `x` is query component `i` of a probe: `(i * 37 % 251) / 251 - 0.5`.
pub closed spec fn probe_component<A: Arith>(i: int, x: u32) -> bool {
    exists|f: u32, q: u32| #[trigger]
        conversion::<A>((i * 37 % 251) as i32, f) && #[trigger] quotient::<A>(f, QUERY_PERIOD, q)
            && addition::<A>(q, MINUS_HALF, x)
}

/// `x` is inverse norm `i` of a probe: `0.8 + (i % 7) * 0.05`.
pub closed spec fn probe_inverse<A: Arith>(i: int, x: u32) -> bool {
    exists|f: u32, p: u32| #[trigger]
        conversion::<A>((i % 7) as i32, f) && #[trigger] product::<A>(f, INV_STEP, p) && addition::<
            A,
        >(INV_LOW, p, x)
}

/// A synthetic index and query the calibrator can score, owning its buffers.
#[derive(Debug)]
pub struct Probe {
    lut: Lut,
    query: PreparedQuery,
    packed: Vec<u8>,
    inv: Vec<u32>,
    row_stride: usize,
    n_tokens: usize,
}

/// A shape a probe can have.
pub open spec fn probe_shaped(nbits: nat, dim: nat) -> bool {
    supported(nbits) && dim <= MAX_DIM && (dim * nbits) % 8 == 0
}

impl Probe {
    /// The probe's table.
    pub closed spec fn table(&self) -> Lut {
        self.lut
    }

    /// The probe can be scored.
    pub closed spec fn wf(&self) -> bool {
        &&& self.lut.wf()
        &&& self.query.wf()
        &&& self.query@.nbits == self.lut@.nbits
        &&& self.row_stride == self.query@.pdim()
        &&& self.packed@.len() == self.n_tokens * self.row_stride
        &&& self.inv@.len() == self.n_tokens
    }

    /// Every probe can be scored.
    #[verifier::type_invariant]
    pub closed spec fn scorable(self) -> bool {
        self.wf()
    }

    /// The vector kernels can run on the probe.
    pub closed spec fn vectorisable(&self) -> bool {
        self.lut@.nibble is Some && self.query@.dim % 8 == 0
    }

    /// The probe has this shape and the synthetic content that goes with it.
    pub closed spec fn built<A: Arith>(&self, nbits: nat, dim: nat, nq: nat, n_tokens: nat) -> bool {
        &&& self.lut@.nbits == nbits
        &&& exists|weights: Seq<u32>| #[trigger]
            self.lut@.built_from::<A>(colbert_layout(nbits), weights) && weights.len() == pow2(nbits)
                && forall|i: int|
                0 <= i < weights.len() ==> probe_weight::<A>(
                    i,
                    weights.len() as int,
                    #[trigger] weights[i],
                )
        &&& self.query@.nq == nq
        &&& self.query@.dim == dim
        &&& exists|q: Seq<u32>| #[trigger]
            self.query@.built_from::<A>(self.lut@, q) && q.len() == nq * dim && forall|i: int|
                0 <= i < q.len() ==> probe_component::<A>(i, #[trigger] q[i])
        &&& self.n_tokens == n_tokens
        &&& forall|i: int|
            0 <= i < self.packed@.len() ==> #[trigger] self.packed@[i] == i * 97 % 256
        &&& forall|i: int|
            0 <= i < self.inv@.len() ==> probe_inverse::<A>(i, #[trigger] self.inv@[i])
    }

    /// These arguments put the probe to a kernel.
    pub closed spec fn poses(&self, args: Args) -> bool {
        &&& args.query == &self.query
        &&& args.packed@ == self.packed@
        &&& args.row_stride == self.row_stride
        &&& args.n_tokens == self.n_tokens
        &&& args.codes is Absent
        &&& args.cdot@ == self.query@.zeros
        &&& args.cdot_stride == 0
        &&& args.inv_norms matches Some(v) && v@ == self.inv@
    }

    /// A probe that can be scored is put in arguments that can be scored.
    pub proof fn lemma_poses(&self, args: Args)
        requires
            self.wf(),
            self.poses(args),
        ensures
            self.table().wf(),
            args.wf(self.table()@),
            self.vectorisable() ==> self.table()@.nibble is Some && args.query@.dim % 8 == 0,
    {
        assert forall|t: int| 0 <= t < args.n_tokens implies #[trigger] args.reaches(t) by {
            assert(args.codes.index(t) * args.cdot_stride == 0) by (nonlinear_arith)
                requires
                    args.cdot_stride == 0,
            ;
        }
    }

    /// `None` only if the shape is invalid; it keeps calibration total
    /// without a panic.
    #[verifier::spinoff_prover]
    pub fn new<A: Arith>(nbits: usize, dim: usize, nq: usize, n_tokens: usize) -> (r: Option<Self>)
        requires
            dim > 0,
            nq * dim * 37 <= usize::MAX,
            n_tokens * dim * 97 <= usize::MAX,
            rows_up(nq as nat, 16) * stride_of(dim as nat) <= usize::MAX,
        ensures
            match r {
                Some(p) => {
                    &&& probe_shaped(nbits as nat, dim as nat)
                    &&& p.wf()
                    &&& p.built::<A>(nbits as nat, dim as nat, nq as nat, n_tokens as nat)
                    &&& p.vectorisable() == (nbits != 8 && dim % 8 == 0)
                },
                None => !probe_shaped(nbits as nat, dim as nat),
            },
    {
        let n: usize = if nbits == 1 {
            2
        } else if nbits == 2 {
            4
        } else if nbits == 4 {
            16
        } else if nbits == 8 {
            256
        } else {
            return None;
        };
        proof {
            lemma2_to64();
            lemma_keys_at(nbits as nat);
        }
        let mut weights: Vec<u32> = Vec::new();
        let mut i: usize = 0;
        while i < n
            invariant
                i <= n <= 256,
                weights@.len() == i,
                forall|j: int|
                    0 <= j < i ==> probe_weight::<A>(j, n as int, #[trigger] weights@[j]),
            decreases n - i,
        {
            let f: u32 = A::from_i32(i as i32);
            let h: u32 = A::add(f, HALF);
            let p: u32 = A::mul(WEIGHT_SPAN, h);
            let d: u32 = A::from_i32(n as i32);
            let q: u32 = A::div(p, d);
            let w: u32 = A::add(WEIGHT_LOW, q);
            proof {
                assert(conversion::<A>(i as int as i32, f));
                assert(addition::<A>(f, HALF, h));
                assert(product::<A>(WEIGHT_SPAN, h, p));
                assert(conversion::<A>(n as int as i32, d));
                assert(quotient::<A>(p, d, q));
                assert(addition::<A>(WEIGHT_LOW, q, w));
                assert(probe_weight::<A>(i as int, n as int, w));
            }
            weights.push(w);
            i += 1;
        }
        let lut = match Lut::colbert::<A>(nbits, &weights) {
            Ok(lut) => lut,
            Err(_) => return None,
        };
        // Deterministic pseudo-random content. The kernels never branch on
        // values, so any well-mixed data exercises the same paths.
        proof {
            assert(0 <= nq * dim <= nq * dim * 37) by (nonlinear_arith)
                requires
                    0 <= nq,
                    0 <= dim,
            ;
        }
        let len: usize = nq * dim;
        let mut q: Vec<u32> = Vec::new();
        let mut i: usize = 0;
        while i < len
            invariant
                i <= len,
                len * 37 <= usize::MAX,
                q@.len() == i,
                forall|j: int| 0 <= j < i ==> probe_component::<A>(j, #[trigger] q@[j]),
            decreases len - i,
        {
            let m: usize = i * 37 % 251;
            let f: u32 = A::from_i32(m as i32);
            let r: u32 = A::div(f, QUERY_PERIOD);
            let x: u32 = A::add(r, MINUS_HALF);
            proof {
                assert(conversion::<A>((i * 37 % 251) as i32, f));
                assert(quotient::<A>(f, QUERY_PERIOD, r));
                assert(addition::<A>(r, MINUS_HALF, x));
                assert(probe_component::<A>(i as int, x));
            }
            q.push(x);
            i += 1;
        }
        let query = match PreparedQuery::new::<A>(&lut, &q, nq, dim) {
            Ok(query) => query,
            Err(_) => return None,
        };
        let row_stride: usize = dim / lut.keys_per_byte();
        proof {
            let s = row_stride as int;
            assert(0 <= n_tokens * s && n_tokens * s * 97 <= n_tokens * dim * 97) by (nonlinear_arith)
                requires
                    0 <= s <= dim,
                    0 <= n_tokens,
            ;
            assert(n_tokens * s <= n_tokens * s * 97) by (nonlinear_arith)
                requires
                    0 <= n_tokens * s,
            ;
        }
        let size: usize = n_tokens * row_stride;
        let mut packed: Vec<u8> = Vec::new();
        let mut i: usize = 0;
        while i < size
            invariant
                i <= size,
                size * 97 <= usize::MAX,
                packed@.len() == i,
                forall|j: int| 0 <= j < i ==> #[trigger] packed@[j] == j * 97 % 256,
            decreases size - i,
        {
            let m: usize = i * 97 % 256;
            packed.push(m as u8);
            i += 1;
        }
        let mut inv: Vec<u32> = Vec::new();
        let mut i: usize = 0;
        while i < n_tokens
            invariant
                i <= n_tokens,
                inv@.len() == i,
                forall|j: int| 0 <= j < i ==> probe_inverse::<A>(j, #[trigger] inv@[j]),
            decreases n_tokens - i,
        {
            let m: usize = i % 7;
            let f: u32 = A::from_i32(m as i32);
            let p: u32 = A::mul(f, INV_STEP);
            let x: u32 = A::add(INV_LOW, p);
            proof {
                assert(conversion::<A>((i as int % 7) as i32, f));
                assert(product::<A>(f, INV_STEP, p));
                assert(addition::<A>(INV_LOW, p, x));
                assert(probe_inverse::<A>(i as int, x));
            }
            inv.push(x);
            i += 1;
        }
        let probe = Probe { lut, query, packed, inv, row_stride, n_tokens };
        assert(probe.lut@.built_from::<A>(colbert_layout(nbits as nat), weights@));
        assert(probe.query@.built_from::<A>(probe.lut@, q@));
        assert(probe.wf());
        Some(probe)
    }

    /// The probe's table.
    pub fn lut(&self) -> (r: &Lut)
        ensures
            *r == self.table(),
    {
        &self.lut
    }

    /// The probe as a kernel's arguments.
    pub fn args(&self) -> (r: Args<'_>)
        ensures
            self.poses(r),
            r.wf(self.table()@),
    {
        proof {
            use_type_invariant(self);
        }
        let r = Args {
            query: &self.query,
            packed: &self.packed,
            row_stride: self.row_stride,
            n_tokens: self.n_tokens,
            codes: Codes::Absent,
            cdot: self.query.zeros(),
            cdot_stride: 0,
            inv_norms: Some(&self.inv),
        };
        proof {
            self.lemma_poses(r);
        }
        r
    }
}

/// A probe holds, put to a kernel, synthetic bytes and inverse norms of its
/// shape: byte `i` is `97 * i` modulo 256, inverse norm `i` is
/// `0.8 + (i % 7) * 0.05` in the host's arithmetic; no centroid term counts. It
/// is built wherever its shape is one a query can have.
pub proof fn a_probe_holds_synthetic_bytes<A: Arith>(
    nbits: usize,
    dim: usize,
    nq: usize,
    n_tokens: usize,
    r: Option<Probe>,
    args: Args,
    i: int,
) -> (w: (u32, u32))
    requires
        call_ensures(Probe::new::<A>, (nbits, dim, nq, n_tokens), r),
        r matches Some(p) ==> call_ensures(Probe::args, (&p,), args),
        0 <= i,
    ensures
        r is Some <==> (nbits == 1 || nbits == 2 || nbits == 4 || nbits == 8) && dim <= 256 && (dim
            * nbits) % 8 == 0,
        r is Some ==> {
            &&& args.n_tokens == n_tokens
            &&& args.query@.nq == nq
            &&& args.query@.dim == dim
            &&& args.packed@.len() == n_tokens * args.row_stride
            &&& i < args.packed@.len() ==> args.packed@[i] == (97 * i) % 256
            &&& args.codes is Absent
            &&& args.cdot_stride == 0
            &&& args.cdot@.len() == nq
            &&& i < nq ==> args.cdot@[i] == 0
            &&& args.inv_norms is Some
            &&& args.inv_norms->Some_0@.len() == n_tokens
            &&& i < n_tokens ==> {
                &&& call_ensures(A::from_i32, ((i % 7) as i32,), w.0)
                &&& call_ensures(A::mul, (w.0, 0x3d4c_cccdu32), w.1)
                &&& call_ensures(A::add, (0x3f4c_cccdu32, w.1), args.inv_norms->Some_0@[i])
            }
        },
{
    if r is Some && i < n_tokens {
        let p = r->Some_0;
        assert(probe_inverse::<A>(i, p.inv@[i]));
        choose|f: u32, m: u32| #[trigger]
            conversion::<A>((i % 7) as i32, f) && #[trigger] product::<A>(f, INV_STEP, m)
                && addition::<A>(INV_LOW, m, p.inv@[i])
    } else {
        (0, 0)
    }
}

/// A probe's table is that of its synthetic weights in the ColBERT layout, and
/// its query that of its synthetic components: weight `i` of `n` is
/// `-0.35 + 0.7 * (i + 0.5) / n`, component `i` is `(37 * i % 251) / 251 - 0.5`,
/// step by step in the host's arithmetic.
pub proof fn a_probe_holds_synthetic_weights<A: Arith>(
    nbits: usize,
    dim: usize,
    nq: usize,
    n_tokens: usize,
    p: Probe,
    args: Args,
    table: &Lut,
    i: int,
) -> (w: (Seq<u32>, (u32, u32, u32, u32, u32), Seq<u32>, (u32, u32)))
    requires
        call_ensures(Probe::new::<A>, (nbits, dim, nq, n_tokens), Some(p)),
        call_ensures(Probe::args, (&p,), args),
        call_ensures(Probe::lut, (&p,), table),
        0 <= i,
    ensures
        table@.built_from::<A>(colbert_layout(nbits as nat), w.0),
        w.0.len() == pow2(nbits as nat),
        i < w.0.len() ==> {
            let (f, h, m, c, q) = w.1;
            &&& call_ensures(A::from_i32, (i as i32,), f)
            &&& call_ensures(A::add, (f, 0x3f00_0000u32), h)
            &&& call_ensures(A::mul, (0x3f33_3333u32, h), m)
            &&& call_ensures(A::from_i32, (w.0.len() as i32,), c)
            &&& call_ensures(A::div, (m, c), q)
            &&& call_ensures(A::add, (0xbeb3_3333u32, q), w.0[i])
        },
        args.query@.built_from::<A>(table@, w.2),
        w.2.len() == nq * dim,
        i < w.2.len() ==> {
            let (f, q) = w.3;
            &&& call_ensures(A::from_i32, ((i * 37 % 251) as i32,), f)
            &&& call_ensures(A::div, (f, 0x437b_0000u32), q)
            &&& call_ensures(A::add, (q, 0xbf00_0000u32), w.2[i])
        },
{
    let weights = choose|weights: Seq<u32>| #[trigger]
        p.lut@.built_from::<A>(colbert_layout(nbits as nat), weights) && weights.len() == pow2(
            nbits as nat,
        ) && forall|i: int|
            0 <= i < weights.len() ==> probe_weight::<A>(
                i,
                weights.len() as int,
                #[trigger] weights[i],
            );
    let query = choose|q: Seq<u32>| #[trigger]
        p.query@.built_from::<A>(p.lut@, q) && q.len() == nq * dim && forall|i: int|
            0 <= i < q.len() ==> probe_component::<A>(i, #[trigger] q[i]);
    let a = if i < weights.len() {
        assert(probe_weight::<A>(i, weights.len() as int, weights[i]));
        choose|f: u32, h: u32, m: u32, c: u32, q: u32| #[trigger]
            conversion::<A>(i as i32, f) && #[trigger] addition::<A>(f, HALF, h)
                && #[trigger] product::<A>(WEIGHT_SPAN, h, m) && #[trigger] conversion::<A>(
                weights.len() as i32,
                c,
            ) && #[trigger] quotient::<A>(m, c, q) && addition::<A>(WEIGHT_LOW, q, weights[i])
    } else {
        (0, 0, 0, 0, 0)
    };
    let b = if i < query.len() {
        assert(probe_component::<A>(i, query[i]));
        choose|f: u32, q: u32| #[trigger]
            conversion::<A>((i * 37 % 251) as i32, f) && #[trigger] quotient::<A>(
                f,
                QUERY_PERIOD,
                q,
            ) && addition::<A>(q, MINUS_HALF, query[i])
    } else {
        (0, 0)
    };
    (weights, a, query, b)
}

/// Shapes the self-check scores: `(nbits, dim, query rows, document tokens)`.
/// The first is the working point and is also the one timed; the rest reach
/// the paths a single shape would miss: an odd query-row count, a `dim` whose
/// packed row ends mid-vector, a row count just past a block boundary, and
/// each supported code width.
pub open spec fn shapes() -> Seq<(usize, usize, usize, usize)> {
    seq![(4, 128, 32, 64), (4, 40, 9, 5), (2, 96, 17, 7), (1, 256, 1, 3)]
}

/// The shapes the self-check scores.
pub fn probe_shapes() -> (r: [(usize, usize, usize, usize); 4])
    ensures
        r@ == shapes(),
{
    let r: [(usize, usize, usize, usize); 4] = [
        (4, 128, 32, 64),
        (4, 40, 9, 5),
        (2, 96, 17, 7),
        (1, 256, 1, 3),
    ];
    assert(r@ =~= shapes());
    r
}

/// These are the probes of the [`shapes`].
pub open spec fn are_probes<A: Arith>(probes: Seq<Probe>) -> bool {
    &&& probes.len() == shapes().len()
    &&& forall|j: int|
        0 <= j < probes.len() ==> {
            &&& (#[trigger] probes[j]).wf()
            &&& probes[j].vectorisable()
            &&& probes[j].built::<A>(
                shapes()[j].0 as nat,
                shapes()[j].1 as nat,
                shapes()[j].2 as nat,
                shapes()[j].3 as nat,
            )
        }
}

/// A runner gave kernel `k` the score `x` on the probe where the scalar
/// reference gave `y`.
pub open spec fn compared<A: Arith, F: Fn(Kernel, &Lut, &Args) -> u32>(
    score: F,
    k: Kernel,
    p: Probe,
    x: u32,
    y: u32,
) -> bool {
    exists|args: Args|
        p.poses(args) && #[trigger] call_ensures(score, (k, &p.table(), &args), x)
            && call_ensures(scalar::<A>, (&p.table(), &args), y)
}

/// The runner's kernel `k` reproduced the scalar reference on the probe.
pub open spec fn agrees<A: Arith, F: Fn(Kernel, &Lut, &Args) -> u32>(
    score: F,
    k: Kernel,
    p: Probe,
) -> bool {
    exists|x: u32| #[trigger] compared::<A, F>(score, k, p, x, x)
}

/// The runner's kernel `k` differed from the scalar reference on the probe.
pub open spec fn disagrees<A: Arith, F: Fn(Kernel, &Lut, &Args) -> u32>(
    score: F,
    k: Kernel,
    p: Probe,
) -> bool {
    exists|x: u32, y: u32| #[trigger] compared::<A, F>(score, k, p, x, y) && x != y
}

/// The candidates whose flag is set, in order.
pub open spec fn kept(cands: Seq<Kernel>, keep: Seq<bool>) -> Seq<Kernel>
    decreases keep.len(),
{
    if keep.len() == 0 {
        seq![]
    } else {
        let rest = kept(cands, keep.drop_last());
        if keep.last() {
            rest.push(cands[keep.len() - 1])
        } else {
            rest
        }
    }
}

/// A candidate is kept exactly where it reproduced the reference on every
/// probe.
pub open spec fn judged<A: Arith, F: Fn(Kernel, &Lut, &Args) -> u32>(
    score: F,
    k: Kernel,
    probes: Seq<Probe>,
    keep: bool,
) -> bool {
    if keep {
        forall|j: int| 0 <= j < probes.len() ==> agrees::<A, F>(score, k, #[trigger] probes[j])
    } else {
        exists|j: int| 0 <= j < probes.len() && disagrees::<A, F>(score, k, #[trigger] probes[j])
    }
}

/// The runner's candidates were put to the probes of the [`shapes`], and
/// each is kept exactly where it reproduced the reference on all of them.
pub open spec fn screened<A: Arith, F: Fn(Kernel, &Lut, &Args) -> u32>(
    score: F,
    cands: Seq<Kernel>,
    probes: Seq<Probe>,
    keep: Seq<bool>,
) -> bool {
    &&& are_probes::<A>(probes)
    &&& keep.len() == cands.len()
    &&& forall|i: int|
        0 <= i < cands.len() ==> judged::<A, F>(score, cands[i], probes, #[trigger] keep[i])
}

/// Under a deterministic arithmetic a runner that computes the score has all
/// its candidates kept.
proof fn lemma_screened<A: Arith, F: Fn(Kernel, &Lut, &Args) -> u32>(
    score: F,
    cands: Seq<Kernel>,
    probes: Seq<Probe>,
    keep: Seq<bool>,
)
    requires
        deterministic::<A>(),
        screened::<A, F>(score, cands, probes, keep),
        forall|k: Kernel, lut: &Lut, args: &Args, x: u32| #[trigger]
            call_ensures(score, (k, lut, args), x) ==> args.scored::<A>(lut@, x),
    ensures
        kept(cands, keep) == cands,
{
    assert forall|i: int| 0 <= i < keep.len() implies #[trigger] keep[i] by {
        a_truthful_kernel_is_kept::<A, F>(score, cands[i], probes, keep[i]);
    }
    lemma_all_kept(cands, keep);
    assert(cands.take(keep.len() as int) =~= cands);
}

/// Whether kernel `k` of the runner reproduces the scalar reference on every
/// probe.
fn reproduces<A: Arith, F: Fn(Kernel, &Lut, &Args) -> u32>(
    k: Kernel,
    probes: &[Probe],
    score: &F,
) -> (r: bool)
    requires
        forall|j: int, args: Args|
            0 <= j < probes@.len() && #[trigger] probes@[j].poses(args) ==> call_requires(
                *score,
                (k, &probes@[j].table(), &args),
            ),
    ensures
        judged::<A, F>(*score, k, probes@, r),
{
    let mut j: usize = 0;
    while j < probes.len()
        invariant
            j <= probes@.len(),
            forall|i: int, args: Args|
                0 <= i < probes@.len() && #[trigger] probes@[i].poses(args) ==> call_requires(
                    *score,
                    (k, &probes@[i].table(), &args),
                ),
            forall|i: int| 0 <= i < j ==> agrees::<A, F>(*score, k, #[trigger] probes@[i]),
        decreases probes@.len() - j,
    {
        let p = &probes[j];
        let args = p.args();
        proof {
            use_type_invariant(p);
            p.lemma_poses(args);
        }
        let x: u32 = score(k, p.lut(), &args);
        let y: u32 = scalar::<A>(p.lut(), &args);
        proof {
            assert(call_ensures(*score, (k, &p.table(), &args), x));
            assert(call_ensures(scalar::<A>, (&p.table(), &args), y));
            assert(compared::<A, F>(*score, k, *p, x, y));
        }
        if x != y {
            assert(disagrees::<A, F>(*score, k, probes@[j as int]));
            return false;
        }
        assert(agrees::<A, F>(*score, k, probes@[j as int]));
        j += 1;
    }
    true
}

/// The candidates the runner's scores keep.
fn screen<A: Arith, F: Fn(Kernel, &Lut, &Args) -> u32>(
    cands: &[Kernel],
    probes: &[Probe],
    score: &F,
) -> (r: Vec<Kernel>)
    requires
        forall|i: int, j: int, args: Args|
            0 <= i < cands@.len() && 0 <= j < probes@.len() && #[trigger] probes@[j].poses(args)
                ==> call_requires(*score, (#[trigger] cands@[i], &probes@[j].table(), &args)),
    ensures
        exists|keep: Seq<bool>|
            keep.len() == cands@.len() && r@ == #[trigger] kept(cands@, keep) && forall|i: int|
                0 <= i < keep.len() ==> judged::<A, F>(
                    *score,
                    cands@[i],
                    probes@,
                    #[trigger] keep[i],
                ),
{
    let mut r: Vec<Kernel> = Vec::new();
    let ghost mut keep: Seq<bool> = seq![];
    let mut i: usize = 0;
    while i < cands.len()
        invariant
            i <= cands@.len(),
            forall|c: int, j: int, args: Args|
                0 <= c < cands@.len() && 0 <= j < probes@.len() && #[trigger] probes@[j].poses(args)
                    ==> call_requires(*score, (#[trigger] cands@[c], &probes@[j].table(), &args)),
            keep.len() == i,
            r@ == kept(cands@, keep),
            forall|c: int|
                0 <= c < i ==> judged::<A, F>(*score, cands@[c], probes@, #[trigger] keep[c]),
        decreases cands@.len() - i,
    {
        let k: Kernel = cands[i];
        assert(k == cands@[i as int]);
        let ok: bool = reproduces::<A, F>(k, probes, score);
        if ok {
            r.push(k);
        }
        proof {
            let next = keep.push(ok);
            assert(next.drop_last() =~= keep);
            assert(next.last() == ok);
            keep = next;
        }
        i += 1;
    }
    r
}

/// Candidates that reproduce the scalar reference bit for bit on every probe.
/// `score` is the kernel runner.
pub fn verified_kernels<A: Arith, F: Fn(Kernel, &Lut, &Args) -> u32>(
    cands: &[Kernel],
    probes: &[Probe],
    score: F,
) -> (r: Vec<Kernel>)
    requires
        forall|i: int, j: int, args: Args|
            0 <= i < cands@.len() && 0 <= j < probes@.len() && #[trigger] probes@[j].poses(args)
                ==> call_requires(score, (#[trigger] cands@[i], &probes@[j].table(), &args)),
    ensures
        exists|keep: Seq<bool>|
            keep.len() == cands@.len() && r@ == #[trigger] kept(cands@, keep) && forall|i: int|
                0 <= i < keep.len() ==> judged::<A, F>(
                    score,
                    cands@[i],
                    probes@,
                    #[trigger] keep[i],
                ),
{
    screen::<A, F>(cands, probes, &score)
}

/// With every flag set, every candidate is kept.
proof fn lemma_all_kept(cands: Seq<Kernel>, keep: Seq<bool>)
    requires
        keep.len() <= cands.len(),
        forall|i: int| 0 <= i < keep.len() ==> #[trigger] keep[i],
    ensures
        kept(cands, keep) == cands.take(keep.len() as int),
    decreases keep.len(),
{
    if keep.len() > 0 {
        lemma_all_kept(cands, keep.drop_last());
        assert(keep.last() == keep[keep.len() - 1]);
        assert(cands.take(keep.len() as int) =~= cands.take(keep.len() - 1).push(
            cands[keep.len() - 1],
        ));
    } else {
        assert(cands.take(0) =~= seq![]);
    }
}

/// Only candidates are kept.
proof fn lemma_kept_are_candidates(cands: Seq<Kernel>, keep: Seq<bool>)
    requires
        keep.len() <= cands.len(),
    ensures
        forall|i: int|
            0 <= i < kept(cands, keep).len() ==> cands.contains(#[trigger] kept(cands, keep)[i]),
    decreases keep.len(),
{
    if keep.len() > 0 {
        lemma_kept_are_candidates(cands, keep.drop_last());
        let rest = kept(cands, keep.drop_last());
        assert forall|i: int| 0 <= i < kept(cands, keep).len() implies cands.contains(
            #[trigger] kept(cands, keep)[i],
        ) by {
            if i < rest.len() {
                assert(kept(cands, keep)[i] == rest[i]);
            } else {
                assert(kept(cands, keep)[i] == cands[keep.len() - 1]);
            }
        }
    }
}

/// A runner that disagrees with the reference on some probe, whatever it
/// returns there, is not kept: the self-check rejects a kernel that lies.
pub proof fn a_liar_is_rejected<A: Arith, F: Fn(Kernel, &Lut, &Args) -> u32>(
    score: F,
    k: Kernel,
    probes: Seq<Probe>,
    j: int,
    keep: bool,
)
    requires
        judged::<A, F>(score, k, probes, keep),
        0 <= j < probes.len(),
        forall|x: u32, y: u32| #[trigger] compared::<A, F>(score, k, probes[j], x, y) ==> x != y,
    ensures
        !keep,
{
    if keep {
        assert(agrees::<A, F>(score, k, probes[j]));
    }
}

/// Under a deterministic arithmetic a runner whose kernel `k` computes the
/// score is kept.
pub proof fn a_truthful_kernel_is_kept<A: Arith, F: Fn(Kernel, &Lut, &Args) -> u32>(
    score: F,
    k: Kernel,
    probes: Seq<Probe>,
    keep: bool,
)
    requires
        deterministic::<A>(),
        judged::<A, F>(score, k, probes, keep),
        forall|lut: &Lut, args: &Args, x: u32| #[trigger]
            call_ensures(score, (k, lut, args), x) ==> args.scored::<A>(lut@, x),
    ensures
        keep,
{
    if !keep {
        let j = choose|j: int|
            0 <= j < probes.len() && disagrees::<A, F>(score, k, #[trigger] probes[j]);
        let p = probes[j];
        let (x, y) = choose|x: u32, y: u32| #[trigger]
            compared::<A, F>(score, k, p, x, y) && x != y;
        let args = choose|args: Args|
            p.poses(args) && #[trigger] call_ensures(score, (k, &p.table(), &args), x)
                && call_ensures(scalar::<A>, (&p.table(), &args), y);
        let g = args.grid(p.table()@);
        score_is_unique::<A>(g, g, args.query@.nq, args.n_tokens as nat, x, y);
    }
}

/// `w` is the first of the smallest timings.
pub open spec fn is_fastest(timings: Seq<u128>, w: int) -> bool {
    &&& 0 <= w < timings.len()
    &&& forall|i: int| 0 <= i < timings.len() ==> timings[w] <= #[trigger] timings[i]
    &&& forall|i: int| 0 <= i < w ==> timings[w] < #[trigger] timings[i]
}

/// The first of the smallest timings.
pub fn fastest(timings: &[u128]) -> (w: usize)
    requires
        timings@.len() > 0,
    ensures
        is_fastest(timings@, w as int),
{
    let mut w: usize = 0;
    let mut i: usize = 1;
    while i < timings.len()
        invariant
            1 <= i <= timings@.len(),
            w < i,
            forall|j: int| 0 <= j < i ==> timings@[w as int] <= #[trigger] timings@[j],
            forall|j: int| 0 <= j < w ==> timings@[w as int] < #[trigger] timings@[j],
        decreases timings@.len() - i,
    {
        if timings[i] < timings[w] {
            w = i;
        }
        i += 1;
    }
    w
}

/// `r` is the kernel chosen among those that passed the self-check: the
/// scalar reference where none did, the only one where one did, else the first
/// of the fastest.
pub open spec fn won(verified: Seq<Kernel>, timings: Seq<u128>, r: Kernel) -> bool {
    if verified.len() == 0 {
        r == Kernel::Scalar(ScalarReason::SelfCheckFailed)
    } else if verified.len() == 1 {
        r == verified[0]
    } else {
        exists|w: int| #[trigger] is_fastest(timings, w) && r == verified[w]
    }
}

/// The kernel chosen among those that passed the self-check, given a timing
/// for each where there is a choice.
pub fn winner(verified: &[Kernel], timings: &[u128]) -> (r: Kernel)
    requires
        verified@.len() > 1 ==> timings@.len() == verified@.len(),
    ensures
        won(verified@, timings@, r),
{
    if verified.len() == 0 {
        return Kernel::Scalar(ScalarReason::SelfCheckFailed);
    }
    if verified.len() == 1 {
        return verified[0];
    }
    verified[fastest(timings)]
}

/// Timed repetitions, of which the fastest counts.
pub const REPS: usize = 5;

/// Scores per repetition.
pub const ITERS: usize = 8;

/// `m` is the smallest of the samples.
pub open spec fn is_least(samples: Seq<u128>, m: u128) -> bool {
    &&& samples.contains(m)
    &&& forall|i: int| 0 <= i < samples.len() ==> m <= #[trigger] samples[i]
}

/// The smallest of the samples.
pub fn least(samples: &[u128]) -> (m: u128)
    requires
        samples@.len() > 0,
    ensures
        is_least(samples@, m),
{
    let mut m: u128 = samples[0];
    assert(samples@[0] == m);
    let mut i: usize = 1;
    while i < samples.len()
        invariant
            1 <= i <= samples@.len(),
            samples@.contains(m),
            forall|j: int| 0 <= j < i ==> m <= #[trigger] samples@[j],
        decreases samples@.len() - i,
    {
        if samples[i] < m {
            m = samples[i];
            assert(samples@[i as int] == m);
        }
        i += 1;
    }
    m
}

/// `n` is a count of nanoseconds the clock gave as passed since some point in
/// time it had given.
pub open spec fn clocked(n: u128) -> bool {
    exists|at: Instant, d: std::time::Duration| #[trigger]
        call_ensures(Instant::elapsed, (&at,), d) && call_ensures(Instant::now, (), at)
            && #[trigger] call_ensures(std::time::Duration::as_nanos, (&d,), n)
}

/// The runner gave kernel `k` a score on the arguments [`ITERS`] times.
pub open spec fn iterated<F: Fn(Kernel, &Lut, &Args) -> u32>(
    score: F,
    k: Kernel,
    lut: Lut,
    args: Args,
    results: Seq<u32>,
) -> bool {
    &&& results.len() == ITERS
    &&& forall|i: int|
        0 <= i < results.len() ==> call_ensures(score, (k, &lut, &args), #[trigger] results[i])
}

/// Times one repetition of a kernel, in nanoseconds: the clock is read, the
/// runner scores the arguments [`ITERS`] times, and the clock is read again.
pub fn time_once<F: Fn(Kernel, &Lut, &Args) -> u32>(
    k: Kernel,
    lut: &Lut,
    args: &Args,
    score: &F,
) -> (took: u128)
    requires
        call_requires(*score, (k, lut, args)),
    ensures
        clocked(took),
        exists|results: Seq<u32>| #[trigger] iterated::<F>(*score, k, *lut, *args, results),
{
    let start = Instant::now();
    let ghost mut results: Seq<u32> = seq![];
    let mut iter: usize = 0;
    while iter < ITERS
        invariant
            iter <= ITERS,
            call_requires(*score, (k, lut, args)),
            results.len() == iter,
            forall|i: int|
                0 <= i < results.len() ==> call_ensures(
                    *score,
                    (k, lut, args),
                    #[trigger] results[i],
                ),
        decreases ITERS - iter,
    {
        let s: u32 = score(k, lut, args);
        let _kept: u32 = std::hint::black_box(s);
        proof {
            results = results.push(s);
        }
        iter += 1;
    }
    let passed = start.elapsed();
    let took: u128 = passed.as_nanos();
    assert(call_ensures(Instant::elapsed, (&start,), passed));
    assert(call_ensures(std::time::Duration::as_nanos, (&passed,), took));
    assert(iterated::<F>(*score, k, *lut, *args, results));
    took
}

/// `n` is a time taken by one repetition of the runner's kernel `k` on the
/// probe.
pub open spec fn sampled<F: Fn(Kernel, &Lut, &Args) -> u32>(
    score: F,
    k: Kernel,
    p: Probe,
    n: u128,
) -> bool {
    exists|args: Args|
        p.poses(args) && #[trigger] call_ensures(
            time_once::<F>,
            (k, &p.table(), &args, &score),
            n,
        )
}

/// `m` is the smallest of [`REPS`] repetitions of the runner's kernel `k` on
/// the probe.
pub open spec fn fastest_repetition<F: Fn(Kernel, &Lut, &Args) -> u32>(
    score: F,
    k: Kernel,
    p: Probe,
    m: u128,
) -> bool {
    exists|samples: Seq<u128>| #[trigger]
        is_least(samples, m) && samples.len() == REPS && forall|i: int|
            0 <= i < samples.len() ==> sampled::<F>(score, k, p, #[trigger] samples[i])
}

/// Each timing is the fastest repetition of the kernel it stands for.
pub open spec fn timed_for<F: Fn(Kernel, &Lut, &Args) -> u32>(
    score: F,
    kernels: Seq<Kernel>,
    p: Probe,
    timings: Seq<u128>,
) -> bool {
    &&& timings.len() == kernels.len()
    &&& forall|i: int|
        0 <= i < timings.len() ==> fastest_repetition::<F>(
            score,
            kernels[i],
            p,
            #[trigger] timings[i],
        )
}

/// The fastest repetition of each kernel on the probe, in nanoseconds, with
/// the kernels' repetitions interleaved.
fn time_kernels<F: Fn(Kernel, &Lut, &Args) -> u32>(
    kernels: &[Kernel],
    probe: &Probe,
    score: &F,
) -> (best: Vec<u128>)
    requires
        forall|i: int, args: Args|
            0 <= i < kernels@.len() && #[trigger] probe.poses(args) ==> call_requires(
                *score,
                (#[trigger] kernels@[i], &probe.table(), &args),
            ),
    ensures
        timed_for::<F>(*score, kernels@, *probe, best@),
{
    let args = probe.args();
    let lut = probe.lut();
    let n: usize = kernels.len();
    let mut samples: Vec<Vec<u128>> = Vec::new();
    let mut i: usize = 0;
    while i < n
        invariant
            i <= n,
            samples@.len() == i,
            forall|j: int| 0 <= j < i ==> (#[trigger] samples@[j])@.len() == 0,
        decreases n - i,
    {
        samples.push(Vec::new());
        i += 1;
    }
    let mut rep: usize = 0;
    while rep < REPS
        invariant
            rep <= REPS,
            n == kernels@.len(),
            samples@.len() == n,
            *lut == probe.table(),
            probe.poses(args),
            forall|i: int, args: Args|
                0 <= i < kernels@.len() && #[trigger] probe.poses(args) ==> call_requires(
                    *score,
                    (#[trigger] kernels@[i], &probe.table(), &args),
                ),
            forall|j: int| 0 <= j < n ==> (#[trigger] samples@[j])@.len() == rep,
            forall|j: int, r: int|
                0 <= j < n && 0 <= r < rep ==> sampled::<F>(
                    *score,
                    kernels@[j],
                    *probe,
                    #[trigger] samples@[j]@[r],
                ),
        decreases REPS - rep,
    {
        let mut i: usize = 0;
        while i < n
            invariant
                i <= n,
                n == kernels@.len(),
                samples@.len() == n,
                *lut == probe.table(),
                probe.poses(args),
                forall|i: int, args: Args|
                    0 <= i < kernels@.len() && #[trigger] probe.poses(args) ==> call_requires(
                        *score,
                        (#[trigger] kernels@[i], &probe.table(), &args),
                    ),
                forall|j: int| 0 <= j < i ==> (#[trigger] samples@[j])@.len() == rep + 1,
                forall|j: int| i <= j < n ==> (#[trigger] samples@[j])@.len() == rep,
                forall|j: int, r: int|
                    0 <= j < n && 0 <= r < samples@[j]@.len() ==> sampled::<F>(
                        *score,
                        kernels@[j],
                        *probe,
                        #[trigger] samples@[j]@[r],
                    ),
            decreases n - i,
        {
            let k: Kernel = kernels[i];
            assert(k == kernels@[i as int]);
            let took: u128 = time_once::<F>(k, lut, &args, score);
            assert(call_ensures(time_once::<F>, (k, &probe.table(), &args, score), took));
            assert(sampled::<F>(*score, k, *probe, took));
            let ghost before = samples@;
            samples[i].push(took);
            proof {
                assert(samples@ =~= before.update(i as int, samples@[i as int]));
                assert(samples@[i as int]@ =~= before[i as int]@.push(took));
            }
            i += 1;
        }
        rep += 1;
    }
    let mut best: Vec<u128> = Vec::new();
    let mut i: usize = 0;
    while i < n
        invariant
            i <= n,
            n == kernels@.len(),
            samples@.len() == n,
            best@.len() == i,
            forall|j: int| 0 <= j < n ==> (#[trigger] samples@[j])@.len() == REPS,
            forall|j: int, r: int|
                0 <= j < n && 0 <= r < REPS ==> sampled::<F>(
                    *score,
                    kernels@[j],
                    *probe,
                    #[trigger] samples@[j]@[r],
                ),
            forall|j: int|
                0 <= j < i ==> fastest_repetition::<F>(
                    *score,
                    kernels@[j],
                    *probe,
                    #[trigger] best@[j],
                ),
        decreases n - i,
    {
        assert(samples@[i as int]@.len() == REPS);
        let m: u128 = least(&samples[i]);
        assert(is_least(samples@[i as int]@, m));
        best.push(m);
        i += 1;
    }
    best
}

/// A small probe is far from the machine's limits.
proof fn lemma_probe_fits(dim: nat, nq: nat, n_tokens: nat)
    requires
        dim <= 256,
        nq <= 32,
        n_tokens <= 64,
    ensures
        nq * dim * 37 <= 303_104,
        n_tokens * dim * 97 <= 1_589_248,
        rows_up(nq, 16) * stride_of(dim) <= 8192,
{
    let rows = rows_up(nq, 16) as int;
    let stride = stride_of(dim) as int;
    assert(rows <= 32 && stride <= 256);
    assert(rows * stride <= 8192) by (nonlinear_arith)
        requires
            0 <= rows <= 32,
            0 <= stride <= 256,
    ;
    assert(nq * dim <= 8192) by (nonlinear_arith)
        requires
            nq <= 32,
            dim <= 256,
    ;
    assert(n_tokens * dim <= 16384) by (nonlinear_arith)
        requires
            n_tokens <= 64,
            dim <= 256,
    ;
}

/// The probes of all [`shapes`], where they can be built.
#[verifier::spinoff_prover]
fn build_probes<A: Arith>() -> (r: Option<Vec<Probe>>)
    ensures
        r matches Some(v) && are_probes::<A>(v@),
{
    let list = probe_shapes();
    let mut probes: Vec<Probe> = Vec::new();
    let mut i: usize = 0;
    while i < 4
        invariant
            i <= 4,
            list@ == shapes(),
            probes@.len() == i,
            forall|j: int|
                0 <= j < i ==> {
                    &&& (#[trigger] probes@[j]).wf()
                    &&& probes@[j].vectorisable()
                    &&& probes@[j].built::<A>(
                        shapes()[j].0 as nat,
                        shapes()[j].1 as nat,
                        shapes()[j].2 as nat,
                        shapes()[j].3 as nat,
                    )
                },
        decreases 4 - i,
    {
        let (nbits, dim, nq, ntok) = list[i];
        proof {
            assert(i == 0 || i == 1 || i == 2 || i == 3);
            assert(probe_shaped(nbits as nat, dim as nat) && dim % 8 == 0 && nbits != 8);
            lemma_probe_fits(dim as nat, nq as nat, ntok as nat);
        }
        match Probe::new::<A>(nbits, dim, nq, ntok) {
            Some(p) => probes.push(p),
            None => return None,
        }
        i += 1;
    }
    Some(probes)
}

/// `r` is the fastest of the runner's candidates that passed the self-check:
/// each candidate was held against the scalar reference on every probe, and
/// of those kept each was timed on the first, its fastest repetition counting.
pub open spec fn measured<A: Arith, F: Fn(Kernel, &Lut, &Args) -> u32>(
    score: F,
    cands: Seq<Kernel>,
    r: Kernel,
) -> bool {
    exists|probes: Seq<Probe>, keep: Seq<bool>, timings: Seq<u128>| #[trigger]
        screened::<A, F>(score, cands, probes, keep) && #[trigger] won(
            kept(cands, keep),
            timings,
            r,
        ) && (kept(cands, keep).len() > 1 ==> timed_for::<F>(
            score,
            kept(cands, keep),
            probes[0],
            timings,
        ))
}

/// Verify the candidates of a runner, then time the survivors on the first
/// probe.
///
/// `fallback` is returned unmeasured if the probes cannot be built. If they
/// build and no candidate reproduces the reference, the result is
/// `Scalar(SelfCheckFailed)`: a wrong fast answer is worse than a slow right
/// one.
#[verifier::spinoff_prover]
pub fn measure_with<A: Arith, F: Fn(Kernel, &Lut, &Args) -> u32>(
    cands: &[Kernel],
    fallback: Kernel,
    score: F,
) -> (r: Kernel)
    requires
        forall|k: Kernel, lut: &Lut, args: &Args|
            lut.wf() && runnable(k, lut@, *args) ==> #[trigger] call_requires(
                score,
                (k, lut, args),
            ),
    ensures
        measured::<A, F>(score, cands@, r),
        cands@.len() == 0 ==> r == Kernel::Scalar(ScalarReason::SelfCheckFailed),
{
    let probes = match build_probes::<A>() {
        Some(probes) => probes,
        None => return fallback,
    };
    proof {
        assert forall|k: Kernel, j: int, args: Args|
            0 <= j < probes@.len() && #[trigger] probes@[j].poses(args) implies #[trigger] call_requires(
            score,
            (k, &probes@[j].table(), &args),
        ) by {
            assert(probes@[j].wf() && probes@[j].vectorisable());
            probes@[j].lemma_poses(args);
        }
    }
    let verified = screen::<A, F>(cands, &probes, &score);
    let ghost mut keep: Seq<bool> = seq![];
    proof {
        keep = choose|keep: Seq<bool>|
            keep.len() == cands@.len() && verified@ == #[trigger] kept(cands@, keep) && forall|
                i: int,
            |
                0 <= i < keep.len() ==> judged::<A, F>(
                    score,
                    cands@[i],
                    probes@,
                    #[trigger] keep[i],
                );
        assert(screened::<A, F>(score, cands@, probes@, keep));
    }
    let timings: Vec<u128> = if verified.len() > 1 {
        time_kernels::<F>(&verified, &probes[0], &score)
    } else {
        Vec::new()
    };
    let r: Kernel = winner(&verified, &timings);
    assert(won(kept(cands@, keep), timings@, r));
    assert(verified@.len() > 1 ==> timed_for::<F>(score, verified@, probes@[0], timings@));
    r
}

/// The fastest of the kernels that reproduce the scalar reference: verify the
/// candidates, then time the survivors.
#[verifier::spinoff_prover]
pub fn measure_fastest<A: Arith>(cands: &[Kernel], fallback: Kernel) -> (r: Kernel)
    ensures
        measured::<A, _>(run::<A>, cands@, r),
        cands@.len() == 0 ==> r == Kernel::Scalar(ScalarReason::SelfCheckFailed),
        r == Kernel::Scalar(ScalarReason::SelfCheckFailed) || cands@.contains(r),
        deterministic::<A>() && cands@.len() > 0 ==> cands@.contains(r),
{
    let r: Kernel = measure_with::<A, _>(cands, fallback, run::<A>);
    proof {
        let (probes, keep, timings) = choose|
            probes: Seq<Probe>,
            keep: Seq<bool>,
            timings: Seq<u128>,
        | #[trigger]
            screened::<A, _>(run::<A>, cands@, probes, keep) && #[trigger] won(
                kept(cands@, keep),
                timings,
                r,
            ) && (kept(cands@, keep).len() > 1 ==> timed_for(
                run::<A>,
                kept(cands@, keep),
                probes[0],
                timings,
            ));
        if deterministic::<A>() {
            lemma_screened::<A, _>(run::<A>, cands@, probes, keep);
        }
        lemma_kept_are_candidates(cands@, keep);
        let verified = kept(cands@, keep);
        if verified.len() > 1 {
            let w = choose|w: int| #[trigger] is_fastest(timings, w) && r == verified[w];
            assert(cands@.contains(verified[w]));
        } else if verified.len() == 1 {
            assert(cands@.contains(verified[0]));
        }
    }
    r
}

/// Find the fastest verified kernel for a CPU: the scalar reference where it
/// has no vector kernel, the first listed where calibration is switched off.
///
/// Every call measures anew and may find another. A [`Dispatch`] makes one
/// call and keeps what it found (see [`calibrated`]).
pub fn calibrate<A: Arith>(cpu: CpuFeatures, no_calibrate: bool) -> (r: Kernel)
    ensures
        executable(cpu).len() == 0 <==> r == Kernel::Scalar(ScalarReason::CpuUnsupported),
        executable(cpu).len() > 0 && no_calibrate ==> r == executable(cpu)[0],
        executable(cpu).len() > 0 && !no_calibrate ==> measured::<A, _>(
            run::<A>,
            executable(cpu),
            r,
        ),
        executable(cpu).len() > 0 ==> r == Kernel::Scalar(ScalarReason::SelfCheckFailed)
            || executable(cpu).contains(r),
        executable(cpu).len() > 0 && deterministic::<A>() ==> executable(cpu).contains(r),
        deterministic::<A>() ==> r != Kernel::Scalar(ScalarReason::SelfCheckFailed),
{
    let cands = cpu_kernels(cpu);
    proof {
        lemma_executable(cpu);
    }
    if cands.len() == 0 {
        Kernel::Scalar(ScalarReason::CpuUnsupported)
    } else if no_calibrate {
        assert(cands@.contains(cands@[0]));
        cands[0]
    } else {
        measure_fastest::<A>(&cands, cands[0])
    }
}

/// The fastest verified kernel, as a decision found it: the same at every
/// call.
pub fn calibrated(d: &Dispatch) -> (r: Kernel)
    ensures
        r == d@.choice,
        d@.kernels.len() == 0 <==> r == Kernel::Scalar(ScalarReason::CpuUnsupported),
        d@.kernels.len() > 0 ==> r == Kernel::Scalar(ScalarReason::SelfCheckFailed)
            || d@.kernels.contains(r),
{
    proof {
        use_type_invariant(d);
    }
    d.choice()
}

/// The kernel the calibration of a decision chose.
///
/// It is what dispatch picks under this decision absent an override; a table
/// with [`Lut::force_scalar`] or [`Lut::pin_kernel`] set, a dimension the
/// vector kernels do not accept, or a table with no nibble factorisation
/// still routes elsewhere. Calibration runs when the [`Dispatch`] is made:
/// make it at startup, and the cost lands before the first request. Asking
/// more than once is harmless: the decision is made once.
pub fn warm_up(d: &Dispatch) -> (r: Kernel)
    ensures
        r == d@.choice,
        d@.kernels.len() == 0 <==> r == Kernel::Scalar(ScalarReason::CpuUnsupported),
        d@.kernels.len() > 0 ==> r == Kernel::Scalar(ScalarReason::SelfCheckFailed)
            || d@.kernels.contains(r),
{
    calibrated(d)
}

} // verus!
