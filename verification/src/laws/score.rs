//! What a score is, told over the slices a host hands in.
use crate::codes::Codes;
use crate::error::Error;
use crate::float::{addition, conversion, deterministic, greater, is_nan, product, Arith};
use crate::kernel::dispatch::Dispatch;
use crate::kernel::model::{
    advances, best_of, better, dim_products, dot_is_exact, evaluates, lemma_product_bound, scores, sums_to, Grid,
    Term,
};
use crate::kernel::{maxsim, run, scalar, Args, Kernel};
use crate::lut::Lut;
use crate::packing::lemma_keys_at;
use crate::query::PreparedQuery;
use crate::scorer::{DocView, Scorer};
use crate::sums::{lemma_row_major, lemma_sum_bound, sum};
use vstd::prelude::*;

verus! {

/// How the score of one query row and one token comes about.
pub struct Step {
    /// The dot product so far, before each dimension and after the last.
    pub partial: Seq<int>,
    /// The dot product.
    pub acc: i32,
    /// The dot product as a single.
    pub converted: u32,
    /// Times the row's factor.
    pub scaled: u32,
    /// Plus the centroid's score.
    pub moved: u32,
    /// Times the token's inverse norm.
    pub value: u32,
}

/// How a score comes about.
pub struct Working {
    /// For every query row, for every token.
    pub steps: Seq<Seq<Step>>,
    /// The best score of every row.
    pub best: Seq<u32>,
    /// The token every row's best is the score of; -1 if it is still minus
    /// infinity.
    pub first: Seq<int>,
    /// The sum of the bests, before each row and after the last.
    pub sums: Seq<u32>,
}

/// The partial sums of `f(0) + ... + f(n - 1)`.
proof fn lemma_partial(f: spec_fn(int) -> int, n: nat) -> (p: Seq<int>)
    ensures
        p.len() == n + 1,
        p[0] == 0,
        forall|d: int| 0 <= d < n ==> #[trigger] p[d + 1] == p[d] + f(d),
        p[n as int] == sum(f, n as int),
    decreases n,
{
    if n == 0 {
        seq![0int]
    } else {
        let before = lemma_partial(f, (n - 1) as nat);
        let p = before.push(before[n - 1] + f(n - 1));
        assert forall|d: int| 0 <= d < n implies #[trigger] p[d + 1] == p[d] + f(d) by {
            if d < n - 1 {
                assert(before[d + 1] == before[d] + f(d));
            }
        }
        p
    }
}

/// The working of one term.
proof fn lemma_step<A: Arith>(term: Term, f: spec_fn(int) -> int, n: nat, v: u32) -> (w: Step)
    requires
        evaluates::<A>(term, v),
        term.dot == sum(f, n as int),
        -0x7fff_ffff <= term.dot <= 0x7fff_ffff,
    ensures
        w.partial.len() == n + 1,
        w.partial[0] == 0,
        forall|d: int| 0 <= d < n ==> #[trigger] w.partial[d + 1] == w.partial[d] + f(d),
        w.acc == w.partial[n as int],
        call_ensures(A::from_i32, (w.acc,), w.converted),
        call_ensures(A::mul, (term.sqw, w.converted), w.scaled),
        call_ensures(A::add, (w.scaled, term.centroid), w.moved),
        call_ensures(A::mul, (w.moved, term.inv), w.value),
        w.value == v,
{
    let partial = lemma_partial(f, n);
    let (converted, scaled, moved) = choose|c: u32, p: u32, u: u32| #[trigger]
        conversion::<A>(term.dot as i32, c) && #[trigger] product::<A>(term.sqw, c, p)
            && #[trigger] addition::<A>(p, term.centroid, u) && product::<A>(u, term.inv, v);
    Step { partial, acc: term.dot as i32, converted, scaled, moved, value: v }
}

/// The values a row's best was taken over, and the token it is the score of.
proof fn lemma_row<A: Arith>(grid: Grid, q: int, n: nat, b: u32) -> (w: (Seq<u32>, int))
    requires
        best_of::<A>(grid, q, n, b),
    ensures
        w.0.len() == n,
        forall|t: int| 0 <= t < n ==> evaluates::<A>(grid(q, t), #[trigger] w.0[t]),
        !is_nan(b),
        forall|t: int| 0 <= t < n ==> !greater(#[trigger] w.0[t], b),
        -1 <= w.1 < n,
        w.1 == -1 ==> b == 0xff80_0000,
        w.1 >= 0 ==> b == w.0[w.1],
        forall|u: int| 0 <= u < w.1 ==> is_nan(#[trigger] w.0[u]) || greater(b, w.0[u]),
    decreases n,
{
    if n == 0 {
        (seq![], -1)
    } else {
        let m = (n - 1) as nat;
        let prev = choose|prev: u32|
            best_of::<A>(grid, q, m, prev) && #[trigger] advances::<A>(grid(q, n - 1), prev, b);
        let before = lemma_row::<A>(grid, q, m, prev);
        let s = choose|s: u32| #[trigger]
            evaluates::<A>(grid(q, n - 1), s) && b == better(prev, s);
        let vals = before.0.push(s);
        let first = if greater(s, prev) {
            n - 1
        } else {
            before.1
        };
        assert forall|t: int| 0 <= t < n implies evaluates::<A>(grid(q, t), #[trigger] vals[t])
            && !greater(vals[t], b) by {
            if t < m {
                assert(vals[t] == before.0[t]);
                assert(!greater(before.0[t], prev));
            }
        }
        assert forall|u: int| 0 <= u < first implies is_nan(#[trigger] vals[u]) || greater(
            b,
            vals[u],
        ) by {
            assert(vals[u] == before.0[u]);
            assert(!greater(before.0[u], prev));
        }
        (vals, first)
    }
}

/// The bests a score was added up from.
proof fn lemma_rows<A: Arith>(grid: Grid, m: nat, n: nat, s: u32) -> (w: (Seq<u32>, Seq<u32>))
    requires
        sums_to::<A>(grid, m, n, s),
    ensures
        w.0.len() == m,
        w.1.len() == m + 1,
        w.1[0] == 0x8000_0000,
        w.1[m as int] == s,
        forall|q: int| 0 <= q < m ==> best_of::<A>(grid, q, n, #[trigger] w.0[q]),
        forall|q: int|
            0 <= q < m ==> call_ensures(A::add, (w.1[q], #[trigger] w.0[q]), w.1[q + 1]),
    decreases m,
{
    if m == 0 {
        (seq![], seq![s])
    } else {
        let k = (m - 1) as nat;
        let (prev, b) = choose|prev: u32, b: u32|
            sums_to::<A>(grid, k, n, prev) && best_of::<A>(grid, m - 1, n, b)
                && #[trigger] addition::<A>(prev, b, s);
        let before = lemma_rows::<A>(grid, k, n, prev);
        let best = before.0.push(b);
        let sums = before.1.push(s);
        assert forall|q: int| 0 <= q < m implies best_of::<A>(grid, q, n, #[trigger] best[q])
            && call_ensures(A::add, (sums[q], best[q]), sums[q + 1]) by {
            if q < k {
                assert(best[q] == before.0[q]);
                assert(sums[q] == before.1[q]);
                assert(sums[q + 1] == before.1[q + 1]);
            } else {
                assert(addition::<A>(prev, b, s));
            }
        }
        (best, sums)
    }
}

/// The working of a score over a grid whose dot products are sums.
proof fn lemma_working<A: Arith>(
    grid: Grid,
    m: nat,
    n: nat,
    s: u32,
    products: spec_fn(int, int) -> spec_fn(int) -> int,
    dim: nat,
) -> (w: Working)
    requires
        m > 0,
        n > 0,
        scores::<A>(grid, m, n, s),
        forall|q: int, t: int|
            0 <= q < m && 0 <= t < n ==> (#[trigger] grid(q, t)).dot == sum(
                products(q, t),
                dim as int,
            ) && -0x7fff_ffff <= grid(q, t).dot <= 0x7fff_ffff,
    ensures
        w.sums.len() == m + 1,
        w.sums[0] == 0x8000_0000,
        w.sums[m as int] == s,
        w.best.len() == m,
        w.first.len() == m,
        w.steps.len() == m,
        forall|q: int|
            0 <= q < m ==> call_ensures(A::add, (w.sums[q], #[trigger] w.best[q]), w.sums[q + 1]),
        forall|q: int| 0 <= q < m ==> (#[trigger] w.steps[q]).len() == n,
        forall|q: int|
            0 <= q < m ==> {
                &&& !is_nan(#[trigger] w.best[q])
                &&& -1 <= w.first[q] < n
                &&& w.first[q] == -1 ==> w.best[q] == 0xff80_0000
                &&& w.first[q] >= 0 ==> w.best[q] == w.steps[q][w.first[q]].value
            },
        forall|q: int, t: int|
            0 <= q < m && 0 <= t < n ==> {
                &&& !greater((#[trigger] w.steps[q][t]).value, w.best[q])
                &&& t < w.first[q] ==> is_nan(w.steps[q][t].value) || greater(
                    w.best[q],
                    w.steps[q][t].value,
                )
            },
        forall|q: int, t: int|
            0 <= q < m && 0 <= t < n ==> {
                let step = #[trigger] w.steps[q][t];
                &&& step.partial.len() == dim + 1
                &&& step.partial[0] == 0
                &&& forall|d: int|
                    0 <= d < dim ==> #[trigger] step.partial[d + 1] == step.partial[d] + products(
                        q,
                        t,
                    )(d)
                &&& step.acc == step.partial[dim as int]
                &&& call_ensures(A::from_i32, (step.acc,), step.converted)
                &&& call_ensures(A::mul, (grid(q, t).sqw, step.converted), step.scaled)
                &&& call_ensures(A::add, (step.scaled, grid(q, t).centroid), step.moved)
                &&& call_ensures(A::mul, (step.moved, grid(q, t).inv), step.value)
            },
{
    let rows = lemma_rows::<A>(grid, m, n, s);
    let pick = |q: int|
        choose|v: (Seq<u32>, int)|
            {
                &&& #[trigger] v.0.len() == n
                &&& forall|t: int| 0 <= t < n ==> evaluates::<A>(grid(q, t), #[trigger] v.0[t])
                &&& forall|t: int| 0 <= t < n ==> !greater(#[trigger] v.0[t], rows.0[q])
                &&& -1 <= v.1 < n
                &&& v.1 == -1 ==> rows.0[q] == 0xff80_0000
                &&& v.1 >= 0 ==> rows.0[q] == v.0[v.1]
                &&& forall|u: int|
                    0 <= u < v.1 ==> is_nan(#[trigger] v.0[u]) || greater(rows.0[q], v.0[u])
            };
    let made = |q: int, t: int|
        choose|w: Step|
            {
                &&& w.partial.len() == dim + 1
                &&& w.partial[0] == 0
                &&& forall|d: int|
                    0 <= d < dim ==> #[trigger] w.partial[d + 1] == w.partial[d] + products(q, t)(d)
                &&& w.acc == w.partial[dim as int]
                &&& #[trigger] call_ensures(A::from_i32, (w.acc,), w.converted)
                &&& call_ensures(A::mul, (grid(q, t).sqw, w.converted), w.scaled)
                &&& call_ensures(A::add, (w.scaled, grid(q, t).centroid), w.moved)
                &&& call_ensures(A::mul, (w.moved, grid(q, t).inv), w.value)
                &&& w.value == pick(q).0[t]
            };
    let w = Working {
        steps: Seq::new(m, |q: int| Seq::new(n, |t: int| made(q, t))),
        best: rows.0,
        first: Seq::new(m, |q: int| pick(q).1),
        sums: rows.1,
    };
    assert forall|q: int| 0 <= q < m implies {
        let v = #[trigger] pick(q);
        &&& !is_nan(rows.0[q])
        &&& v.0.len() == n
        &&& forall|t: int| 0 <= t < n ==> evaluates::<A>(grid(q, t), #[trigger] v.0[t])
        &&& forall|t: int| 0 <= t < n ==> !greater(#[trigger] v.0[t], rows.0[q])
        &&& -1 <= v.1 < n
        &&& v.1 == -1 ==> rows.0[q] == 0xff80_0000
        &&& v.1 >= 0 ==> rows.0[q] == v.0[v.1]
        &&& forall|u: int| 0 <= u < v.1 ==> is_nan(#[trigger] v.0[u]) || greater(rows.0[q], v.0[u])
    } by {
        assert(best_of::<A>(grid, q, n, rows.0[q]));
        let v = lemma_row::<A>(grid, q, n, rows.0[q]);
        assert(v.0.len() == n);
    }
    assert forall|q: int, t: int| 0 <= q < m && 0 <= t < n implies {
        let step = #[trigger] made(q, t);
        &&& step.partial.len() == dim + 1
        &&& step.partial[0] == 0
        &&& forall|d: int|
            0 <= d < dim ==> #[trigger] step.partial[d + 1] == step.partial[d] + products(q, t)(d)
        &&& step.acc == step.partial[dim as int]
        &&& call_ensures(A::from_i32, (step.acc,), step.converted)
        &&& call_ensures(A::mul, (grid(q, t).sqw, step.converted), step.scaled)
        &&& call_ensures(A::add, (step.scaled, grid(q, t).centroid), step.moved)
        &&& call_ensures(A::mul, (step.moved, grid(q, t).inv), step.value)
        &&& step.value == pick(q).0[t]
    } by {
        let v = pick(q);
        assert(evaluates::<A>(grid(q, t), v.0[t]));
        let step = lemma_step::<A>(grid(q, t), products(q, t), dim, v.0[t]);
        assert(call_ensures(A::from_i32, (step.acc,), step.converted));
    }
    assert forall|q: int, t: int| 0 <= q < m && 0 <= t < n implies #[trigger] w.steps[q][t] == made(
        q,
        t,
    ) by {}
    assert forall|q: int| 0 <= q < m implies {
        &&& !is_nan(#[trigger] w.best[q])
        &&& -1 <= w.first[q] < n
        &&& w.first[q] == -1 ==> w.best[q] == 0xff80_0000
        &&& w.first[q] >= 0 ==> w.best[q] == w.steps[q][w.first[q]].value
    } by {
        let v = pick(q);
        assert(w.first[q] == v.1);
        if v.1 >= 0 {
            assert(w.steps[q][v.1] == made(q, v.1));
        }
    }
    assert forall|q: int, t: int| 0 <= q < m && 0 <= t < n implies {
        &&& !greater((#[trigger] w.steps[q][t]).value, w.best[q])
        &&& t < w.first[q] ==> is_nan(w.steps[q][t].value) || greater(
            w.best[q],
            w.steps[q][t].value,
        )
    } by {
        let v = pick(q);
        assert(w.steps[q][t] == made(q, t));
        assert(w.first[q] == v.1);
        assert(made(q, t).value == v.0[t]);
    }
    w
}

/// A score is what the host's arithmetic makes of the slices: for every query
/// row and every token the integer dot product of the row's codes and the
/// weights the token's bytes stand for, converted, times the row's factor,
/// plus the score of the token's centroid, times the token's inverse norm; for
/// every row the first of the tokens that no token beats; and the sum of these
/// over all rows, from the first to the last, starting at `-0`.
#[verifier::spinoff_prover]
pub proof fn a_score_adds_up_the_best_token_of_every_row<A: Arith>(
    lut: &Lut,
    query: &PreparedQuery,
    bare: Scorer,
    s: Scorer,
    term: Option<(&[u32], usize)>,
    doc: DocView,
    d: Dispatch,
    r: Result<u32, Error>,
    nbits: usize,
    table: &[i8],
    dim: usize,
    nq: usize,
    codes: &[i8],
    sqw: &[u32],
) -> (w: Working)
    requires
        call_ensures(Lut::nbits, (lut,), nbits),
        call_ensures(Lut::fused_table, (lut,), table),
        call_ensures(PreparedQuery::dim, (query,), dim),
        call_ensures(PreparedQuery::n_tokens, (query,), nq),
        call_ensures(PreparedQuery::codes, (query,), codes),
        call_ensures(PreparedQuery::sqw, (query,), sqw),
        call_ensures(Scorer::try_new, (lut, query), Ok(bare)),
        term is None ==> s == bare,
        term matches Some((c, num)) ==> call_ensures(
            Scorer::with_centroid_term,
            (bare, c, num),
            Ok(s),
        ),
        call_ensures(Scorer::try_score::<A>, (&s, doc, &d), r),
        r is Ok,
    ensures
        nq == 0 || doc.n_tokens == 0 ==> r->Ok_0 == 0,
        nq > 0 && doc.n_tokens > 0 ==> {
            &&& w.sums.len() == nq + 1
            &&& w.sums[0] == 0x8000_0000
            &&& w.sums[nq as int] == r->Ok_0
            &&& w.best.len() == nq
            &&& w.first.len() == nq
            &&& w.steps.len() == nq
            &&& forall|q: int|
                0 <= q < nq ==> call_ensures(
                    A::add,
                    (w.sums[q], #[trigger] w.best[q]),
                    w.sums[q + 1],
                )
            &&& forall|q: int| 0 <= q < nq ==> (#[trigger] w.steps[q]).len() == doc.n_tokens
            &&& forall|q: int|
                0 <= q < nq ==> {
                    &&& !is_nan(#[trigger] w.best[q])
                    &&& -1 <= w.first[q] < doc.n_tokens
                    &&& w.first[q] == -1 ==> w.best[q] == 0xff80_0000
                    &&& w.first[q] >= 0 ==> w.best[q] == w.steps[q][w.first[q]].value
                }
            &&& forall|q: int, t: int|
                0 <= q < nq && 0 <= t < doc.n_tokens ==> {
                    &&& !greater((#[trigger] w.steps[q][t]).value, w.best[q])
                    &&& t < w.first[q] ==> is_nan(w.steps[q][t].value) || greater(
                        w.best[q],
                        w.steps[q][t].value,
                    )
                }
            &&& forall|q: int, t: int|
                0 <= q < nq && 0 <= t < doc.n_tokens ==> {
                    let step = #[trigger] w.steps[q][t];
                    &&& step.partial.len() == dim + 1
                    &&& step.partial[0] == 0
                    &&& forall|i: int|
                        0 <= i < dim ==> #[trigger] step.partial[i + 1] == step.partial[i]
                            + codes@[q * dim + i] * table@[doc.packed@[t * doc.row_stride + i / (
                        8nat / (nbits as nat)) as int] * (8nat / (nbits as nat)) + i % (8nat / (
                        nbits as nat)) as int]
                    &&& step.acc == step.partial[dim as int]
                    &&& call_ensures(A::from_i32, (step.acc,), step.converted)
                    &&& call_ensures(A::mul, (sqw@[q], step.converted), step.scaled)
                    &&& call_ensures(
                        A::add,
                        (
                            step.scaled,
                            match term {
                                None => 0u32,
                                Some((c, num)) => c@[(match doc.codes {
                                    Codes::Absent => 0int,
                                    Codes::U32(v) => v@[t] as int,
                                    Codes::I64(v) => v@[t] as int,
                                    Codes::Usize(v) => v@[t] as int,
                                }) * nq + q],
                            },
                        ),
                        step.moved,
                    )
                    &&& call_ensures(
                        A::mul,
                        (
                            step.moved,
                            match doc.inv_norms {
                                None => 0x3f80_0000u32,
                                Some(v) => v@[t],
                            },
                        ),
                        step.value,
                    )
                }
        },
{
    let v = s@;
    let grid = v.grid(doc);
    let products = |q: int, t: int|
        dim_products(lut@, query@, doc.packed@, doc.row_stride as int, q, t);
    if nq > 0 && doc.n_tokens > 0 {
        lemma_keys_at(lut@.nbits);
        assert forall|q: int, t: int| 0 <= q < nq && 0 <= t < doc.n_tokens implies (
        #[trigger] grid(q, t)).dot == sum(products(q, t), dim as int) && -0x7fff_ffff <= grid(
            q,
            t,
        ).dot <= 0x7fff_ffff by {
            let f = products(q, t);
            assert forall|i: int| 0 <= i < dim implies -16129 <= #[trigger] f(i) <= 16129 by {
                lemma_row_major(q, i, dim as int, nq as int);
                let kpb = lut@.kpb();
                let byte = doc.packed@[t * doc.row_stride + i / kpb];
                lemma_row_major(byte as int, i % kpb, kpb, 256);
                lemma_product_bound(
                    query@.value(q, i) as int,
                    lut@.weight(byte, i % kpb) as int,
                );
            }
            lemma_sum_bound(f, dim as int, 16129);
            assert(16129 * dim <= 16129 * 256);
        }
        lemma_working::<A>(
            grid,
            nq as nat,
            doc.n_tokens as nat,
            r->Ok_0,
            products,
            dim as nat,
        )
    } else {
        Working { steps: seq![], best: seq![], first: seq![], sums: seq![] }
    }
}

/// Whatever runs on them, the arguments of a kernel have the score their slices
/// say: see [`a_score_adds_up_the_best_token_of_every_row`].
#[verifier::spinoff_prover]
pub proof fn every_kernel_adds_up_the_best_token_of_every_row<A: Arith>(
    k: Kernel,
    d: Dispatch,
    lut: &Lut,
    args: &Args,
    x: u32,
    nbits: usize,
    table: &[i8],
    dim: usize,
    nq: usize,
    codes: &[i8],
    sqw: &[u32],
) -> (w: Working)
    requires
        call_ensures(Lut::nbits, (lut,), nbits),
        call_ensures(Lut::fused_table, (lut,), table),
        call_ensures(PreparedQuery::dim, (args.query,), dim),
        call_ensures(PreparedQuery::n_tokens, (args.query,), nq),
        call_ensures(PreparedQuery::codes, (args.query,), codes),
        call_ensures(PreparedQuery::sqw, (args.query,), sqw),
        args.wf(lut@),
        call_ensures(run::<A>, (k, lut, args), x) || call_ensures(maxsim::<A>, (lut, args, &d), x)
            || call_ensures(scalar::<A>, (lut, args), x),
    ensures
        nq == 0 || args.n_tokens == 0 ==> x == 0,
        nq > 0 && args.n_tokens > 0 ==> {
            &&& w.sums.len() == nq + 1
            &&& w.sums[0] == 0x8000_0000
            &&& w.sums[nq as int] == x
            &&& w.best.len() == nq
            &&& w.first.len() == nq
            &&& w.steps.len() == nq
            &&& forall|q: int|
                0 <= q < nq ==> call_ensures(
                    A::add,
                    (w.sums[q], #[trigger] w.best[q]),
                    w.sums[q + 1],
                )
            &&& forall|q: int| 0 <= q < nq ==> (#[trigger] w.steps[q]).len() == args.n_tokens
            &&& forall|q: int|
                0 <= q < nq ==> {
                    &&& !is_nan(#[trigger] w.best[q])
                    &&& -1 <= w.first[q] < args.n_tokens
                    &&& w.first[q] == -1 ==> w.best[q] == 0xff80_0000
                    &&& w.first[q] >= 0 ==> w.best[q] == w.steps[q][w.first[q]].value
                }
            &&& forall|q: int, t: int|
                0 <= q < nq && 0 <= t < args.n_tokens ==> {
                    &&& !greater((#[trigger] w.steps[q][t]).value, w.best[q])
                    &&& t < w.first[q] ==> is_nan(w.steps[q][t].value) || greater(
                        w.best[q],
                        w.steps[q][t].value,
                    )
                }
            &&& forall|q: int, t: int|
                0 <= q < nq && 0 <= t < args.n_tokens ==> {
                    let step = #[trigger] w.steps[q][t];
                    &&& step.partial.len() == dim + 1
                    &&& step.partial[0] == 0
                    &&& forall|i: int|
                        0 <= i < dim ==> #[trigger] step.partial[i + 1] == step.partial[i]
                            + codes@[q * dim + i] * table@[args.packed@[t * args.row_stride + i / (
                        8nat / (nbits as nat)) as int] * (8nat / (nbits as nat)) + i % (8nat / (
                        nbits as nat)) as int]
                    &&& step.acc == step.partial[dim as int]
                    &&& call_ensures(A::from_i32, (step.acc,), step.converted)
                    &&& call_ensures(A::mul, (sqw@[q], step.converted), step.scaled)
                    &&& call_ensures(
                        A::add,
                        (
                            step.scaled,
                            args.cdot@[(match args.codes {
                                Codes::Absent => 0int,
                                Codes::U32(v) => (v@[t] as usize) as int,
                                Codes::I64(v) => (v@[t] as usize) as int,
                                Codes::Usize(v) => v@[t] as int,
                            }) * args.cdot_stride + q],
                        ),
                        step.moved,
                    )
                    &&& call_ensures(
                        A::mul,
                        (
                            step.moved,
                            match args.inv_norms {
                                None => 0x3f80_0000u32,
                                Some(v) => v@[t],
                            },
                        ),
                        step.value,
                    )
                }
        },
{
    let grid = args.grid(lut@);
    let products = |q: int, t: int| args.products(lut@, q, t);
    if nq > 0 && args.n_tokens > 0 {
        lemma_keys_at(lut@.nbits);
        assert forall|q: int, t: int| 0 <= q < nq && 0 <= t < args.n_tokens implies (
        #[trigger] grid(q, t)).dot == sum(products(q, t), dim as int) && -0x7fff_ffff <= grid(
            q,
            t,
        ).dot <= 0x7fff_ffff by {
            dot_is_exact(*args, lut@, q, t);
        }
        lemma_working::<A>(grid, nq as nat, args.n_tokens as nat, x, products, dim as nat)
    } else {
        Working { steps: seq![], best: seq![], first: seq![], sums: seq![] }
    }
}

/// Scoring many documents scores each: slot `i` holds the bits that scoring
/// document `i` alone returns, checked or not, and there is a slot for each.
pub proof fn scoring_many_scores_each<A: Arith>(
    s: Scorer,
    docs: &[DocView],
    out: &mut [u32],
    d: Dispatch,
    c: Dispatch,
    i: int,
    x: u32,
    y: Result<u32, Error>,
)
    requires
        deterministic::<A>(),
        docs@.len() == old(out)@.len(),
        call_ensures(Scorer::score_many::<A>, (&s, docs, out, &d), ()),
        0 <= i < docs@.len(),
        call_ensures(Scorer::score::<A>, (&s, docs@[i], &c), x),
        call_ensures(Scorer::try_score::<A>, (&s, docs@[i], &c), y),
    ensures
        final(out)@.len() == docs@.len(),
        final(out)@[i] == x,
        y matches Ok(z) ==> z == x,
{
    assert(s@.scored::<A>(docs@[i], final(out)@[i]));
    assert(s@.scored::<A>(docs@[i], x));
}

} // verus!
