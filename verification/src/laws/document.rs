//! What a document must be and what of it counts, told over its slices.
use crate::codes::Codes;
use crate::error::Error;
use crate::float::{
    addition, adds_numbers, alike, conversion, deterministic, product, Arith, NEG_ZERO,
};
use crate::kernel::dispatch::Dispatch;
use crate::kernel::model::{
    advances, best_of, better, dim_products, evaluates, maps_into, score_is_one_number, score_is_unique, scores, sums_to, Grid,
    Term,
};
use crate::kernel::Args;
use crate::lut::Lut;
use crate::packing::lemma_keys_at;
use crate::query::{rows_are_quantised_apart, PreparedQuery};
use crate::scorer::{first_stray, DocView, Scorer, ScorerView};
use crate::sums::{lemma_row_major, lemma_sum_eq};
use vstd::prelude::*;

verus! {

/// The id of a token is the element its slice holds, for every element that
/// is an index, and names one of `n` centroids exactly where it is below `n`
/// and not negative. The same ids stored in another width are the same.
pub proof fn an_id_is_the_element_stored(c: Codes, t: usize, n: usize, id: usize, ok: bool, len: Option<usize>)
    requires
        call_ensures(Codes::id, (&c, t), id),
        call_ensures(Codes::in_range, (&c, t, n), ok),
        call_ensures(Codes::len, (&c,), len),
    ensures
        c matches Codes::U32(s) ==> (s@[t as int] <= usize::MAX ==> id == s@[t as int]) && (ok
            <==> s@[t as int] < n) && len is Some && len->Some_0 == s@.len(),
        c matches Codes::I64(s) ==> (0 <= s@[t as int] <= usize::MAX ==> id == s@[t as int]) && (ok
            <==> 0 <= s@[t as int] < n) && len is Some && len->Some_0 == s@.len(),
        c matches Codes::Usize(s) ==> id == s@[t as int] && (ok <==> s@[t as int] < n)
            && len is Some && len->Some_0 == s@.len(),
        c is Absent ==> id == 0 && len is None,
{
}

/// A kernel reads token `t` as the `row_stride` bytes from `t * row_stride`
/// on, its inverse norm as element `t`, and its centroid scores as those from
/// its id times the stride on.
pub proof fn a_kernel_reads_a_token_at_its_place(
    args: &Args,
    lut: &Lut,
    t: usize,
    row: &[u8],
    inv: u32,
    crow: &[u32],
    nq: usize,
    dim: usize,
    kpb: usize,
)
    requires
        call_ensures(Args::row, (args, lut, t), row),
        call_ensures(Args::inv, (args, t), inv),
        call_ensures(Args::crow, (args, t), crow),
        call_ensures(PreparedQuery::n_tokens, (args.query,), nq),
        call_ensures(PreparedQuery::dim, (args.query,), dim),
        call_ensures(Lut::keys_per_byte, (lut,), kpb),
        args.wf(lut@),
    ensures
        row@.len() == dim as nat / (kpb as nat),
        forall|i: int|
            0 <= i < row@.len() ==> #[trigger] row@[i] == args.packed@[t * args.row_stride + i],
        args.inv_norms is None ==> inv == 0x3f80_0000,
        args.inv_norms matches Some(v) ==> inv == v@[t as int],
        crow@.len() == nq,
        forall|q: int|
            0 <= q < nq ==> #[trigger] crow@[q] == args.cdot@[(match args.codes {
                Codes::Absent => 0int,
                Codes::U32(v) => (v@[t as int] as usize) as int,
                Codes::I64(v) => (v@[t as int] as usize) as int,
                Codes::Usize(v) => v@[t as int] as int,
            }) * args.cdot_stride + q],
{
    lemma_keys_at(lut@.nbits);
}

/// The first token whose id names no centroid, where there is one.
proof fn lemma_stray(codes: Codes, n: int, num: nat, t: int)
    requires
        0 <= t,
    ensures
        first_stray(codes, n, num, t) is None <==> forall|u: int|
            t <= u < n ==> 0 <= #[trigger] codes.value(u) < num,
        first_stray(codes, n, num, t) matches Some(s) ==> t <= s < n && !(0 <= codes.value(s)
            < num) && forall|u: int| t <= u < s ==> 0 <= #[trigger] codes.value(u) < num,
    decreases n - t,
{
    if t < n {
        lemma_stray(codes, n, num, t + 1);
        if 0 <= codes.value(t) < num {
            if first_stray(codes, n, num, t + 1) is None {
                assert forall|u: int| t <= u < n implies 0 <= #[trigger] codes.value(u) < num by {}
            }
        }
    }
}

/// A document is scored exactly where it fits: its stride holds a row's bytes,
/// its bytes hold a stride for every token, it has one inverse norm for every
/// token or none, and, with a centroid term, one id for every token, each the
/// number of a centroid. A centroid term fits where it has one score for every
/// centroid and query row.
pub proof fn a_document_is_scored_where_it_fits<A: Arith>(
    lut: &Lut,
    query: &PreparedQuery,
    bare: Scorer,
    term: Option<(&[u32], usize)>,
    bound: Result<Scorer, Error>,
    doc: DocView,
    d: Dispatch,
    r: Result<u32, Error>,
    kpb: usize,
    dim: usize,
    nq: usize,
)
    requires
        call_ensures(Lut::keys_per_byte, (lut,), kpb),
        call_ensures(PreparedQuery::dim, (query,), dim),
        call_ensures(PreparedQuery::n_tokens, (query,), nq),
        call_ensures(Scorer::try_new, (lut, query), Ok(bare)),
        term is None ==> bound == Ok::<Scorer, Error>(bare),
        term matches Some((c, num)) ==> call_ensures(
            Scorer::with_centroid_term,
            (bare, c, num),
            bound,
        ),
        bound matches Ok(s) ==> call_ensures(Scorer::try_score::<A>, (&s, doc, &d), r),
    ensures
        term matches Some((c, num)) ==> (bound is Ok <==> c@.len() == num * nq) && (bound is Err
            ==> bound->Err_0 is Shape),
        bound is Ok ==> (r is Ok <==> {
            &&& doc.row_stride >= dim as nat / (kpb as nat)
            &&& doc.packed@.len() >= doc.n_tokens * doc.row_stride
            &&& doc.inv_norms matches Some(v) ==> v@.len() == doc.n_tokens
            &&& term matches Some((c, num)) ==> match doc.codes {
                Codes::Absent => false,
                Codes::U32(v) => v@.len() == doc.n_tokens && forall|t: int|
                    0 <= t < doc.n_tokens ==> #[trigger] v@[t] < num,
                Codes::I64(v) => v@.len() == doc.n_tokens && forall|t: int|
                    0 <= t < doc.n_tokens ==> 0 <= #[trigger] v@[t] < num,
                Codes::Usize(v) => v@.len() == doc.n_tokens && forall|t: int|
                    0 <= t < doc.n_tokens ==> #[trigger] v@[t] < num,
            }
        }),
        bound is Ok && r is Err ==> r->Err_0 is Shape,
{
    lemma_keys_at(lut@.nbits);
    if bound is Ok {
        let v = bound->Ok_0@;
        let n = doc.n_tokens as int;
        lemma_stray(doc.codes, n, v.num_centroids, 0);
        match doc.codes {
            Codes::Absent => {},
            Codes::U32(ids) => {
                assert forall|t: int| 0 <= t < n implies #[trigger] ids@[t] == doc.codes.value(
                    t,
                ) by {}
                if forall|u: int| 0 <= u < n ==> 0 <= #[trigger] doc.codes.value(u) < v.num_centroids {
                    assert forall|t: int| 0 <= t < n implies #[trigger] ids@[t] < v.num_centroids by {
                        assert(doc.codes.value(t) < v.num_centroids);
                    }
                } else if forall|t: int| 0 <= t < n ==> #[trigger] ids@[t] < v.num_centroids {
                    let u = choose|u: int|
                        0 <= u < n && !(0 <= #[trigger] doc.codes.value(u) < v.num_centroids);
                    assert(ids@[u] < v.num_centroids);
                }
            },
            Codes::I64(ids) => {
                if forall|u: int| 0 <= u < n ==> 0 <= #[trigger] doc.codes.value(u) < v.num_centroids {
                    assert forall|t: int| 0 <= t < n implies 0 <= #[trigger] ids@[t]
                        < v.num_centroids by {
                        assert(doc.codes.value(t) < v.num_centroids);
                    }
                } else if forall|t: int| 0 <= t < n ==> 0 <= #[trigger] ids@[t] < v.num_centroids {
                    let u = choose|u: int|
                        0 <= u < n && !(0 <= #[trigger] doc.codes.value(u) < v.num_centroids);
                    assert(ids@[u] < v.num_centroids);
                }
            },
            Codes::Usize(ids) => {
                if forall|u: int| 0 <= u < n ==> 0 <= #[trigger] doc.codes.value(u) < v.num_centroids {
                    assert forall|t: int| 0 <= t < n implies #[trigger] ids@[t] < v.num_centroids by {
                        assert(doc.codes.value(t) < v.num_centroids);
                    }
                } else if forall|t: int| 0 <= t < n ==> #[trigger] ids@[t] < v.num_centroids {
                    let u = choose|u: int|
                        0 <= u < n && !(0 <= #[trigger] doc.codes.value(u) < v.num_centroids);
                    assert(ids@[u] < v.num_centroids);
                }
            },
        }
    }
}

/// Rows with the same terms have the same best.
proof fn lemma_same_best<A: Arith>(g: Grid, q: int, h: Grid, p: int, n: nat, x: u32, y: u32)
    requires
        deterministic::<A>(),
        forall|t: int| 0 <= t < n ==> #[trigger] g(q, t) == h(p, t),
        best_of::<A>(g, q, n, x),
        best_of::<A>(h, p, n, y),
    ensures
        x == y,
    decreases n,
{
    if n > 0 {
        let m = (n - 1) as nat;
        let a = choose|prev: u32|
            best_of::<A>(g, q, m, prev) && #[trigger] advances::<A>(g(q, n - 1), prev, x);
        let b = choose|prev: u32|
            best_of::<A>(h, p, m, prev) && #[trigger] advances::<A>(h(p, n - 1), prev, y);
        lemma_same_best::<A>(g, q, h, p, m, a, b);
        assert(g(q, n - 1) == h(p, n - 1));
        let s = choose|s: u32| #[trigger] evaluates::<A>(g(q, n - 1), s) && x == better(a, s);
        let r = choose|s: u32| #[trigger] evaluates::<A>(h(p, n - 1), s) && y == better(b, s);
        lemma_same_value::<A>(g(q, n - 1), s, r);
    }
}

/// A term has one value under a deterministic arithmetic.
proof fn lemma_same_value<A: Arith>(term: Term, x: u32, y: u32)
    requires
        deterministic::<A>(),
        evaluates::<A>(term, x),
        evaluates::<A>(term, y),
    ensures
        x == y,
{
    let (f, p, u) = choose|f: u32, p: u32, u: u32| #[trigger]
        conversion::<A>(term.dot as i32, f) && #[trigger] product::<A>(term.sqw, f, p)
            && #[trigger] addition::<A>(p, term.centroid, u) && product::<A>(u, term.inv, x);
    let (g, r, v) = choose|f: u32, p: u32, u: u32| #[trigger]
        conversion::<A>(term.dot as i32, f) && #[trigger] product::<A>(term.sqw, f, p)
            && #[trigger] addition::<A>(p, term.centroid, u) && product::<A>(u, term.inv, y);
    assert(f == g);
    assert(p == r);
    assert(u == v);
}

/// Every query row counts. Take a query of `m` rows, a query of one row, and
/// the query of the `m` rows and that row; each with its own rows of the same
/// centroid term, or none. Scoring a document, the host's addition of the
/// first query's score and a row's best gives the third query's score, and
/// the addition of `-0` and the same best gives the second's.
#[verifier::spinoff_prover]
pub proof fn every_query_row_counts<A: Arith>(
    lut: &Lut,
    a: &[u32],
    b: &[u32],
    ab: &[u32],
    m: usize,
    k: usize,
    dim: usize,
    pa: PreparedQuery,
    pb: PreparedQuery,
    pab: PreparedQuery,
    num: usize,
    terms: Option<(&[u32], &[u32], &[u32])>,
    bare: (Scorer, Scorer, Scorer),
    s: (Scorer, Scorer, Scorer),
    doc: DocView,
    d: Dispatch,
    x: u32,
    y: u32,
    z: u32,
) -> (best: u32)
    requires
        deterministic::<A>(),
        m > 0,
        k == m + 1,
        doc.n_tokens > 0,
        ab@ == a@ + b@,
        call_ensures(PreparedQuery::new::<A>, (lut, a, m, dim), Ok(pa)),
        call_ensures(PreparedQuery::new::<A>, (lut, b, 1usize, dim), Ok(pb)),
        call_ensures(PreparedQuery::new::<A>, (lut, ab, k, dim), Ok(pab)),
        call_ensures(Scorer::try_new, (lut, &pa), Ok(bare.0)),
        call_ensures(Scorer::try_new, (lut, &pb), Ok(bare.1)),
        call_ensures(Scorer::try_new, (lut, &pab), Ok(bare.2)),
        terms is None ==> s == bare,
        terms matches Some((ca, cb, cab)) ==> {
            &&& call_ensures(Scorer::with_centroid_term, (bare.0, ca, num), Ok(s.0))
            &&& call_ensures(Scorer::with_centroid_term, (bare.1, cb, num), Ok(s.1))
            &&& call_ensures(Scorer::with_centroid_term, (bare.2, cab, num), Ok(s.2))
            &&& forall|id: int, q: int|
                0 <= id < num && 0 <= q < m ==> #[trigger] ca@[id * m + q] == cab@[id * k + q]
            &&& forall|id: int| 0 <= id < num ==> #[trigger] cb@[id] == cab@[id * k + m]
        },
        call_ensures(Scorer::try_score::<A>, (&s.0, doc, &d), Ok(x)),
        call_ensures(Scorer::try_score::<A>, (&s.1, doc, &d), Ok(y)),
        call_ensures(Scorer::try_score::<A>, (&s.2, doc, &d), Ok(z)),
    ensures
        call_ensures(A::add, (x, best), z),
        call_ensures(A::add, (0x8000_0000u32, best), y),
{
    let n = doc.n_tokens as nat;
    let ga = s.0@.grid(doc);
    let gb = s.1@.grid(doc);
    let gab = s.2@.grid(doc);
    let w = dim as int;
    assert(m * dim + 1 * dim == (m + 1) * dim) by (nonlinear_arith);
    rows_are_quantised_apart::<A>(pa@, pb@, pab@, lut@, a@, b@);
    lemma_keys_at(lut@.nbits);
    lemma_stray(doc.codes, n as int, num as nat, 0);
    assert forall|q: int, t: int| 0 <= q < m && 0 <= t < n implies #[trigger] gab(q, t) == ga(
        q,
        t,
    ) by {
        let f = dim_products(lut@, pab@, doc.packed@, doc.row_stride as int, q, t);
        let g = dim_products(lut@, pa@, doc.packed@, doc.row_stride as int, q, t);
        assert forall|i: int| 0 <= i < w implies #[trigger] f(i) == g(i) by {
            lemma_row_major(q, i, w, m as int);
            assert(pab@.values[q * w + i] == pa@.values[q * w + i]);
        }
        lemma_sum_eq(f, g, w);
        if let Some((ca, cb, cab)) = terms {
            let id = doc.codes.value(t);
            assert(0 <= id < num);
            assert(ca@[id * m + q] == cab@[id * k + q]);
        }
    }
    assert forall|t: int| 0 <= t < n implies #[trigger] gab(m as int, t) == gb(0, t) by {
        let f = dim_products(lut@, pab@, doc.packed@, doc.row_stride as int, m as int, t);
        let g = dim_products(lut@, pb@, doc.packed@, doc.row_stride as int, 0, t);
        assert forall|i: int| 0 <= i < w implies #[trigger] f(i) == g(i) by {
            lemma_row_major(m as int, i, w, k as int);
            assert(pab@.values[m * w + i] == pb@.values[i]);
            assert(0 * w + i == i);
        }
        lemma_sum_eq(f, g, w);
        if let Some((ca, cb, cab)) = terms {
            let id = doc.codes.value(t);
            assert(0 <= id < num);
            assert(cb@[id] == cab@[id * k + m]);
            assert(id * 1 + 0 == id);
        }
    }
    assert(sums_to::<A>(gab, (m + 1) as nat, n, z));
    let (prev, best) = choose|prev: u32, c: u32|
        sums_to::<A>(gab, m as nat, n, prev) && best_of::<A>(gab, m as int, n, c)
            && #[trigger] addition::<A>(prev, c, z);
    assert(scores::<A>(gab, m as nat, n, prev));
    score_is_unique::<A>(gab, ga, m as nat, n, prev, x);
    assert(sums_to::<A>(gb, 1, n, y));
    let (start, other) = choose|prev: u32, c: u32|
        sums_to::<A>(gb, 0, n, prev) && best_of::<A>(gb, 0, n, c) && #[trigger] addition::<A>(
            prev,
            c,
            y,
        );
    assert(start == NEG_ZERO);
    lemma_same_best::<A>(gab, m as int, gb, 0, n, best, other);
    best
}

/// Documents of the same tokens score the same number: tokens with the same
/// bytes, the same element of the inverse norms and the same centroid id, in
/// whatever order, however often each, with whatever padding, and with ids in
/// whatever width. In the same order they score the same bits.
#[verifier::spinoff_prover]
pub proof fn documents_of_the_same_tokens_score_the_same<A: Arith>(
    lut: &Lut,
    query: &PreparedQuery,
    bare: Scorer,
    s: Scorer,
    term: Option<(&[u32], usize)>,
    doc: DocView,
    other: DocView,
    d: Dispatch,
    x: u32,
    y: u32,
    kpb: usize,
    dim: usize,
    ids: Seq<int>,
    other_ids: Seq<int>,
    there: Seq<int>,
    back: Seq<int>,
)
    requires
        deterministic::<A>(),
        adds_numbers::<A>(),
        call_ensures(Lut::keys_per_byte, (lut,), kpb),
        call_ensures(PreparedQuery::dim, (query,), dim),
        call_ensures(Scorer::try_new, (lut, query), Ok(bare)),
        term is None ==> s == bare,
        term matches Some((c, num)) ==> call_ensures(
            Scorer::with_centroid_term,
            (bare, c, num),
            Ok(s),
        ),
        call_ensures(Scorer::try_score::<A>, (&s, doc, &d), Ok(x)),
        call_ensures(Scorer::try_score::<A>, (&s, other, &d), Ok(y)),
        there.len() == doc.n_tokens,
        back.len() == other.n_tokens,
        forall|t: int| 0 <= t < doc.n_tokens ==> 0 <= #[trigger] there[t] < other.n_tokens,
        forall|t: int| 0 <= t < other.n_tokens ==> 0 <= #[trigger] back[t] < doc.n_tokens,
        forall|t: int, i: int|
            0 <= t < doc.n_tokens && 0 <= i < dim as int / kpb as int ==> doc.packed@[t
                * doc.row_stride + i] == #[trigger] other.packed@[there[t] * other.row_stride + i],
        forall|t: int, i: int|
            0 <= t < other.n_tokens && 0 <= i < dim as int / kpb as int ==> other.packed@[t
                * other.row_stride + i] == #[trigger] doc.packed@[back[t] * doc.row_stride + i],
        doc.inv_norms is Some <==> other.inv_norms is Some,
        doc.inv_norms matches Some(v) ==> {
            &&& forall|t: int|
                0 <= t < doc.n_tokens ==> v@[t] == other.inv_norms->Some_0@[#[trigger] there[t]]
            &&& forall|t: int|
                0 <= t < other.n_tokens ==> other.inv_norms->Some_0@[t] == v@[#[trigger] back[t]]
        },
        term is Some ==> {
            &&& forall|t: int| 0 <= t < doc.n_tokens ==> ids[t] == other_ids[#[trigger] there[t]]
            &&& forall|t: int| 0 <= t < other.n_tokens ==> other_ids[t] == ids[#[trigger] back[t]]
            &&& forall|t: int|
                0 <= t < doc.n_tokens ==> #[trigger] ids[t] == (match doc.codes {
                    Codes::Absent => 0,
                    Codes::U32(v) => v@[t] as int,
                    Codes::I64(v) => v@[t] as int,
                    Codes::Usize(v) => v@[t] as int,
                })
            &&& forall|t: int|
                0 <= t < other.n_tokens ==> #[trigger] other_ids[t] == (match other.codes {
                    Codes::Absent => 0,
                    Codes::U32(v) => v@[t] as int,
                    Codes::I64(v) => v@[t] as int,
                    Codes::Usize(v) => v@[t] as int,
                })
        },
    ensures
        alike(x, y),
        doc.n_tokens == other.n_tokens && (forall|t: int|
            0 <= t < doc.n_tokens ==> #[trigger] there[t] == t) ==> x == y,
{
    let v = s@;
    let g = v.grid(doc);
    let h = v.grid(other);
    let nq = v.nq();
    let n = doc.n_tokens as nat;
    let k = other.n_tokens as nat;
    lemma_keys_at(lut@.nbits);
    assert forall|q: int, t: int| 0 <= q < nq && 0 <= t < n implies #[trigger] g(q, t) == h(
        q,
        there[t],
    ) by {
        let u = there[t];
        assert(0 <= u < k);
        assert forall|i: int| 0 <= i < query@.pdim() implies doc.packed@[t * doc.row_stride + i]
            == #[trigger] other.packed@[u * other.row_stride + i] by {}
        lemma_same_products(v, doc, other, q, t, u);
        if term is Some {
            assert(ids[t] == other_ids[u]);
            assert(doc.codes.value(t) == ids[t]);
            assert(other.codes.value(u) == other_ids[u]);
        }
    }
    assert forall|q: int, t: int| 0 <= q < nq && 0 <= t < k implies #[trigger] h(q, t) == g(
        q,
        back[t],
    ) by {
        let u = back[t];
        assert(0 <= u < n);
        assert forall|i: int| 0 <= i < query@.pdim() implies other.packed@[t * other.row_stride + i]
            == #[trigger] doc.packed@[u * doc.row_stride + i] by {}
        lemma_same_products(v, other, doc, q, t, u);
        if term is Some {
            assert(other_ids[t] == ids[u]);
            assert(other.codes.value(t) == other_ids[t]);
            assert(doc.codes.value(u) == ids[u]);
        }
    }
    assert(maps_into(g, n, h, k, nq, there));
    assert(maps_into(h, k, g, n, nq, back));
    score_is_one_number::<A>(g, n, h, k, nq, there, back, x, y);
    if n == k && (forall|t: int| 0 <= t < n ==> #[trigger] there[t] == t) {
        assert forall|q: int, t: int| 0 <= q < nq && 0 <= t < n implies #[trigger] g(q, t) == h(
            q,
            t,
        ) by {
            assert(there[t] == t);
        }
        score_is_unique::<A>(g, h, nq, n, x, y);
    }
}

/// Tokens of the same bytes have the same dot product with a query row.
proof fn lemma_same_products(v: ScorerView, doc: DocView, other: DocView, q: int, t: int, u: int)
    requires
        v.wf(),
        forall|i: int|
            0 <= i < v.query@.pdim() ==> doc.packed@[t * doc.row_stride + i]
                == #[trigger] other.packed@[u * other.row_stride + i],
    ensures
        v.term(doc, q, t).dot == v.term(other, q, u).dot,
{
    lemma_keys_at(v.lut@.nbits);
    let kpb = v.lut@.kpb();
    let pdim = v.query@.pdim();
    let f = dim_products(v.lut@, v.query@, doc.packed@, doc.row_stride as int, q, t);
    let g = dim_products(v.lut@, v.query@, other.packed@, other.row_stride as int, q, u);
    assert forall|d: int| 0 <= d < v.query@.dim implies #[trigger] f(d) == g(d) by {
        assert(0 <= d / kpb < pdim) by (nonlinear_arith)
            requires
                0 <= d < kpb * pdim,
                1 <= kpb,
        ;
        let i = d / kpb;
        assert(doc.packed@[t * doc.row_stride + i] == other.packed@[u * other.row_stride + i]);
    }
    lemma_sum_eq(f, g, v.query@.dim as int);
}

/// A document carries what it was given: attaching ids or inverse norms
/// changes nothing else.
pub proof fn a_document_carries_what_it_was_given(
    packed: &[u8],
    n_tokens: usize,
    row_stride: usize,
    ids: Codes,
    inv: &[u32],
    bare: DocView,
    coded: DocView,
    doc: DocView,
)
    requires
        call_ensures(DocView::new, (packed, n_tokens, row_stride), bare),
        call_ensures(DocView::codes, (bare, ids), coded),
        call_ensures(DocView::inv_norms, (coded, inv), doc),
    ensures
        bare.codes is Absent,
        bare.inv_norms is None,
        coded.inv_norms is None,
        coded.codes == ids,
        doc.packed@ == packed@,
        doc.n_tokens == n_tokens,
        doc.row_stride == row_stride,
        doc.codes == ids,
        doc.inv_norms is Some,
        doc.inv_norms->Some_0@ == inv@,
{
}

/// What a document is checked into is the document and the query it is scored
/// with: its bytes, its stride, its tokens, its inverse norms; with a centroid
/// term its ids and the term, without one no ids and a row of zeros.
pub proof fn a_checked_document_is_the_document(
    lut: &Lut,
    query: &PreparedQuery,
    bare: Scorer,
    s: Scorer,
    term: Option<(&[u32], usize)>,
    doc: DocView,
    args: Args,
    nq: usize,
)
    requires
        call_ensures(PreparedQuery::n_tokens, (query,), nq),
        call_ensures(Scorer::try_new, (lut, query), Ok(bare)),
        term is None ==> s == bare,
        term matches Some((c, num)) ==> call_ensures(
            Scorer::with_centroid_term,
            (bare, c, num),
            Ok(s),
        ),
        call_ensures(Scorer::validate, (&s, doc), Ok(args)),
    ensures
        *args.query == *query,
        args.packed@ == doc.packed@,
        args.row_stride == doc.row_stride,
        args.n_tokens == doc.n_tokens,
        args.inv_norms == doc.inv_norms,
        term matches Some((c, num)) ==> args.codes == doc.codes && args.cdot@ == c@
            && args.cdot_stride == nq,
        term is None ==> args.codes is Absent && args.cdot_stride == 0 && args.cdot@.len() == nq
            && forall|q: int| 0 <= q < nq ==> #[trigger] args.cdot@[q] == 0,
{
}

} // verus!
