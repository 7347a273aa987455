//! What a prepared query holds, told over the components a host hands in.
use crate::error::Error;
use crate::float::{
    clamped, deterministic, is_max_abs, is_nan, magnitude, max_abs_is_unique, quantised, quotient,
    rounding, Arith, CODE_MAX,
};
use crate::lut::{lemma_code_is_unique, Lut};
use crate::packing::lemma_keys_at;
use crate::query::{padded_stride, row_quantised, rows_up, tile_index, PreparedQuery};
use crate::scorer::Scorer;
use crate::sums::{lemma_row_major, unplane};
use vstd::arithmetic::div_mod::lemma_fundamental_div_mod_converse;
use vstd::prelude::*;

verus! {

/// A query is prepared exactly where its rows are whole bytes of codes, at
/// most 256 dimensions, and its components are `n_tokens` rows of `dim`. What
/// is wrong is reported in that order: dimensions, bytes, components.
pub proof fn a_query_is_rows_of_whole_bytes<A: Arith>(
    lut: &Lut,
    nbits: usize,
    query: &[u32],
    n_tokens: usize,
    dim: usize,
    r: Result<PreparedQuery, Error>,
)
    requires
        call_ensures(Lut::nbits, (lut,), nbits),
        call_ensures(PreparedQuery::new::<A>, (lut, query, n_tokens, dim), r),
    ensures
        r is Ok <==> dim <= 256 && (dim * nbits) % 8 == 0 && query@.len() == n_tokens * dim,
        dim > 256 ==> r == Err::<PreparedQuery, Error>(Error::DimTooLarge(dim)),
        dim <= 256 && (dim * nbits) % 8 != 0 ==> r == Err::<PreparedQuery, Error>(
            Error::DimNotByteAligned { dim, nbits },
        ),
        dim <= 256 && (dim * nbits) % 8 == 0 && query@.len() != n_tokens * dim ==> r is Err
            && r->Err_0 is Shape,
        r matches Ok(q) ==> {
            &&& forall|n: usize| #[trigger]
                call_ensures(PreparedQuery::n_tokens, (&q,), n) ==> n == n_tokens
            &&& forall|n: usize| #[trigger] call_ensures(PreparedQuery::dim, (&q,), n) ==> n == dim
            &&& forall|c: &[i8]| #[trigger]
                call_ensures(PreparedQuery::codes, (&q,), c) ==> c@.len() == n_tokens * dim
            &&& forall|c: &[u32]| #[trigger]
                call_ensures(PreparedQuery::scales, (&q,), c) ==> c@.len() == n_tokens
            &&& forall|c: &[u32]| #[trigger]
                call_ensures(PreparedQuery::sqw, (&q,), c) ==> c@.len() == n_tokens
            &&& forall|c: &[u32]| #[trigger]
                call_ensures(PreparedQuery::zeros, (&q,), c) ==> c@.len() == n_tokens && forall|
                    i: int,
                |
                    0 <= i < n_tokens ==> #[trigger] c@[i] == 0
        },
{
}

/// The scale of every row is the row's largest component divided by 127, over
/// all its components; a row without a number other than zero has scale 0. The
/// row's factor is its scale times the table's.
pub proof fn a_row_is_scaled_by_its_largest_component<A: Arith>(
    lut: &Lut,
    query: &[u32],
    n_tokens: usize,
    dim: usize,
    p: PreparedQuery,
    scales: &[u32],
    sqw: &[u32],
    table_scale: u32,
    q: int,
) -> (m: u32)
    requires
        call_ensures(PreparedQuery::new::<A>, (lut, query, n_tokens, dim), Ok(p)),
        call_ensures(PreparedQuery::scales, (&p,), scales),
        call_ensures(PreparedQuery::sqw, (&p,), sqw),
        call_ensures(Lut::scale, (lut,), table_scale),
        0 <= q < n_tokens,
    ensures
        forall|d: int|
            0 <= d < dim && #[trigger] query@[q * dim + d] % 0x8000_0000 <= 0x7f80_0000
                ==> query@[q * dim + d] % 0x8000_0000 <= m,
        m == 0 || exists|d: int|
            0 <= d < dim && #[trigger] query@[q * dim + d] % 0x8000_0000 == m && m <= 0x7f80_0000,
        m == 0 ==> scales@[q] == 0,
        m != 0 ==> call_ensures(A::div, (m, 0x42fe_0000u32), scales@[q]),
        call_ensures(A::mul, (scales@[q], table_scale), sqw@[q]),
{
    let w = dim as int;
    let row = query@.subrange(q * w, q * w + w);
    let codes = p@.values.subrange(q * w, q * w + w);
    lemma_row_major(q, 0, w, n_tokens as int);
    assert(row_quantised::<A>(row, p@.scales[q], codes));
    let m = if is_max_abs(row, 0) {
        0
    } else {
        choose|m: u32| #[trigger] is_max_abs(row, m) && quotient::<A>(m, CODE_MAX, p@.scales[q])
    };
    assert(is_max_abs(row, m));
    assert forall|d: int|
        0 <= d < dim && #[trigger] query@[q * dim + d] % 0x8000_0000
            <= 0x7f80_0000 implies query@[q * dim + d] % 0x8000_0000 <= m by {
        assert(row[d] == query@[q * dim + d]);
        assert(!is_nan(row[d]));
    }
    if m != 0 {
        let d = choose|d: int|
            0 <= d < row.len() && !is_nan(#[trigger] row[d]) && magnitude(row[d]) == m;
        assert(query@[q * dim + d] % 0x8000_0000 == m);
    }
    assert(crate::float::product::<A>(p@.scales[q], lut@.scale, p@.sqw[q]));
    m
}

/// The code at every dimension of a row is the rounded quotient of the
/// component there and the row's scale, cut off at 127 in magnitude; in a row
/// without a number other than zero it is 0.
pub proof fn the_code_of_a_component_is_its_rounded_quotient<A: Arith>(
    lut: &Lut,
    query: &[u32],
    n_tokens: usize,
    dim: usize,
    p: PreparedQuery,
    scales: &[u32],
    codes: &[i8],
    q: int,
    d: int,
) -> (w: (u32, i32))
    requires
        call_ensures(PreparedQuery::new::<A>, (lut, query, n_tokens, dim), Ok(p)),
        call_ensures(PreparedQuery::scales, (&p,), scales),
        call_ensures(PreparedQuery::codes, (&p,), codes),
        0 <= q < n_tokens,
        0 <= d < dim,
    ensures
        (forall|e: int|
            0 <= e < dim ==> #[trigger] query@[q * dim + e] % 0x8000_0000 == 0 || query@[q * dim
                + e] % 0x8000_0000 > 0x7f80_0000) ==> codes@[q * dim + d] == 0,
        (exists|e: int|
            0 <= e < dim && 0 < #[trigger] query@[q * dim + e] % 0x8000_0000 <= 0x7f80_0000) ==> {
            &&& call_ensures(A::div, (query@[q * dim + d], scales@[q]), w.0)
            &&& call_ensures(A::round_to_i32, (w.0,), w.1)
            &&& -127 <= w.1 <= 127 ==> codes@[q * dim + d] == w.1
            &&& w.1 > 127 ==> codes@[q * dim + d] == 127
            &&& w.1 < -127 ==> codes@[q * dim + d] == -127
        },
{
    let w = dim as int;
    let row = query@.subrange(q * w, q * w + w);
    let part = p@.values.subrange(q * w, q * w + w);
    lemma_row_major(q, 0, w, n_tokens as int);
    lemma_row_major(q, d, w, n_tokens as int);
    assert(row_quantised::<A>(row, p@.scales[q], part));
    assert(part[d] == codes@[q * dim + d]);
    assert(row[d] == query@[q * dim + d]);
    if exists|e: int|
        0 <= e < dim && 0 < #[trigger] query@[q * dim + e] % 0x8000_0000 <= 0x7f80_0000 {
        let e = choose|e: int|
            0 <= e < dim && 0 < #[trigger] query@[q * dim + e] % 0x8000_0000 <= 0x7f80_0000;
        assert(row[e] == query@[q * dim + e]);
        assert(!is_nan(row[e]) && magnitude(row[e]) > 0);
        assert(!is_max_abs(row, 0));
        assert(quantised::<A>(row[d], p@.scales[q], part[d]));
        choose|r: u32, n: i32| #[trigger]
            quotient::<A>(row[d], p@.scales[q], r) && #[trigger] rounding::<A>(r, n) && part[d]
                == clamped(n as int)
    } else {
        if forall|e: int|
            0 <= e < dim ==> #[trigger] query@[q * dim + e] % 0x8000_0000 == 0 || query@[q * dim
                + e] % 0x8000_0000 > 0x7f80_0000 {
            assert forall|e: int| 0 <= e < row.len() && !is_nan(
                #[trigger] row[e],
            ) implies magnitude(row[e]) <= 0 by {
                assert(row[e] == query@[q * dim + e]);
                assert(query@[q * dim + e] % 0x8000_0000 == 0);
            }
            assert(is_max_abs(row, 0));
        }
        (0, 0)
    }
}

/// Rearranging the components of a row rearranges its codes the same way and
/// keeps its scale: row `q` of one query and row `p` of another, each
/// component of which stands in the other at `map` and at `back`. With one
/// query and one row for both, equal components have equal codes.
pub proof fn rearranging_a_row_rearranges_its_codes<A: Arith>(
    lut: &Lut,
    a: &[u32],
    b: &[u32],
    m: usize,
    n: usize,
    dim: usize,
    x: PreparedQuery,
    y: PreparedQuery,
    xs: &[u32],
    ys: &[u32],
    xc: &[i8],
    yc: &[i8],
    q: int,
    p: int,
    map: Seq<int>,
    back: Seq<int>,
)
    requires
        deterministic::<A>(),
        call_ensures(PreparedQuery::new::<A>, (lut, a, m, dim), Ok(x)),
        call_ensures(PreparedQuery::new::<A>, (lut, b, n, dim), Ok(y)),
        call_ensures(PreparedQuery::scales, (&x,), xs),
        call_ensures(PreparedQuery::scales, (&y,), ys),
        call_ensures(PreparedQuery::codes, (&x,), xc),
        call_ensures(PreparedQuery::codes, (&y,), yc),
        0 <= q < m,
        0 <= p < n,
        map.len() == dim,
        back.len() == dim,
        forall|d: int|
            0 <= d < dim ==> 0 <= #[trigger] map[d] < dim && a@[q * dim + d] == b@[p * dim
                + map[d]],
        forall|d: int|
            0 <= d < dim ==> 0 <= #[trigger] back[d] < dim && b@[p * dim + d] == a@[q * dim
                + back[d]],
    ensures
        xs@[q] == ys@[p],
        forall|d: int|
            0 <= d < dim ==> xc@[q * dim + d] == yc@[p * dim + #[trigger] map[d]],
{
    let w = dim as int;
    let r = a@.subrange(q * w, q * w + w);
    let s = b@.subrange(p * w, p * w + w);
    let u = x@.values.subrange(q * w, q * w + w);
    let v = y@.values.subrange(p * w, p * w + w);
    lemma_row_major(q, 0, w, m as int);
    lemma_row_major(p, 0, w, n as int);
    assert(row_quantised::<A>(r, x@.scales[q], u));
    assert(row_quantised::<A>(s, y@.scales[p], v));
    assert forall|k: u32| is_max_abs(r, k) == is_max_abs(s, k) by {
        if is_max_abs(r, k) {
            assert forall|d: int| 0 <= d < s.len() && !is_nan(#[trigger] s[d]) implies magnitude(
                s[d],
            ) <= k by {
                assert(0 <= back[d] < dim);
                assert(s[d] == r[back[d]]);
            }
            if k != 0 {
                let d = choose|d: int|
                    0 <= d < r.len() && !is_nan(#[trigger] r[d]) && magnitude(r[d]) == k;
                assert(0 <= map[d] < dim);
                assert(s[map[d]] == r[d]);
            }
        }
        if is_max_abs(s, k) {
            assert forall|d: int| 0 <= d < r.len() && !is_nan(#[trigger] r[d]) implies magnitude(
                r[d],
            ) <= k by {
                assert(0 <= map[d] < dim);
                assert(r[d] == s[map[d]]);
            }
            if k != 0 {
                let d = choose|d: int|
                    0 <= d < s.len() && !is_nan(#[trigger] s[d]) && magnitude(s[d]) == k;
                assert(0 <= back[d] < dim);
                assert(r[back[d]] == s[d]);
            }
        }
    }
    assert(is_max_abs(r, 0) == is_max_abs(s, 0));
    if !is_max_abs(r, 0) {
        let k = choose|k: u32| #[trigger]
            is_max_abs(r, k) && quotient::<A>(k, CODE_MAX, x@.scales[q]);
        let l = choose|k: u32| #[trigger]
            is_max_abs(s, k) && quotient::<A>(k, CODE_MAX, y@.scales[p]);
        assert(is_max_abs(s, k));
        max_abs_is_unique(s, k, l);
    }
    assert forall|d: int| 0 <= d < dim implies xc@[q * dim + d] == yc@[p * dim
        + #[trigger] map[d]] by {
        let e = map[d];
        assert(r[d] == a@[q * dim + d]);
        assert(s[e] == b@[p * dim + e]);
        assert(u[d] == xc@[q * dim + d]);
        assert(v[e] == yc@[p * dim + e]);
        if !is_max_abs(r, 0) {
            assert(quantised::<A>(r[d], x@.scales[q], u[d]));
            assert(quantised::<A>(s[e], y@.scales[p], v[e]));
            lemma_code_is_unique::<A>(r[d], x@.scales[q], u[d], v[e]);
        }
    }
}

/// The padded stride is the least multiple of 64 that holds the dimension.
pub proof fn the_padded_stride_is_the_least_that_holds_the_row(dim: usize, r: usize)
    requires
        call_ensures(padded_stride, (dim,), r),
    ensures
        r % 64 == 0,
        dim <= r < dim + 64,
{
}

/// Plane `k` of a row holds, at byte `i`, the code of dimension `i * kpb + k`,
/// and the lanes past the dimension are zero: at any row, byte and key.
pub proof fn planes_hold_the_codes_key_by_key<A: Arith>(
    lut: &Lut,
    query: &[u32],
    n_tokens: usize,
    dim: usize,
    p: PreparedQuery,
    nbits: usize,
    stride: usize,
    codes: &[i8],
    planes: &[i8],
    kpb: int,
    q: int,
    i: int,
    k: int,
    pad: int,
)
    requires
        call_ensures(PreparedQuery::new::<A>, (lut, query, n_tokens, dim), Ok(p)),
        call_ensures(Lut::nbits, (lut,), nbits),
        call_ensures(PreparedQuery::stride, (&p,), stride),
        call_ensures(PreparedQuery::codes, (&p,), codes),
        call_ensures(PreparedQuery::planes, (&p,), planes),
        kpb * nbits == 8,
        0 <= q < n_tokens,
        0 <= k < kpb,
        0 <= i < dim as int / kpb,
    ensures
        stride % 64 == 0,
        dim <= stride < dim + 64,
        planes@.len() == n_tokens * stride,
        planes@[q * stride + k * (dim as int / kpb) + i] == codes@[q * dim + i * kpb + k],
        dim <= pad < stride ==> planes@[q * stride + pad] == 0,
{
    lemma_kpb(p@.nbits, nbits as nat, kpb);
    let pdim = dim as int / kpb;
    let at = k * pdim + i;
    lemma_row_major(k, i, pdim, kpb);
    lemma_fundamental_div_mod_converse(at, pdim, k, i);
    assert(kpb * pdim == p@.dim);
    assert(p@.plane(q, at) == p@.value(q, unplane(at, kpb, pdim)));
    if dim <= pad < stride {
        assert(p@.plane(q, pad) == 0);
    }
    assert(q * stride + k * pdim + i == q * stride + at);
    assert(q * dim + (i * kpb + k) == q * dim + i * kpb + k);
}

/// `8 / nbits` is the number of keys that fill a byte.
proof fn lemma_kpb(stored: nat, nbits: nat, kpb: int)
    requires
        stored == nbits,
        nbits == 1 || nbits == 2 || nbits == 4 || nbits == 8,
        kpb * nbits == 8,
    ensures
        kpb == (8nat / nbits) as int,
        kpb > 0,
{
    lemma_keys_at(nbits);
    if nbits == 1 {
        assert(kpb * nbits == kpb);
    } else if nbits == 2 {
        assert(kpb * nbits == 2 * kpb);
    } else if nbits == 4 {
        assert(kpb * nbits == 4 * kpb);
    } else {
        assert(kpb * nbits == 8 * kpb);
    }
}

/// The tiles and the row pairs hold what the planes hold: a tile is 16 rows in
/// groups of four plane positions, each 128 above the code, a pair is two rows
/// in groups of eight; rows past the query are zero codes.
pub proof fn tiles_and_pairs_hold_what_the_planes_hold<A: Arith>(
    lut: &Lut,
    query: &[u32],
    n_tokens: usize,
    dim: usize,
    p: PreparedQuery,
    stride: usize,
    planes: &[i8],
    tiles: &[u8],
    pairs: &[i8],
    q: int,
    at: int,
)
    requires
        call_ensures(PreparedQuery::new::<A>, (lut, query, n_tokens, dim), Ok(p)),
        call_ensures(PreparedQuery::stride, (&p,), stride),
        call_ensures(PreparedQuery::planes, (&p,), planes),
        call_ensures(PreparedQuery::tiles_u8, (&p,), tiles),
        call_ensures(PreparedQuery::pairs, (&p,), pairs),
        0 <= q,
        0 <= at < stride,
    ensures
        tiles@.len() == (n_tokens + 15) / 16 * 16 * stride,
        pairs@.len() == (n_tokens + 1) / 2 * 2 * stride,
        q < (n_tokens + 15) / 16 * 16 ==> tiles@[(q / 16) * (16 * stride) + (at / 4) * 64 + (q % 16)
            * 4 + at % 4] == (if q < n_tokens {
            planes@[q * stride + at] + 128
        } else {
            128
        }),
        q < (n_tokens + 1) / 2 * 2 ==> pairs@[(q / 2) * (2 * stride) + (at / 8) * 16 + (q % 2) * 8
            + at % 8] == (if q < n_tokens {
            planes@[q * stride + at]
        } else {
            0i8
        }),
{
    let width = stride as int;
    if q < rows_up(p@.nq, 16) {
        assert(p@.tile(q, at) == (if q < n_tokens {
            p@.plane(q, at) + 128
        } else {
            128
        }));
        let t = q / 16;
        let g = at / 4;
        assert(tile_index(width, q, at) == t * (16 * width) + g * 64 + (q % 16) * 4 + at % 4) by {
            assert((t * (width / 4) + g) * 64 == t * (16 * width) + g * 64) by (nonlinear_arith)
                requires
                    width == width / 4 * 4,
            ;
        }
    }
    if q < rows_up(p@.nq, 2) {
        assert(p@.pair(q, at) == (if q < n_tokens {
            p@.plane(q, at)
        } else {
            0i8
        }));
    }
}

/// A query is bound to a table exactly where width, scale and weights are
/// those of the table it was prepared against; whatever is bound gives back
/// the table and the query it was bound from.
pub proof fn a_query_is_bound_to_tables_of_its_weights<A: Arith>(
    a: &Lut,
    b: &Lut,
    query: &[u32],
    n_tokens: usize,
    dim: usize,
    q: PreparedQuery,
    r: Result<Scorer, Error>,
    same: bool,
    an: usize,
    bn: usize,
    scale_a: u32,
    scale_b: u32,
    at: &[i8],
    bt: &[i8],
)
    requires
        call_ensures(PreparedQuery::new::<A>, (a, query, n_tokens, dim), Ok(q)),
        call_ensures(Scorer::try_new, (b, &q), r),
        call_ensures(PreparedQuery::matches, (&q, b), same),
        call_ensures(Lut::nbits, (a,), an),
        call_ensures(Lut::nbits, (b,), bn),
        call_ensures(Lut::scale, (a,), scale_a),
        call_ensures(Lut::scale, (b,), scale_b),
        call_ensures(Lut::fused_table, (a,), at),
        call_ensures(Lut::fused_table, (b,), bt),
    ensures
        r is Ok <==> an == bn && scale_a == scale_b && at@ == bt@,
        r is Err ==> r == Err::<Scorer, Error>(Error::LutMismatch),
        same == (r is Ok),
        r matches Ok(s) ==> {
            &&& forall|l: &Lut| #[trigger] call_ensures(Scorer::lut, (&s,), l) ==> *l == *b
            &&& forall|p: &PreparedQuery| #[trigger]
                call_ensures(Scorer::query, (&s,), p) ==> *p == q
        },
{
}

/// Binding without a check and with it bind the same, and a copy of a query is
/// the query.
pub proof fn binding_and_copying_keep_the_query(
    lut: &Lut,
    query: PreparedQuery,
    copy: PreparedQuery,
    s: Scorer,
    t: Scorer,
)
    requires
        call_ensures(<PreparedQuery as Clone>::clone, (&query,), copy),
        call_ensures(Scorer::new, (lut, &query), s),
        call_ensures(Scorer::try_new, (lut, &query), Ok(t)),
    ensures
        s@ == t@,
        forall|a: &[i8], b: &[i8]| #[trigger]
            call_ensures(PreparedQuery::codes, (&query,), a) && #[trigger] call_ensures(
                PreparedQuery::codes,
                (&copy,),
                b,
            ) ==> a@ == b@,
        forall|a: &[u32], b: &[u32]| #[trigger]
            call_ensures(PreparedQuery::scales, (&query,), a) && #[trigger] call_ensures(
                PreparedQuery::scales,
                (&copy,),
                b,
            ) ==> a@ == b@,
        forall|a: &[u32], b: &[u32]| #[trigger]
            call_ensures(PreparedQuery::sqw, (&query,), a) && #[trigger] call_ensures(
                PreparedQuery::sqw,
                (&copy,),
                b,
            ) ==> a@ == b@,
        forall|a: usize, b: usize| #[trigger]
            call_ensures(PreparedQuery::n_tokens, (&query,), a) && #[trigger] call_ensures(
                PreparedQuery::n_tokens,
                (&copy,),
                b,
            ) ==> a == b,
        forall|a: usize, b: usize| #[trigger]
            call_ensures(PreparedQuery::dim, (&query,), a) && #[trigger] call_ensures(
                PreparedQuery::dim,
                (&copy,),
                b,
            ) ==> a == b,
{
}

} // verus!
