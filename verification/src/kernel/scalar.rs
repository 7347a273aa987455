//! The scalar reference.
use super::model::{
    best_of, lemma_product_bound, lemma_shape, lemma_weight_bound, total_score, unscored, Args,
};
use super::token::{fold_block, Token};
use crate::error::MAX_DIM;
use crate::float::{Arith, ZERO};
use crate::lut::Lut;
use crate::sums::{lemma_row_major, sum};
use vstd::prelude::*;

verus! {

/// The weights of token `t` in dimension order.
fn weights(lut: &Lut, a: &Args, t: usize) -> (w: [i8; MAX_DIM])
    requires
        a.wf(lut@),
        t < a.n_tokens,
    ensures
        forall|d: int| 0 <= d < a.query@.dim ==> #[trigger] w[d] == a.weight(lut@, t as int, d),
{
    proof {
        lemma_shape(*a, lut@);
    }
    let kpb: usize = lut.keys_per_byte();
    let pdim: usize = a.query.dim() / kpb;
    let row = a.row(lut, t);
    let mut w: [i8; MAX_DIM] = [0i8; 256];
    let mut i: usize = 0;
    while i < pdim
        invariant
            i <= pdim,
            a.wf(lut@),
            kpb == lut@.kpb(),
            1 <= kpb <= 8,
            pdim == a.query@.pdim(),
            row@.len() == pdim,
            kpb * pdim <= MAX_DIM,
            forall|j: int| 0 <= j < pdim ==> #[trigger] row@[j] == a.byte(t as int, j),
            forall|d: int|
                0 <= d < kpb * i ==> #[trigger] w[d] == a.weight(lut@, t as int, d),
        decreases pdim - i,
    {
        let part = lut.expand(row[i]);
        let mut k: usize = 0;
        while k < kpb
            invariant
                i < pdim,
                k <= kpb,
                kpb == lut@.kpb(),
                1 <= kpb <= 8,
                part@.len() == kpb,
                kpb * pdim <= MAX_DIM,
                row@.len() == pdim,
                row@[i as int] == a.byte(t as int, i as int),
                forall|j: int|
                    0 <= j < kpb ==> #[trigger] part@[j] == lut@.weight(row@[i as int], j),
                forall|d: int|
                    0 <= d < kpb * i + k ==> #[trigger] w[d] == a.weight(lut@, t as int, d),
            decreases kpb - k,
        {
            proof {
                lemma_row_major(i as int, k as int, kpb as int, pdim as int);
                assert(i * kpb == kpb * i && pdim * kpb == kpb * pdim) by (nonlinear_arith);
                assert(part@[k as int] == lut@.weight(row@[i as int], k as int));
            }
            w[i * kpb + k] = part[k];
            k += 1;
        }
        assert(kpb * i + kpb == kpb * (i + 1)) by (nonlinear_arith);
        i += 1;
    }
    w
}

/// The dot product of query row `qi` and a token's weights in dimension order.
fn row_dot(a: &Args, lut: &Lut, t: usize, w: &[i8; MAX_DIM], qi: usize) -> (acc: i32)
    requires
        a.wf(lut@),
        t < a.n_tokens,
        qi < a.query@.nq,
        forall|d: int| 0 <= d < a.query@.dim ==> #[trigger] w[d] == a.weight(lut@, t as int, d),
    ensures
        acc == a.dot(lut@, qi as int, t as int),
{
    proof {
        lemma_shape(*a, lut@);
    }
    let q = a.query;
    let nq: usize = q.n_tokens();
    let dim: usize = q.dim();
    let qv = q.codes();
    let len: usize = qv.len();
    let ghost f = a.products(lut@, qi as int, t as int);
    let mut acc: i32 = 0;
    let mut d: usize = 0;
    while d < dim
        invariant
            d <= dim <= 256,
            a.wf(lut@),
            dim == a.query@.dim,
            nq == a.query@.nq,
            qi < nq,
            a.query@.wf(),
            qv@ == a.query@.values,
            len == qv@.len(),
            f == a.products(lut@, qi as int, t as int),
            forall|j: int| 0 <= j < dim ==> #[trigger] w[j] == a.weight(lut@, t as int, j),
            acc == sum(f, d as int),
            -16129 * d <= acc <= 16129 * d,
        decreases dim - d,
    {
        proof {
            lemma_row_major(qi as int, d as int, dim as int, nq as int);
            lemma_weight_bound(*a, lut@, t as int, d as int);
            let x = a.query@.values[qi * dim + d];
            assert(-127 <= x <= 127);
            assert(x == a.query@.value(qi as int, d as int));
            lemma_product_bound(x as int, w[d as int] as int);
            assert(f(d as int) == x * w[d as int]);
        }
        acc = acc + qv[qi * dim + d] as i32 * w[d] as i32;
        d += 1;
    }
    acc
}

/// Scalar reference. Doc-token-outer: expand each stored token's bytes to
/// int8 weights once, amortised over all query rows.
pub fn scalar<A: Arith>(lut: &Lut, a: &Args) -> (s: u32)
    requires
        a.wf(lut@),
    ensures
        a.scored::<A>(lut@, s),
{
    let nq: usize = a.query.n_tokens();
    if nq == 0 || a.n_tokens == 0 {
        return ZERO;
    }
    let ghost grid = a.grid(lut@);
    let mut best: Vec<u32> = unscored(nq);
    let mut t: usize = 0;
    while t < a.n_tokens
        invariant
            a.wf(lut@),
            grid == a.grid(lut@),
            nq == a.query@.nq,
            t <= a.n_tokens,
            best@.len() == nq,
            forall|q: int| 0 <= q < nq ==> best_of::<A>(grid, q, t as nat, #[trigger] best@[q]),
        decreases a.n_tokens - t,
    {
        let w: [i8; MAX_DIM] = weights(lut, a, t);
        assert(a.reaches(t as int));
        let token = Token { w, crow: a.crow(t), inv: a.inv(t) };
        let mut qi: usize = 0;
        while qi < nq
            invariant
                a.wf(lut@),
                grid == a.grid(lut@),
                nq == a.query@.nq,
                t < a.n_tokens,
                qi <= nq,
                best@.len() == nq,
                token.w == w,
                forall|d: int|
                    0 <= d < a.query@.dim ==> #[trigger] w[d] == a.weight(lut@, t as int, d),
                token.crow@.len() == nq,
                forall|q: int|
                    0 <= q < nq ==> #[trigger] token.crow@[q] == a.centroid(q, t as int),
                token.inv == a.inverse(t as int),
                forall|q: int|
                    0 <= q < qi ==> best_of::<A>(grid, q, (t + 1) as nat, #[trigger] best@[q]),
                forall|q: int|
                    qi <= q < nq ==> best_of::<A>(grid, q, t as nat, #[trigger] best@[q]),
            decreases nq - qi,
        {
            let acc: [i32; 1] = [row_dot(a, lut, t, &w, qi)];
            fold_block::<A>(a, Ghost(lut@), t, &token, &acc, qi, &mut best);
            qi += 1;
        }
        t += 1;
    }
    total_score::<A>(&best, Ghost(grid), Ghost(a.n_tokens as nat))
}

} // verus!
