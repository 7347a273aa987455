//! The 512-bit kernel.
//!
//! The expansion stays 128-bit `pshufb` (charged once per document token and
//! amortised over every query row); what moves to 512 bits is the part
//! charged per (query row, token). The dot uses `vpdpbusd` (unsigned by
//! signed) on `|w|` against `sign(w) * q`. There is no 512-bit `vpsignb`, so
//! the sign is applied with a mask: exactly the query lanes whose weight is
//! negative are negated. -128 never occurs on either side, so the negation
//! is exact.
use super::lanes::{
    abs_epi8, accumulates, dot4, dpbusd, lemma_accumulates_nothing, lemma_accumulates_roomy,
    lemma_accumulates_step, load, negate_where, reduce_add, signed, unsigned,
};
use super::model::{
    best_of, lemma_product_bound, lemma_shape, total_score, unscored, Args,
};
use super::token::{fold_block, lemma_plane_bound, lemma_plane_dot, products, Token};
use crate::float::{Arith, ZERO};
use crate::lut::Lut;
use crate::sums::{lemma_row_major, quad};
use vstd::prelude::*;

verus! {

/// The dot product of query row `qi` and a token, 64 plane positions at a
/// time; the last chunk reads past the dimension into zero padding.
fn row_dot(a: &Args, lut: &Lut, t: usize, token: &Token, qi: usize) -> (r: i32)
    requires
        a.wf(lut@),
        t < a.n_tokens,
        qi < a.query@.nq,
        token.carries(*a, lut@, t as int),
    ensures
        r == a.dot(lut@, qi as int, t as int),
{
    proof {
        lemma_shape(*a, lut@);
        lemma_row_major(qi as int, 0, a.query@.stride(), a.query@.nq as int);
    }
    let dim: usize = a.query.dim();
    let stride: usize = a.query.stride();
    let planes = a.query.planes();
    let len: usize = planes.len();
    let at: usize = qi * stride;
    let ghost f = products(*a, token.w@, qi as int);
    let mut acc: [i32; 16] = [0i32; 16];
    proof {
        lemma_accumulates_nothing(acc@, f);
    }
    let mut k: usize = 0;
    while k < dim
        invariant
            a.wf(lut@),
            a.query@.wf(),
            qi < a.query@.nq,
            token.carries(*a, lut@, t as int),
            dim == a.query@.dim,
            stride == a.query@.stride(),
            planes@ == a.query@.planes,
            len == planes@.len(),
            at == qi * stride,
            at + stride <= len,
            dim <= stride <= 256,
            stride % 64 == 0,
            k % 64 == 0,
            k <= stride,
            f == products(*a, token.w@, qi as int),
            accumulates(acc@, f, k as int),
        decreases stride - k,
    {
        let q: [i8; 64] = load(planes, at + k);
        let w: [i8; 64] = load(&token.w, k);
        proof {
            assert forall|i: int| 0 <= i < 64 implies #[trigger] q[i] != -128 by {
                assert(q[i] == planes@[at + k + i]);
                lemma_plane_bound(*a, lut@, qi as int, k + i);
            }
            lemma_accumulates_roomy(acc@, f, k as int);
        }
        let mag: [u8; 64] = abs_epi8(&w);
        let sq: [i8; 64] = negate_where(&q, &w);
        let next: [i32; 16] = dpbusd(&acc, &mag, &sq);
        proof {
            assert forall|i: int| 0 <= i < 64 implies #[trigger] f(k + i) == unsigned(mag@)[i]
                * signed(sq@)[i] && -16129 <= f(k + i) <= 16129 by {
                assert(q[i] == planes@[at + k + i]);
                assert(w[i] == token.w@[k + i]);
                assert(-127 <= token.w[k + i] <= 127);
                lemma_plane_bound(*a, lut@, qi as int, k + i);
                let x = q[i] as int;
                let y = w[i] as int;
                assert(mag[i] == (if y < 0 {
                    -y
                } else {
                    y
                }));
                assert(sq[i] == (if y < 0 {
                    -x
                } else {
                    x
                }));
                assert((-y) * (-x) == x * y) by (nonlinear_arith);
                assert(y * x == x * y) by (nonlinear_arith);
                lemma_product_bound(x, y);
            }
            assert forall|p: int| k <= p < k + 64 implies -16129 <= #[trigger] f(p) <= 16129 by {
                assert(-16129 <= f(k + (p - k)) <= 16129);
            }
            assert forall|i: int| 0 <= i < 16 implies #[trigger] next@[i] == acc@[i] + quad(
                f,
                k + 4 * i,
            ) by {
                assert(next[i] == acc[i] + dot4(unsigned(mag@), signed(sq@), i));
                assert(f(k + (4 * i)) == unsigned(mag@)[4 * i] * signed(sq@)[4 * i]);
                assert(f(k + (4 * i + 1)) == unsigned(mag@)[4 * i + 1] * signed(sq@)[4 * i + 1]);
                assert(f(k + (4 * i + 2)) == unsigned(mag@)[4 * i + 2] * signed(sq@)[4 * i + 2]);
                assert(f(k + (4 * i + 3)) == unsigned(mag@)[4 * i + 3] * signed(sq@)[4 * i + 3]);
            }
            lemma_accumulates_step(acc@, next@, f, k as int);
        }
        acc = next;
        k += 64;
    }
    proof {
        lemma_plane_dot(*a, lut@, *token, qi as int, t as int, k as int);
        assert forall|i: int| 0 <= i < 16 implies -0x100_0000 <= #[trigger] acc[i] <= 0x100_0000 by {
            assert(-16129 * k <= acc@[i] <= 16129 * k);
        }
    }
    reduce_add(&acc)
}

/// MaxSim, one token at a time against every query row.
pub fn maxsim<A: Arith>(lut: &Lut, a: &Args) -> (s: u32)
    requires
        a.wf(lut@),
        lut@.nibble is Some,
    ensures
        a.scored::<A>(lut@, s),
{
    let nq: usize = a.query.n_tokens();
    if nq == 0 || a.n_tokens == 0 {
        return ZERO;
    }
    let ghost grid = a.grid(lut@);
    let mut best: Vec<u32> = unscored(nq);
    let mut t: usize = 0;
    while t < a.n_tokens
        invariant
            a.wf(lut@),
            lut@.nibble is Some,
            grid == a.grid(lut@),
            nq == a.query@.nq,
            t <= a.n_tokens,
            best@.len() == nq,
            forall|q: int| 0 <= q < nq ==> best_of::<A>(grid, q, t as nat, #[trigger] best@[q]),
        decreases a.n_tokens - t,
    {
        let token = Token::load(lut, a, t);
        let mut accs: Vec<i32> = Vec::new();
        let mut qi: usize = 0;
        while qi < nq
            invariant
                a.wf(lut@),
                nq == a.query@.nq,
                t < a.n_tokens,
                token.carries(*a, lut@, t as int),
                qi <= nq,
                accs@.len() == qi,
                forall|q: int| 0 <= q < qi ==> #[trigger] accs@[q] == a.dot(lut@, q, t as int),
            decreases nq - qi,
        {
            accs.push(row_dot(a, lut, t, &token, qi));
            qi += 1;
        }
        fold_block::<A>(a, Ghost(lut@), t, &token, &accs, 0, &mut best);
        t += 1;
    }
    total_score::<A>(&best, Ghost(grid), Ghost(a.n_tokens as nat))
}

} // verus!
