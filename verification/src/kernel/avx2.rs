//! The 256-bit kernel: `pshufb` nibble expansion into plane order,
//! `maddubs`/`madd` accumulation, one accumulator register per query row.
//!
//! Exactness: both operands are clamped to 127 in magnitude, so `vpsignb`
//! never sees -128 and each `maddubs` pair sum stays below the 16-bit limit;
//! the 32-bit accumulator is exact.
use super::lanes::{
    abs_epi8, accumulates, add_epi32, lemma_accumulates_nothing, lemma_accumulates_step, load,
    madd_ones, maddubs, sign_epi8,
};
use super::model::{
    best_of, lemma_product_bound, lemma_shape, total_score, unscored, Args,
};
use super::token::{fold_block, lemma_plane_bound, lemma_plane_dot, products, Token};
use crate::float::{Arith, ZERO};
use crate::lut::Lut;
use crate::sums::{lemma_row_major, quad, sum, total};
use vstd::prelude::*;

verus! {

/// 32 products of two registers, four to a lane.
fn multiply32(q: &[i8; 32], w: &[i8; 32]) -> (r: [i32; 8])
    requires
        forall|i: int| 0 <= i < 32 ==> -127 <= #[trigger] q[i] <= 127,
        forall|i: int| 0 <= i < 32 ==> -127 <= #[trigger] w[i] <= 127,
    ensures
        forall|i: int|
            0 <= i < 8 ==> #[trigger] r[i] == q[4 * i] * w[4 * i] + q[4 * i + 1] * w[4 * i + 1]
                + q[4 * i + 2] * w[4 * i + 2] + q[4 * i + 3] * w[4 * i + 3],
{
    assert forall|i: int| 0 <= i < 32 implies #[trigger] q[i] != -128 by {
        assert(-127 <= q[i]);
    }
    let mag: [u8; 32] = abs_epi8(w);
    let sq: [i8; 32] = sign_epi8(q, w);
    let prod: [i16; 16] = maddubs(&mag, &sq);
    assert forall|i: int| 0 <= i < 32 implies #[trigger] mag[i] * sq[i] == q[i] * w[i] by {
        let x = q[i] as int;
        let y = w[i] as int;
        assert((-y) * (-x) == x * y) by (nonlinear_arith);
        assert(y * x == x * y) by (nonlinear_arith);
        assert(y == 0 ==> x * y == 0) by (nonlinear_arith);
        assert(-127 <= q[i] <= 127);
        assert(-127 <= w[i] <= 127);
    }
    assert forall|i: int| 0 <= i < 16 implies #[trigger] prod[i] == q[2 * i] * w[2 * i] + q[2 * i + 1]
        * w[2 * i + 1] by {
        assert(mag[2 * i] * sq[2 * i] == q[2 * i] * w[2 * i]);
        assert(mag[2 * i + 1] * sq[2 * i + 1] == q[2 * i + 1] * w[2 * i + 1]);
        assert(-127 <= q[2 * i] <= 127 && -127 <= w[2 * i] <= 127);
        assert(-127 <= q[2 * i + 1] <= 127 && -127 <= w[2 * i + 1] <= 127);
        lemma_product_bound(q[2 * i] as int, w[2 * i] as int);
        lemma_product_bound(q[2 * i + 1] as int, w[2 * i + 1] as int);
    }
    let r: [i32; 8] = madd_ones(&prod);
    assert forall|i: int| 0 <= i < 8 implies #[trigger] r[i] == q[4 * i] * w[4 * i] + q[4 * i + 1]
        * w[4 * i + 1] + q[4 * i + 2] * w[4 * i + 2] + q[4 * i + 3] * w[4 * i + 3] by {
        assert(prod[2 * i] == q[2 * (2 * i)] * w[2 * (2 * i)] + q[2 * (2 * i) + 1] * w[2 * (2 * i) + 1]);
        assert(prod[2 * i + 1] == q[2 * (2 * i + 1)] * w[2 * (2 * i + 1)] + q[2 * (2 * i + 1) + 1] * w[2
            * (2 * i + 1) + 1]);
    }
    r
}

/// Eight lanes added up: the two halves, then the two quarters, then the pair.
fn reduce8(acc: &[i32; 8]) -> (r: i32)
    requires
        forall|i: int| 0 <= i < 8 ==> -0x100_0000 <= #[trigger] acc[i] <= 0x100_0000,
    ensures
        r == total(acc@),
{
    assert(-0x100_0000 <= acc[0] <= 0x100_0000);
    assert(-0x100_0000 <= acc[1] <= 0x100_0000);
    assert(-0x100_0000 <= acc[2] <= 0x100_0000);
    assert(-0x100_0000 <= acc[3] <= 0x100_0000);
    assert(-0x100_0000 <= acc[4] <= 0x100_0000);
    assert(-0x100_0000 <= acc[5] <= 0x100_0000);
    assert(-0x100_0000 <= acc[6] <= 0x100_0000);
    assert(-0x100_0000 <= acc[7] <= 0x100_0000);
    let s128: [i32; 4] = [acc[0] + acc[4], acc[1] + acc[5], acc[2] + acc[6], acc[3] + acc[7]];
    let s64: [i32; 2] = [s128[0] + s128[2], s128[1] + s128[3]];
    proof {
        reveal_with_fuel(sum, 9);
    }
    s64[0] + s64[1]
}

/// The products of 32 plane positions from `k` on, in eight lanes of four.
#[verifier::spinoff_prover]
fn chunk_dot(a: &Args, lut: &Lut, t: usize, token: &Token, qi: usize, k: usize) -> (step: [i32; 8])
    requires
        a.wf(lut@),
        t < a.n_tokens,
        qi < a.query@.nq,
        token.carries(*a, lut@, t as int),
        k % 32 == 0,
        k + 32 <= a.query@.stride(),
    ensures
        forall|p: int|
            k <= p < k + 32 ==> -16129 <= #[trigger] products(*a, token.w@, qi as int)(p) <= 16129,
        forall|i: int|
            0 <= i < 8 ==> #[trigger] step[i] == quad(
                products(*a, token.w@, qi as int),
                k + 4 * i,
            ),
{
    proof {
        lemma_shape(*a, lut@);
        lemma_row_major(qi as int, 0, a.query@.stride(), a.query@.nq as int);
    }
    let stride: usize = a.query.stride();
    let planes = a.query.planes();
    let len: usize = planes.len();
    let at: usize = qi * stride;
    let ghost f = products(*a, token.w@, qi as int);
    let q: [i8; 32] = load(planes, at + k);
    let w: [i8; 32] = load(&token.w, k);
    proof {
        assert forall|i: int| 0 <= i < 32 implies -127 <= #[trigger] q[i] <= 127 by {
            assert(q[i] == planes@[at + k + i]);
            lemma_plane_bound(*a, lut@, qi as int, k + i);
        }
        assert forall|i: int| 0 <= i < 32 implies -127 <= #[trigger] w[i] <= 127 by {
            assert(w[i] == token.w@[k + i]);
            assert(-127 <= token.w[k + i] <= 127);
        }
        assert forall|i: int| 0 <= i < 32 implies #[trigger] f(k + i) == q[i] * w[i] by {
            assert(q[i] == planes@[at + k + i]);
            assert(w[i] == token.w@[k + i]);
        }
    }
    let step: [i32; 8] = multiply32(&q, &w);
    proof {
        assert forall|p: int| k <= p < k + 32 implies -16129 <= #[trigger] f(p) <= 16129 by {
            let i = p - k;
            assert(f(k + i) == q[i] * w[i]);
            assert(-127 <= q[i] <= 127 && -127 <= w[i] <= 127);
            lemma_product_bound(q[i] as int, w[i] as int);
        }
        assert forall|i: int| 0 <= i < 8 implies #[trigger] step[i] == quad(f, k + 4 * i) by {
            assert(f(k + (4 * i)) == q[4 * i] * w[4 * i]);
            assert(f(k + (4 * i + 1)) == q[4 * i + 1] * w[4 * i + 1]);
            assert(f(k + (4 * i + 2)) == q[4 * i + 2] * w[4 * i + 2]);
            assert(f(k + (4 * i + 3)) == q[4 * i + 3] * w[4 * i + 3]);
        }
    }
    step
}

/// The dot product of query row `qi` and a token, 32 plane positions at a
/// time; the last chunk reads past the dimension into zero padding.
#[verifier::spinoff_prover]
fn row_dot(a: &Args, lut: &Lut, t: usize, token: &Token, qi: usize) -> (r: i32)
    requires
        a.wf(lut@),
        t < a.n_tokens,
        qi < a.query@.nq,
        token.carries(*a, lut@, t as int),
    ensures
        r == a.dot(lut@, qi as int, t as int),
{
    proof {
        lemma_shape(*a, lut@);
    }
    let dim: usize = a.query.dim();
    let stride: usize = a.query.stride();
    let ghost f = products(*a, token.w@, qi as int);
    let mut acc: [i32; 8] = [0i32; 8];
    proof {
        lemma_accumulates_nothing(acc@, f);
    }
    let mut k: usize = 0;
    while k < dim
        invariant
            a.wf(lut@),
            a.query@.wf(),
            qi < a.query@.nq,
            token.carries(*a, lut@, t as int),
            dim == a.query@.dim,
            stride == a.query@.stride(),
            t < a.n_tokens,
            dim <= stride <= 256,
            stride % 64 == 0,
            k % 32 == 0,
            k <= stride,
            f == products(*a, token.w@, qi as int),
            accumulates(acc@, f, k as int),
        decreases stride - k,
    {
        let step: [i32; 8] = chunk_dot(a, lut, t, token, qi, k);
        proof {
            assert forall|i: int| 0 <= i < 8 implies i32::MIN <= #[trigger] acc[i] + step[i]
                <= i32::MAX by {
                assert(-16129 * k <= acc@[i] <= 16129 * k);
                assert(step[i] == quad(f, k + 4 * i));
                assert(-16129 <= f(k + 4 * i) <= 16129);
                assert(-16129 <= f(k + 4 * i + 1) <= 16129);
                assert(-16129 <= f(k + 4 * i + 2) <= 16129);
                assert(-16129 <= f(k + 4 * i + 3) <= 16129);
            }
        }
        let next: [i32; 8] = add_epi32(&acc, &step);
        proof {
            assert forall|i: int| 0 <= i < 8 implies #[trigger] next@[i] == acc@[i] + quad(
                f,
                k + 4 * i,
            ) by {
                assert(next[i] == acc[i] + step[i]);
                assert(step[i] == quad(f, k + 4 * i));
            }
            lemma_accumulates_step(acc@, next@, f, k as int);
        }
        acc = next;
        k += 32;
    }
    proof {
        lemma_plane_dot(*a, lut@, *token, qi as int, t as int, k as int);
        assert forall|i: int| 0 <= i < 8 implies -0x100_0000 <= #[trigger] acc[i] <= 0x100_0000 by {
            assert(-16129 * k <= acc@[i] <= 16129 * k);
        }
    }
    reduce8(&acc)
}

/// MaxSim, one token at a time against every query row.
pub fn maxsim<A: Arith>(lut: &Lut, a: &Args) -> (s: u32)
    requires
        a.wf(lut@),
        lut@.nibble is Some,
    ensures
        a.scored::<A>(lut@, s),
{
    let nq: usize = a.query.n_tokens();
    if nq == 0 || a.n_tokens == 0 {
        return ZERO;
    }
    let ghost grid = a.grid(lut@);
    let mut best: Vec<u32> = unscored(nq);
    let mut t: usize = 0;
    while t < a.n_tokens
        invariant
            a.wf(lut@),
            lut@.nibble is Some,
            grid == a.grid(lut@),
            nq == a.query@.nq,
            t <= a.n_tokens,
            best@.len() == nq,
            forall|q: int| 0 <= q < nq ==> best_of::<A>(grid, q, t as nat, #[trigger] best@[q]),
        decreases a.n_tokens - t,
    {
        let token = Token::load(lut, a, t);
        let mut accs: Vec<i32> = Vec::new();
        let mut qi: usize = 0;
        while qi < nq
            invariant
                a.wf(lut@),
                nq == a.query@.nq,
                t < a.n_tokens,
                token.carries(*a, lut@, t as int),
                qi <= nq,
                accs@.len() == qi,
                forall|q: int| 0 <= q < qi ==> #[trigger] accs@[q] == a.dot(lut@, q, t as int),
            decreases nq - qi,
        {
            accs.push(row_dot(a, lut, t, &token, qi));
            qi += 1;
        }
        fold_block::<A>(a, Ghost(lut@), t, &token, &accs, 0, &mut best);
        t += 1;
    }
    total_score::<A>(&best, Ghost(grid), Ghost(a.n_tokens as nat))
}

} // verus!
