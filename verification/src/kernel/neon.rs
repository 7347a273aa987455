//! The `sdot` kernel: `tbl` nibble expansion into plane order, `sdot`
//! accumulation, register-blocked over `NT` document tokens by 4 query rows.
//!
//! Holding `NT` tokens' expanded weights and 4 query rows in registers shares
//! each query load across `NT` products and each weight load across 4 rows.
//! The integer sums are those of the unblocked form (same products, exact
//! integer addition).
use super::lanes::{
    accumulates, dot4, lemma_accumulates_nothing, lemma_accumulates_roomy, lemma_accumulates_step,
    load, reduce_add, roomy, sdot, signed, LANE_MAX,
};
use super::model::{
    best_of, lemma_product_bound, lemma_shape, total_score, unscored, Args,
};
use super::token::{fold_block, lemma_plane_bound, lemma_plane_dot, products, Token};
use crate::float::{Arith, ZERO};
use crate::lut::{Lut, LutView};
use crate::sums::{lemma_lane_step, lemma_row_major, lemma_sum_bound, quad, sum, total};
use vstd::prelude::*;

verus! {

/// Document tokens per register block.
const NT: usize = 4;

/// `addp`: adjacent lanes added, the first operand's sums first.
fn pairwise_add(a: &[i32; 4], b: &[i32; 4]) -> (r: [i32; 4])
    requires
        forall|i: int| 0 <= i < 4 ==> -0x1000_0000 <= #[trigger] a[i] <= 0x1000_0000,
        forall|i: int| 0 <= i < 4 ==> -0x1000_0000 <= #[trigger] b[i] <= 0x1000_0000,
    ensures
        r[0] == a[0] + a[1],
        r[1] == a[2] + a[3],
        r[2] == b[0] + b[1],
        r[3] == b[2] + b[3],
{
    assert(-0x1000_0000 <= a[0] <= 0x1000_0000);
    assert(-0x1000_0000 <= a[1] <= 0x1000_0000);
    assert(-0x1000_0000 <= a[2] <= 0x1000_0000);
    assert(-0x1000_0000 <= a[3] <= 0x1000_0000);
    assert(-0x1000_0000 <= b[0] <= 0x1000_0000);
    assert(-0x1000_0000 <= b[1] <= 0x1000_0000);
    assert(-0x1000_0000 <= b[2] <= 0x1000_0000);
    assert(-0x1000_0000 <= b[3] <= 0x1000_0000);
    [a[0] + a[1], a[2] + a[3], b[0] + b[1], b[2] + b[3]]
}

/// Four accumulators reduced by a pairwise tree to one register of row sums.
fn row_sums(a0: &[i32; 4], a1: &[i32; 4], a2: &[i32; 4], a3: &[i32; 4]) -> (r: [i32; 4])
    requires
        forall|i: int| 0 <= i < 4 ==> -0x100_0000 <= #[trigger] a0[i] <= 0x100_0000,
        forall|i: int| 0 <= i < 4 ==> -0x100_0000 <= #[trigger] a1[i] <= 0x100_0000,
        forall|i: int| 0 <= i < 4 ==> -0x100_0000 <= #[trigger] a2[i] <= 0x100_0000,
        forall|i: int| 0 <= i < 4 ==> -0x100_0000 <= #[trigger] a3[i] <= 0x100_0000,
    ensures
        r[0] == total(a0@),
        r[1] == total(a1@),
        r[2] == total(a2@),
        r[3] == total(a3@),
{
    let lo: [i32; 4] = pairwise_add(a0, a1);
    let hi: [i32; 4] = pairwise_add(a2, a3);
    proof {
        reveal_with_fuel(sum, 5);
        assert(-0x100_0000 <= a0[0] <= 0x100_0000 && -0x100_0000 <= a0[1] <= 0x100_0000);
        assert(-0x100_0000 <= a0[2] <= 0x100_0000 && -0x100_0000 <= a0[3] <= 0x100_0000);
        assert(-0x100_0000 <= a1[0] <= 0x100_0000 && -0x100_0000 <= a1[1] <= 0x100_0000);
        assert(-0x100_0000 <= a1[2] <= 0x100_0000 && -0x100_0000 <= a1[3] <= 0x100_0000);
        assert(-0x100_0000 <= a2[0] <= 0x100_0000 && -0x100_0000 <= a2[1] <= 0x100_0000);
        assert(-0x100_0000 <= a2[2] <= 0x100_0000 && -0x100_0000 <= a2[3] <= 0x100_0000);
        assert(-0x100_0000 <= a3[0] <= 0x100_0000 && -0x100_0000 <= a3[1] <= 0x100_0000);
        assert(-0x100_0000 <= a3[2] <= 0x100_0000 && -0x100_0000 <= a3[3] <= 0x100_0000);
        assert forall|i: int| 0 <= i < 4 implies -0x1000_0000 <= #[trigger] lo[i] <= 0x1000_0000 by {
            assert(i == 0 || i == 1 || i == 2 || i == 3);
        }
        assert forall|i: int| 0 <= i < 4 implies -0x1000_0000 <= #[trigger] hi[i] <= 0x1000_0000 by {
            assert(i == 0 || i == 1 || i == 2 || i == 3);
        }
    }
    pairwise_add(&lo, &hi)
}

/// One `sdot` moves an accumulator over the next 16 plane positions.
fn dot_chunk(
    a: &Args,
    Ghost(lut): Ghost<LutView>,
    Ghost(t): Ghost<int>,
    token: &Token,
    qi: usize,
    k: usize,
    q: &[i8; 16],
    acc: &[i32; 4],
) -> (next: [i32; 4])
    requires
        a.wf(lut),
        token.carries(*a, lut, t),
        qi < a.query@.nq,
        k + 16 <= a.query@.stride(),
        forall|i: int| 0 <= i < 16 ==> #[trigger] q[i] == a.query@.plane(qi as int, k + i),
        accumulates(acc@, products(*a, token.w@, qi as int), k as int),
    ensures
        accumulates(next@, products(*a, token.w@, qi as int), k + 16),
{
    proof {
        lemma_shape(*a, lut);
    }
    let ghost f = products(*a, token.w@, qi as int);
    let w: [i8; 16] = load(&token.w, k);
    proof {
        lemma_accumulates_roomy(acc@, f, k as int);
    }
    let next: [i32; 4] = sdot(acc, q, &w);
    proof {
        assert forall|i: int| 0 <= i < 16 implies #[trigger] f(k + i) == signed(q@)[i] * signed(
            w@,
        )[i] && -16129 <= f(k + i) <= 16129 by {
            assert(q[i] == a.query@.plane(qi as int, k + i));
            assert(w[i] == token.w@[k + i]);
            assert(-127 <= token.w[k + i] <= 127);
            lemma_plane_bound(*a, lut, qi as int, k + i);
            lemma_product_bound(q[i] as int, w[i] as int);
        }
        assert forall|p: int| k <= p < k + 16 implies -16129 <= #[trigger] f(p) <= 16129 by {
            assert(-16129 <= f(k + (p - k)) <= 16129);
        }
        assert forall|i: int| 0 <= i < 4 implies #[trigger] next@[i] == acc@[i] + quad(f, k + 4 * i) by {
            assert(next[i] == acc[i] + dot4(signed(q@), signed(w@), i));
            assert(f(k + (4 * i)) == signed(q@)[4 * i] * signed(w@)[4 * i]);
            assert(f(k + (4 * i + 1)) == signed(q@)[4 * i + 1] * signed(w@)[4 * i + 1]);
            assert(f(k + (4 * i + 2)) == signed(q@)[4 * i + 2] * signed(w@)[4 * i + 2]);
            assert(f(k + (4 * i + 3)) == signed(q@)[4 * i + 3] * signed(w@)[4 * i + 3]);
        }
        lemma_accumulates_step(acc@, next@, f, k as int);
    }
    next
}

/// 16 plane positions of a query row.
fn query_chunk(a: &Args, qi: usize, k: usize) -> (q: [i8; 16])
    requires
        a.query@.wf(),
        qi < a.query@.nq,
        k + 16 <= a.query@.stride(),
    ensures
        forall|i: int| 0 <= i < 16 ==> #[trigger] q[i] == a.query@.plane(qi as int, k + i),
{
    let stride: usize = a.query.stride();
    let planes = a.query.planes();
    let len: usize = planes.len();
    proof {
        lemma_row_major(qi as int, k as int, stride as int, a.query@.nq as int);
    }
    load(planes, qi * stride + k)
}

/// The dot products of four query rows and a block of tokens: accumulator
/// `4 * j + r` belongs to token `j` and row `qi + r`.
fn block_dots(a: &Args, lut: &Lut, t0: usize, tokens: &[Token], qi: usize) -> (acc: Vec<[i32; 4]>)
    requires
        a.wf(lut@),
        tokens@.len() <= NT,
        t0 + tokens@.len() <= a.n_tokens,
        forall|j: int| 0 <= j < tokens@.len() ==> #[trigger] tokens@[j].carries(*a, lut@, t0 + j),
        qi + 4 <= a.query@.nq,
    ensures
        acc@.len() == 4 * tokens@.len(),
        forall|x: int|
            0 <= x < acc@.len() ==> total(#[trigger] acc@[x]@) == a.dot(
                lut@,
                qi + x % 4,
                t0 + x / 4,
            ),
        forall|x: int, i: int|
            0 <= x < acc@.len() && 0 <= i < 4 ==> -0x100_0000 <= #[trigger] acc@[x]@[i]
                <= 0x100_0000,
{
    proof {
        lemma_shape(*a, lut@);
    }
    let nq: usize = a.query.n_tokens();
    let n: usize = 4 * tokens.len();
    let dim: usize = a.query.dim();
    let stride: usize = a.query.stride();
    let ghost f = |x: int| products(*a, tokens@[x / 4].w@, qi + x % 4);
    let mut acc: Vec<[i32; 4]> = Vec::new();
    let mut x: usize = 0;
    while x < n
        invariant
            x <= n,
            n == 4 * tokens@.len(),
            acc@.len() == x,
            forall|y: int| 0 <= y < x ==> accumulates(#[trigger] acc@[y]@, f(y), 0),
        decreases n - x,
    {
        let zero: [i32; 4] = [0i32; 4];
        proof {
            lemma_accumulates_nothing(zero@, f(x as int));
        }
        acc.push(zero);
        x += 1;
    }
    let mut k: usize = 0;
    while k < dim
        invariant
            a.wf(lut@),
            a.query@.wf(),
            n == 4 * tokens@.len(),
            tokens@.len() <= NT,
            t0 + tokens@.len() <= a.n_tokens,
            forall|j: int|
                0 <= j < tokens@.len() ==> #[trigger] tokens@[j].carries(*a, lut@, t0 + j),
            qi + 4 <= nq,
            nq == a.query@.nq,
            dim == a.query@.dim,
            stride == a.query@.stride(),
            dim <= stride <= 256,
            stride % 64 == 0,
            k % 16 == 0,
            k <= stride,
            f == |x: int| products(*a, tokens@[x / 4].w@, qi + x % 4),
            acc@.len() == n,
            forall|y: int| 0 <= y < n ==> accumulates(#[trigger] acc@[y]@, f(y), k as int),
        decreases stride - k,
    {
        let q: [[i8; 16]; 4] = [
            query_chunk(a, qi, k),
            query_chunk(a, qi + 1, k),
            query_chunk(a, qi + 2, k),
            query_chunk(a, qi + 3, k),
        ];
        assert forall|r: int, i: int| 0 <= r < 4 && 0 <= i < 16 implies #[trigger] q[r][i]
            == a.query@.plane(qi + r, k + i) by {
            assert(r == 0 || r == 1 || r == 2 || r == 3);
        }
        let mut x: usize = 0;
        while x < n
            invariant
                a.wf(lut@),
                n == 4 * tokens@.len(),
                tokens@.len() <= NT,
                t0 + tokens@.len() <= a.n_tokens,
                forall|j: int|
                    0 <= j < tokens@.len() ==> #[trigger] tokens@[j].carries(*a, lut@, t0 + j),
                qi + 4 <= nq,
            nq == a.query@.nq,
                k + 16 <= a.query@.stride(),
                x <= n,
                f == |x: int| products(*a, tokens@[x / 4].w@, qi + x % 4),
                forall|r: int, i: int|
                    0 <= r < 4 && 0 <= i < 16 ==> #[trigger] q[r][i] == a.query@.plane(
                        qi + r,
                        k + i,
                    ),
                acc@.len() == n,
                forall|y: int| 0 <= y < x ==> accumulates(#[trigger] acc@[y]@, f(y), k + 16),
                forall|y: int| x <= y < n ==> accumulates(#[trigger] acc@[y]@, f(y), k as int),
            decreases n - x,
        {
            let j: usize = x / 4;
            let r: usize = x % 4;
            let lanes: [i32; 4] = acc[x];
            proof {
                assert(tokens@[j as int].carries(*a, lut@, t0 + j));
                assert(accumulates(acc@[x as int]@, f(x as int), k as int));
                assert forall|i: int| 0 <= i < 16 implies #[trigger] q[r as int][i]
                    == a.query@.plane(qi + r, k + i) by {}
            }
            let next: [i32; 4] = dot_chunk(
                a,
                Ghost(lut@),
                Ghost(t0 + j),
                &tokens[j],
                qi + r,
                k,
                &q[r],
                &lanes,
            );
            acc.set(x, next);
            x += 1;
        }
        k += 16;
    }
    proof {
        assert forall|x: int| 0 <= x < acc@.len() implies total(#[trigger] acc@[x]@) == a.dot(
            lut@,
            qi + x % 4,
            t0 + x / 4,
        ) by {
            assert(accumulates(acc@[x]@, f(x), k as int));
            assert(tokens@[x / 4].carries(*a, lut@, t0 + x / 4));
            lemma_plane_dot(*a, lut@, tokens@[x / 4], qi + x % 4, t0 + x / 4, k as int);
        }
        assert forall|x: int, i: int| 0 <= x < acc@.len() && 0 <= i < 4 implies -0x100_0000
            <= #[trigger] acc@[x]@[i] <= 0x100_0000 by {
            assert(accumulates(acc@[x]@, f(x), k as int));
            assert(-16129 * k <= acc@[x]@[i] <= 16129 * k);
        }
    }
    acc
}

/// Lanes of magnitude at most `b`.
spec fn within(lanes: Seq<i32>, b: int) -> bool {
    forall|i: int| 0 <= i < lanes.len() ==> -b <= #[trigger] lanes[i] <= b
}

/// One `sdot` over plane positions `k .. k + 16` adds exactly their products.
fn tail_chunk(
    a: &Args,
    Ghost(lut): Ghost<LutView>,
    Ghost(t): Ghost<int>,
    token: &Token,
    qi: usize,
    k: usize,
    acc: &[i32; 4],
    Ghost(b): Ghost<int>,
) -> (next: [i32; 4])
    requires
        a.wf(lut),
        token.carries(*a, lut, t),
        qi < a.query@.nq,
        k + 16 <= a.query@.stride(),
        within(acc@, b),
        b <= LANE_MAX,
    ensures
        total(next@) - total(acc@) == sum(products(*a, token.w@, qi as int), k + 16) - sum(
            products(*a, token.w@, qi as int),
            k as int,
        ),
        within(next@, b + 64_516),
{
    proof {
        lemma_shape(*a, lut);
    }
    let ghost f = products(*a, token.w@, qi as int);
    let q: [i8; 16] = query_chunk(a, qi, k);
    let w: [i8; 16] = load(&token.w, k);
    assert(roomy(acc@)) by {
        assert forall|i: int| 0 <= i < acc@.len() implies -LANE_MAX <= #[trigger] acc@[i]
            <= LANE_MAX by {
            assert(-b <= acc@[i] <= b);
        }
    }
    let next: [i32; 4] = sdot(acc, &q, &w);
    proof {
        assert forall|i: int| 0 <= i < 16 implies #[trigger] f(k + i) == signed(q@)[i] * signed(
            w@,
        )[i] && -16129 <= f(k + i) <= 16129 by {
            assert(q[i] == a.query@.plane(qi as int, k + i));
            assert(w[i] == token.w@[k + i]);
            assert(-127 <= token.w[k + i] <= 127);
            lemma_plane_bound(*a, lut, qi as int, k + i);
            lemma_product_bound(q[i] as int, w[i] as int);
        }
        assert forall|i: int| 0 <= i < 4 implies #[trigger] next@[i] == acc@[i] + quad(f, k + 4 * i)
            && -(b + 64_516) <= next@[i] <= b + 64_516 by {
            assert(next[i] == acc[i] + dot4(signed(q@), signed(w@), i));
            assert(-b <= acc@[i] <= b);
            assert(f(k + (4 * i)) == signed(q@)[4 * i] * signed(w@)[4 * i]);
            assert(f(k + (4 * i + 1)) == signed(q@)[4 * i + 1] * signed(w@)[4 * i + 1]);
            assert(f(k + (4 * i + 2)) == signed(q@)[4 * i + 2] * signed(w@)[4 * i + 2]);
            assert(f(k + (4 * i + 3)) == signed(q@)[4 * i + 3] * signed(w@)[4 * i + 3]);
        }
        lemma_lane_step(f, k as int, acc@, next@);
    }
    next
}

/// The dot product of one leftover row and a token: two accumulators, taking
/// the 16-position chunks in turn.
#[verifier::spinoff_prover]
fn tail_dot(a: &Args, lut: &Lut, t: usize, token: &Token, qi: usize) -> (r: i32)
    requires
        a.wf(lut@),
        t < a.n_tokens,
        qi < a.query@.nq,
        token.carries(*a, lut@, t as int),
    ensures
        r == a.dot(lut@, qi as int, t as int),
{
    proof {
        lemma_shape(*a, lut@);
    }
    let dim: usize = a.query.dim();
    let stride: usize = a.query.stride();
    let ghost f = products(*a, token.w@, qi as int);
    let mut acc0: [i32; 4] = [0i32; 4];
    let mut acc1: [i32; 4] = [0i32; 4];
    let ghost mut done: int = 0;
    proof {
        lemma_accumulates_nothing(acc0@, f);
        lemma_accumulates_nothing(acc1@, f);
    }
    let mut k: usize = 0;
    while k < dim
        invariant
            a.wf(lut@),
            t < a.n_tokens,
            qi < a.query@.nq,
            token.carries(*a, lut@, t as int),
            dim == a.query@.dim,
            stride == a.query@.stride(),
            dim <= stride <= 256,
            stride % 64 == 0,
            f == products(*a, token.w@, qi as int),
            k % 32 == 0,
            k <= stride,
            0 <= done <= stride,
            k < dim ==> done == k,
            k >= dim ==> done >= dim,
            total(acc0@) + total(acc1@) == sum(f, done),
            within(acc0@, 65_000 * k),
            within(acc1@, 65_000 * k),
        decreases stride - k,
    {
        acc0 = tail_chunk(
            a,
            Ghost(lut@),
            Ghost(t as int),
            token,
            qi,
            k,
            &acc0,
            Ghost(65_000 * k),
        );
        proof {
            done = k + 16;
        }
        if k + 16 < dim {
            acc1 = tail_chunk(
                a,
                Ghost(lut@),
                Ghost(t as int),
                token,
                qi,
                k + 16,
                &acc1,
                Ghost(65_000 * k),
            );
            proof {
                done = k + 32;
            }
        }
        k += 32;
    }
    proof {
        lemma_plane_dot(*a, lut@, *token, qi as int, t as int, done);
        lemma_sum_bound(|i: int| acc0@[i] as int, 4, 65_000 * k);
        lemma_sum_bound(|i: int| acc1@[i] as int, 4, 65_000 * k);
    }
    reduce_add(&acc0) + reduce_add(&acc1)
}

/// Score a block of expanded tokens against every query row, updating `best`.
#[verifier::spinoff_prover]
fn block<A: Arith>(a: &Args, lut: &Lut, t0: usize, tokens: &[Token], best: &mut Vec<u32>)
    requires
        a.wf(lut@),
        tokens@.len() <= NT,
        t0 + tokens@.len() <= a.n_tokens,
        forall|j: int| 0 <= j < tokens@.len() ==> #[trigger] tokens@[j].carries(*a, lut@, t0 + j),
        old(best)@.len() == a.query@.nq,
        forall|q: int|
            0 <= q < a.query@.nq ==> best_of::<A>(
                a.grid(lut@),
                q,
                t0 as nat,
                #[trigger] old(best)@[q],
            ),
    ensures
        final(best)@.len() == a.query@.nq,
        forall|q: int|
            0 <= q < a.query@.nq ==> best_of::<A>(
                a.grid(lut@),
                q,
                (t0 + tokens@.len()) as nat,
                #[trigger] final(best)@[q],
            ),
{
    let ghost grid = a.grid(lut@);
    let nq: usize = a.query.n_tokens();
    let n: usize = tokens.len();
    let mut qi: usize = 0;
    while nq - qi >= 4
        invariant
            a.wf(lut@),
            grid == a.grid(lut@),
            nq == a.query@.nq,
            n == tokens@.len(),
            n <= NT,
            t0 + n <= a.n_tokens,
            forall|j: int| 0 <= j < n ==> #[trigger] tokens@[j].carries(*a, lut@, t0 + j),
            qi <= nq,
            best@.len() == nq,
            forall|q: int|
                0 <= q < qi ==> best_of::<A>(grid, q, (t0 + n) as nat, #[trigger] best@[q]),
            forall|q: int| qi <= q < nq ==> best_of::<A>(grid, q, t0 as nat, #[trigger] best@[q]),
        decreases nq - qi,
    {
        let acc: Vec<[i32; 4]> = block_dots(a, lut, t0, tokens, qi);
        let mut j: usize = 0;
        while j < n
            invariant
                a.wf(lut@),
                grid == a.grid(lut@),
                nq == a.query@.nq,
                n == tokens@.len(),
                n <= NT,
                t0 + n <= a.n_tokens,
                forall|i: int| 0 <= i < n ==> #[trigger] tokens@[i].carries(*a, lut@, t0 + i),
                qi + 4 <= nq,
                best@.len() == nq,
                j <= n,
                acc@.len() == 4 * n,
                forall|x: int|
                    0 <= x < acc@.len() ==> total(#[trigger] acc@[x]@) == a.dot(
                        lut@,
                        qi + x % 4,
                        t0 + x / 4,
                    ),
                forall|x: int, i: int|
                    0 <= x < acc@.len() && 0 <= i < 4 ==> -0x100_0000 <= #[trigger] acc@[x]@[i]
                        <= 0x100_0000,
                forall|q: int|
                    0 <= q < qi ==> best_of::<A>(grid, q, (t0 + n) as nat, #[trigger] best@[q]),
                forall|q: int|
                    qi <= q < qi + 4 ==> best_of::<A>(grid, q, (t0 + j) as nat, #[trigger] best@[q]),
                forall|q: int|
                    qi + 4 <= q < nq ==> best_of::<A>(grid, q, t0 as nat, #[trigger] best@[q]),
            decreases n - j,
        {
            let x: usize = 4 * j;
            proof {
                assert forall|r: int, i: int| 0 <= r < 4 && 0 <= i < 4 implies -0x100_0000
                    <= #[trigger] acc@[x + r][i] <= 0x100_0000 by {
                    assert(-0x100_0000 <= acc@[x + r]@[i] <= 0x100_0000);
                }
                assert forall|i: int| 0 <= i < 4 implies -0x100_0000 <= #[trigger] acc@[x as int][i]
                    <= 0x100_0000 by {
                    assert(-0x100_0000 <= acc@[x + 0][i] <= 0x100_0000);
                }
                assert(total(acc@[x as int]@) == a.dot(lut@, qi + 0, t0 + j));
                assert(total(acc@[x + 1]@) == a.dot(lut@, qi + 1, t0 + j));
                assert(total(acc@[x + 2]@) == a.dot(lut@, qi + 2, t0 + j));
                assert(total(acc@[x + 3]@) == a.dot(lut@, qi + 3, t0 + j));
                assert(tokens@[j as int].carries(*a, lut@, t0 + j));
            }
            let sums: [i32; 4] = row_sums(&acc[x], &acc[x + 1], &acc[x + 2], &acc[x + 3]);
            proof {
                assert forall|i: int| 0 <= i < 4 implies #[trigger] sums@[i] == a.dot(
                    lut@,
                    qi + i,
                    t0 + j,
                ) by {
                    assert(i == 0 || i == 1 || i == 2 || i == 3);
                }
            }
            fold_block::<A>(a, Ghost(lut@), t0 + j, &tokens[j], &sums, qi, best);
            j += 1;
        }
        qi += 4;
    }
    let rem: usize = nq - qi;
    let mut j: usize = 0;
    while j < n
        invariant
            a.wf(lut@),
            grid == a.grid(lut@),
            nq == a.query@.nq,
            n == tokens@.len(),
            n <= NT,
            t0 + n <= a.n_tokens,
            forall|i: int| 0 <= i < n ==> #[trigger] tokens@[i].carries(*a, lut@, t0 + i),
            qi <= nq,
            rem == nq - qi,
            best@.len() == nq,
            j <= n,
            forall|q: int|
                0 <= q < qi ==> best_of::<A>(grid, q, (t0 + n) as nat, #[trigger] best@[q]),
            forall|q: int|
                qi <= q < nq ==> best_of::<A>(grid, q, (t0 + j) as nat, #[trigger] best@[q]),
        decreases n - j,
    {
        assert(tokens@[j as int].carries(*a, lut@, t0 + j));
        let mut tail: Vec<i32> = Vec::new();
        let mut r: usize = 0;
        while r < rem
            invariant
                a.wf(lut@),
                nq == a.query@.nq,
                n == tokens@.len(),
                j < n,
                t0 + n <= a.n_tokens,
                tokens@[j as int].carries(*a, lut@, t0 + j),
                qi <= nq,
                rem == nq - qi,
                r <= rem,
                tail@.len() == r,
                forall|i: int| 0 <= i < r ==> #[trigger] tail@[i] == a.dot(lut@, qi + i, t0 + j),
            decreases rem - r,
        {
            tail.push(tail_dot(a, lut, t0 + j, &tokens[j], qi + r));
            r += 1;
        }
        fold_block::<A>(a, Ghost(lut@), t0 + j, &tokens[j], &tail, qi, best);
        j += 1;
    }
}

/// MaxSim, `NT` tokens at a time, then the leftover tokens one by one.
pub fn maxsim<A: Arith>(lut: &Lut, a: &Args) -> (s: u32)
    requires
        a.wf(lut@),
        lut@.nibble is Some,
    ensures
        a.scored::<A>(lut@, s),
{
    let nq: usize = a.query.n_tokens();
    if nq == 0 || a.n_tokens == 0 {
        return ZERO;
    }
    let ghost grid = a.grid(lut@);
    let mut best: Vec<u32> = unscored(nq);
    let mut t: usize = 0;
    while t < a.n_tokens
        invariant
            a.wf(lut@),
            lut@.nibble is Some,
            grid == a.grid(lut@),
            nq == a.query@.nq,
            t <= a.n_tokens,
            best@.len() == nq,
            forall|q: int| 0 <= q < nq ==> best_of::<A>(grid, q, t as nat, #[trigger] best@[q]),
        decreases a.n_tokens - t,
    {
        let n: usize = if a.n_tokens - t >= NT {
            NT
        } else {
            1
        };
        let mut tokens: Vec<Token> = Vec::new();
        let mut j: usize = 0;
        while j < n
            invariant
                a.wf(lut@),
                lut@.nibble is Some,
                j <= n,
                t + n <= a.n_tokens,
                tokens@.len() == j,
                forall|i: int| 0 <= i < j ==> #[trigger] tokens@[i].carries(*a, lut@, t + i),
            decreases n - j,
        {
            tokens.push(Token::load(lut, a, t + j));
            j += 1;
        }
        block::<A>(a, lut, t, &tokens, &mut best);
        t += n;
    }
    total_score::<A>(&best, Ghost(grid), Ghost(a.n_tokens as nat))
}

} // verus!
