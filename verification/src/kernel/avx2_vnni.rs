//! The 256-bit VNNI kernel: query row tiles with a real `u8 x s8` dot
//! instruction.
//!
//! `vpdpbusd` accumulates four `u8 x s8` products straight into each lane.
//! The query is read from its unsigned tiles (8 rows of 4 plane positions per
//! 32-byte load) against a 4-byte weight broadcast, so the accumulator lanes
//! are the row sums. The tiles store `code + 128`; the resulting `128 * sum(w)`
//! offset is subtracted once per (token, tile) in exact integer arithmetic.
use super::lanes::{
    accumulates, dot4, dpbusd, lemma_accumulates_nothing, lemma_accumulates_roomy,
    lemma_accumulates_step, load, load_u8, reduce_add, roomy, signed, unsigned, LANE_MAX,
};
use super::model::{best_of, dot_is_exact, lemma_shape, total_score, unscored, Args};
use super::token::{fold_block, lemma_plane_dot, products, Token};
use crate::error::MAX_DIM;
use crate::float::{Arith, ZERO};
use crate::lut::{Lut, LutView};
use crate::query::{lemma_tile_index, rows_up, tile_index};
use crate::sums::{
    lemma_row_major, lemma_sum_add, lemma_sum_bound, lemma_sum_eq, lemma_sum_quad, lemma_sum_scale,
    lemma_sum_zero, quad, sum,
};
use vstd::prelude::*;

verus! {

/// Document tokens per block.
const NT: usize = 4;

/// A token's weights as summands.
spec fn weight_at(w: Seq<i8>) -> spec_fn(int) -> int {
    |p: int| w[p] as int
}

/// The sum of the token's first `dim` weights, as `u8` ones by `s8` weights.
fn sum_weights(w: &[i8; MAX_DIM], dim: usize) -> (r: i32)
    requires
        1 <= dim <= MAX_DIM,
        forall|p: int| 0 <= p < MAX_DIM ==> -127 <= #[trigger] w[p] <= 127,
        forall|p: int| dim <= p < MAX_DIM ==> #[trigger] w[p] == 0,
    ensures
        r == sum(weight_at(w@), dim as int),
        -32_512 <= r <= 32_512,
{
    let ones: [u8; 32] = [1u8; 32];
    let ghost f = weight_at(w@);
    let mut acc: [i32; 8] = [0i32; 8];
    proof {
        lemma_accumulates_nothing(acc@, f);
    }
    let mut k: usize = 0;
    while k < dim
        invariant
            1 <= dim <= MAX_DIM,
            k % 32 == 0,
            k <= MAX_DIM,
            forall|p: int| 0 <= p < MAX_DIM ==> -127 <= #[trigger] w[p] <= 127,
            forall|i: int| 0 <= i < 32 ==> #[trigger] ones[i] == 1,
            f == weight_at(w@),
            accumulates(acc@, f, k as int),
        decreases MAX_DIM - k,
    {
        let v: [i8; 32] = load(w, k);
        proof {
            lemma_accumulates_roomy(acc@, f, k as int);
        }
        let next: [i32; 8] = dpbusd(&acc, &ones, &v);
        proof {
            assert forall|p: int| k <= p < k + 32 implies -16129 <= #[trigger] f(p) <= 16129 by {
                assert(-127 <= w[p] <= 127);
            }
            assert forall|i: int| 0 <= i < 32 implies #[trigger] f(k + i) == unsigned(ones@)[i]
                * signed(v@)[i] by {
                assert(v[i] == w@[k + i]);
                assert(ones[i] == 1);
            }
            assert forall|i: int| 0 <= i < 8 implies #[trigger] next@[i] == acc@[i] + quad(
                f,
                k + 4 * i,
            ) by {
                assert(next[i] == acc[i] + dot4(unsigned(ones@), signed(v@), i));
                assert(f(k + (4 * i)) == unsigned(ones@)[4 * i] * signed(v@)[4 * i]);
                assert(f(k + (4 * i + 1)) == unsigned(ones@)[4 * i + 1] * signed(v@)[4 * i + 1]);
                assert(f(k + (4 * i + 2)) == unsigned(ones@)[4 * i + 2] * signed(v@)[4 * i + 2]);
                assert(f(k + (4 * i + 3)) == unsigned(ones@)[4 * i + 3] * signed(v@)[4 * i + 3]);
            }
            lemma_accumulates_step(acc@, next@, f, k as int);
        }
        acc = next;
        k += 32;
    }
    proof {
        assert forall|p: int| dim <= p < k implies #[trigger] f(p) == 0 by {
            assert(w[p] == 0);
        }
        lemma_sum_zero(f, dim as int, k as int);
        assert forall|p: int| 0 <= p < dim implies -127 <= #[trigger] f(p) <= 127 by {
            assert(-127 <= w[p] <= 127);
        }
        lemma_sum_bound(f, dim as int, 127);
        assert forall|i: int| 0 <= i < 8 implies -0x100_0000 <= #[trigger] acc[i] <= 0x100_0000 by {
            assert(-16129 * k <= acc@[i] <= 16129 * k);
        }
    }
    reduce_add(&acc)
}

/// The products of a tile row and a token's weights.
spec fn cell(a: Args, w: Seq<i8>, row: int) -> spec_fn(int) -> int {
    |p: int| a.query@.tile(row, p) * w[p]
}

/// The eight lanes hold the sums of the first `n` products of rows
/// `row .. row + 8`.
spec fn holds(lanes: Seq<i32>, a: Args, w: Seq<i8>, row: int, n: int) -> bool {
    &&& lanes.len() == 8
    &&& 0 <= n <= 256
    &&& forall|i: int| 0 <= i < 8 ==> #[trigger] lanes[i] == sum(cell(a, w, row + i), n)
    &&& forall|i: int| 0 <= i < 8 ==> -32_385 * n <= #[trigger] lanes[i] <= 32_385 * n
}

/// Where group `g` of the 8-row tile `tile` starts.
fn tile8(tile_stride: usize, tile: usize, g: usize) -> (at: usize)
    requires
        tile / 2 * tile_stride + 32 + g * 64 <= usize::MAX,
    ensures
        at == tile / 2 * tile_stride + (tile % 2) * 32 + g * 64,
{
    assert(0 <= tile / 2 * tile_stride) by (nonlinear_arith)
        requires
            0 <= tile / 2,
            0 <= tile_stride,
    ;
    tile / 2 * tile_stride + (tile % 2) * 32 + g * 64
}

/// Four weights in every lane.
fn broadcast4(w: &[i8; MAX_DIM], at: usize) -> (r: [i8; 32])
    requires
        at + 4 <= MAX_DIM,
    ensures
        forall|i: int| 0 <= i < 32 ==> #[trigger] r[i] == w[at + i % 4],
{
    let mut r: [i8; 32] = [0i8; 32];
    let mut i: usize = 0;
    while i < 32
        invariant
            i <= 32,
            at + 4 <= MAX_DIM,
            forall|j: int| 0 <= j < i ==> #[trigger] r[j] == w[at + j % 4],
        decreases 32 - i,
    {
        r[i] = w[at + i % 4];
        i += 1;
    }
    r
}

/// One `vpdpbusd`: 4 more plane positions of eight rows and a token.
#[verifier::spinoff_prover]
fn step(
    a: &Args,
    Ghost(lut): Ghost<LutView>,
    w: &[i8; MAX_DIM],
    tile: usize,
    g: usize,
    lanes: &[i32; 8],
) -> (next: [i32; 8])
    requires
        a.wf(lut),
        forall|p: int| 0 <= p < MAX_DIM ==> -127 <= #[trigger] w[p] <= 127,
        8 * tile + 8 <= rows_up(a.query@.nq, 16),
        4 * g + 4 <= a.query@.dim,
        holds(lanes@, *a, w@, 8 * tile, 4 * g),
    ensures
        holds(next@, *a, w@, 8 * tile, 4 * g + 4),
{
    proof {
        lemma_shape(*a, lut);
    }
    let ghost view = a.query@;
    let ghost rows = rows_up(a.query@.nq, 16) as int;
    let ghost stride_i = view.stride();
    let stride: usize = a.query.stride();
    let tiles = a.query.tiles_u8();
    let len: usize = tiles.len();
    let tile_stride: usize = (stride / 4) * 64;
    let ghost start = tile / 2 * tile_stride + (tile % 2) * 32 + g * 64;
    proof {
        assert forall|i: int, c: int| 0 <= i < 8 && 0 <= c < 4 implies #[trigger] tile_index(
            stride_i,
            8 * tile + i,
            4 * g + c,
        ) == start + 4 * i + c by {
            let q = 8 * tile + i;
            let p = 4 * g + c;
            assert(q / 16 == tile as int / 2 && q % 16 == 8 * (tile as int % 2) + i);
            assert(p / 4 == g && p % 4 == c);
            let d4 = stride_i / 4;
            let b = tile as int / 2;
            assert((b * d4 + g) * 64 == b * (d4 * 64) + g * 64) by (nonlinear_arith);
        }
        lemma_tile_index(stride_i, 8 * tile + 7, 4 * g + 3, rows);
        assert(tile_index(stride_i, 8 * tile + 7, 4 * g + 3) == start + 4 * 7 + 3);
        assert(0 <= tile / 2 * tile_stride) by (nonlinear_arith)
            requires
                0 <= tile / 2,
                0 <= tile_stride,
        ;
    }
    proof {
        // A tile holds 16 rows, so the other half of it lies inside too.
        let first = 16 * (tile as int / 2);
        lemma_tile_index(stride_i, first + 15, 4 * g + 3, rows);
        assert((first + 15) / 16 == tile as int / 2 && (first + 15) % 16 == 15);
        let d4 = stride_i / 4;
        let b = tile as int / 2;
        assert((b * d4 + g) * 64 == b * (d4 * 64) + g * 64) by (nonlinear_arith);
    }
    let at: usize = tile8(tile_stride, tile, g);
    let q: [u8; 32] = load_u8(tiles, at);
    let wb: [i8; 32] = broadcast4(w, 4 * g);
    proof {
        assert forall|i: int| 0 <= i < lanes@.len() implies -LANE_MAX <= #[trigger] lanes@[i]
            <= LANE_MAX by {
            assert(-32_385 * (4 * g) <= lanes@[i] <= 32_385 * (4 * g));
        }
        assert(roomy(lanes@));
    }
    let next: [i32; 8] = dpbusd(lanes, &q, &wb);
    proof {
        let n = 4 * g as int;
        assert forall|i: int| 0 <= i < 8 implies #[trigger] next@[i] == sum(
            cell(*a, w@, 8 * tile + i),
            n + 4,
        ) && -32_385 * (n + 4) <= next@[i] <= 32_385 * (n + 4) by {
            let row = 8 * tile + i;
            let f = cell(*a, w@, row);
            assert forall|c: int| 0 <= c < 4 implies #[trigger] f(n + c) == unsigned(q@)[4 * i + c]
                * signed(wb@)[4 * i + c] && -32_385 <= f(n + c) <= 32_385 by {
                assert(tile_index(stride_i, 8 * tile + i, 4 * g + c) == start + 4 * i + c);
                assert(q[4 * i + c] == tiles@[at + (4 * i + c)]);
                assert(wb[4 * i + c] == w[4 * g + c]);
                assert(-127 <= w[4 * g + c] <= 127);
                let x = q[4 * i + c] as int;
                let y = w[4 * g + c] as int;
                assert(-32_385 <= x * y <= 32_385) by (nonlinear_arith)
                    requires
                        0 <= x <= 255,
                        -127 <= y <= 127,
                ;
            }
            lemma_sum_quad(f, n);
            assert(next[i] == lanes[i] + dot4(unsigned(q@), signed(wb@), i));
            assert(f(n + 0) == unsigned(q@)[4 * i + 0] * signed(wb@)[4 * i + 0]);
            assert(f(n + 1) == unsigned(q@)[4 * i + 1] * signed(wb@)[4 * i + 1]);
            assert(f(n + 2) == unsigned(q@)[4 * i + 2] * signed(wb@)[4 * i + 2]);
            assert(f(n + 3) == unsigned(q@)[4 * i + 3] * signed(wb@)[4 * i + 3]);
            assert(lanes@[i] == sum(f, n));
        }
    }
    next
}

/// The accumulators of `rt` tiles from tile `t8` on and a block of tokens:
/// accumulator `j * rt + r` belongs to token `j` and tile `t8 + r`.
fn block_dots(
    a: &Args,
    lut: &Lut,
    tokens: &[Token],
    Ghost(t0): Ghost<int>,
    t8: usize,
    rt: usize,
) -> (acc: Vec<[i32; 8]>)
    requires
        a.wf(lut@),
        a.query@.dim % 8 == 0,
        0 < rt <= 2,
        tokens@.len() <= NT,
        forall|j: int| 0 <= j < tokens@.len() ==> #[trigger] tokens@[j].carries(*a, lut@, t0 + j),
        8 * (t8 + rt) <= rows_up(a.query@.nq, 16),
        t8 + rt <= usize::MAX,
    ensures
        acc@.len() == tokens@.len() * rt,
        forall|x: int|
            0 <= x < acc@.len() ==> holds(
                #[trigger] acc@[x]@,
                *a,
                tokens@[x / (rt as int)].w@,
                8 * (t8 + x % (rt as int)),
                a.query@.dim as int,
            ),
{
    proof {
        lemma_shape(*a, lut@);
    }
    let dim: usize = a.query.dim();
    let d4n: usize = dim / 4;
    let n: usize = tokens.len();
    assert(n * rt <= 8 && 0 <= n * rt) by (nonlinear_arith)
        requires
            0 <= n <= 4,
            0 <= rt <= 2,
    ;
    let count: usize = n * rt;
    let mut acc: Vec<[i32; 8]> = Vec::new();
    let mut x: usize = 0;
    while x < count
        invariant
            x <= count,
            acc@.len() == x,
            forall|y: int|
                0 <= y < x ==> holds(
                    #[trigger] acc@[y]@,
                    *a,
                    tokens@[y / (rt as int)].w@,
                    8 * (t8 + y % (rt as int)),
                    0,
                ),
        decreases count - x,
    {
        let zero: [i32; 8] = [0i32; 8];
        acc.push(zero);
        x += 1;
    }
    let mut g: usize = 0;
    while g < d4n
        invariant
            a.wf(lut@),
            0 < rt <= 2,
            n == tokens@.len(),
            n <= NT,
            count == n * rt,
            forall|j: int| 0 <= j < n ==> #[trigger] tokens@[j].carries(*a, lut@, t0 + j),
            8 * (t8 + rt) <= rows_up(a.query@.nq, 16),
            t8 + rt <= usize::MAX,
            4 * d4n == a.query@.dim,
            g <= d4n <= 64,
            acc@.len() == count,
            forall|y: int|
                0 <= y < count ==> holds(
                    #[trigger] acc@[y]@,
                    *a,
                    tokens@[y / (rt as int)].w@,
                    8 * (t8 + y % (rt as int)),
                    4 * g as int,
                ),
        decreases d4n - g,
    {
        let mut x: usize = 0;
        while x < count
            invariant
                a.wf(lut@),
                0 < rt <= 2,
                n == tokens@.len(),
                n <= NT,
                count == n * rt,
                forall|j: int| 0 <= j < n ==> #[trigger] tokens@[j].carries(*a, lut@, t0 + j),
                8 * (t8 + rt) <= rows_up(a.query@.nq, 16),
                t8 + rt <= usize::MAX,
                4 * g + 4 <= a.query@.dim,
                g < d4n <= 64,
                x <= count,
                acc@.len() == count,
                forall|y: int|
                    0 <= y < x ==> holds(
                        #[trigger] acc@[y]@,
                        *a,
                        tokens@[y / (rt as int)].w@,
                        8 * (t8 + y % (rt as int)),
                        4 * g + 4,
                    ),
                forall|y: int|
                    x <= y < count ==> holds(
                        #[trigger] acc@[y]@,
                        *a,
                        tokens@[y / (rt as int)].w@,
                        8 * (t8 + y % (rt as int)),
                        4 * g as int,
                    ),
            decreases count - x,
        {
            let j: usize = x / rt;
            let r: usize = x % rt;
            proof {
                let xi = x as int;
                let ri = rt as int;
                assert(0 <= xi / ri < n && 0 <= xi % ri < ri) by (nonlinear_arith)
                    requires
                        0 <= xi < n * ri,
                        0 < ri,
                ;
                assert(holds(acc@[xi]@, *a, tokens@[xi / ri].w@, 8 * (t8 + xi % ri), 4 * g as int));
                assert(tokens@[j as int].carries(*a, lut@, t0 + j));
            }
            let lanes: [i32; 8] = acc[x];
            let next: [i32; 8] = step(a, Ghost(lut@), &tokens[j].w, t8 + r, g, &lanes);
            acc.set(x, next);
            x += 1;
        }
        g += 1;
    }
    acc
}

/// A finished lane is the dot product plus 128 times the sum of the weights.
proof fn lemma_lane_dot(a: Args, lut: LutView, t: int, token: Token, row: int)
    requires
        a.wf(lut),
        token.carries(a, lut, t),
        0 <= row < a.query@.nq,
    ensures
        sum(cell(a, token.w@, row), a.query@.dim as int) == a.dot(lut, row, t) + 128 * sum(
            weight_at(token.w@),
            a.query@.dim as int,
        ),
{
    lemma_shape(a, lut);
    let dim = a.query@.dim as int;
    let f = cell(a, token.w@, row);
    let g = products(a, token.w@, row);
    let h = weight_at(token.w@);
    let s = |p: int| 128 * h(p);
    assert forall|p: int| 0 <= p < dim implies #[trigger] f(p) == g(p) + s(p) by {
        let x = a.query@.plane(row, p) as int;
        let y = token.w@[p] as int;
        assert(a.query@.tile(row, p) == a.query@.plane(row, p) + 128);
        assert((x + 128) * y == x * y + 128 * y) by (nonlinear_arith);
    }
    let e = |p: int| g(p) + s(p);
    lemma_sum_eq(f, e, dim);
    lemma_sum_add(g, s, dim);
    lemma_sum_scale(h, 128, dim);
    lemma_plane_dot(a, lut, token, row, t, dim);
}

/// The dot products of the real rows of one tile: the lanes less the offset.
fn row_sums(
    a: &Args,
    lut: &Lut,
    t: usize,
    token: &Token,
    lanes: &[i32; 8],
    corr: i32,
    row0: usize,
) -> (v: Vec<i32>)
    requires
        a.wf(lut@),
        t < a.n_tokens,
        token.carries(*a, lut@, t as int),
        row0 < a.query@.nq,
        corr == 128 * sum(weight_at(token.w@), a.query@.dim as int),
        holds(lanes@, *a, token.w@, row0 as int, a.query@.dim as int),
    ensures
        v@.len() == (if a.query@.nq - row0 < 8 {
            a.query@.nq - row0
        } else {
            8
        }),
        forall|i: int| 0 <= i < v@.len() ==> #[trigger] v@[i] == a.dot(lut@, row0 + i, t as int),
{
    proof {
        lemma_shape(*a, lut@);
    }
    let nq: usize = a.query.n_tokens();
    let dim: usize = a.query.dim();
    let rem: usize = if nq - row0 < 8 {
        nq - row0
    } else {
        8
    };
    let mut v: Vec<i32> = Vec::new();
    let mut i: usize = 0;
    while i < rem
        invariant
            a.wf(lut@),
            t < a.n_tokens,
            token.carries(*a, lut@, t as int),
            nq == a.query@.nq,
            dim == a.query@.dim,
            dim <= 256,
            row0 + rem <= nq,
            rem <= 8,
            i <= rem,
            corr == 128 * sum(weight_at(token.w@), dim as int),
            holds(lanes@, *a, token.w@, row0 as int, dim as int),
            v@.len() == i,
            forall|j: int| 0 <= j < i ==> #[trigger] v@[j] == a.dot(lut@, row0 + j, t as int),
        decreases rem - i,
    {
        proof {
            lemma_lane_dot(*a, lut@, t as int, *token, row0 + i);
            dot_is_exact(*a, lut@, row0 + i, t as int);
            assert(lanes@[i as int] == sum(cell(*a, token.w@, row0 + i), dim as int));
        }
        v.push(lanes[i] - corr);
        i += 1;
    }
    v
}

/// One block: `rt` eight-row tiles from tile `t8` on by a block of tokens,
/// then the fold for those rows and tokens.
#[verifier::spinoff_prover]
fn block<A: Arith>(
    a: &Args,
    lut: &Lut,
    t0: usize,
    tokens: &[Token],
    t8: usize,
    rt: usize,
    best: &mut Vec<u32>,
)
    requires
        a.wf(lut@),
        a.query@.dim % 8 == 0,
        0 < rt <= 2,
        tokens@.len() <= NT,
        t0 + tokens@.len() <= a.n_tokens,
        forall|j: int| 0 <= j < tokens@.len() ==> #[trigger] tokens@[j].carries(*a, lut@, t0 + j),
        8 * (t8 + rt - 1) < a.query@.nq,
        8 * (t8 + rt) <= rows_up(a.query@.nq, 16),
        8 * (t8 + rt) <= usize::MAX,
        old(best)@.len() == a.query@.nq,
        forall|q: int|
            8 * t8 <= q < 8 * (t8 + rt) && q < a.query@.nq ==> best_of::<A>(
                a.grid(lut@),
                q,
                t0 as nat,
                #[trigger] old(best)@[q],
            ),
    ensures
        final(best)@.len() == a.query@.nq,
        forall|q: int|
            8 * t8 <= q < 8 * (t8 + rt) && q < a.query@.nq ==> best_of::<A>(
                a.grid(lut@),
                q,
                (t0 + tokens@.len()) as nat,
                #[trigger] final(best)@[q],
            ),
        forall|q: int|
            0 <= q < a.query@.nq && !(8 * t8 <= q < 8 * (t8 + rt)) ==> #[trigger] final(best)@[q]
                == old(best)@[q],
{
    let ghost grid = a.grid(lut@);
    let ghost start = best@;
    let nq: usize = a.query.n_tokens();
    let dim: usize = a.query.dim();
    let n: usize = tokens.len();
    let acc: Vec<[i32; 8]> = block_dots(a, lut, tokens, Ghost(t0 as int), t8, rt);
    let mut j: usize = 0;
    while j < n
        invariant
            a.wf(lut@),
            grid == a.grid(lut@),
            nq == a.query@.nq,
            dim == a.query@.dim,
            0 < rt <= 2,
            n == tokens@.len(),
            n <= NT,
            t0 + n <= a.n_tokens,
            forall|i: int| 0 <= i < n ==> #[trigger] tokens@[i].carries(*a, lut@, t0 + i),
            8 * (t8 + rt - 1) < nq,
            8 * (t8 + rt) <= usize::MAX,
            acc@.len() == n * rt,
            forall|x: int|
                0 <= x < acc@.len() ==> holds(
                    #[trigger] acc@[x]@,
                    *a,
                    tokens@[x / (rt as int)].w@,
                    8 * (t8 + x % (rt as int)),
                    a.query@.dim as int,
                ),
            j <= n,
            best@.len() == nq,
            start.len() == nq,
            forall|q: int|
                8 * t8 <= q < 8 * (t8 + rt) && q < nq ==> best_of::<A>(
                    grid,
                    q,
                    (t0 + j) as nat,
                    #[trigger] best@[q],
                ),
            forall|q: int|
                0 <= q < nq && !(8 * t8 <= q < 8 * (t8 + rt)) ==> #[trigger] best@[q] == start[q],
        decreases n - j,
    {
        proof {
            assert(tokens@[j as int].carries(*a, lut@, t0 + j));
            lemma_shape(*a, lut@);
        }
        let corr: i32 = 128 * sum_weights(&tokens[j].w, dim);
        let mut r: usize = 0;
        while r < rt
            invariant
                corr == 128 * sum(weight_at(tokens@[j as int].w@), a.query@.dim as int),
                a.wf(lut@),
                grid == a.grid(lut@),
                nq == a.query@.nq,
                0 < rt <= 2,
                n == tokens@.len(),
                n <= NT,
                t0 + n <= a.n_tokens,
                forall|i: int| 0 <= i < n ==> #[trigger] tokens@[i].carries(*a, lut@, t0 + i),
                8 * (t8 + rt - 1) < nq,
                8 * (t8 + rt) <= usize::MAX,
                acc@.len() == n * rt,
                forall|x: int|
                    0 <= x < acc@.len() ==> holds(
                        #[trigger] acc@[x]@,
                        *a,
                        tokens@[x / (rt as int)].w@,
                        8 * (t8 + x % (rt as int)),
                        a.query@.dim as int,
                    ),
                j < n,
                r <= rt,
                best@.len() == nq,
                start.len() == nq,
                forall|q: int|
                    8 * t8 <= q < 8 * (t8 + r) && q < nq ==> best_of::<A>(
                        grid,
                        q,
                        (t0 + j + 1) as nat,
                        #[trigger] best@[q],
                    ),
                forall|q: int|
                    8 * (t8 + r) <= q < 8 * (t8 + rt) && q < nq ==> best_of::<A>(
                        grid,
                        q,
                        (t0 + j) as nat,
                        #[trigger] best@[q],
                    ),
                forall|q: int|
                    0 <= q < nq && !(8 * t8 <= q < 8 * (t8 + rt)) ==> #[trigger] best@[q] == start[q],
            decreases rt - r,
        {
            proof {
                lemma_row_major(j as int, r as int, rt as int, n as int);
                assert(n * rt <= 8) by (nonlinear_arith)
                    requires
                        0 <= n <= 4,
                        0 <= rt <= 2,
                ;
                assert(tokens@[j as int].carries(*a, lut@, t0 + j));
            }
            let x: usize = j * rt + r;
            let row0: usize = 8 * (t8 + r);
            assert(holds(
                acc@[x as int]@,
                *a,
                tokens@[j as int].w@,
                row0 as int,
                a.query@.dim as int,
            ));
            let v: Vec<i32> = row_sums(a, lut, t0 + j, &tokens[j], &acc[x], corr, row0);
            fold_block::<A>(a, Ghost(lut@), t0 + j, &tokens[j], &v, row0, best);
            r += 1;
        }
        j += 1;
    }
}

/// All 8-row tiles for a block of tokens: pairs of tiles, then a remainder.
fn rows<A: Arith>(a: &Args, lut: &Lut, t0: usize, tokens: &[Token], best: &mut Vec<u32>)
    requires
        a.wf(lut@),
        a.query@.dim % 8 == 0,
        tokens@.len() <= NT,
        t0 + tokens@.len() <= a.n_tokens,
        forall|j: int| 0 <= j < tokens@.len() ==> #[trigger] tokens@[j].carries(*a, lut@, t0 + j),
        old(best)@.len() == a.query@.nq,
        forall|q: int|
            0 <= q < a.query@.nq ==> best_of::<A>(
                a.grid(lut@),
                q,
                t0 as nat,
                #[trigger] old(best)@[q],
            ),
    ensures
        final(best)@.len() == a.query@.nq,
        forall|q: int|
            0 <= q < a.query@.nq ==> best_of::<A>(
                a.grid(lut@),
                q,
                (t0 + tokens@.len()) as nat,
                #[trigger] final(best)@[q],
            ),
{
    let ghost grid = a.grid(lut@);
    let nq: usize = a.query.n_tokens();
    let tiles = a.query.tiles_u8();
    let len: usize = tiles.len();
    proof {
        lemma_shape(*a, lut@);
        let m = rows_up(a.query@.nq, 16) as int;
        let s = a.query@.stride();
        assert(m <= m * s) by (nonlinear_arith)
            requires
                0 <= m,
                1 <= s,
        ;
    }
    let n8: usize = nq / 8 + (if nq % 8 == 0 {
        0
    } else {
        1
    });
    let mut t8: usize = 0;
    while t8 < n8
        invariant
            a.wf(lut@),
            a.query@.dim % 8 == 0,
            grid == a.grid(lut@),
            nq == a.query@.nq,
            tokens@.len() <= NT,
            t0 + tokens@.len() <= a.n_tokens,
            forall|j: int|
                0 <= j < tokens@.len() ==> #[trigger] tokens@[j].carries(*a, lut@, t0 + j),
            8 * n8 <= rows_up(a.query@.nq, 16) <= len,
            8 * n8 < nq + 8,
            nq <= 8 * n8,
            t8 <= n8,
            best@.len() == nq,
            forall|q: int|
                0 <= q < nq && q < 8 * t8 ==> best_of::<A>(
                    grid,
                    q,
                    (t0 + tokens@.len()) as nat,
                    #[trigger] best@[q],
                ),
            forall|q: int|
                8 * t8 <= q < nq ==> best_of::<A>(grid, q, t0 as nat, #[trigger] best@[q]),
        decreases n8 - t8,
    {
        let rt: usize = if n8 - t8 >= 2 {
            2
        } else {
            1
        };
        let ghost before = best@;
        block::<A>(a, lut, t0, tokens, t8, rt, best);
        assert forall|q: int| 0 <= q < nq && q < 8 * (t8 + rt) implies best_of::<A>(
            grid,
            q,
            (t0 + tokens@.len()) as nat,
            #[trigger] best@[q],
        ) by {
            if q < 8 * t8 {
                assert(best@[q] == before[q]);
            }
        }
        t8 += rt;
    }
}

/// MaxSim, `NT` tokens at a time, then the leftover tokens one by one.
pub fn maxsim<A: Arith>(lut: &Lut, a: &Args) -> (s: u32)
    requires
        a.wf(lut@),
        lut@.nibble is Some,
        a.query@.dim % 8 == 0,
    ensures
        a.scored::<A>(lut@, s),
{
    let nq: usize = a.query.n_tokens();
    if nq == 0 || a.n_tokens == 0 {
        return ZERO;
    }
    let ghost grid = a.grid(lut@);
    let mut best: Vec<u32> = unscored(nq);
    let mut t: usize = 0;
    while t < a.n_tokens
        invariant
            a.wf(lut@),
            lut@.nibble is Some,
            a.query@.dim % 8 == 0,
            grid == a.grid(lut@),
            nq == a.query@.nq,
            t <= a.n_tokens,
            best@.len() == nq,
            forall|q: int| 0 <= q < nq ==> best_of::<A>(grid, q, t as nat, #[trigger] best@[q]),
        decreases a.n_tokens - t,
    {
        let n: usize = if a.n_tokens - t >= NT {
            NT
        } else {
            1
        };
        let mut tokens: Vec<Token> = Vec::new();
        let mut j: usize = 0;
        while j < n
            invariant
                a.wf(lut@),
                lut@.nibble is Some,
                j <= n,
                t + n <= a.n_tokens,
                tokens@.len() == j,
                forall|i: int| 0 <= i < j ==> #[trigger] tokens@[i].carries(*a, lut@, t + i),
            decreases n - j,
        {
            tokens.push(Token::load(lut, a, t + j));
            j += 1;
        }
        rows::<A>(a, lut, t, &tokens, &mut best);
        t += n;
    }
    total_score::<A>(&best, Ghost(grid), Ghost(a.n_tokens as nat))
}

} // verus!
