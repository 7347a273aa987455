//! The `smmla` kernel: `tbl` expansion, 2x2 matrix accumulation.
//!
//! `smmla` reads each 16-byte source as a 2x8 int8 matrix and accumulates the
//! 2x2 product into four lanes. With two query rows in one operand
//! ([`crate::PreparedQuery::pairs`]) and two document tokens' weights in the other,
//! one instruction is 32 multiply-accumulates for a 2-row by 2-token block.
//!
//! Register block: `RP` row pairs by `TP` token pairs. The two tokens of a
//! pair are interleaved once per pair, right after expansion. An odd trailing
//! token's partner is all-zero weights and is never folded; an odd query's
//! phantom row is all-zero codes and is excluded by the fold's row count.
use super::lanes::{dot8, load, roomy, smmla, LANE_MAX};
use super::model::{
    best_of, lemma_product_bound, lemma_shape, total_score, unscored, Args,
};
use super::token::{fold_block, lemma_plane_bound, lemma_plane_dot, products, Token};
use crate::error::MAX_DIM;
use crate::float::{Arith, ZERO};
use crate::lut::{Lut, LutView};
use crate::query::{lemma_pair_index, pair_index, rows_up};
use crate::sums::{lemma_sum_eq, lemma_sum_tail, sum};
use vstd::prelude::*;

verus! {

/// Row pairs per block (8 query rows).
const RP: usize = 4;

/// Token pairs per block (4 document tokens).
const TP: usize = 2;

/// Bytes of one token pair's interleaved weights.
const PAIR_BYTES: usize = 512;

/// The weight at plane position `p` of token `h` of an interleaved pair.
spec fn half(pair: Seq<i8>, h: int, p: int) -> i8 {
    pair[16 * (p / 8) + 8 * h + p % 8]
}

/// Interleave two tokens' weights into 16-byte groups of 8 plane positions of
/// the first, then the same 8 of the second.
fn interleave(w0: &[i8; MAX_DIM], w1: &[i8; MAX_DIM]) -> (out: [i8; PAIR_BYTES])
    ensures
        forall|p: int| 0 <= p < MAX_DIM ==> #[trigger] half(out@, 0, p) == w0[p],
        forall|p: int| 0 <= p < MAX_DIM ==> #[trigger] half(out@, 1, p) == w1[p],
{
    let mut out: [i8; PAIR_BYTES] = [0i8; 512];
    let mut x: usize = 0;
    while x < PAIR_BYTES
        invariant
            x <= PAIR_BYTES,
            forall|y: int|
                0 <= y < x ==> #[trigger] out[y] == (if y % 16 < 8 {
                    w0[8 * (y / 16) + y % 8]
                } else {
                    w1[8 * (y / 16) + y % 8]
                }),
        decreases PAIR_BYTES - x,
    {
        let p: usize = 8 * (x / 16) + x % 8;
        out[x] = if x % 16 < 8 {
            w0[p]
        } else {
            w1[p]
        };
        x += 1;
    }
    assert forall|p: int| 0 <= p < MAX_DIM implies #[trigger] half(out@, 0, p) == w0[p] by {
        let y = 16 * (p / 8) + 8 * 0 + p % 8;
        assert(out[y] == w0[8 * (y / 16) + y % 8]);
    }
    assert forall|p: int| 0 <= p < MAX_DIM implies #[trigger] half(out@, 1, p) == w1[p] by {
        let y = 16 * (p / 8) + 8 * 1 + p % 8;
        assert(out[y] == w1[8 * (y / 16) + y % 8]);
    }
    out
}

/// The products of a query row and one token of an interleaved pair.
spec fn cell(a: Args, pair: Seq<i8>, row: int, h: int) -> spec_fn(int) -> int {
    |p: int| a.query@.pair(row, p) * half(pair, h, p)
}

/// The four lanes hold the sums of the first `n` products of rows `row`,
/// `row + 1` and the pair's two tokens.
spec fn holds(lanes: Seq<i32>, a: Args, pair: Seq<i8>, row: int, n: int) -> bool {
    &&& lanes.len() == 4
    &&& 0 <= n <= 256
    &&& forall|i: int|
        0 <= i < 4 ==> #[trigger] lanes[i] == sum(cell(a, pair, row + i / 2, i % 2), n)
    &&& forall|i: int| 0 <= i < 4 ==> -16129 * n <= #[trigger] lanes[i] <= 16129 * n
}

/// A pair of interleaved weights of int8 codes.
spec fn coded(pair: Seq<i8>) -> bool {
    forall|h: int, p: int|
        0 <= h < 2 && 0 <= p < MAX_DIM ==> -127 <= #[trigger] half(pair, h, p) <= 127
}

/// One `smmla`: 8 more plane positions of two rows and two tokens.
#[verifier::spinoff_prover]
fn step(
    a: &Args,
    Ghost(lut): Ghost<LutView>,
    pair: &[i8; PAIR_BYTES],
    rp: usize,
    g: usize,
    lanes: &[i32; 4],
) -> (next: [i32; 4])
    requires
        a.wf(lut),
        coded(pair@),
        2 * rp + 2 <= rows_up(a.query@.nq, 2),
        8 * g + 8 <= a.query@.dim,
        holds(lanes@, *a, pair@, 2 * rp, 8 * g),
    ensures
        holds(next@, *a, pair@, 2 * rp, 8 * g + 8),
{
    proof {
        lemma_shape(*a, lut);
    }
    let ghost view = a.query@;
    let ghost rows = rows_up(a.query@.nq, 2) as int;
    let ghost stride_i = view.stride();
    let stride: usize = a.query.stride();
    let pairs = a.query.pairs();
    let len: usize = pairs.len();
    proof {
        lemma_pair_index(stride_i, 2 * rp, 8 * g, rows);
        lemma_pair_index(stride_i, 2 * rp + 1, 8 * g + 7, rows);
        assert((2 * rp) / 2 == rp && (2 * rp + 1) / 2 == rp as int);
        assert((8 * g) / 8 == g && (8 * g + 7) / 8 == g as int);
        assert(0 <= rp * (2 * stride_i)) by (nonlinear_arith)
            requires
                0 <= rp,
                0 < stride_i,
        ;
    }
    let at: usize = rp * (2 * stride) + g * 16;
    let q: [i8; 16] = load(pairs, at);
    let w: [i8; 16] = load(pair, g * 16);
    proof {
        assert forall|i: int| 0 <= i < lanes@.len() implies -LANE_MAX <= #[trigger] lanes@[i]
            <= LANE_MAX by {
            assert(-16129 * (8 * g) <= lanes@[i] <= 16129 * (8 * g));
        }
        assert(roomy(lanes@));
    }
    let next: [i32; 4] = smmla(lanes, &q, &w);
    proof {
        let n = 8 * g as int;
        assert forall|i: int| 0 <= i < 4 implies #[trigger] next@[i] == sum(
            cell(*a, pair@, 2 * rp + i / 2, i % 2),
            n + 8,
        ) && -16129 * (n + 8) <= next@[i] <= 16129 * (n + 8) by {
            let r = i / 2;
            let h = i % 2;
            let row = 2 * rp + r;
            let f = cell(*a, pair@, row, h);
            let d = |j: int| q@[8 * r + j] * w@[8 * h + j];
            let e = |j: int| f(n + j);
            assert(0 <= r < 2 && 0 <= h < 2);
            assert forall|j: int| 0 <= j < 8 implies #[trigger] d(j) == e(j) && -16129 <= d(j)
                <= 16129 by {
                let p = n + j;
                assert(p / 8 == g && p % 8 == j && row / 2 == rp && row % 2 == r);
                assert(pair_index(stride_i, row, p) == at + (8 * r + j));
                assert(q@[8 * r + j] == view.pair(row, p));
                assert(w@[8 * h + j] == half(pair@, h, p));
                lemma_pair_bound(*a, lut, row, p);
                assert(-127 <= half(pair@, h, p) <= 127);
                lemma_product_bound(view.pair(row, p) as int, half(pair@, h, p) as int);
            }
            lemma_sum_eq(d, e, 8);
            lemma_sum_tail(f, n, 8);
            crate::sums::lemma_sum_bound(d, 8, 16129);
            assert(next[i] == lanes[i] + dot8(q@, w@, r, h));
            assert(dot8(q@, w@, r, h) == sum(d, 8));
            assert(lanes@[i] == sum(f, n));
        }
    }
    next
}

/// Codes in row pairs are int8 codes.
proof fn lemma_pair_bound(a: Args, lut: LutView, row: int, p: int)
    requires
        a.wf(lut),
        0 <= row < rows_up(a.query@.nq, 2),
        0 <= p < a.query@.stride(),
    ensures
        -127 <= a.query@.pair(row, p) <= 127,
{
    lemma_shape(a, lut);
    assert(a.query@.pair(row, p) == (if row < a.query@.nq {
        a.query@.plane(row, p)
    } else {
        0i8
    }));
    if row < a.query@.nq {
        lemma_plane_bound(a, lut, row, p);
    }
}

/// The interleaved pairs of a block of tokens; an odd last token's partner
/// has zero weights.
spec fn paired(tokens: Seq<Token>, wp: Seq<[i8; PAIR_BYTES]>) -> bool {
    &&& wp.len() == (tokens.len() + 1) / 2
    &&& forall|u: int, p: int|
        0 <= u < tokens.len() && 0 <= p < MAX_DIM ==> #[trigger] half(wp[u / 2]@, u % 2, p)
            == tokens[u].w[p]
    &&& forall|tp: int| 0 <= tp < wp.len() ==> coded(#[trigger] wp[tp]@)
}

/// The accumulators of `r` row pairs from pair `p0` on and all token pairs:
/// accumulator `rp * n + tp` belongs to row pair `p0 + rp` and token pair `tp`.
fn block_dots(
    a: &Args,
    lut: &Lut,
    wp: &[[i8; PAIR_BYTES]],
    p0: usize,
    r: usize,
) -> (acc: Vec<[i32; 4]>)
    requires
        a.wf(lut@),
        a.query@.dim % 8 == 0,
        r <= RP,
        0 < wp@.len() <= TP,
        forall|tp: int| 0 <= tp < wp@.len() ==> coded(#[trigger] wp@[tp]@),
        2 * (p0 + r) <= rows_up(a.query@.nq, 2),
        p0 + r <= usize::MAX,
    ensures
        acc@.len() == r * wp@.len(),
        forall|x: int|
            0 <= x < acc@.len() ==> holds(
                #[trigger] acc@[x]@,
                *a,
                wp@[x % (wp@.len() as int)]@,
                2 * (p0 + x / (wp@.len() as int)),
                a.query@.dim as int,
            ),
{
    proof {
        lemma_shape(*a, lut@);
    }
    let dim: usize = a.query.dim();
    let d8n: usize = dim / 8;
    let n: usize = wp.len();
    assert(r * n <= 8 && 0 <= r * n) by (nonlinear_arith)
        requires
            0 <= r <= 4,
            0 <= n <= 2,
    ;
    let count: usize = r * n;
    let mut acc: Vec<[i32; 4]> = Vec::new();
    let mut x: usize = 0;
    while x < count
        invariant
            x <= count,
            n == wp@.len(),
            acc@.len() == x,
            forall|y: int|
                0 <= y < x ==> holds(
                    #[trigger] acc@[y]@,
                    *a,
                    wp@[y % (n as int)]@,
                    2 * (p0 + y / (n as int)),
                    0,
                ),
        decreases count - x,
    {
        let zero: [i32; 4] = [0i32; 4];
        acc.push(zero);
        x += 1;
    }
    let mut g: usize = 0;
    while g < d8n
        invariant
            a.wf(lut@),
            r <= RP,
            n == wp@.len(),
            0 < n <= TP,
            count == r * n,
            forall|tp: int| 0 <= tp < n ==> coded(#[trigger] wp@[tp]@),
            2 * (p0 + r) <= rows_up(a.query@.nq, 2),
            p0 + r <= usize::MAX,
            8 * d8n == a.query@.dim,
            g <= d8n <= 32,
            acc@.len() == count,
            forall|y: int|
                0 <= y < count ==> holds(
                    #[trigger] acc@[y]@,
                    *a,
                    wp@[y % (n as int)]@,
                    2 * (p0 + y / (n as int)),
                    8 * g as int,
                ),
        decreases d8n - g,
    {
        let mut x: usize = 0;
        while x < count
            invariant
                a.wf(lut@),
                r <= RP,
                n == wp@.len(),
                0 < n <= TP,
                count == r * n,
                forall|tp: int| 0 <= tp < n ==> coded(#[trigger] wp@[tp]@),
                2 * (p0 + r) <= rows_up(a.query@.nq, 2),
                p0 + r <= usize::MAX,
                8 * g + 8 <= a.query@.dim,
                g < d8n <= 32,
                x <= count,
                acc@.len() == count,
                forall|y: int|
                    0 <= y < x ==> holds(
                        #[trigger] acc@[y]@,
                        *a,
                        wp@[y % (n as int)]@,
                        2 * (p0 + y / (n as int)),
                        8 * g + 8,
                    ),
                forall|y: int|
                    x <= y < count ==> holds(
                        #[trigger] acc@[y]@,
                        *a,
                        wp@[y % (n as int)]@,
                        2 * (p0 + y / (n as int)),
                        8 * g as int,
                    ),
            decreases count - x,
        {
            let rp: usize = x / n;
            let tp: usize = x % n;
            proof {
                let xi = x as int;
                let ni = n as int;
                assert(0 <= xi / ni < r && 0 <= xi % ni < ni) by (nonlinear_arith)
                    requires
                        0 <= xi < r * ni,
                        0 < ni,
                ;
                assert(holds(acc@[x as int]@, *a, wp@[xi % ni]@, 2 * (p0 + xi / ni), 8 * g as int));
                assert(coded(wp@[tp as int]@));
            }
            let lanes: [i32; 4] = acc[x];
            let next: [i32; 4] = step(a, Ghost(lut@), &wp[tp], p0 + rp, g, &lanes);
            acc.set(x, next);
            x += 1;
        }
        g += 1;
    }
    acc
}

/// A lane of a finished accumulator is a dot product.
proof fn lemma_lane_dot(
    a: Args,
    lut: LutView,
    t: int,
    token: Token,
    pair: Seq<i8>,
    h: int,
    row: int,
)
    requires
        a.wf(lut),
        token.carries(a, lut, t),
        0 <= row < a.query@.nq,
        forall|p: int| 0 <= p < MAX_DIM ==> #[trigger] half(pair, h, p) == token.w[p],
    ensures
        sum(cell(a, pair, row, h), a.query@.dim as int) == a.dot(lut, row, t),
{
    lemma_shape(a, lut);
    let f = cell(a, pair, row, h);
    let g = products(a, token.w@, row);
    assert forall|p: int| 0 <= p < a.query@.dim implies #[trigger] f(p) == g(p) by {
        assert(a.query@.pair(row, p) == a.query@.plane(row, p));
        assert(half(pair, h, p) == token.w[p]);
    }
    lemma_sum_eq(f, g, a.query@.dim as int);
    lemma_plane_dot(a, lut, token, row, t, a.query@.dim as int);
}

/// The smaller of two row counts.
spec fn least(x: int, y: int) -> int {
    if x < y {
        x
    } else {
        y
    }
}

/// The dot products of rows `base ..` and token `u` of the block: two
/// consecutive row pairs unzip into one 4-row vector, even lanes for the
/// first token of a pair, odd for the second; a lone final pair gives 2 rows.
fn unzip(
    a: &Args,
    lut: &Lut,
    t0: usize,
    tokens: &[Token],
    wp: &[[i8; PAIR_BYTES]],
    acc: &[[i32; 4]],
    p0: usize,
    r: usize,
    rp: usize,
    u: usize,
) -> (v: Vec<i32>)
    requires
        a.wf(lut@),
        r <= RP,
        rp < r,
        u < tokens@.len() <= 2 * TP,
        t0 + tokens@.len() <= a.n_tokens,
        forall|j: int| 0 <= j < tokens@.len() ==> #[trigger] tokens@[j].carries(*a, lut@, t0 + j),
        paired(tokens@, wp@),
        2 * (p0 + r) <= rows_up(a.query@.nq, 2),
        acc@.len() == r * wp@.len(),
        forall|x: int|
            0 <= x < acc@.len() ==> holds(
                #[trigger] acc@[x]@,
                *a,
                wp@[x % (wp@.len() as int)]@,
                2 * (p0 + x / (wp@.len() as int)),
                a.query@.dim as int,
            ),
    ensures
        v@.len() == least(
            a.query@.nq - 2 * (p0 + rp),
            if rp + 1 < r {
                4
            } else {
                2
            },
        ),
        forall|i: int|
            0 <= i < v@.len() ==> #[trigger] v@[i] == a.dot(lut@, 2 * (p0 + rp) + i, t0 + u),
{
    let nq: usize = a.query.n_tokens();
    let n: usize = wp.len();
    let tp: usize = u / 2;
    let h: usize = u % 2;
    let base: usize = 2 * (p0 + rp);
    let full: usize = if rp + 1 < r {
        4
    } else {
        2
    };
    let take: usize = if nq - base < full {
        nq - base
    } else {
        full
    };
    proof {
        assert(r * n <= 8 && 0 <= r * n) by (nonlinear_arith)
            requires
                0 <= r <= 4,
                0 <= n <= 2,
        ;
    }
    let mut v: Vec<i32> = Vec::new();
    let mut i: usize = 0;
    while i < take
        invariant
            a.wf(lut@),
            r <= RP,
            rp < r,
            u < tokens@.len() <= 2 * TP,
            t0 + tokens@.len() <= a.n_tokens,
            forall|j: int|
                0 <= j < tokens@.len() ==> #[trigger] tokens@[j].carries(*a, lut@, t0 + j),
            paired(tokens@, wp@),
            n == wp@.len(),
            0 < n <= 2,
            tp == u / 2,
            h == u % 2,
            tp < n,
            nq == a.query@.nq,
            base == 2 * (p0 + rp),
            full == 4 ==> rp + 1 < r,
            full == 2 || full == 4,
            take <= full,
            base + take <= nq,
            i <= take,
            r * n <= 8,
            acc@.len() == r * n,
            forall|x: int|
                0 <= x < acc@.len() ==> holds(
                    #[trigger] acc@[x]@,
                    *a,
                    wp@[x % (n as int)]@,
                    2 * (p0 + x / (n as int)),
                    a.query@.dim as int,
                ),
            v@.len() == i,
            forall|j: int| 0 <= j < i ==> #[trigger] v@[j] == a.dot(lut@, base + j, t0 + u),
        decreases take - i,
    {
        let pair: usize = rp + i / 2;
        proof {
            crate::sums::lemma_row_major(pair as int, tp as int, n as int, r as int);
        }
        let x: usize = pair * n + tp;
        let lane: usize = 2 * (i % 2) + h;
        proof {
            assert(holds(
                acc@[x as int]@,
                *a,
                wp@[tp as int]@,
                2 * (p0 + pair),
                a.query@.dim as int,
            ));
            assert(lane as int / 2 == i % 2 && lane as int % 2 == h as int);
            assert(2 * (p0 + pair) + i % 2 == base + i);
            assert(acc@[x as int]@[lane as int] == sum(
                cell(*a, wp@[tp as int]@, base + i, h as int),
                a.query@.dim as int,
            ));
            let ui = u as int;
            assert(tokens@[ui].carries(*a, lut@, t0 + u));
            assert forall|p: int| 0 <= p < MAX_DIM implies #[trigger] half(
                wp@[tp as int]@,
                h as int,
                p,
            ) == tokens@[ui].w[p] by {
                assert(half(wp@[ui / 2]@, ui % 2, p) == tokens@[ui].w[p]);
            }
            lemma_lane_dot(
                *a,
                lut@,
                t0 + u,
                tokens@[ui],
                wp@[tp as int]@,
                h as int,
                base + i,
            );
        }
        v.push(acc[x][lane]);
        i += 1;
    }
    v
}

/// One block: `r` row pairs from pair `p0` on by all token pairs, then the
/// fold for those rows and the real tokens.
#[verifier::spinoff_prover]
fn block<A: Arith>(
    a: &Args,
    lut: &Lut,
    t0: usize,
    tokens: &[Token],
    wp: &[[i8; PAIR_BYTES]],
    p0: usize,
    r: usize,
    best: &mut Vec<u32>,
)
    requires
        a.wf(lut@),
        a.query@.dim % 8 == 0,
        0 < r <= RP,
        0 < tokens@.len() <= 2 * TP,
        t0 + tokens@.len() <= a.n_tokens,
        forall|j: int| 0 <= j < tokens@.len() ==> #[trigger] tokens@[j].carries(*a, lut@, t0 + j),
        paired(tokens@, wp@),
        2 * (p0 + r) <= rows_up(a.query@.nq, 2),
        2 * (p0 + r) <= usize::MAX,
        old(best)@.len() == a.query@.nq,
        forall|q: int|
            2 * p0 <= q < least(2 * (p0 + r), a.query@.nq as int) ==> best_of::<A>(
                a.grid(lut@),
                q,
                t0 as nat,
                #[trigger] old(best)@[q],
            ),
    ensures
        final(best)@.len() == a.query@.nq,
        forall|q: int|
            2 * p0 <= q < least(2 * (p0 + r), a.query@.nq as int) ==> best_of::<A>(
                a.grid(lut@),
                q,
                (t0 + tokens@.len()) as nat,
                #[trigger] final(best)@[q],
            ),
        forall|q: int|
            0 <= q < a.query@.nq && !(2 * p0 <= q < 2 * (p0 + r)) ==> #[trigger] final(best)@[q]
                == old(best)@[q],
{
    let ghost grid = a.grid(lut@);
    let ghost start = best@;
    let nq: usize = a.query.n_tokens();
    let ghost hi = least(2 * (p0 + r), nq as int);
    let acc: Vec<[i32; 4]> = block_dots(a, lut, wp, p0, r);
    let n: usize = tokens.len();
    let mut u: usize = 0;
    while u < n
        invariant
            a.wf(lut@),
            grid == a.grid(lut@),
            nq == a.query@.nq,
            n == tokens@.len(),
            0 < r <= RP,
            n <= 2 * TP,
            t0 + n <= a.n_tokens,
            forall|j: int| 0 <= j < n ==> #[trigger] tokens@[j].carries(*a, lut@, t0 + j),
            paired(tokens@, wp@),
            2 * (p0 + r) <= rows_up(a.query@.nq, 2),
            2 * (p0 + r) <= usize::MAX,
            acc@.len() == r * wp@.len(),
            forall|x: int|
                0 <= x < acc@.len() ==> holds(
                    #[trigger] acc@[x]@,
                    *a,
                    wp@[x % (wp@.len() as int)]@,
                    2 * (p0 + x / (wp@.len() as int)),
                    a.query@.dim as int,
                ),
            hi == least(2 * (p0 + r), nq as int),
            u <= n,
            best@.len() == nq,
            start.len() == nq,
            forall|q: int|
                2 * p0 <= q < hi ==> best_of::<A>(grid, q, (t0 + u) as nat, #[trigger] best@[q]),
            forall|q: int|
                0 <= q < nq && !(2 * p0 <= q < 2 * (p0 + r)) ==> #[trigger] best@[q] == start[q],
        decreases n - u,
    {
        let mut rp: usize = 0;
        while rp < r
            invariant
                a.wf(lut@),
                grid == a.grid(lut@),
                nq == a.query@.nq,
                n == tokens@.len(),
                0 < r <= RP,
                n <= 2 * TP,
                t0 + n <= a.n_tokens,
                forall|j: int| 0 <= j < n ==> #[trigger] tokens@[j].carries(*a, lut@, t0 + j),
                paired(tokens@, wp@),
                2 * (p0 + r) <= rows_up(a.query@.nq, 2),
                2 * (p0 + r) <= usize::MAX,
                acc@.len() == r * wp@.len(),
                forall|x: int|
                    0 <= x < acc@.len() ==> holds(
                        #[trigger] acc@[x]@,
                        *a,
                        wp@[x % (wp@.len() as int)]@,
                        2 * (p0 + x / (wp@.len() as int)),
                        a.query@.dim as int,
                    ),
                hi == least(2 * (p0 + r), nq as int),
                u < n,
                rp <= r + 1,
                best@.len() == nq,
                start.len() == nq,
                forall|q: int|
                    2 * p0 <= q < hi && q < 2 * (p0 + rp) ==> best_of::<A>(
                        grid,
                        q,
                        (t0 + u + 1) as nat,
                        #[trigger] best@[q],
                    ),
                forall|q: int|
                    2 * (p0 + rp) <= q < hi ==> best_of::<A>(
                        grid,
                        q,
                        (t0 + u) as nat,
                        #[trigger] best@[q],
                    ),
                forall|q: int|
                    0 <= q < nq && !(2 * p0 <= q < 2 * (p0 + r)) ==> #[trigger] best@[q] == start[q],
            decreases r + 1 - rp,
        {
            let v: Vec<i32> = unzip(a, lut, t0, tokens, wp, &acc, p0, r, rp, u);
            let base: usize = 2 * (p0 + rp);
            assert(tokens@[u as int].carries(*a, lut@, t0 + u));
            fold_block::<A>(a, Ghost(lut@), t0 + u, &tokens[u], &v, base, best);
            rp += 2;
        }
        u += 1;
    }
}

/// All row pairs for a block of tokens: blocks of `RP` pairs, then the rest.
fn rows<A: Arith>(
    a: &Args,
    lut: &Lut,
    t0: usize,
    tokens: &[Token],
    wp: &[[i8; PAIR_BYTES]],
    best: &mut Vec<u32>,
)
    requires
        a.wf(lut@),
        a.query@.dim % 8 == 0,
        0 < tokens@.len() <= 2 * TP,
        t0 + tokens@.len() <= a.n_tokens,
        forall|j: int| 0 <= j < tokens@.len() ==> #[trigger] tokens@[j].carries(*a, lut@, t0 + j),
        paired(tokens@, wp@),
        old(best)@.len() == a.query@.nq,
        forall|q: int|
            0 <= q < a.query@.nq ==> best_of::<A>(
                a.grid(lut@),
                q,
                t0 as nat,
                #[trigger] old(best)@[q],
            ),
    ensures
        final(best)@.len() == a.query@.nq,
        forall|q: int|
            0 <= q < a.query@.nq ==> best_of::<A>(
                a.grid(lut@),
                q,
                (t0 + tokens@.len()) as nat,
                #[trigger] final(best)@[q],
            ),
{
    let ghost grid = a.grid(lut@);
    let nq: usize = a.query.n_tokens();
    let pairs = a.query.pairs();
    let len: usize = pairs.len();
    proof {
        lemma_shape(*a, lut@);
        let m = rows_up(a.query@.nq, 2) as int;
        let s = a.query@.stride();
        assert(2 * m <= m * s) by (nonlinear_arith)
            requires
                0 <= m,
                2 <= s,
        ;
    }
    let npairs: usize = nq / 2 + nq % 2;
    let mut p0: usize = 0;
    while p0 < npairs
        invariant
            a.wf(lut@),
            a.query@.dim % 8 == 0,
            grid == a.grid(lut@),
            nq == a.query@.nq,
            0 < tokens@.len() <= 2 * TP,
            t0 + tokens@.len() <= a.n_tokens,
            forall|j: int|
                0 <= j < tokens@.len() ==> #[trigger] tokens@[j].carries(*a, lut@, t0 + j),
            paired(tokens@, wp@),
            2 * npairs == rows_up(a.query@.nq, 2),
            2 * npairs <= len,
            p0 <= npairs,
            best@.len() == nq,
            forall|q: int|
                0 <= q < nq && q < 2 * p0 ==> best_of::<A>(
                    grid,
                    q,
                    (t0 + tokens@.len()) as nat,
                    #[trigger] best@[q],
                ),
            forall|q: int|
                2 * p0 <= q < nq ==> best_of::<A>(grid, q, t0 as nat, #[trigger] best@[q]),
        decreases npairs - p0,
    {
        let r: usize = if npairs - p0 < RP {
            npairs - p0
        } else {
            RP
        };
        let ghost before = best@;
        block::<A>(a, lut, t0, tokens, wp, p0, r, best);
        assert forall|q: int| 0 <= q < nq && q < 2 * (p0 + r) implies best_of::<A>(
            grid,
            q,
            (t0 + tokens@.len()) as nat,
            #[trigger] best@[q],
        ) by {
            if q < 2 * p0 {
                assert(best@[q] == before[q]);
            }
        }
        p0 += r;
    }
}

/// The interleaved pairs of a block of tokens.
fn pair_up(a: &Args, lut: &Lut, t0: usize, tokens: &[Token]) -> (wp: Vec<[i8; PAIR_BYTES]>)
    requires
        a.wf(lut@),
        tokens@.len() <= 2 * TP,
        forall|j: int| 0 <= j < tokens@.len() ==> #[trigger] tokens@[j].carries(*a, lut@, t0 + j),
    ensures
        paired(tokens@, wp@),
{
    let zero: [i8; MAX_DIM] = [0i8; 256];
    let n: usize = tokens.len();
    let count: usize = (n + 1) / 2;
    let mut wp: Vec<[i8; PAIR_BYTES]> = Vec::new();
    let mut tp: usize = 0;
    while tp < count
        invariant
            n == tokens@.len(),
            n <= 2 * TP,
            count == (n + 1) / 2,
            forall|j: int| 0 <= j < n ==> #[trigger] tokens@[j].carries(*a, lut@, t0 + j),
            forall|p: int| 0 <= p < MAX_DIM ==> #[trigger] zero[p] == 0,
            tp <= count,
            wp@.len() == tp,
            forall|u: int, p: int|
                0 <= u < n && u < 2 * tp && 0 <= p < MAX_DIM ==> #[trigger] half(
                    wp@[u / 2]@,
                    u % 2,
                    p,
                ) == tokens@[u].w[p],
            forall|i: int| 0 <= i < tp ==> coded(#[trigger] wp@[i]@),
        decreases count - tp,
    {
        let u: usize = 2 * tp;
        assert(tokens@[u as int].carries(*a, lut@, t0 + u));
        let pair: [i8; PAIR_BYTES] = if u + 1 < n {
            assert(tokens@[u + 1].carries(*a, lut@, t0 + (u + 1)));
            interleave(&tokens[u].w, &tokens[u + 1].w)
        } else {
            interleave(&tokens[u].w, &zero)
        };
        proof {
            assert forall|h: int, p: int| 0 <= h < 2 && 0 <= p < MAX_DIM implies -127
                <= #[trigger] half(pair@, h, p) <= 127 by {
                if h == 0 {
                    assert(half(pair@, 0, p) == tokens@[u as int].w[p]);
                } else if u + 1 < n {
                    assert(half(pair@, 1, p) == tokens@[u + 1].w[p]);
                } else {
                    assert(half(pair@, 1, p) == zero[p]);
                }
            }
            assert(coded(pair@));
        }
        let ghost before = wp@;
        wp.push(pair);
        proof {
            assert forall|v: int, p: int|
                0 <= v < n && v < 2 * (tp + 1) && 0 <= p < MAX_DIM implies #[trigger] half(
                wp@[v / 2]@,
                v % 2,
                p,
            ) == tokens@[v].w[p] by {
                if v < 2 * tp {
                    assert(wp@[v / 2] == before[v / 2]);
                    assert(half(before[v / 2]@, v % 2, p) == tokens@[v].w[p]);
                } else {
                    assert(wp@[v / 2] == pair);
                }
            }
        }
        tp += 1;
    }
    wp
}

/// MaxSim, `2 * TP` tokens at a time, then a pair or a final single.
pub fn maxsim<A: Arith>(lut: &Lut, a: &Args) -> (s: u32)
    requires
        a.wf(lut@),
        lut@.nibble is Some,
        a.query@.dim % 8 == 0,
    ensures
        a.scored::<A>(lut@, s),
{
    let nq: usize = a.query.n_tokens();
    if nq == 0 || a.n_tokens == 0 {
        return ZERO;
    }
    let ghost grid = a.grid(lut@);
    let mut best: Vec<u32> = unscored(nq);
    let mut t: usize = 0;
    while t < a.n_tokens
        invariant
            a.wf(lut@),
            lut@.nibble is Some,
            a.query@.dim % 8 == 0,
            grid == a.grid(lut@),
            nq == a.query@.nq,
            t <= a.n_tokens,
            best@.len() == nq,
            forall|q: int| 0 <= q < nq ==> best_of::<A>(grid, q, t as nat, #[trigger] best@[q]),
        decreases a.n_tokens - t,
    {
        let left: usize = a.n_tokens - t;
        let n: usize = if left >= 2 * TP {
            2 * TP
        } else if left >= 2 {
            2
        } else {
            1
        };
        let mut tokens: Vec<Token> = Vec::new();
        let mut j: usize = 0;
        while j < n
            invariant
                a.wf(lut@),
                lut@.nibble is Some,
                j <= n,
                t + n <= a.n_tokens,
                tokens@.len() == j,
                forall|i: int| 0 <= i < j ==> #[trigger] tokens@[i].carries(*a, lut@, t + i),
            decreases n - j,
        {
            tokens.push(Token::load(lut, a, t + j));
            j += 1;
        }
        let wp: Vec<[i8; PAIR_BYTES]> = pair_up(a, lut, t, &tokens);
        rows::<A>(a, lut, t, &tokens, &wp, &mut best);
        t += n;
    }
    total_score::<A>(&best, Ghost(grid), Ghost(a.n_tokens as nat))
}

} // verus!
