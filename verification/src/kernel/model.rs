//! What a score is: the arithmetic every kernel has to reproduce.
use crate::codes::Codes;
use crate::float::{
    addition, adds_in_order, adds_numbers, alike, conversion, deterministic, greater, gt, is_nan, product, rank, Arith, NEG_INFINITY,
    NEG_ZERO, ONE, ZERO,
};
use crate::lut::{Lut, LutView};
use crate::packing::lemma_keys_at;
use crate::query::{PreparedQuery, QueryView};
use crate::sums::{lemma_row_major, lemma_sum_bound, sum};
use vstd::prelude::*;

verus! {

/// What one query row scores against one token: `(sqw * dot + centroid) * inv`.
pub struct Term {
    /// Pattern of the row's factor `scale_q * scale_w`.
    pub sqw: u32,
    /// The integer dot product of the row's codes and the token's weights.
    pub dot: int,
    /// Pattern of the centroid's score for the row.
    pub centroid: u32,
    /// Pattern of the token's inverse norm.
    pub inv: u32,
}

/// The term of every (row, token).
pub type Grid = spec_fn(int, int) -> Term;

/// `s` is a value the host's arithmetic gives a term: convert, multiply, add,
/// and the inverse norm last.
pub open spec fn evaluates<A: Arith>(term: Term, s: u32) -> bool {
    exists|f: u32, p: u32, u: u32| #[trigger]
        conversion::<A>(term.dot as i32, f) && #[trigger] product::<A>(term.sqw, f, p)
            && #[trigger] addition::<A>(p, term.centroid, u) && product::<A>(u, term.inv, s)
}

/// The better of the best so far and a new score; a score replaces it only
/// where it compares greater.
pub open spec fn better(best: u32, s: u32) -> u32 {
    if greater(s, best) {
        s
    } else {
        best
    }
}

/// `after` is the best once a term has been seen.
pub open spec fn advances<A: Arith>(term: Term, before: u32, after: u32) -> bool {
    exists|s: u32| #[trigger] evaluates::<A>(term, s) && after == better(before, s)
}

/// `b` is the best score of row `q` over the first `n` tokens.
pub open spec fn best_of<A: Arith>(grid: Grid, q: int, n: nat, b: u32) -> bool
    decreases n,
{
    if n == 0 {
        b == NEG_INFINITY
    } else {
        exists|prev: u32|
            best_of::<A>(grid, q, (n - 1) as nat, prev) && #[trigger] advances::<A>(
                grid(q, n - 1),
                prev,
                b,
            )
    }
}

/// `s` is the sum of the best scores of the first `m` rows, in row order.
pub open spec fn sums_to<A: Arith>(grid: Grid, m: nat, n: nat, s: u32) -> bool
    decreases m,
{
    if m == 0 {
        s == NEG_ZERO
    } else {
        exists|prev: u32, b: u32|
            sums_to::<A>(grid, (m - 1) as nat, n, prev) && best_of::<A>(grid, m - 1, n, b)
                && #[trigger] addition::<A>(prev, b, s)
    }
}

/// `s` is the MaxSim of `m` query rows and `n` tokens: each row's best score
/// over the tokens, summed over the rows; zero where there are none.
pub open spec fn scores<A: Arith>(grid: Grid, m: nat, n: nat, s: u32) -> bool {
    if m == 0 || n == 0 {
        s == ZERO
    } else {
        sums_to::<A>(grid, m, n, s)
    }
}

/// The weight a packed document stores for token `t` at dimension `d`: key
/// `d % kpb` of byte `d / kpb` of the token's row.
pub open spec fn stored(lut: LutView, packed: Seq<u8>, row_stride: int, t: int, d: int) -> i8 {
    lut.weight(packed[t * row_stride + d / lut.kpb()], d % lut.kpb())
}

/// The products of query row `q` and token `t`, one per dimension.
pub open spec fn dim_products(
    lut: LutView,
    query: QueryView,
    packed: Seq<u8>,
    row_stride: int,
    q: int,
    t: int,
) -> spec_fn(int) -> int {
    |d: int| query.value(q, d) * stored(lut, packed, row_stride, t, d)
}

/// The integer dot product of query row `q` and token `t` of a packed document.
pub open spec fn integer_dot(
    lut: LutView,
    query: QueryView,
    packed: Seq<u8>,
    row_stride: int,
    q: int,
    t: int,
) -> int {
    sum(dim_products(lut, query, packed, row_stride, q, t), query.dim as int)
}

/// Everything a kernel needs.
pub struct Args<'a> {
    /// The query.
    pub query: &'a PreparedQuery,
    /// Packed residual rows: at least `n_tokens * row_stride` bytes.
    pub packed: &'a [u8],
    /// Bytes from one row to the next.
    pub row_stride: usize,
    /// Document tokens.
    pub n_tokens: usize,
    /// Centroid ids.
    pub codes: Codes<'a>,
    /// Centroid-major scores, or one row of zeros with stride 0.
    pub cdot: &'a [u32],
    /// Scores per centroid, or 0.
    pub cdot_stride: usize,
    /// Inverse norms.
    pub inv_norms: Option<&'a [u32]>,
}

impl<'a> Args<'a> {
    /// Byte `i` of token `t`.
    pub open spec fn byte(&self, t: int, i: int) -> u8 {
        self.packed@[t * self.row_stride + i]
    }

    /// The weight token `t` stores for dimension `d`.
    pub open spec fn weight(&self, lut: LutView, t: int, d: int) -> i8 {
        stored(lut, self.packed@, self.row_stride as int, t, d)
    }

    /// The products of query row `q` and token `t`, one per dimension.
    pub open spec fn products(&self, lut: LutView, q: int, t: int) -> spec_fn(int) -> int {
        dim_products(lut, self.query@, self.packed@, self.row_stride as int, q, t)
    }

    /// The integer dot product of query row `q` and token `t`.
    pub open spec fn dot(&self, lut: LutView, q: int, t: int) -> int {
        integer_dot(lut, self.query@, self.packed@, self.row_stride as int, q, t)
    }

    /// The centroid's score for query row `q` at token `t`.
    pub open spec fn centroid(&self, q: int, t: int) -> u32 {
        self.cdot@[self.codes.index(t) * self.cdot_stride + q]
    }

    /// The inverse norm of token `t`; 1 without inverse norms.
    pub open spec fn inverse(&self, t: int) -> u32 {
        match self.inv_norms {
            Some(v) => v@[t],
            None => ONE,
        }
    }

    /// The term of query row `q` and token `t`.
    pub open spec fn term(&self, lut: LutView, q: int, t: int) -> Term {
        Term {
            sqw: self.query@.sqw[q],
            dot: self.dot(lut, q, t),
            centroid: self.centroid(q, t),
            inv: self.inverse(t),
        }
    }

    /// The term of every (row, token).
    pub open spec fn grid(&self, lut: LutView) -> Grid {
        |q: int, t: int| self.term(lut, q, t)
    }

    /// `s` is the score of the document against the query.
    pub open spec fn scored<A: Arith>(&self, lut: LutView, s: u32) -> bool {
        scores::<A>(self.grid(lut), self.query@.nq, self.n_tokens as nat, s)
    }

    /// The centroid row of token `t` lies inside the centroid term.
    pub open spec fn reaches(&self, t: int) -> bool {
        &&& self.codes.covers(t)
        &&& self.codes.index(t) * self.cdot_stride + self.query@.nq <= self.cdot@.len()
    }

    /// Every read a kernel makes stays inside the slices.
    pub open spec fn wf(&self, lut: LutView) -> bool {
        &&& lut.wf()
        &&& self.query@.wf()
        &&& self.query@.nbits == lut.nbits
        &&& self.query@.pdim() <= self.row_stride
        &&& self.n_tokens * self.row_stride <= self.packed@.len()
        &&& match self.inv_norms {
            Some(v) => v@.len() == self.n_tokens,
            None => true,
        }
        &&& forall|t: int| 0 <= t < self.n_tokens ==> #[trigger] self.reaches(t)
    }

    /// The inverse norm of token `t`.
    pub fn inv(&self, t: usize) -> (r: u32)
        requires
            match self.inv_norms {
                Some(v) => t < v@.len(),
                None => true,
            },
        ensures
            r == self.inverse(t as int),
    {
        match self.inv_norms {
            Some(v) => v[t],
            None => ONE,
        }
    }

    /// The centroid scores of token `t`, one per query row.
    pub fn crow(&self, t: usize) -> (r: &'a [u32])
        requires
            self.reaches(t as int),
        ensures
            r@.len() == self.query@.nq,
            forall|q: int| 0 <= q < r@.len() ==> #[trigger] r@[q] == self.centroid(q, t as int),
    {
        let id: usize = self.codes.id(t);
        let stride: usize = self.cdot_stride;
        let n: usize = self.cdot.len();
        assert(0 <= id * stride) by (nonlinear_arith)
            requires
                0 <= id,
                0 <= stride,
        ;
        let at: usize = id * stride;
        &self.cdot[at..at + self.query.n_tokens()]
    }

    /// The packed bytes of token `t`.
    pub fn row(&self, lut: &Lut, t: usize) -> (r: &'a [u8])
        requires
            self.wf(lut@),
            t < self.n_tokens,
        ensures
            r@.len() == self.query@.pdim(),
            forall|i: int| 0 <= i < r@.len() ==> #[trigger] r@[i] == self.byte(t as int, i),
    {
        let len: usize = self.packed.len();
        let stride: usize = self.row_stride;
        proof {
            let n = self.n_tokens;
            assert(0 <= t * stride && t * stride + stride <= n * stride) by (nonlinear_arith)
                requires
                    0 <= t <= n - 1,
                    0 <= stride,
            ;
            lemma_shape(*self, lut@);
        }
        let at: usize = t * stride;
        let pdim: usize = self.query.dim() / lut.keys_per_byte();
        &self.packed[at..at + pdim]
    }
}

/// The numbers a validated shape gives.
pub proof fn lemma_shape(args: Args, lut: LutView)
    requires
        args.wf(lut),
    ensures
        args.query@.wf(),
        args.query@.kpb() == lut.kpb(),
        1 <= lut.kpb() <= 8,
        1 <= args.query@.pdim() <= 256,
        args.query@.dim == lut.kpb() * args.query@.pdim(),
        1 <= args.query@.dim <= 256,
        args.query@.dim <= args.query@.stride() <= 256,
        args.query@.stride() % 64 == 0,
{
    lemma_keys_at(lut.nbits);
    let kpb = lut.kpb();
    let pdim = args.query@.pdim();
    let dim = args.query@.dim as int;
    assert(1 <= pdim <= 256) by (nonlinear_arith)
        requires
            dim == kpb * pdim,
            1 <= dim <= 256,
            1 <= kpb,
    ;
}

/// Codes and weights are int8 codes, so a dot product is exact in 32 bits.
pub proof fn dot_is_exact(args: Args, lut: LutView, q: int, t: int)
    requires
        args.wf(lut),
        0 <= q < args.query@.nq,
        0 <= t < args.n_tokens,
    ensures
        -4_129_024 <= args.dot(lut, q, t) <= 4_129_024,
{
    lemma_shape(args, lut);
    let dim = args.query@.dim as int;
    let f = args.products(lut, q, t);
    assert forall|d: int| 0 <= d < dim implies -16129 <= #[trigger] f(d) <= 16129 by {
        lemma_row_major(q, d, dim, args.query@.nq as int);
        lemma_weight_bound(args, lut, t, d);
        lemma_product_bound(args.query@.value(q, d) as int, args.weight(lut, t, d) as int);
    }
    lemma_sum_bound(f, dim, 16129);
    assert(16129 * dim <= 4_129_024);
}

/// The product of two int8 codes.
pub proof fn lemma_product_bound(x: int, y: int)
    requires
        -127 <= x <= 127,
        -127 <= y <= 127,
    ensures
        -16129 <= x * y <= 16129,
{
    assert(-16129 <= x * y <= 16129) by (nonlinear_arith)
        requires
            -127 <= x <= 127,
            -127 <= y <= 127,
    ;
}

/// Stored weights are int8 codes.
pub proof fn lemma_weight_bound(args: Args, lut: LutView, t: int, d: int)
    requires
        args.wf(lut),
        0 <= d < args.query@.dim,
    ensures
        0 <= d / lut.kpb() < args.query@.pdim(),
        0 <= d % lut.kpb() < lut.kpb(),
        -127 <= args.weight(lut, t, d) <= 127,
{
    lemma_shape(args, lut);
    let kpb = lut.kpb();
    let pdim = args.query@.pdim();
    assert(0 <= d / kpb < pdim && 0 <= d % kpb < kpb) by (nonlinear_arith)
        requires
            0 <= d < kpb * pdim,
            1 <= kpb,
    ;
    let b = args.byte(t, d / kpb) as int;
    lemma_row_major(b, d % kpb, kpb, 256);
}

/// One token more: a best over `n` tokens advanced by token `n`.
pub proof fn lemma_best_step<A: Arith>(grid: Grid, q: int, n: nat, before: u32, after: u32)
    requires
        best_of::<A>(grid, q, n, before),
        advances::<A>(grid(q, n as int), before, after),
    ensures
        best_of::<A>(grid, q, n + 1, after),
{
    assert(((n + 1) - 1) as nat == n);
}

/// The better of the best so far and a term's value.
pub(crate) fn fold_one<A: Arith>(acc: i32, sqw: u32, c: u32, inv: u32, best: u32) -> (r: u32)
    ensures
        advances::<A>(Term { sqw, dot: acc as int, centroid: c, inv }, best, r),
{
    let ghost term = Term { sqw, dot: acc as int, centroid: c, inv };
    let f: u32 = A::from_i32(acc);
    let p: u32 = A::mul(sqw, f);
    let u: u32 = A::add(p, c);
    let s: u32 = A::mul(u, inv);
    proof {
        assert(conversion::<A>(term.dot as i32, f));
        assert(product::<A>(term.sqw, f, p));
        assert(addition::<A>(p, term.centroid, u));
        assert(product::<A>(u, term.inv, s));
        assert(evaluates::<A>(term, s));
    }
    if gt(s, best) {
        s
    } else {
        best
    }
}

/// The best scores before any token: below every score.
pub(crate) fn unscored(nq: usize) -> (best: Vec<u32>)
    ensures
        best@.len() == nq,
        forall|q: int| 0 <= q < nq ==> #[trigger] best@[q] == NEG_INFINITY,
{
    let mut best: Vec<u32> = Vec::new();
    let mut q: usize = 0;
    while q < nq
        invariant
            q <= nq,
            best@.len() == q,
            forall|i: int| 0 <= i < q ==> #[trigger] best@[i] == NEG_INFINITY,
        decreases nq - q,
    {
        best.push(NEG_INFINITY);
        q += 1;
    }
    best
}

/// The sum of the rows' best scores, in row order.
pub(crate) fn total_score<A: Arith>(best: &[u32], Ghost(grid): Ghost<Grid>, Ghost(n): Ghost<nat>) -> (s: u32)
    requires
        forall|q: int| 0 <= q < best@.len() ==> best_of::<A>(grid, q, n, #[trigger] best@[q]),
    ensures
        sums_to::<A>(grid, best@.len(), n, s),
{
    let m: usize = best.len();
    let mut s: u32 = NEG_ZERO;
    let mut q: usize = 0;
    while q < m
        invariant
            q <= m,
            m == best@.len(),
            forall|i: int| 0 <= i < best@.len() ==> best_of::<A>(grid, i, n, #[trigger] best@[i]),
            sums_to::<A>(grid, q as nat, n, s),
        decreases m - q,
    {
        let b: u32 = best[q];
        let next: u32 = A::add(s, b);
        proof {
            assert(addition::<A>(s, b, next));
            assert(best_of::<A>(grid, q as int, n, b));
            assert(sums_to::<A>(grid, ((q + 1) - 1) as nat, n, s));
            assert(sums_to::<A>(grid, (q + 1) as nat, n, next));
        }
        s = next;
        q += 1;
    }
    s
}

/// A term has one value under a deterministic arithmetic.
proof fn lemma_value_is_unique<A: Arith>(term: Term, x: u32, y: u32)
    requires
        deterministic::<A>(),
        evaluates::<A>(term, x),
        evaluates::<A>(term, y),
    ensures
        x == y,
{
    let (f, p, u) = choose|f: u32, p: u32, u: u32| #[trigger]
        conversion::<A>(term.dot as i32, f) && #[trigger] product::<A>(term.sqw, f, p)
            && #[trigger] addition::<A>(p, term.centroid, u) && product::<A>(u, term.inv, x);
    let (g, r, v) = choose|f: u32, p: u32, u: u32| #[trigger]
        conversion::<A>(term.dot as i32, f) && #[trigger] product::<A>(term.sqw, f, p)
            && #[trigger] addition::<A>(p, term.centroid, u) && product::<A>(u, term.inv, y);
    assert(f == g);
    assert(p == r);
    assert(u == v);
}

/// Grids that agree on a row give it the same best score.
proof fn lemma_best_is_unique<A: Arith>(g: Grid, h: Grid, q: int, n: nat, x: u32, y: u32)
    requires
        deterministic::<A>(),
        forall|t: int| 0 <= t < n ==> #[trigger] g(q, t) == h(q, t),
        best_of::<A>(g, q, n, x),
        best_of::<A>(h, q, n, y),
    ensures
        x == y,
    decreases n,
{
    if n > 0 {
        let m = (n - 1) as nat;
        let a = choose|prev: u32|
            best_of::<A>(g, q, m, prev) && #[trigger] advances::<A>(g(q, n - 1), prev, x);
        let b = choose|prev: u32|
            best_of::<A>(h, q, m, prev) && #[trigger] advances::<A>(h(q, n - 1), prev, y);
        lemma_best_is_unique::<A>(g, h, q, m, a, b);
        let term = g(q, n - 1);
        let s = choose|s: u32| #[trigger] evaluates::<A>(term, s) && x == better(a, s);
        let r = choose|s: u32| #[trigger] evaluates::<A>(term, s) && y == better(b, s);
        lemma_value_is_unique::<A>(term, s, r);
    }
}

proof fn lemma_sum_is_unique<A: Arith>(g: Grid, h: Grid, m: nat, n: nat, x: u32, y: u32)
    requires
        deterministic::<A>(),
        forall|q: int, t: int| 0 <= q < m && 0 <= t < n ==> #[trigger] g(q, t) == h(q, t),
        sums_to::<A>(g, m, n, x),
        sums_to::<A>(h, m, n, y),
    ensures
        x == y,
    decreases m,
{
    if m > 0 {
        let k = (m - 1) as nat;
        let (a, b) = choose|prev: u32, b: u32|
            sums_to::<A>(g, k, n, prev) && best_of::<A>(g, m - 1, n, b)
                && #[trigger] addition::<A>(prev, b, x);
        let (c, d) = choose|prev: u32, b: u32|
            sums_to::<A>(h, k, n, prev) && best_of::<A>(h, m - 1, n, b)
                && #[trigger] addition::<A>(prev, b, y);
        lemma_sum_is_unique::<A>(g, h, k, n, a, c);
        lemma_best_is_unique::<A>(g, h, m - 1, n, b, d);
    }
}

/// A score is a function of the terms: under a deterministic arithmetic, two
/// grids that agree on every (row, token) have the same score, bit for bit.
/// Whatever computes the score of a document, computes this one.
pub proof fn score_is_unique<A: Arith>(g: Grid, h: Grid, m: nat, n: nat, x: u32, y: u32)
    requires
        deterministic::<A>(),
        forall|q: int, t: int| 0 <= q < m && 0 <= t < n ==> #[trigger] g(q, t) == h(q, t),
        scores::<A>(g, m, n, x),
        scores::<A>(h, m, n, y),
    ensures
        x == y,
{
    if m > 0 && n > 0 {
        lemma_sum_is_unique::<A>(g, h, m, n, x, y);
    }
}

/// A grid that agrees with another on every (row, token) has its best scores.
proof fn lemma_best_carries<A: Arith>(g: Grid, h: Grid, q: int, n: nat, b: u32)
    requires
        forall|t: int| 0 <= t < n ==> #[trigger] g(q, t) == h(q, t),
        best_of::<A>(g, q, n, b),
    ensures
        best_of::<A>(h, q, n, b),
    decreases n,
{
    if n > 0 {
        let m = (n - 1) as nat;
        let prev = choose|prev: u32|
            best_of::<A>(g, q, m, prev) && #[trigger] advances::<A>(g(q, n - 1), prev, b);
        lemma_best_carries::<A>(g, h, q, m, prev);
        assert(advances::<A>(h(q, n - 1), prev, b));
    }
}

proof fn lemma_sum_carries<A: Arith>(g: Grid, h: Grid, m: nat, n: nat, s: u32)
    requires
        forall|q: int, t: int| 0 <= q < m && 0 <= t < n ==> #[trigger] g(q, t) == h(q, t),
        sums_to::<A>(g, m, n, s),
    ensures
        sums_to::<A>(h, m, n, s),
    decreases m,
{
    if m > 0 {
        let k = (m - 1) as nat;
        let (prev, b) = choose|prev: u32, b: u32|
            sums_to::<A>(g, k, n, prev) && best_of::<A>(g, m - 1, n, b) && #[trigger] addition::<A>(
                prev,
                b,
                s,
            );
        lemma_sum_carries::<A>(g, h, k, n, prev);
        lemma_best_carries::<A>(g, h, m - 1, n, b);
    }
}

/// A grid that agrees with another on every (row, token) has its scores.
pub proof fn lemma_scores_carry<A: Arith>(g: Grid, h: Grid, m: nat, n: nat, s: u32)
    requires
        forall|q: int, t: int| 0 <= q < m && 0 <= t < n ==> #[trigger] g(q, t) == h(q, t),
        scores::<A>(g, m, n, s),
    ensures
        scores::<A>(h, m, n, s),
{
    if m > 0 && n > 0 {
        lemma_sum_carries::<A>(g, h, m, n, s);
    }
}

/// Every kernel returns the same bits: what any two of them return for the
/// same arguments is equal.
pub proof fn kernels_return_the_same_bits<A: Arith>(args: Args, lut: LutView, x: u32, y: u32)
    requires
        deterministic::<A>(),
        args.scored::<A>(lut, x),
        args.scored::<A>(lut, y),
    ensures
        x == y,
{
    let g = args.grid(lut);
    score_is_unique::<A>(g, g, args.query@.nq, args.n_tokens as nat, x, y);
}

/// Every token of `g` is a token of `h`: token `t` of the one is token
/// `map[t]` of the other, for each of the first `m` rows.
pub open spec fn maps_into(g: Grid, n: nat, h: Grid, k: nat, m: nat, map: Seq<int>) -> bool {
    &&& map.len() == n
    &&& forall|t: int| 0 <= t < n ==> 0 <= #[trigger] map[t] < k
    &&& forall|q: int, t: int| 0 <= q < m && 0 <= t < n ==> #[trigger] g(q, t) == h(q, map[t])
}

/// Some token of the row scores above zero.
pub open spec fn positive<A: Arith>(grid: Grid, q: int, n: nat) -> bool {
    exists|t: int, s: u32|
        0 <= t < n && #[trigger] evaluates::<A>(grid(q, t), s) && greater(s, ZERO)
}

/// Zeros of both signs are never tied for a row's best: where one token of the
/// row scores `0` and another `-0`, a third scores above both.
pub open spec fn zeros_apart<A: Arith>(grid: Grid, m: nat, n: nat) -> bool {
    forall|q: int, t: int, u: int|
        0 <= q < m && 0 <= t < n && 0 <= u < n && #[trigger] evaluates::<A>(grid(q, t), ZERO)
            && #[trigger] evaluates::<A>(grid(q, u), NEG_ZERO) ==> positive::<A>(grid, q, n)
}

/// A row's best is a number that no token's score exceeds; it is a token's
/// score, unless it is still minus infinity.
proof fn lemma_best_is_top<A: Arith>(g: Grid, q: int, n: nat, b: u32)
    requires
        deterministic::<A>(),
        best_of::<A>(g, q, n, b),
    ensures
        !is_nan(b),
        forall|t: int, s: u32|
            0 <= t < n && #[trigger] evaluates::<A>(g(q, t), s) ==> !greater(s, b),
        b == NEG_INFINITY || exists|t: int| 0 <= t < n && #[trigger] evaluates::<A>(g(q, t), b),
    decreases n,
{
    if n > 0 {
        let m = (n - 1) as nat;
        let prev = choose|prev: u32|
            best_of::<A>(g, q, m, prev) && #[trigger] advances::<A>(g(q, n - 1), prev, b);
        lemma_best_is_top::<A>(g, q, m, prev);
        let v = choose|s: u32| #[trigger] evaluates::<A>(g(q, n - 1), s) && b == better(prev, s);
        assert forall|t: int, s: u32|
            0 <= t < n && #[trigger] evaluates::<A>(g(q, t), s) implies !greater(s, b) by {
            if t == n - 1 {
                lemma_value_is_unique::<A>(g(q, t), s, v);
            } else {
                assert(!greater(s, prev));
            }
        }
        if greater(v, prev) {
            assert(evaluates::<A>(g(q, n - 1), b));
        } else if b != NEG_INFINITY {
            let t = choose|t: int| 0 <= t < m && #[trigger] evaluates::<A>(g(q, t), prev);
            assert(evaluates::<A>(g(q, t), b));
        }
    }
}

/// A row's best depends on which tokens there are, not on their order or how
/// often each occurs: it is the same number, and where zeros of both signs are
/// not tied for it the same bits.
pub proof fn best_is_order_free<A: Arith>(
    g: Grid,
    n: nat,
    h: Grid,
    k: nat,
    m: nat,
    there: Seq<int>,
    back: Seq<int>,
    q: int,
    x: u32,
    y: u32,
)
    requires
        deterministic::<A>(),
        0 <= q < m,
        maps_into(g, n, h, k, m, there),
        maps_into(h, k, g, n, m, back),
        best_of::<A>(g, q, n, x),
        best_of::<A>(h, q, k, y),
    ensures
        alike(x, y),
        zeros_apart::<A>(g, m, n) ==> x == y,
{
    lemma_best_is_top::<A>(g, q, n, x);
    lemma_best_is_top::<A>(h, q, k, y);
    if x != NEG_INFINITY {
        let t = choose|t: int| 0 <= t < n && #[trigger] evaluates::<A>(g(q, t), x);
        assert(g(q, t) == h(q, there[t]));
        assert(evaluates::<A>(h(q, there[t]), x));
    }
    if y != NEG_INFINITY {
        let u = choose|u: int| 0 <= u < k && #[trigger] evaluates::<A>(h(q, u), y);
        assert(h(q, u) == g(q, back[u]));
        assert(evaluates::<A>(g(q, back[u]), y));
    }
    if x != y && zeros_apart::<A>(g, m, n) {
        let t = choose|t: int| 0 <= t < n && #[trigger] evaluates::<A>(g(q, t), x);
        let u = choose|u: int| 0 <= u < n && #[trigger] evaluates::<A>(g(q, u), y);
        assert(rank(x) == rank(y));
        assert((x == ZERO && y == NEG_ZERO) || (x == NEG_ZERO && y == ZERO));
        assert(positive::<A>(g, q, n));
        let (v, s) = choose|v: int, s: u32|
            0 <= v < n && #[trigger] evaluates::<A>(g(q, v), s) && greater(s, ZERO);
        assert(!greater(s, x));
        assert(false);
    }
}

proof fn lemma_sum_is_order_free<A: Arith>(
    g: Grid,
    n: nat,
    h: Grid,
    k: nat,
    m: nat,
    there: Seq<int>,
    back: Seq<int>,
    rows: nat,
    x: u32,
    y: u32,
)
    requires
        deterministic::<A>(),
        rows <= m,
        maps_into(g, n, h, k, m, there),
        maps_into(h, k, g, n, m, back),
        zeros_apart::<A>(g, m, n),
        sums_to::<A>(g, rows, n, x),
        sums_to::<A>(h, rows, k, y),
    ensures
        x == y,
    decreases rows,
{
    if rows > 0 {
        let r = (rows - 1) as nat;
        let (a, b) = choose|prev: u32, b: u32|
            sums_to::<A>(g, r, n, prev) && best_of::<A>(g, rows - 1, n, b)
                && #[trigger] addition::<A>(prev, b, x);
        let (c, d) = choose|prev: u32, b: u32|
            sums_to::<A>(h, r, k, prev) && best_of::<A>(h, rows - 1, k, b)
                && #[trigger] addition::<A>(prev, b, y);
        lemma_sum_is_order_free::<A>(g, n, h, k, m, there, back, r, a, c);
        best_is_order_free::<A>(g, n, h, k, m, there, back, rows - 1, b, d);
    }
}

/// A score depends on which tokens there are, not on their order or how often
/// each occurs, where zeros of both signs are not tied for a row's best.
pub proof fn score_is_order_free<A: Arith>(
    g: Grid,
    n: nat,
    h: Grid,
    k: nat,
    m: nat,
    there: Seq<int>,
    back: Seq<int>,
    x: u32,
    y: u32,
)
    requires
        deterministic::<A>(),
        maps_into(g, n, h, k, m, there),
        maps_into(h, k, g, n, m, back),
        zeros_apart::<A>(g, m, n),
        scores::<A>(g, m, n, x),
        scores::<A>(h, m, k, y),
    ensures
        x == y,
{
    if n > 0 {
        assert(0 <= there[0] < k);
    }
    if k > 0 {
        assert(0 <= back[0] < n);
    }
    if m > 0 && n > 0 {
        lemma_sum_is_order_free::<A>(g, n, h, k, m, there, back, m, x, y);
    }
}

/// More tokens never lower a row's best.
pub proof fn more_tokens_never_lower_a_best<A: Arith>(
    grid: Grid,
    q: int,
    n: nat,
    m: nat,
    b: u32,
    c: u32,
)
    requires
        deterministic::<A>(),
        n <= m,
        best_of::<A>(grid, q, n, b),
        best_of::<A>(grid, q, m, c),
    ensures
        !greater(b, c),
    decreases m - n,
{
    if n == m {
        lemma_best_is_unique::<A>(grid, grid, q, n, b, c);
    } else {
        let prev = choose|prev: u32|
            best_of::<A>(grid, q, (m - 1) as nat, prev) && #[trigger] advances::<A>(
                grid(q, m - 1),
                prev,
                c,
            );
        more_tokens_never_lower_a_best::<A>(grid, q, n, (m - 1) as nat, b, prev);
        lemma_best_is_top::<A>(grid, q, (m - 1) as nat, prev);
    }
}

/// Sums over the same tokens are the same number.
proof fn lemma_sum_is_one_number<A: Arith>(
    g: Grid,
    n: nat,
    h: Grid,
    k: nat,
    m: nat,
    there: Seq<int>,
    back: Seq<int>,
    rows: nat,
    x: u32,
    y: u32,
)
    requires
        deterministic::<A>(),
        adds_numbers::<A>(),
        rows <= m,
        maps_into(g, n, h, k, m, there),
        maps_into(h, k, g, n, m, back),
        sums_to::<A>(g, rows, n, x),
        sums_to::<A>(h, rows, k, y),
    ensures
        alike(x, y),
    decreases rows,
{
    if rows > 0 {
        let r = (rows - 1) as nat;
        let (a, b) = choose|prev: u32, b: u32|
            sums_to::<A>(g, r, n, prev) && best_of::<A>(g, rows - 1, n, b)
                && #[trigger] addition::<A>(prev, b, x);
        let (c, d) = choose|prev: u32, b: u32|
            sums_to::<A>(h, r, k, prev) && best_of::<A>(h, rows - 1, k, b)
                && #[trigger] addition::<A>(prev, b, y);
        lemma_sum_is_one_number::<A>(g, n, h, k, m, there, back, r, a, c);
        best_is_order_free::<A>(g, n, h, k, m, there, back, rows - 1, b, d);
    }
}

/// A score is one number for the same tokens, in whatever order and however
/// often each occurs: up to the sign of a zero, with no tie left out.
pub proof fn score_is_one_number<A: Arith>(
    g: Grid,
    n: nat,
    h: Grid,
    k: nat,
    m: nat,
    there: Seq<int>,
    back: Seq<int>,
    x: u32,
    y: u32,
)
    requires
        deterministic::<A>(),
        adds_numbers::<A>(),
        maps_into(g, n, h, k, m, there),
        maps_into(h, k, g, n, m, back),
        scores::<A>(g, m, n, x),
        scores::<A>(h, m, k, y),
    ensures
        alike(x, y),
{
    if n > 0 {
        assert(0 <= there[0] < k);
    }
    if k > 0 {
        assert(0 <= back[0] < n);
    }
    if m > 0 && n > 0 {
        lemma_sum_is_one_number::<A>(g, n, h, k, m, there, back, m, x, y);
    }
}

/// A row's best over some of the tokens never exceeds its best over all.
proof fn lemma_best_never_falls<A: Arith>(
    g: Grid,
    n: nat,
    h: Grid,
    k: nat,
    m: nat,
    map: Seq<int>,
    q: int,
    x: u32,
    y: u32,
)
    requires
        deterministic::<A>(),
        0 <= q < m,
        maps_into(g, n, h, k, m, map),
        best_of::<A>(g, q, n, x),
        best_of::<A>(h, q, k, y),
    ensures
        !greater(x, y),
{
    lemma_best_is_top::<A>(g, q, n, x);
    lemma_best_is_top::<A>(h, q, k, y);
    if x != NEG_INFINITY {
        let t = choose|t: int| 0 <= t < n && #[trigger] evaluates::<A>(g(q, t), x);
        assert(g(q, t) == h(q, map[t]));
        assert(evaluates::<A>(h(q, map[t]), x));
    }
}

proof fn lemma_sum_never_falls<A: Arith>(
    g: Grid,
    n: nat,
    h: Grid,
    k: nat,
    m: nat,
    map: Seq<int>,
    rows: nat,
    x: u32,
    y: u32,
)
    requires
        deterministic::<A>(),
        adds_in_order::<A>(),
        rows <= m,
        maps_into(g, n, h, k, m, map),
        sums_to::<A>(g, rows, n, x),
        sums_to::<A>(h, rows, k, y),
    ensures
        !greater(x, y),
    decreases rows,
{
    if rows > 0 {
        let r = (rows - 1) as nat;
        let (a, b) = choose|prev: u32, b: u32|
            sums_to::<A>(g, r, n, prev) && best_of::<A>(g, rows - 1, n, b)
                && #[trigger] addition::<A>(prev, b, x);
        let (c, d) = choose|prev: u32, b: u32|
            sums_to::<A>(h, r, k, prev) && best_of::<A>(h, rows - 1, k, b)
                && #[trigger] addition::<A>(prev, b, y);
        lemma_sum_never_falls::<A>(g, n, h, k, m, map, r, a, c);
        lemma_best_never_falls::<A>(g, n, h, k, m, map, rows - 1, b, d);
    }
}

/// More tokens never lower a score: the score over some of the tokens, at
/// least one, never exceeds the score over all.
pub proof fn score_never_falls<A: Arith>(
    g: Grid,
    n: nat,
    h: Grid,
    k: nat,
    m: nat,
    map: Seq<int>,
    x: u32,
    y: u32,
)
    requires
        deterministic::<A>(),
        adds_in_order::<A>(),
        n > 0,
        maps_into(g, n, h, k, m, map),
        scores::<A>(g, m, n, x),
        scores::<A>(h, m, k, y),
    ensures
        !greater(x, y),
{
    assert(0 <= map[0] < k);
    if m > 0 {
        lemma_sum_never_falls::<A>(g, n, h, k, m, map, m, x, y);
    }
}

} // verus!
