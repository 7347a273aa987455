//! Finite integer sums: the arithmetic behind a dot product that may be
//! regrouped, padded and permuted without changing its value.
use vstd::arithmetic::div_mod::lemma_fundamental_div_mod_converse;
use vstd::prelude::*;

verus! {

/// `f(0) + f(1) + ... + f(n - 1)`.
pub open spec fn sum(f: spec_fn(int) -> int, n: int) -> int
    decreases n,
{
    if n <= 0 {
        0
    } else {
        sum(f, n - 1) + f(n - 1)
    }
}

/// Four consecutive terms, the unit an int8 dot instruction adds to a lane.
pub open spec fn quad(f: spec_fn(int) -> int, k: int) -> int {
    f(k) + f(k + 1) + f(k + 2) + f(k + 3)
}

/// The lanes of an accumulator register added up.
pub open spec fn total(lanes: Seq<i32>) -> int {
    sum(|i: int| lanes[i] as int, lanes.len() as int)
}

/// The dimension stored at plane position `p` when a row of `pdim` packed
/// bytes carries `kpb` dimensions each: plane `k` holds key `k` of every byte.
pub open spec fn unplane(p: int, kpb: int, pdim: int) -> int {
    (p % pdim) * kpb + p / pdim
}

pub proof fn lemma_sum_eq(f: spec_fn(int) -> int, g: spec_fn(int) -> int, n: int)
    requires
        forall|i: int| 0 <= i < n ==> #[trigger] f(i) == g(i),
    ensures
        sum(f, n) == sum(g, n),
    decreases n,
{
    if n > 0 {
        lemma_sum_eq(f, g, n - 1);
    }
}

pub proof fn lemma_sum_zero(f: spec_fn(int) -> int, m: int, n: int)
    requires
        0 <= m <= n,
        forall|i: int| m <= i < n ==> #[trigger] f(i) == 0,
    ensures
        sum(f, n) == sum(f, m),
    decreases n,
{
    if n > m {
        lemma_sum_zero(f, m, n - 1);
    }
}

pub proof fn lemma_sum_bound(f: spec_fn(int) -> int, n: int, bound: int)
    requires
        0 <= n,
        forall|i: int| 0 <= i < n ==> -bound <= #[trigger] f(i) <= bound,
    ensures
        -(bound * n) <= sum(f, n) <= bound * n,
    decreases n,
{
    if n > 0 {
        lemma_sum_bound(f, n - 1, bound);
        assert(bound * n == bound * (n - 1) + bound) by (nonlinear_arith);
        assert(-bound <= f(n - 1) <= bound);
    } else {
        assert(bound * n == 0) by (nonlinear_arith)
            requires
                n == 0,
        ;
    }
}

pub proof fn lemma_sum_add(f: spec_fn(int) -> int, g: spec_fn(int) -> int, n: int)
    ensures
        sum(|i: int| f(i) + g(i), n) == sum(f, n) + sum(g, n),
    decreases n,
{
    if n > 0 {
        lemma_sum_add(f, g, n - 1);
    }
}

pub proof fn lemma_sum_scale(f: spec_fn(int) -> int, c: int, n: int)
    ensures
        sum(|i: int| c * f(i), n) == c * sum(f, n),
    decreases n,
{
    if n > 0 {
        lemma_sum_scale(f, c, n - 1);
        assert(c * (sum(f, n - 1) + f(n - 1)) == c * sum(f, n - 1) + c * f(n - 1))
            by (nonlinear_arith);
    } else {
        assert(c * sum(f, n) == 0) by (nonlinear_arith)
            requires
                sum(f, n) == 0,
        ;
    }
}

pub proof fn lemma_sum_quad(f: spec_fn(int) -> int, k: int)
    requires
        0 <= k,
    ensures
        sum(f, k + 4) == sum(f, k) + quad(f, k),
{
    reveal_with_fuel(sum, 5);
}

/// `m` groups of four terms, starting at `k`.
pub proof fn lemma_sum_quads(f: spec_fn(int) -> int, k: int, m: int)
    requires
        0 <= k,
        0 <= m,
    ensures
        sum(f, k + 4 * m) == sum(f, k) + sum(|i: int| quad(f, k + 4 * i), m),
    decreases m,
{
    if m > 0 {
        lemma_sum_quads(f, k, m - 1);
        lemma_sum_quad(f, k + 4 * (m - 1));
    }
}

/// One dot instruction over `before.len()` lanes of four terms each moves the
/// register total by exactly the terms it covers.
pub proof fn lemma_lane_step(f: spec_fn(int) -> int, k: int, before: Seq<i32>, after: Seq<i32>)
    requires
        0 <= k,
        before.len() == after.len(),
        forall|i: int| 0 <= i < before.len() ==> after[i] == before[i] + quad(f, k + 4 * i),
    ensures
        total(after) - total(before) == sum(f, k + 4 * before.len()) - sum(f, k),
{
    let m = before.len() as int;
    let g = |i: int| quad(f, k + 4 * i);
    let b = |i: int| before[i] as int;
    lemma_sum_quads(f, k, m);
    lemma_sum_add(b, g, m);
    lemma_sum_eq(|i: int| after[i] as int, |i: int| b(i) + g(i), m);
}

/// A sum of `n * m` terms is `n` blocks of `m`.
pub proof fn lemma_sum_blocks(f: spec_fn(int) -> int, n: int, m: int)
    requires
        0 <= n,
        0 <= m,
    ensures
        sum(f, n * m) == sum(|i: int| sum(|j: int| f(i * m + j), m), n),
    decreases n,
{
    if n > 0 {
        lemma_sum_blocks(f, n - 1, m);
        lemma_sum_tail(f, (n - 1) * m, m);
        assert((n - 1) * m + m == n * m) by (nonlinear_arith);
        assert(0 <= (n - 1) * m) by (nonlinear_arith)
            requires
                n >= 1,
                m >= 0,
        ;
    } else {
        assert(n * m == 0) by (nonlinear_arith)
            requires
                n == 0,
        ;
    }
}

pub proof fn lemma_sum_tail(f: spec_fn(int) -> int, a: int, m: int)
    requires
        0 <= m,
        0 <= a,
    ensures
        sum(f, a + m) == sum(f, a) + sum(|j: int| f(a + j), m),
    decreases m,
{
    if m > 0 {
        lemma_sum_tail(f, a, m - 1);
    }
}

pub proof fn lemma_sum_swap(f: spec_fn(int, int) -> int, n: int, m: int)
    requires
        0 <= n,
        0 <= m,
    ensures
        sum(|i: int| sum(|j: int| f(i, j), m), n) == sum(|j: int| sum(|i: int| f(i, j), n), m),
    decreases n,
{
    if n > 0 {
        lemma_sum_swap(f, n - 1, m);
        let prev = |j: int| sum(|i: int| f(i, j), n - 1);
        let last = |j: int| f(n - 1, j);
        lemma_sum_add(prev, last, m);
        lemma_sum_eq(|j: int| sum(|i: int| f(i, j), n), |j: int| prev(j) + last(j), m);
    } else {
        lemma_sum_zero(|j: int| sum(|i: int| f(i, j), n), 0, m);
    }
}

/// Summing in plane order is summing in dimension order.
pub proof fn lemma_sum_planes(f: spec_fn(int) -> int, kpb: int, pdim: int)
    requires
        0 < kpb,
        0 < pdim,
    ensures
        sum(|p: int| f(unplane(p, kpb, pdim)), kpb * pdim) == sum(f, kpb * pdim),
{
    let g = |p: int| f(unplane(p, kpb, pdim));
    let h = |k: int, i: int| f(i * kpb + k);
    lemma_sum_blocks(g, kpb, pdim);
    let left = |k: int| sum(|i: int| g(k * pdim + i), pdim);
    let mid = |k: int| sum(|i: int| h(k, i), pdim);
    assert forall|k: int| 0 <= k < kpb implies #[trigger] left(k) == mid(k) by {
        assert forall|i: int| 0 <= i < pdim implies #[trigger] g(k * pdim + i) == h(k, i) by {
            lemma_fundamental_div_mod_converse(k * pdim + i, pdim, k, i);
        }
        lemma_sum_eq(|i: int| g(k * pdim + i), |i: int| h(k, i), pdim);
    }
    lemma_sum_eq(left, mid, kpb);
    lemma_sum_swap(h, kpb, pdim);
    lemma_sum_blocks(f, pdim, kpb);
    let swapped = |i: int| sum(|k: int| h(k, i), kpb);
    let right = |i: int| sum(|k: int| f(i * kpb + k), kpb);
    assert forall|i: int| 0 <= i < pdim implies #[trigger] swapped(i) == right(i) by {
        lemma_sum_eq(|k: int| h(k, i), |k: int| f(i * kpb + k), kpb);
    }
    lemma_sum_eq(swapped, right, pdim);
    assert(pdim * kpb == kpb * pdim) by (nonlinear_arith);
    assert(sum(g, kpb * pdim) == sum(left, kpb));
    assert(sum(left, kpb) == sum(mid, kpb));
    assert(sum(mid, kpb) == sum(swapped, pdim));
}

/// Row-major addressing: `q * width + d` names row `q`, column `d`.
pub proof fn lemma_row_major(q: int, d: int, width: int, rows: int)
    requires
        0 <= q < rows,
        0 <= d < width,
    ensures
        0 <= q * width + d < rows * width,
        (q * width + d) / width == q,
        (q * width + d) % width == d,
        0 <= q * width,
        q * width + width <= rows * width,
{
    assert(0 <= q * width) by (nonlinear_arith)
        requires
            0 <= q,
            0 < width,
    ;
    assert(q * width + width <= rows * width) by (nonlinear_arith)
        requires
            q + 1 <= rows,
            0 < width,
    ;
    lemma_fundamental_div_mod_converse(q * width + d, width, q, d);
}

} // verus!
