//! One document token in the form the vector kernels read: its packed bytes
//! expanded to plane-order weights, its centroid row and its inverse norm.
use super::model::{
    fold_one, lemma_best_step, lemma_shape, lemma_weight_bound, advances, best_of, Args, Term,
};
use crate::error::MAX_DIM;
use crate::float::Arith;
use crate::lut::{entry, nibble_tables_give_the_fused_weights, Lut, LutView, NibbleTables};
use crate::query::lemma_unplane;
use crate::sums::{lemma_row_major, lemma_sum_eq, lemma_sum_planes, lemma_sum_zero, sum, unplane};
use vstd::arithmetic::div_mod::lemma_fundamental_div_mod_converse;
use vstd::prelude::*;

verus! {

/// The high and the low nibble of each of 16 bytes.
fn nibbles(v: &[u8; 16]) -> (r: ([u8; 16], [u8; 16]))
    ensures
        forall|i: int| 0 <= i < 16 ==> #[trigger] r.0[i] == v[i] / 16,
        forall|i: int| 0 <= i < 16 ==> #[trigger] r.1[i] == v[i] % 16,
{
    let mut hi: [u8; 16] = [0u8; 16];
    let mut lo: [u8; 16] = [0u8; 16];
    let mut i: usize = 0;
    while i < 16
        invariant
            i <= 16,
            forall|j: int| 0 <= j < i ==> #[trigger] hi[j] == v[j] / 16,
            forall|j: int| 0 <= j < i ==> #[trigger] lo[j] == v[j] % 16,
        decreases 16 - i,
    {
        hi[i] = v[i] / 16;
        lo[i] = v[i] % 16;
        i += 1;
    }
    (hi, lo)
}

/// Sixteen lookups in a 16-entry table (NEON `tbl`, SSE `pshufb`).
fn lookup16(table: &[i8; 16], index: &[u8; 16]) -> (r: [i8; 16])
    requires
        forall|i: int| 0 <= i < 16 ==> #[trigger] index[i] < 16,
    ensures
        forall|i: int| 0 <= i < 16 ==> #[trigger] r[i] == table[index[i] as int],
{
    let mut out: [i8; 16] = [0i8; 16];
    let mut i: usize = 0;
    while i < 16
        invariant
            i <= 16,
            forall|j: int| 0 <= j < 16 ==> #[trigger] index[j] < 16,
            forall|j: int| 0 <= j < i ==> #[trigger] out[j] == table[index[j] as int],
        decreases 16 - i,
    {
        assert(index[i as int] < 16);
        out[i] = table[index[i] as usize];
        i += 1;
    }
    out
}

/// Up to 16 bytes of a row, zero-padded.
fn load16(row: &[u8], at: usize, n: usize) -> (r: [u8; 16])
    requires
        n <= 16,
        at + n <= row@.len(),
    ensures
        forall|i: int| 0 <= i < n ==> #[trigger] r[i] == row@[at + i],
{
    let mut out: [u8; 16] = [0u8; 16];
    let len: usize = row.len();
    let mut i: usize = 0;
    while i < n
        invariant
            i <= n <= 16,
            at + n <= len,
            len == row@.len(),
            forall|j: int| 0 <= j < i ==> #[trigger] out[j] == row@[at + j],
        decreases n - i,
    {
        out[i] = row[at + i];
        i += 1;
    }
    out
}

/// Stores the first `n` lanes.
fn store16(w: &mut [i8; MAX_DIM], at: usize, lanes: &[i8; 16], n: usize)
    requires
        n <= 16,
        at + n <= MAX_DIM,
    ensures
        forall|p: int|
            0 <= p < MAX_DIM ==> #[trigger] final(w)[p] == (if at <= p < at + n {
                lanes[p - at]
            } else {
                old(w)[p]
            }),
{
    let mut i: usize = 0;
    while i < n
        invariant
            i <= n <= 16,
            at + n <= MAX_DIM,
            forall|p: int|
                0 <= p < MAX_DIM ==> #[trigger] w[p] == (if at <= p < at + i {
                    lanes[p - at]
                } else {
                    old(w)[p]
                }),
        decreases n - i,
    {
        w[at + i] = lanes[i];
        i += 1;
    }
}

/// Expand one token's `pdim` packed bytes into `kpb` planes of int8 weights,
/// 16 bytes at a time; the last, partial group goes through a zero-padded
/// register and stores only its valid lanes.
#[verifier::spinoff_prover]
pub fn expand(row: &[u8], nib: &NibbleTables, kpb: usize, pdim: usize, w: &mut [i8; MAX_DIM])
    requires
        row@.len() == pdim,
        1 <= kpb <= 8,
        1 <= pdim,
        kpb * pdim <= MAX_DIM,
    ensures
        forall|p: int|
            0 <= p < MAX_DIM ==> #[trigger] final(w)[p] == (if p < kpb * pdim {
                nib.lookup(row@[p % (pdim as int)] as int, p / (pdim as int))
            } else {
                old(w)[p]
            }),
{
    let ghost m = pdim as int;
    let ghost before = *w;
    let mut i: usize = 0;
    assert(pdim <= kpb * pdim) by (nonlinear_arith)
        requires
            1 <= kpb,
            1 <= pdim,
    ;
    while i < pdim
        invariant
            i <= pdim,
            m == pdim,
            before == *old(w),
            row@.len() == pdim,
            1 <= kpb <= 8,
            1 <= pdim <= MAX_DIM,
            kpb * pdim <= MAX_DIM,
            forall|p: int|
                0 <= p < kpb * pdim && p % m < i ==> #[trigger] w[p] == nib.lookup(
                    row@[p % m] as int,
                    p / m,
                ),
            forall|p: int| kpb * pdim <= p < MAX_DIM ==> #[trigger] w[p] == before[p],
        decreases pdim - i,
    {
        let n: usize = if pdim - i < 16 {
            pdim - i
        } else {
            16
        };
        let v: [u8; 16] = load16(row, i, n);
        let (hi, lo) = nibbles(&v);
        assert forall|j: int| 0 <= j < 16 implies #[trigger] hi[j] < 16 by {
            assert(hi[j] == v[j] / 16);
        }
        assert forall|j: int| 0 <= j < 16 implies #[trigger] lo[j] < 16 by {
            assert(lo[j] == v[j] % 16);
        }
        let mut k: usize = 0;
        while k < kpb
            invariant
                k <= kpb,
                m == pdim,
                row@.len() == pdim,
                1 <= n <= 16,
                i + n <= pdim,
                1 <= kpb <= 8,
                1 <= pdim <= MAX_DIM,
                kpb * pdim <= MAX_DIM,
                forall|j: int| 0 <= j < n ==> #[trigger] v[j] == row@[i + j],
                forall|j: int| 0 <= j < 16 ==> #[trigger] hi[j] == v[j] / 16,
                forall|j: int| 0 <= j < 16 ==> #[trigger] lo[j] == v[j] % 16,
                forall|j: int| 0 <= j < 16 ==> #[trigger] hi[j] < 16,
                forall|j: int| 0 <= j < 16 ==> #[trigger] lo[j] < 16,
                forall|p: int|
                    0 <= p < kpb * pdim && (p % m < i || (p / m < k && p % m < i + n))
                        ==> #[trigger] w[p] == nib.lookup(row@[p % m] as int, p / m),
                forall|p: int| kpb * pdim <= p < MAX_DIM ==> #[trigger] w[p] == before[p],
            decreases kpb - k,
        {
            proof {
                lemma_row_major(k as int, i as int, m, kpb as int);
            }
            let at: usize = k * pdim + i;
            let lanes: [i8; 16] = if nib.from_hi[k] {
                lookup16(&nib.tables[k], &hi)
            } else {
                lookup16(&nib.tables[k], &lo)
            };
            let ghost now = *w;
            store16(w, at, &lanes, n);
            assert forall|p: int|
                0 <= p < kpb * pdim && (p % m < i || (p / m < k + 1 && p % m < i
                    + n)) implies #[trigger] w[p] == nib.lookup(row@[p % m] as int, p / m) by {
                if at <= p < at + n {
                    let j = p - at;
                    lemma_fundamental_div_mod_converse(p, m, k as int, i + j);
                    assert(v[j] == row@[i + j]);
                    assert(lanes[j] == nib.lookup(v[j] as int, k as int));
                } else {
                    assert(w[p] == now[p]);
                    lemma_unplane(p, kpb as int, m);
                    if p / m == k && p % m >= i {
                        assert(p == k * m + p % m) by (nonlinear_arith)
                            requires
                                p / m == k,
                                0 < m,
                        ;
                        assert(false);
                    }
                }
            }
            assert forall|p: int| kpb * pdim <= p < MAX_DIM implies #[trigger] w[p] == before[p] by {
                assert(now[p] == before[p]);
                assert(at + n <= kpb * pdim) by (nonlinear_arith)
                    requires
                        at == k * pdim + i,
                        i + n <= pdim,
                        k + 1 <= kpb,
                ;
            }
            k += 1;
        }
        assert forall|p: int| 0 <= p < kpb * pdim && p % m < i + n implies #[trigger] w[p]
            == nib.lookup(row@[p % m] as int, p / m) by {
            lemma_unplane(p, kpb as int, m);
        }
        i += n;
    }
    assert forall|p: int| 0 <= p < MAX_DIM implies #[trigger] w[p] == (if p < kpb * pdim {
        nib.lookup(row@[p % m] as int, p / m)
    } else {
        before[p]
    }) by {
        if p < kpb * pdim {
            lemma_unplane(p, kpb as int, m);
        }
    }
}

/// Expanded through the nibble tables, a row holds the stored weights in
/// plane order.
proof fn lemma_expanded(
    a: Args,
    lut: LutView,
    t: int,
    nib: NibbleTables,
    row: Seq<u8>,
    w: Seq<i8>,
)
    requires
        a.wf(lut),
        lut.nibble == Some(nib),
        row.len() == a.query@.pdim(),
        forall|i: int| 0 <= i < row.len() ==> #[trigger] row[i] == a.byte(t, i),
        w.len() == MAX_DIM,
        forall|p: int|
            0 <= p < MAX_DIM ==> #[trigger] w[p] == (if p < a.query@.dim {
                nib.lookup(row[p % a.query@.pdim()] as int, p / a.query@.pdim())
            } else {
                0i8
            }),
    ensures
        forall|p: int|
            0 <= p < MAX_DIM ==> #[trigger] w[p] == (if p < a.query@.dim {
                a.weight(lut, t, unplane(p, lut.kpb(), a.query@.pdim()))
            } else {
                0i8
            }),
        forall|p: int| 0 <= p < MAX_DIM ==> -127 <= #[trigger] w[p] <= 127,
{
    lemma_shape(a, lut);
    nibble_tables_give_the_fused_weights(nib, lut.fused, lut.kpb());
    let m = a.query@.pdim();
    let k = lut.kpb();
    assert forall|p: int| 0 <= p < MAX_DIM implies #[trigger] w[p] == (if p < a.query@.dim {
        a.weight(lut, t, unplane(p, k, m))
    } else {
        0i8
    }) && -127 <= w[p] <= 127 by {
        if p < a.query@.dim {
            lemma_unplane(p, k, m);
            let d = unplane(p, k, m);
            lemma_fundamental_div_mod_converse(d, k, p % m, p / m);
            lemma_weight_bound(a, lut, t, d);
            assert(nib.lookup(row[p % m] as int, p / m) == entry(
                lut.fused,
                k,
                row[p % m] as int,
                p / m,
            ));
        }
    }
}

/// A token ready to be scored.
pub struct Token<'a> {
    /// Plane-order weights; zero past the dimension.
    pub w: [i8; MAX_DIM],
    /// The centroid's score for each query row.
    pub crow: &'a [u32],
    /// Pattern of the inverse norm.
    pub inv: u32,
}

impl<'a> Token<'a> {
    /// This is token `t` of the document.
    pub open spec fn carries(&self, a: Args, lut: LutView, t: int) -> bool {
        &&& forall|p: int|
            0 <= p < MAX_DIM ==> #[trigger] self.w[p] == (if p < a.query@.dim {
                a.weight(lut, t, unplane(p, lut.kpb(), a.query@.pdim()))
            } else {
                0i8
            })
        &&& forall|p: int| 0 <= p < MAX_DIM ==> -127 <= #[trigger] self.w[p] <= 127
        &&& self.crow@.len() == a.query@.nq
        &&& forall|q: int| 0 <= q < a.query@.nq ==> #[trigger] self.crow@[q] == a.centroid(q, t)
        &&& self.inv == a.inverse(t)
    }

    /// Expands token `t`.
    #[verifier::spinoff_prover]
    pub fn load(lut: &Lut, a: &Args<'a>, t: usize) -> (r: Self)
        requires
            a.wf(lut@),
            lut@.nibble is Some,
            t < a.n_tokens,
        ensures
            r.carries(*a, lut@, t as int),
    {
        proof {
            lemma_shape(*a, lut@);
            assert(a.reaches(t as int));
        }
        let kpb: usize = lut.keys_per_byte();
        let pdim: usize = a.query.dim() / kpb;
        let row = a.row(lut, t);
        let mut w: [i8; MAX_DIM] = [0i8; 256];
        match lut.nibble_tables() {
            Some(nib) => {
                expand(row, nib, kpb, pdim, &mut w);
                proof {
                    lemma_expanded(*a, lut@, t as int, *nib, row@, w@);
                }
            },
            None => {},
        }
        let crow = a.crow(t);
        let inv: u32 = a.inv(t);
        Token { w, crow, inv }
    }
}

/// The products of a query row in plane order and a token's weights.
pub open spec fn products(a: Args, w: Seq<i8>, q: int) -> spec_fn(int) -> int {
    |p: int| a.query@.plane(q, p) * w[p]
}

/// Summed over the padded plane positions, the products are the dot product:
/// neither the plane order nor the zero padding changes it.
pub proof fn lemma_plane_dot(a: Args, lut: LutView, token: Token, q: int, t: int, n: int)
    requires
        a.wf(lut),
        token.carries(a, lut, t),
        0 <= q < a.query@.nq,
        a.query@.dim <= n <= a.query@.stride(),
    ensures
        sum(products(a, token.w@, q), n) == a.dot(lut, q, t),
{
    lemma_shape(a, lut);
    let view = a.query@;
    let dim = view.dim as int;
    let kpb = lut.kpb();
    let pdim = view.pdim();
    let f = products(a, token.w@, q);
    let g = a.products(lut, q, t);
    assert forall|p: int| dim <= p < n implies #[trigger] f(p) == 0 by {
        assert(view.plane(q, p) == 0);
        assert(token.w[p] == 0);
    }
    lemma_sum_zero(f, dim, n);
    let h = |p: int| g(unplane(p, kpb, pdim));
    assert forall|p: int| 0 <= p < dim implies #[trigger] f(p) == h(p) by {
        assert(view.plane(q, p) == view.value(q, unplane(p, kpb, pdim)));
        assert(token.w[p] == a.weight(lut, t, unplane(p, kpb, pdim)));
    }
    lemma_sum_eq(f, h, dim);
    lemma_sum_planes(g, kpb, pdim);
}

/// Codes in plane order are int8 codes.
pub proof fn lemma_plane_bound(a: Args, lut: LutView, q: int, p: int)
    requires
        a.wf(lut),
        0 <= q < a.query@.nq,
        0 <= p < a.query@.stride(),
    ensures
        -127 <= a.query@.plane(q, p) <= 127,
{
    lemma_shape(a, lut);
    let view = a.query@;
    if p < view.dim {
        let d = unplane(p, view.kpb(), view.pdim());
        lemma_unplane(p, view.kpb(), view.pdim());
        lemma_row_major(q, d, view.dim as int, view.nq as int);
        assert(-127 <= view.values[q * view.dim + d] <= 127);
    }
}

/// Fold one token's dot products for rows `base ..` into the rows' best
/// scores: convert, multiply by the row's factor, add the centroid term,
/// multiply by the inverse norm, keep the greater.
pub fn fold_block<A: Arith>(
    a: &Args,
    Ghost(lut): Ghost<LutView>,
    t: usize,
    token: &Token,
    accs: &[i32],
    base: usize,
    best: &mut Vec<u32>,
)
    requires
        a.wf(lut),
        t < a.n_tokens,
        token.crow@.len() == a.query@.nq,
        forall|q: int| 0 <= q < a.query@.nq ==> #[trigger] token.crow@[q] == a.centroid(q, t as int),
        token.inv == a.inverse(t as int),
        base + accs@.len() <= a.query@.nq,
        old(best)@.len() == a.query@.nq,
        forall|i: int|
            0 <= i < accs@.len() ==> #[trigger] accs@[i] == a.dot(lut, base + i, t as int),
        forall|q: int|
            base <= q < base + accs@.len() ==> best_of::<A>(
                a.grid(lut),
                q,
                t as nat,
                #[trigger] old(best)@[q],
            ),
    ensures
        final(best)@.len() == old(best)@.len(),
        forall|q: int|
            base <= q < base + accs@.len() ==> best_of::<A>(
                a.grid(lut),
                q,
                (t + 1) as nat,
                #[trigger] final(best)@[q],
            ),
        forall|q: int|
            0 <= q < final(best)@.len() && !(base <= q < base + accs@.len())
                ==> #[trigger] final(best)@[q] == old(best)@[q],
{
    let sqw = a.query.sqw();
    let n: usize = accs.len();
    let nq: usize = best.len();
    let mut i: usize = 0;
    while i < n
        invariant
            i <= n,
            n == accs@.len(),
            nq == a.query@.nq,
            base + n <= nq,
            best@.len() == nq,
            best@.len() == old(best)@.len(),
            sqw@ == a.query@.sqw,
            sqw@.len() == nq,
            token.crow@.len() == nq,
            forall|q: int| 0 <= q < nq ==> #[trigger] token.crow@[q] == a.centroid(q, t as int),
            token.inv == a.inverse(t as int),
            forall|j: int|
                0 <= j < n ==> #[trigger] accs@[j] == a.dot(lut, base + j, t as int),
            forall|q: int|
                base <= q < base + i ==> best_of::<A>(
                    a.grid(lut),
                    q,
                    (t + 1) as nat,
                    #[trigger] best@[q],
                ),
            forall|q: int|
                base + i <= q < base + n ==> best_of::<A>(a.grid(lut), q, t as nat, #[trigger] best@[q]),
            forall|q: int|
                0 <= q < nq && !(base <= q < base + n) ==> #[trigger] best@[q] == old(best)@[q],
        decreases n - i,
    {
        let q: usize = base + i;
        let before: u32 = best[q];
        let after: u32 = fold_one::<A>(accs[i], sqw[q], token.crow[q], token.inv, before);
        proof {
            let term = Term {
                sqw: sqw@[q as int],
                dot: accs@[i as int] as int,
                centroid: token.crow@[q as int],
                inv: token.inv,
            };
            assert(accs@[i as int] == a.dot(lut, base + i, t as int));
            assert(a.grid(lut)(q as int, t as int) == term);
            assert(advances::<A>(a.grid(lut)(q as int, t as nat as int), before, after));
            lemma_best_step::<A>(a.grid(lut), q as int, t as nat, before, after);
        }
        best.set(q, after);
        i += 1;
    }
}

} // verus!
