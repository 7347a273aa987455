//! The query side: symmetric int8 codes, one scale per row, laid out the
//! way the kernels read them.
use crate::error::{Error, MAX_DIM};
use crate::float::{
    clamped, deterministic, is_max_abs, is_nan, lemma_max_abs_negated, lemma_max_abs_quadrupled,
    magnitude, max_abs, max_abs_is_unique, negated, ordinary, product, quadrupled, quantise,
    quantised, quotient, rounding, scale_invariant, sign_symmetric, Arith, CODE_MAX, ZERO,
};
use crate::kernel::Kernel;
use crate::lut::{lemma_code_is_unique, tables_of_the_same_weights_agree, Lut, LutView};
use crate::packing::{lemma_keys_at, supported, Layout};
use crate::sums::{
    lemma_row_major, lemma_sum_add, lemma_sum_eq, lemma_sum_planes, lemma_sum_scale,
    lemma_sum_zero, sum, unplane,
};
use crate::text::{decimal, push_decimal};
use vstd::arithmetic::div_mod::lemma_fundamental_div_mod_converse;
use vstd::arithmetic::power2::pow2;
use vstd::prelude::*;

verus! {

/// `dim` rounded up to 64 lanes.
pub open spec fn stride_of(dim: nat) -> nat {
    (dim + 63) / 64 * 64
}

/// Row stride, in lanes, that the SIMD kernels read query rows at: `dim`
/// rounded up to 64 lanes, a multiple of the NEON (16), AVX2 (32) and
/// AVX-512 (64) chunk widths. Padding lanes are zero and contribute
/// `anything * 0 = 0`.
pub fn padded_stride(dim: usize) -> (r: usize)
    requires
        dim <= usize::MAX - 63,
    ensures
        r == stride_of(dim as nat),
        r % 64 == 0,
        dim <= r < dim + 64,
        dim <= MAX_DIM ==> r <= MAX_DIM,
{
    (dim + 63) / 64 * 64
}

/// Rows rounded up to a multiple of `m`.
pub open spec fn rows_up(nq: nat, m: nat) -> nat {
    (nq + m - 1) as nat / m * m
}

/// What a [`PreparedQuery`] holds.
pub struct QueryView {
    /// Query tokens.
    pub nq: nat,
    /// Embedding dimension.
    pub dim: nat,
    /// Code width of the table the query was prepared for.
    pub nbits: nat,
    /// Scale pattern of the table the query was prepared for.
    pub lut_scale: u32,
    /// Fused weights of the table the query was prepared for.
    pub fused: Seq<i8>,
    /// Row-major int8 codes in dim order.
    pub values: Seq<i8>,
    /// Patterns of the per-row scales.
    pub scales: Seq<u32>,
    /// Patterns of `scales[q] * lut_scale`.
    pub sqw: Seq<u32>,
    /// Codes in plane order at the padded row stride.
    pub planes: Seq<i8>,
    /// Codes `+ 128` in 16-row tiles of 4-dim groups.
    pub tiles: Seq<u8>,
    /// Codes in row pairs of 8-dim groups.
    pub pairs: Seq<i8>,
    /// The centroid row used without a centroid term.
    pub zeros: Seq<u32>,
}

impl QueryView {
    /// Keys per byte.
    pub open spec fn kpb(&self) -> int {
        (8nat / self.nbits) as int
    }

    /// Packed bytes per row.
    pub open spec fn pdim(&self) -> int {
        self.dim as int / self.kpb()
    }

    /// The padded row stride.
    pub open spec fn stride(&self) -> int {
        stride_of(self.dim) as int
    }

    /// Code of row `q` at dimension `d`.
    pub open spec fn value(&self, q: int, d: int) -> i8 {
        self.values[q * self.dim + d]
    }

    /// Code of row `q` at plane position `p`.
    pub open spec fn plane(&self, q: int, p: int) -> i8 {
        self.planes[q * self.stride() + p]
    }

    /// Tile byte of row `q` at plane position `p`: tile `q / 16`, group
    /// `p / 4`, row `q % 16`, byte `p % 4`.
    pub open spec fn tile(&self, q: int, p: int) -> u8 {
        self.tiles[tile_index(self.stride(), q, p)]
    }

    /// Pair byte of row `q` at plane position `p`: pair `q / 2`, group
    /// `p / 8`, row `q % 2`, byte `p % 8`.
    pub open spec fn pair(&self, q: int, p: int) -> i8 {
        self.pairs[pair_index(self.stride(), q, p)]
    }

    /// The query has the declared shape, its codes are int8 codes, and every
    /// layout holds the same codes.
    pub open spec fn wf(&self) -> bool {
        &&& supported(self.nbits)
        &&& 1 <= self.dim <= MAX_DIM
        &&& self.dim as int == self.kpb() * self.pdim()
        &&& self.values.len() == self.nq * self.dim
        &&& forall|i: int| 0 <= i < self.values.len() ==> -127 <= #[trigger] self.values[i] <= 127
        &&& self.scales.len() == self.nq
        &&& self.sqw.len() == self.nq
        &&& self.zeros.len() == self.nq
        &&& forall|i: int| 0 <= i < self.nq ==> #[trigger] self.zeros[i] == ZERO
        &&& self.planes.len() == self.nq * self.stride()
        &&& forall|q: int, p: int|
            0 <= q < self.nq && 0 <= p < self.stride() ==> #[trigger] self.plane(q, p) == (if p
                < self.dim {
                self.value(q, unplane(p, self.kpb(), self.pdim()))
            } else {
                0i8
            })
        &&& self.tiles.len() == rows_up(self.nq, 16) * self.stride()
        &&& forall|q: int, p: int|
            0 <= q < rows_up(self.nq, 16) && 0 <= p < self.stride() ==> #[trigger] self.tile(q, p)
                == (if q < self.nq {
                self.plane(q, p) + 128
            } else {
                128
            })
        &&& self.pairs.len() == rows_up(self.nq, 2) * self.stride()
        &&& forall|q: int, p: int|
            0 <= q < rows_up(self.nq, 2) && 0 <= p < self.stride() ==> #[trigger] self.pair(q, p)
                == (if q < self.nq {
                self.plane(q, p)
            } else {
                0i8
            })
    }

    /// The query was prepared against this table, or against one of the same
    /// width, scale and weights.
    pub open spec fn fits(&self, lut: LutView) -> bool {
        &&& self.nbits == lut.nbits
        &&& self.lut_scale == lut.scale
        &&& self.fused == lut.fused
    }

    /// The query the host's arithmetic gives for these rows against a table.
    pub open spec fn built_from<A: Arith>(&self, lut: LutView, query: Seq<u32>) -> bool {
        &&& self.fits(lut)
        &&& forall|q: int|
            0 <= q < self.nq ==> #[trigger] row_quantised::<A>(
                query.subrange(q * self.dim, q * self.dim + self.dim),
                self.scales[q],
                self.values.subrange(q * self.dim, q * self.dim + self.dim),
            )
        &&& forall|q: int|
            0 <= q < self.nq ==> product::<A>(self.scales[q], lut.scale, #[trigger] self.sqw[q])
    }
}

/// Codes of one row: scaled by `max|q| / 127` so that its largest component
/// maps to 127; a row without a non-zero number gets scale 0 and codes 0.
pub open spec fn row_quantised<A: Arith>(row: Seq<u32>, scale: u32, codes: Seq<i8>) -> bool {
    &&& codes.len() == row.len()
    &&& if is_max_abs(row, 0) {
        scale == ZERO && forall|d: int| 0 <= d < codes.len() ==> #[trigger] codes[d] == 0
    } else {
        &&& exists|m: u32| #[trigger] is_max_abs(row, m) && quotient::<A>(m, CODE_MAX, scale)
        &&& forall|d: int|
            0 <= d < codes.len() ==> quantised::<A>(row[d], scale, #[trigger] codes[d])
    }
}

/// Where the tile byte of row `q` at plane position `p` stands.
pub open spec fn tile_index(stride: int, q: int, p: int) -> int {
    ((q / 16) * (stride / 4) + p / 4) * 64 + (q % 16) * 4 + p % 4
}

/// Where the pair byte of row `q` at plane position `p` stands.
pub open spec fn pair_index(stride: int, q: int, p: int) -> int {
    (q / 2) * (2 * stride) + (p / 8) * 16 + (q % 2) * 8 + p % 8
}

/// The row and plane position of tile byte `i`.
pub open spec fn tile_row(stride: int, i: int) -> int {
    (i / 64) / (stride / 4) * 16 + (i % 64) / 4
}

pub open spec fn tile_pos(stride: int, i: int) -> int {
    (i / 64) % (stride / 4) * 4 + (i % 64) % 4
}

/// The row and plane position of pair byte `i`.
pub open spec fn pair_row(stride: int, i: int) -> int {
    i / (2 * stride) * 2 + (i % (2 * stride) % 16) / 8
}

pub open spec fn pair_pos(stride: int, i: int) -> int {
    (i % (2 * stride)) / 16 * 8 + (i % (2 * stride) % 16) % 8
}

#[verifier::spinoff_prover]
pub proof fn lemma_tile_index(stride: int, q: int, p: int, rows: int)
    requires
        0 < stride,
        stride % 64 == 0,
        0 <= p < stride,
        0 <= q < rows,
        rows % 16 == 0,
    ensures
        0 <= tile_index(stride, q, p) < rows * stride,
        tile_row(stride, tile_index(stride, q, p)) == q,
        tile_pos(stride, tile_index(stride, q, p)) == p,
{
    let d4 = stride / 4;
    let t = q / 16;
    let g = p / 4;
    let r = q % 16;
    let c = p % 4;
    let block = t * d4 + g;
    let i = tile_index(stride, q, p);
    lemma_row_major(t, g, d4, rows / 16);
    assert(i / 64 == block && i % 64 == r * 4 + c) by {
        lemma_fundamental_div_mod_converse(i, 64, block, r * 4 + c);
    }
    assert(rows * stride == (rows / 16 * d4) * 64) by (nonlinear_arith)
        requires
            rows == rows / 16 * 16,
            stride == d4 * 4,
    ;
}

#[verifier::spinoff_prover]
pub proof fn lemma_pair_index(stride: int, q: int, p: int, rows: int)
    requires
        0 < stride,
        stride % 64 == 0,
        0 <= p < stride,
        0 <= q < rows,
        rows % 2 == 0,
    ensures
        0 <= pair_index(stride, q, p) < rows * stride,
        pair_row(stride, pair_index(stride, q, p)) == q,
        pair_pos(stride, pair_index(stride, q, p)) == p,
{
    let t = q / 2;
    let rest = (p / 8) * 16 + (q % 2) * 8 + p % 8;
    lemma_row_major(t, rest, 2 * stride, rows / 2);
    assert(rows * stride == rows / 2 * (2 * stride)) by (nonlinear_arith)
        requires
            rows == rows / 2 * 2,
    ;
}

/// Pair and tile bytes decode to rows and plane positions in range.
#[verifier::spinoff_prover]
proof fn lemma_tile_decode(stride: int, i: int, rows: int)
    requires
        0 < stride,
        stride % 64 == 0,
        rows % 16 == 0,
        0 <= i < rows * stride,
    ensures
        0 <= tile_row(stride, i) < rows,
        0 <= tile_pos(stride, i) < stride,
{
    let d4 = stride / 4;
    let block = i / 64;
    assert(rows * stride == (rows / 16 * d4) * 64) by (nonlinear_arith)
        requires
            rows == rows / 16 * 16,
            stride == d4 * 4,
    ;
    assert(0 <= block < rows / 16 * d4);
    assert(0 <= block / d4 < rows / 16 && 0 <= block % d4 < d4) by (nonlinear_arith)
        requires
            0 <= block < rows / 16 * d4,
            0 < d4,
    ;
}

#[verifier::spinoff_prover]
proof fn lemma_pair_decode(stride: int, i: int, rows: int)
    requires
        0 < stride,
        stride % 64 == 0,
        rows % 2 == 0,
        0 <= i < rows * stride,
    ensures
        0 <= pair_row(stride, i) < rows,
        0 <= pair_pos(stride, i) < stride,
{
    let w = 2 * stride;
    assert(rows * stride == rows / 2 * w) by (nonlinear_arith)
        requires
            rows == rows / 2 * 2,
            w == 2 * stride,
    ;
    assert(0 <= i / w < rows / 2 && 0 <= i % w < w) by (nonlinear_arith)
        requires
            0 <= i < rows / 2 * w,
            0 < w,
    ;
}

/// The row and plane position of plane byte `i`.
#[verifier::spinoff_prover]
proof fn lemma_plane_decode(stride: int, i: int, rows: int)
    requires
        0 < stride,
        0 <= i < rows * stride,
    ensures
        0 <= i / stride < rows,
        0 <= i % stride < stride,
        i == (i / stride) * stride + i % stride,
{
    assert(0 <= i / stride < rows && 0 <= i % stride < stride && i == (i / stride) * stride + i
        % stride) by (nonlinear_arith)
        requires
            0 < stride,
            0 <= i < rows * stride,
    ;
}

/// Plane order is a rearrangement of the dimensions.
#[verifier::spinoff_prover]
pub proof fn lemma_unplane(p: int, kpb: int, pdim: int)
    requires
        0 < kpb,
        0 < pdim,
        0 <= p < kpb * pdim,
    ensures
        0 <= unplane(p, kpb, pdim) < kpb * pdim,
        0 <= p / pdim < kpb,
        0 <= p % pdim < pdim,
{
    assert(0 <= p / pdim < kpb && 0 <= p % pdim < pdim) by (nonlinear_arith)
        requires
            0 < pdim,
            0 <= p < kpb * pdim,
    ;
    lemma_row_major(p % pdim, p / pdim, kpb, pdim);
    assert(pdim * kpb == kpb * pdim) by (nonlinear_arith);
}

/// What is said of a query whose length is not `n_tokens * dim`.
pub open spec fn query_shape_text(len: nat, n_tokens: nat, dim: nat) -> Seq<char> {
    "query has "@ + decimal(len) + " values, expected n_tokens "@ + decimal(n_tokens) + " × dim "@
        + decimal(dim)
}

fn query_shape_message(len: usize, n_tokens: usize, dim: usize) -> (s: String)
    ensures
        s@ == query_shape_text(len as nat, n_tokens as nat, dim as nat),
{
    let mut s: String = String::new();
    s.append("query has ");
    push_decimal(&mut s, len as u128);
    s.append(" values, expected n_tokens ");
    push_decimal(&mut s, n_tokens as u128);
    s.append(" × dim ");
    push_decimal(&mut s, dim as u128);
    assert(s@ =~= query_shape_text(len as nat, n_tokens as nat, dim as nat));
    s
}

/// Quantises one row onto the end of `values` and gives its scale.
fn quantise_row<A: Arith>(row: &[u32], values: &mut Vec<i8>) -> (scale: u32)
    ensures
        final(values)@.len() == old(values)@.len() + row@.len(),
        final(values)@.take(old(values)@.len() as int) == old(values)@,
        row_quantised::<A>(row@, scale, final(values)@.skip(old(values)@.len() as int)),
        forall|i: int|
            old(values)@.len() <= i < final(values)@.len() ==> -127 <= #[trigger] final(values)@[i]
                <= 127,
{
    let ghost before = values@;
    let m: u32 = max_abs(row);
    let n: usize = row.len();
    let scale: u32 = if m == 0 {
        ZERO
    } else {
        A::div(m, CODE_MAX)
    };
    assert(m != 0 ==> quotient::<A>(m, CODE_MAX, scale));
    let mut d: usize = 0;
    while d < n
        invariant
            d <= n,
            n == row@.len(),
            values@.len() == before.len() + d,
            values@.take(before.len() as int) == before,
            forall|j: int|
                0 <= j < d ==> if m == 0 {
                    #[trigger] values@[before.len() + j] == 0
                } else {
                    quantised::<A>(row@[j], scale, values@[before.len() + j])
                },
            forall|i: int| before.len() <= i < values@.len() ==> -127 <= #[trigger] values@[i] <= 127,
        decreases n - d,
    {
        let ghost now = values@;
        let v: i8 = if m == 0 {
            0
        } else {
            quantise::<A>(row[d], scale)
        };
        values.push(v);
        proof {
            assert(values@.take(before.len() as int) =~= now.take(before.len() as int));
            assert forall|j: int| 0 <= j < d + 1 implies if m == 0 {
                #[trigger] values@[before.len() + j] == 0
            } else {
                quantised::<A>(row@[j], scale, values@[before.len() + j])
            } by {
                if j < d {
                    assert(values@[before.len() + j] == now[before.len() + j]);
                }
            }
        }
        d += 1;
    }
    proof {
        let codes = values@.skip(before.len() as int);
        if m != 0 && is_max_abs(row@, 0) {
            max_abs_is_unique(row@, m, 0);
        }
        assert forall|j: int| 0 <= j < codes.len() implies #[trigger] codes[j] == values@[before.len()
            + j] by {}
    }
    scale
}

/// Codes permuted to plane order at a padded row stride: plane `k` holds the
/// dims byte position `i` carries at key `k` (`d = i * kpb + k`), so an
/// expansion stores each table lookup contiguously.
fn lay_planes(values: &[i8], nq: usize, dim: usize, kpb: usize, stride: usize) -> (planes: Vec<i8>)
    requires
        0 < kpb,
        0 < dim <= stride,
        dim as int == kpb * (dim as int / kpb as int),
        values@.len() == nq * dim,
        nq * stride <= usize::MAX,
    ensures
        planes@.len() == nq * stride,
        forall|q: int, p: int|
            0 <= q < nq && 0 <= p < stride ==> #[trigger] planes@[q * stride + p] == (if p < dim {
                values@[q * dim + unplane(p, kpb as int, dim as int / kpb as int)]
            } else {
                0i8
            }),
{
    let n: usize = nq * stride;
    let len: usize = values.len();
    let pdim: usize = dim / kpb;
    assert(0 < pdim) by (nonlinear_arith)
        requires
            dim as int == kpb * pdim,
            0 < dim,
            0 < kpb,
            0 <= pdim,
    ;
    let mut planes: Vec<i8> = Vec::new();
    let mut i: usize = 0;
    while i < n
        invariant
            i <= n,
            n == nq * stride,
            0 < kpb,
            0 < pdim,
            0 < dim <= stride,
            pdim as int == dim as int / kpb as int,
            dim as int == kpb * pdim,
            values@.len() == nq * dim,
            len == values@.len(),
            planes@.len() == i,
            forall|j: int|
                0 <= j < i ==> #[trigger] planes@[j] == (if j % (stride as int) < dim {
                    values@[(j / stride as int) * dim + unplane(
                        j % stride as int,
                        kpb as int,
                        pdim as int,
                    )]
                } else {
                    0i8
                }),
        decreases n - i,
    {
        let q: usize = i / stride;
        let p: usize = i % stride;
        proof {
            lemma_plane_decode(stride as int, i as int, nq as int);
        }
        let v: i8 = if p < dim {
            proof {
                lemma_unplane(p as int, kpb as int, pdim as int);
                lemma_row_major(q as int, unplane(p as int, kpb as int, pdim as int), dim as int, nq as int);
                let a = (p as int % pdim as int) * kpb;
                assert(0 <= a) by (nonlinear_arith)
                    requires
                        a == (p as int % pdim as int) * kpb,
                        0 <= p as int % pdim as int,
                        0 < kpb,
                ;
            }
            values[q * dim + ((p % pdim) * kpb + p / pdim)]
        } else {
            0
        };
        planes.push(v);
        i += 1;
    }
    assert forall|q: int, p: int| 0 <= q < nq && 0 <= p < stride implies #[trigger] planes@[q * stride
        + p] == (if p < dim {
        values@[q * dim + unplane(p, kpb as int, dim as int / kpb as int)]
    } else {
        0i8
    }) by {
        lemma_row_major(q, p, stride as int, nq as int);
    }
    planes
}

/// The plane-order codes as unsigned tiles for the `u8 x s8` dot
/// instructions: `[ceil(nq/16) tiles][stride/4 groups][16 rows][4 bytes]`,
/// each byte `code + 128`. A 64-byte load is then 16 rows of 4 consecutive
/// plane positions, multiplied against a 4-byte weight broadcast, so the
/// accumulator lanes are the row sums. Rows past `nq` hold 128 (code 0).
fn lay_tiles(planes: &[i8], nq: usize, stride: usize) -> (tiles: Vec<u8>)
    requires
        0 < stride <= MAX_DIM,
        stride % 64 == 0,
        planes@.len() == nq * stride,
        rows_up(nq as nat, 16) * stride <= usize::MAX,
    ensures
        tiles@.len() == rows_up(nq as nat, 16) * stride,
        forall|q: int, p: int|
            0 <= q < rows_up(nq as nat, 16) && 0 <= p < stride ==> #[trigger] tiles@[tile_index(
                stride as int,
                q,
                p,
            )] == (if q < nq {
                planes@[q * stride + p] + 128
            } else {
                128
            }),
{
    let ghost total = rows_up(nq as nat, 16) as int;
    proof {
        assert(nq * stride <= total * stride && total <= total * stride) by (nonlinear_arith)
            requires
                0 <= nq <= total,
                1 <= stride,
        ;
        assert(nq <= usize::MAX - 15) by (nonlinear_arith)
            requires
                nq * stride <= usize::MAX,
                stride >= 64,
                0 <= nq,
                usize::MAX >= 0xffff_ffff,
        ;
    }
    let rows: usize = (nq + 15) / 16 * 16;
    let n: usize = rows * stride;
    let d4n: usize = stride / 4;
    let mut tiles: Vec<u8> = Vec::new();
    let mut i: usize = 0;
    while i < n
        invariant
            i <= n,
            n == rows * stride,
            rows == total,
            nq <= rows,
            rows % 16 == 0,
            rows <= n,
            d4n == stride / 4,
            0 < stride <= MAX_DIM,
            stride % 64 == 0,
            planes@.len() == nq * stride,
            nq * stride <= n,
            tiles@.len() == i,
            forall|j: int|
                0 <= j < i ==> #[trigger] tiles@[j] == (if tile_row(stride as int, j) < nq {
                    planes@[tile_row(stride as int, j) * stride + tile_pos(stride as int, j)] + 128
                } else {
                    128
                }),
        decreases n - i,
    {
        proof {
            lemma_tile_decode(stride as int, i as int, rows as int);
            lemma_tile_row_fits(stride as int, i as int, rows as int);
        }
        let q: usize = (i / 64) / d4n * 16 + (i % 64) / 4;
        let p: usize = (i / 64) % d4n * 4 + (i % 64) % 4;
        let v: u8 = if q < nq {
            proof {
                lemma_row_major(q as int, p as int, stride as int, nq as int);
            }
            (planes[q * stride + p] as i16 + 128) as u8
        } else {
            128
        };
        tiles.push(v);
        i += 1;
    }
    assert forall|q: int, p: int|
        0 <= q < rows_up(nq as nat, 16) && 0 <= p < stride implies #[trigger] tiles@[tile_index(
        stride as int,
        q,
        p,
    )] == (if q < nq {
        planes@[q * stride + p] + 128
    } else {
        128
    }) by {
        lemma_tile_index(stride as int, q, p, rows as int);
    }
    tiles
}

proof fn lemma_tile_row_fits(stride: int, i: int, rows: int)
    requires
        0 < stride,
        stride % 64 == 0,
        rows % 16 == 0,
        0 <= i < rows * stride,
    ensures
        0 <= (i / 64) / (stride / 4),
        (i / 64) / (stride / 4) * 16 <= rows,
        0 <= (i / 64) % (stride / 4) < stride / 4,
{
    lemma_tile_decode(stride, i, rows);
    let d4 = stride / 4;
    let b = i / 64;
    assert(0 <= b / d4 && 0 <= b % d4 < d4) by (nonlinear_arith)
        requires
            0 <= b,
            0 < d4,
    ;
}

/// The plane-order codes in row pairs for the 2x2 matrix instruction:
/// `[ceil(nq/2) pairs][stride/8 groups][2 rows][8 bytes]`, so that a 16-byte
/// load is 8 consecutive plane positions of two rows. The row past an odd
/// `nq` holds 0.
fn lay_pairs(planes: &[i8], nq: usize, stride: usize) -> (pairs: Vec<i8>)
    requires
        0 < stride <= MAX_DIM,
        stride % 64 == 0,
        planes@.len() == nq * stride,
        rows_up(nq as nat, 2) * stride <= usize::MAX,
    ensures
        pairs@.len() == rows_up(nq as nat, 2) * stride,
        forall|q: int, p: int|
            0 <= q < rows_up(nq as nat, 2) && 0 <= p < stride ==> #[trigger] pairs@[pair_index(
                stride as int,
                q,
                p,
            )] == (if q < nq {
                planes@[q * stride + p]
            } else {
                0i8
            }),
{
    let ghost total = rows_up(nq as nat, 2) as int;
    proof {
        assert(nq * stride <= total * stride && total <= total * stride) by (nonlinear_arith)
            requires
                0 <= nq <= total,
                1 <= stride,
        ;
        assert(nq < usize::MAX) by (nonlinear_arith)
            requires
                nq * stride <= usize::MAX,
                stride >= 64,
                0 <= nq,
                usize::MAX >= 0xffff_ffff,
        ;
    }
    let rows: usize = (nq + 1) / 2 * 2;
    let n: usize = rows * stride;
    let pair_stride: usize = 2 * stride;
    let mut pairs: Vec<i8> = Vec::new();
    let mut i: usize = 0;
    while i < n
        invariant
            i <= n,
            n == rows * stride,
            rows == total,
            nq <= rows,
            rows % 2 == 0,
            rows <= n,
            pair_stride == 2 * stride,
            0 < stride <= MAX_DIM,
            stride % 64 == 0,
            planes@.len() == nq * stride,
            nq * stride <= n,
            pairs@.len() == i,
            forall|j: int|
                0 <= j < i ==> #[trigger] pairs@[j] == (if pair_row(stride as int, j) < nq {
                    planes@[pair_row(stride as int, j) * stride + pair_pos(stride as int, j)]
                } else {
                    0i8
                }),
        decreases n - i,
    {
        let t: usize = i / pair_stride;
        let rest: usize = i % pair_stride;
        proof {
            lemma_pair_decode(stride as int, i as int, rows as int);
            assert(t * 2 <= rows) by {
                let w = 2 * stride as int;
                assert(rows * stride == rows as int / 2 * w) by (nonlinear_arith)
                    requires
                        rows == rows as int / 2 * 2,
                        w == 2 * stride,
                ;
                assert(0 <= i as int / w < rows as int / 2) by (nonlinear_arith)
                    requires
                        0 <= i < rows as int / 2 * w,
                        0 < w,
                ;
            }
        }
        let q: usize = t * 2 + (rest % 16) / 8;
        let p: usize = rest / 16 * 8 + (rest % 16) % 8;
        let v: i8 = if q < nq {
            proof {
                lemma_row_major(q as int, p as int, stride as int, nq as int);
            }
            planes[q * stride + p]
        } else {
            0
        };
        pairs.push(v);
        i += 1;
    }
    assert forall|q: int, p: int|
        0 <= q < rows_up(nq as nat, 2) && 0 <= p < stride implies #[trigger] pairs@[pair_index(
        stride as int,
        q,
        p,
    )] == (if q < nq {
        planes@[q * stride + p]
    } else {
        0i8
    }) by {
        lemma_pair_index(stride as int, q, p, rows as int);
    }
    pairs
}

/// A query quantised to int8 and pre-arranged for the kernels.
///
/// Built once per query against a [`Lut`]; scoring thousands of candidates
/// reuses it.
#[derive(Debug)]
pub struct PreparedQuery {
    nq: usize,
    dim: usize,
    values: Vec<i8>,
    scales: Vec<u32>,
    planes: Vec<i8>,
    stride: usize,
    tiles: Vec<u8>,
    pairs: Vec<i8>,
    sqw: Vec<u32>,
    zeros: Vec<u32>,
    lut_nbits: usize,
    lut_scale: u32,
    lut_fused: Vec<i8>,
}

impl View for PreparedQuery {
    type V = QueryView;

    closed spec fn view(&self) -> QueryView {
        QueryView {
            nq: self.nq as nat,
            dim: self.dim as nat,
            nbits: self.lut_nbits as nat,
            lut_scale: self.lut_scale,
            fused: self.lut_fused@,
            values: self.values@,
            scales: self.scales@,
            sqw: self.sqw@,
            planes: self.planes@,
            tiles: self.tiles@,
            pairs: self.pairs@,
            zeros: self.zeros@,
        }
    }
}

impl Clone for PreparedQuery {
    fn clone(&self) -> (r: Self)
        ensures
            r@ == self@,
            r.wf(),
    {
        proof {
            use_type_invariant(self);
        }
        let values = self.values.clone();
        let scales = self.scales.clone();
        let planes = self.planes.clone();
        let tiles = self.tiles.clone();
        let pairs = self.pairs.clone();
        let sqw = self.sqw.clone();
        let zeros = self.zeros.clone();
        let lut_fused = self.lut_fused.clone();
        assert(values@ =~= self.values@);
        assert(scales@ =~= self.scales@);
        assert(planes@ =~= self.planes@);
        assert(tiles@ =~= self.tiles@);
        assert(pairs@ =~= self.pairs@);
        assert(sqw@ =~= self.sqw@);
        assert(zeros@ =~= self.zeros@);
        assert(lut_fused@ =~= self.lut_fused@);
        PreparedQuery {
            nq: self.nq,
            dim: self.dim,
            values,
            scales,
            planes,
            stride: self.stride,
            tiles,
            pairs,
            sqw,
            zeros,
            lut_nbits: self.lut_nbits,
            lut_scale: self.lut_scale,
            lut_fused,
        }
    }
}

/// A copy of a table's weights.
fn copied(weights: &[i8]) -> (r: Vec<i8>)
    ensures
        r@ == weights@,
{
    let n: usize = weights.len();
    let mut r: Vec<i8> = Vec::new();
    let mut i: usize = 0;
    while i < n
        invariant
            i <= n,
            n == weights@.len(),
            r@ == weights@.take(i as int),
        decreases n - i,
    {
        r.push(weights[i]);
        assert(r@ =~= weights@.take(i + 1));
        i += 1;
    }
    assert(weights@.take(i as int) =~= weights@);
    r
}

/// Whether two tables hold the same weights.
fn same_weights(a: &[i8], b: &[i8]) -> (r: bool)
    ensures
        r == (a@ == b@),
{
    let n: usize = a.len();
    if n != b.len() {
        return false;
    }
    let mut i: usize = 0;
    while i < n
        invariant
            i <= n,
            n == a@.len(),
            n == b@.len(),
            forall|j: int| 0 <= j < i ==> a@[j] == b@[j],
        decreases n - i,
    {
        if a[i] != b[i] {
            return false;
        }
        i += 1;
    }
    assert(a@ =~= b@);
    true
}

/// The shape is one a query can have: whole packed bytes, at most
/// [`MAX_DIM`] dimensions, and `n_tokens * dim` values.
pub open spec fn query_shaped(nbits: nat, len: nat, n_tokens: nat, dim: nat) -> bool {
    dim <= MAX_DIM && (dim * nbits) % 8 == 0 && len == n_tokens * dim
}

impl PreparedQuery {
    /// The query is consistent.
    pub open spec fn wf(&self) -> bool {
        self@.wf() && self.cached()
    }

    /// The stored stride is that of the dimension.
    pub closed spec fn cached(&self) -> bool {
        self.stride == self@.stride()
    }

    /// Every query is consistent.
    #[verifier::type_invariant]
    pub open spec fn consistent(self) -> bool {
        self.wf()
    }

    /// Quantise a query of `n_tokens` rows of `dim` (row-major patterns).
    ///
    /// Each row is scaled by `max|q| / 127` so its largest component maps to
    /// 127 in magnitude; an all-zero row gets scale 0 and codes 0.
    #[verifier::spinoff_prover]
    pub fn new<A: Arith>(lut: &Lut, query: &[u32], n_tokens: usize, dim: usize) -> (r: Result<
        Self,
        Error,
    >)
        requires
            query_shaped(lut@.nbits, query@.len(), n_tokens as nat, dim as nat) ==> dim > 0
                && rows_up(n_tokens as nat, 16) * stride_of(dim as nat) <= usize::MAX,
        ensures
            match r {
                Err(Error::DimTooLarge(d)) => d == dim && dim > MAX_DIM,
                Err(Error::DimNotByteAligned { dim: d, nbits }) => d == dim && nbits == lut@.nbits
                    && dim <= MAX_DIM && (dim * lut@.nbits) % 8 != 0,
                Err(Error::Shape(s)) => dim <= MAX_DIM && (dim * lut@.nbits) % 8 == 0
                    && query@.len() != n_tokens * dim && s@ == query_shape_text(
                    query@.len(),
                    n_tokens as nat,
                    dim as nat,
                ),
                Err(_) => false,
                Ok(q) => {
                    &&& query_shaped(lut@.nbits, query@.len(), n_tokens as nat, dim as nat)
                    &&& q.wf()
                    &&& q@.nq == n_tokens
                    &&& q@.dim == dim
                    &&& q@.built_from::<A>(lut@, query@)
                },
            },
    {
        proof {
            use_type_invariant(lut);
        }
        if dim > MAX_DIM {
            return Err(Error::DimTooLarge(dim));
        }
        let nbits: usize = lut.nbits();
        proof {
            lemma_keys_at(nbits as nat);
            assert(dim * nbits <= 2048 && 0 <= dim * nbits) by (nonlinear_arith)
                requires
                    0 <= dim <= 256,
                    0 <= nbits <= 8,
            ;
        }
        if (dim * nbits) % 8 != 0 {
            return Err(Error::DimNotByteAligned { dim, nbits });
        }
        assert(n_tokens * dim <= 0xffff_ffff_ffff_ffff * 256 && 0 <= n_tokens * dim)
            by (nonlinear_arith)
            requires
                0 <= n_tokens <= 0xffff_ffff_ffff_ffff,
                0 <= dim <= 256,
        ;
        if query.len() as u128 != n_tokens as u128 * dim as u128 {
            return Err(Error::Shape(query_shape_message(query.len(), n_tokens, dim)));
        }
        let len: usize = query.len();
        let nq: usize = n_tokens;
        let kpb: usize = lut.keys_per_byte();
        let stride: usize = padded_stride(dim);
        proof {
            lemma_byte_aligned(nbits as nat, dim as nat);
            let t16 = rows_up(nq as nat, 16) as int;
            let t2 = rows_up(nq as nat, 2) as int;
            assert(nq * stride <= t16 * stride && t2 * stride <= t16 * stride) by (nonlinear_arith)
                requires
                    nq <= t16,
                    t2 <= t16,
                    0 <= stride,
            ;
        }
        let mut values: Vec<i8> = Vec::new();
        let mut scales: Vec<u32> = Vec::new();
        let mut sqw: Vec<u32> = Vec::new();
        let mut zeros: Vec<u32> = Vec::new();
        let table_scale: u32 = lut.scale();
        let mut qi: usize = 0;
        while qi < nq
            invariant
                qi <= nq,
                0 < dim,
                len == query@.len(),
                len == nq * dim,
                table_scale == lut@.scale,
                values@.len() == qi * dim,
                scales@.len() == qi,
                sqw@.len() == qi,
                zeros@.len() == qi,
                forall|i: int| 0 <= i < qi ==> #[trigger] zeros@[i] == ZERO,
                forall|i: int| 0 <= i < values@.len() ==> -127 <= #[trigger] values@[i] <= 127,
                forall|q: int|
                    0 <= q < qi ==> #[trigger] row_quantised::<A>(
                        query@.subrange(q * dim, q * dim + dim),
                        scales@[q],
                        values@.subrange(q * dim, q * dim + dim),
                    ),
                forall|q: int|
                    0 <= q < qi ==> product::<A>(scales@[q], table_scale, #[trigger] sqw@[q]),
            decreases nq - qi,
        {
            proof {
                lemma_row_major(qi as int, 0, dim as int, nq as int);
            }
            let base: usize = qi * dim;
            let ghost before = values@;
            let ghost old_scales = scales@;
            let row = &query[base..base + dim];
            let scale: u32 = quantise_row::<A>(row, &mut values);
            scales.push(scale);
            let w: u32 = A::mul(scale, table_scale);
            sqw.push(w);
            zeros.push(ZERO);
            proof {
                assert(product::<A>(scale, table_scale, w));
                assert((qi + 1) * dim == qi * dim + dim) by (nonlinear_arith);
                assert forall|i: int| 0 <= i < values@.len() implies -127 <= #[trigger] values@[i]
                    <= 127 by {
                    if i < before.len() {
                        assert(values@.take(before.len() as int)[i] == before[i]);
                    }
                }
                assert forall|q: int| 0 <= q < qi + 1 implies #[trigger] row_quantised::<A>(
                    query@.subrange(q * dim, q * dim + dim),
                    scales@[q],
                    values@.subrange(q * dim, q * dim + dim),
                ) by {
                    if q < qi {
                        lemma_row_major(q, 0, dim as int, qi as int);
                        assert(row_quantised::<A>(
                            query@.subrange(q * dim, q * dim + dim),
                            old_scales[q],
                            before.subrange(q * dim, q * dim + dim),
                        ));
                        assert(values@.subrange(q * dim, q * dim + dim) =~= before.subrange(
                            q * dim,
                            q * dim + dim,
                        )) by {
                            assert forall|i: int| 0 <= i < before.len() implies values@[i]
                                == before[i] by {
                                assert(values@.take(before.len() as int)[i] == before[i]);
                            }
                        }
                    } else {
                        assert(values@.subrange(q * dim, q * dim + dim) =~= values@.skip(
                            before.len() as int,
                        ));
                    }
                }
            }
            qi += 1;
        }
        let planes = lay_planes(&values, nq, dim, kpb, stride);
        let tiles = lay_tiles(&planes, nq, stride);
        let pairs = lay_pairs(&planes, nq, stride);
        let lut_fused: Vec<i8> = copied(lut.fused_table());
        let q = PreparedQuery {
            nq,
            dim,
            values,
            scales,
            planes,
            stride,
            tiles,
            pairs,
            sqw,
            zeros,
            lut_nbits: nbits,
            lut_scale: table_scale,
            lut_fused,
        };
        proof {
            assert(q@.kpb() == kpb);
            assert(q@.pdim() == dim as int / kpb as int);
            assert(q@.stride() == stride);
            assert(q@.wf());
        }
        Ok(q)
    }

    /// Number of query tokens (rows).
    pub fn n_tokens(&self) -> (r: usize)
        ensures
            r == self@.nq,
    {
        self.nq
    }

    /// Embedding dimension.
    pub fn dim(&self) -> (r: usize)
        ensures
            r == self@.dim,
    {
        self.dim
    }

    /// Row-major int8 codes, `n_tokens * dim` of them.
    pub fn codes(&self) -> (r: &[i8])
        ensures
            r@ == self@.values,
    {
        &self.values
    }

    /// Patterns of the per-row dequantisation scales.
    pub fn scales(&self) -> (r: &[u32])
        ensures
            r@ == self@.scales,
    {
        &self.scales
    }

    /// Codes in plane order at the padded row stride.
    pub fn planes(&self) -> (r: &[i8])
        ensures
            r@ == self@.planes,
    {
        &self.planes
    }

    /// The padded row stride.
    pub fn stride(&self) -> (r: usize)
        ensures
            r == self@.stride(),
    {
        proof {
            use_type_invariant(self);
        }
        self.stride
    }

    /// Unsigned tiles: tile `t` starts at `t * (stride / 4) * 64`, group `g`
    /// of it at `+ g * 64`.
    pub fn tiles_u8(&self) -> (r: &[u8])
        ensures
            r@ == self@.tiles,
    {
        &self.tiles
    }

    /// Row pairs: pair `t` starts at `t * 2 * stride`, group `g` of it at
    /// `+ g * 16`.
    pub fn pairs(&self) -> (r: &[i8])
        ensures
            r@ == self@.pairs,
    {
        &self.pairs
    }

    /// Patterns of `scales[q] * lut.scale`, the query-constant factor the
    /// fold applies to each integer accumulator.
    pub fn sqw(&self) -> (r: &[u32])
        ensures
            r@ == self@.sqw,
    {
        &self.sqw
    }

    /// Zeros, one per row: the centroid row used without a centroid term.
    pub fn zeros(&self) -> (r: &[u32])
        ensures
            r@ == self@.zeros,
    {
        &self.zeros
    }

    /// Whether this query was prepared against this table or one that is
    /// interchangeable with it: of the same width, scale and weights.
    pub fn matches(&self, lut: &Lut) -> (r: bool)
        ensures
            r == self@.fits(lut@),
    {
        let (nbits, scale) = lut.fingerprint();
        self.lut_nbits == nbits && self.lut_scale == scale && same_weights(
            &self.lut_fused,
            lut.fused_table(),
        )
    }
}

/// Whole packed bytes: a byte-aligned dimension is `kpb` keys per byte.
#[verifier::spinoff_prover]
proof fn lemma_byte_aligned(nbits: nat, dim: nat)
    requires
        supported(nbits),
        (dim * nbits) % 8 == 0,
    ensures
        dim as int == (8nat / nbits) as int * (dim as int / (8nat / nbits) as int),
{
    let d = dim as int;
    if nbits == 1 {
        assert(d == 8 * (d / 8)) by {
            assert((d * 1) % 8 == 0);
        }
        assert(8nat / nbits == 8);
    } else if nbits == 2 {
        assert(d == 4 * (d / 4)) by {
            assert((d * 2) % 8 == 0);
        }
        assert(8nat / nbits == 4);
    } else if nbits == 4 {
        assert(d == 2 * (d / 2)) by {
            assert((d * 4) % 8 == 0);
        }
        assert(8nat / nbits == 2);
    } else {
        assert(8nat / nbits == 1);
        assert(d == 1 * (d / 1));
    }
}

/// An all-zero row gets scale 0 and codes 0.
pub proof fn zero_rows_get_zero_codes<A: Arith>(row: Seq<u32>, scale: u32, codes: Seq<i8>)
    requires
        forall|d: int| 0 <= d < row.len() ==> magnitude(#[trigger] row[d]) == 0,
        row_quantised::<A>(row, scale, codes),
    ensures
        scale == ZERO,
        forall|d: int| 0 <= d < codes.len() ==> #[trigger] codes[d] == 0,
{
    assert(is_max_abs(row, 0));
}

/// A row's scale and codes are unique under a deterministic arithmetic.
proof fn lemma_row_is_unique<A: Arith>(
    row: Seq<u32>,
    scale: u32,
    codes: Seq<i8>,
    other_scale: u32,
    other: Seq<i8>,
)
    requires
        deterministic::<A>(),
        row_quantised::<A>(row, scale, codes),
        row_quantised::<A>(row, other_scale, other),
    ensures
        scale == other_scale,
        codes == other,
{
    if !is_max_abs(row, 0) {
        let m = choose|m: u32| #[trigger]
            is_max_abs(row, m) && quotient::<A>(m, CODE_MAX, scale);
        let n = choose|m: u32| #[trigger]
            is_max_abs(row, m) && quotient::<A>(m, CODE_MAX, other_scale);
        max_abs_is_unique(row, m, n);
        assert forall|d: int| 0 <= d < codes.len() implies codes[d] == other[d] by {
            lemma_code_is_unique::<A>(row[d], scale, codes[d], other[d]);
        }
    }
    assert(codes =~= other);
}

/// Preparing the same rows against the same table again gives the same codes,
/// scales and factors.
pub proof fn preparing_again_gives_the_same_query<A: Arith>(
    x: QueryView,
    y: QueryView,
    lut: LutView,
    query: Seq<u32>,
)
    requires
        deterministic::<A>(),
        x.wf(),
        y.wf(),
        x.nq == y.nq,
        x.dim == y.dim,
        x.built_from::<A>(lut, query),
        y.built_from::<A>(lut, query),
    ensures
        x.scales == y.scales,
        x.values == y.values,
        x.sqw == y.sqw,
{
    let dim = x.dim as int;
    assert forall|q: int| 0 <= q < x.nq implies x.scales[q] == y.scales[q] && x.sqw[q] == y.sqw[q]
        && x.values.subrange(q * dim, q * dim + dim) == y.values.subrange(
        q * dim,
        q * dim + dim,
    ) by {
        let row = query.subrange(q * dim, q * dim + dim);
        assert(row_quantised::<A>(row, x.scales[q], x.values.subrange(q * dim, q * dim + dim)));
        assert(row_quantised::<A>(row, y.scales[q], y.values.subrange(q * dim, q * dim + dim)));
        lemma_row_is_unique::<A>(
            row,
            x.scales[q],
            x.values.subrange(q * dim, q * dim + dim),
            y.scales[q],
            y.values.subrange(q * dim, q * dim + dim),
        );
        assert(product::<A>(x.scales[q], lut.scale, x.sqw[q]));
        assert(product::<A>(y.scales[q], lut.scale, y.sqw[q]));
    }
    assert(x.scales =~= y.scales);
    assert(x.sqw =~= y.sqw);
    assert forall|i: int| 0 <= i < x.values.len() implies x.values[i] == y.values[i] by {
        lemma_plane_decode(dim, i, x.nq as int);
        let q = i / dim;
        let d = i % dim;
        lemma_row_major(q, d, dim, x.nq as int);
        assert(x.scales[q] == y.scales[q]);
        assert(x.values.subrange(q * dim, q * dim + dim)[d] == x.values[i]);
        assert(y.values.subrange(q * dim, q * dim + dim)[d] == y.values[i]);
    }
    assert(x.values =~= y.values);
}

/// Plane order and padding change no dot product: over the padded plane
/// positions, with each dimension's weight where the dimension went and
/// anything at all in the padding, the sum is that over the dimensions.
pub proof fn plane_order_changes_no_dot(
    x: QueryView,
    q: int,
    by_dim: spec_fn(int) -> int,
    by_plane: spec_fn(int) -> int,
)
    requires
        x.wf(),
        0 <= q < x.nq,
        forall|p: int|
            0 <= p < x.dim ==> #[trigger] by_plane(p) == by_dim(unplane(p, x.kpb(), x.pdim())),
    ensures
        sum(|p: int| x.plane(q, p) * by_plane(p), x.stride()) == sum(
            |d: int| x.value(q, d) * by_dim(d),
            x.dim as int,
        ),
{
    let dim = x.dim as int;
    let kpb = x.kpb();
    let pdim = x.pdim();
    lemma_keys_at(x.nbits);
    assert(1 <= pdim) by (nonlinear_arith)
        requires
            dim == kpb * pdim,
            1 <= dim,
            1 <= kpb,
    ;
    let f = |p: int| x.plane(q, p) * by_plane(p);
    let g = |d: int| x.value(q, d) * by_dim(d);
    let h = |p: int| g(unplane(p, kpb, pdim));
    assert forall|p: int| dim <= p < x.stride() implies #[trigger] f(p) == 0 by {
        assert(x.plane(q, p) == 0);
    }
    lemma_sum_zero(f, dim, x.stride());
    assert forall|p: int| 0 <= p < dim implies #[trigger] f(p) == h(p) by {
        assert(x.plane(q, p) == x.value(q, unplane(p, kpb, pdim)));
        assert(by_plane(p) == by_dim(unplane(p, kpb, pdim)));
    }
    lemma_sum_eq(f, h, dim);
    lemma_sum_planes(g, kpb, pdim);
}

/// The offset of the unsigned tiles is exact: a tile row's dot product is the
/// plane row's plus 128 times the sum of the weights, and a row past the
/// query contributes only the offset.
pub proof fn tile_offset_is_exact(x: QueryView, q: int, w: spec_fn(int) -> int, n: int)
    requires
        x.wf(),
        0 <= q < rows_up(x.nq, 16),
        0 <= n <= x.stride(),
    ensures
        sum(|p: int| x.tile(q, p) * w(p), n) == (if q < x.nq {
            sum(|p: int| x.plane(q, p) * w(p), n)
        } else {
            0
        }) + 128 * sum(w, n),
{
    let f = |p: int| x.tile(q, p) * w(p);
    let g = |p: int| x.plane(q, p) * w(p);
    let s = |p: int| 128 * w(p);
    lemma_sum_scale(w, 128, n);
    if q < x.nq {
        let e = |p: int| g(p) + s(p);
        assert forall|p: int| 0 <= p < n implies #[trigger] f(p) == e(p) by {
            assert(x.tile(q, p) == x.plane(q, p) + 128);
            let a = x.plane(q, p) as int;
            let b = w(p);
            assert((a + 128) * b == a * b + 128 * b) by (nonlinear_arith);
        }
        lemma_sum_eq(f, e, n);
        lemma_sum_add(g, s, n);
    } else {
        assert forall|p: int| 0 <= p < n implies #[trigger] f(p) == s(p) by {
            assert(x.tile(q, p) == 128);
        }
        lemma_sum_eq(f, s, n);
    }
}

/// The rows of a query do not influence one another: preparing rows `a`
/// followed by rows `b` gives the codes, scales and factors of `a`, then those
/// of `b`.
pub proof fn rows_are_quantised_apart<A: Arith>(
    x: QueryView,
    y: QueryView,
    z: QueryView,
    lut: LutView,
    a: Seq<u32>,
    b: Seq<u32>,
)
    requires
        deterministic::<A>(),
        x.wf(),
        y.wf(),
        z.wf(),
        x.dim == y.dim,
        x.dim == z.dim,
        z.nq == x.nq + y.nq,
        a.len() == x.nq * x.dim,
        b.len() == y.nq * y.dim,
        x.built_from::<A>(lut, a),
        y.built_from::<A>(lut, b),
        z.built_from::<A>(lut, a + b),
    ensures
        z.scales == x.scales + y.scales,
        z.values == x.values + y.values,
        z.sqw == x.sqw + y.sqw,
{
    let dim = x.dim as int;
    let n = x.nq as int;
    let whole = a + b;
    assert((x.nq + y.nq) * x.dim == x.nq * x.dim + y.nq * x.dim) by (nonlinear_arith);
    assert forall|q: int| 0 <= q < z.nq implies {
        &&& #[trigger] z.scales[q] == (x.scales + y.scales)[q]
        &&& z.sqw[q] == (x.sqw + y.sqw)[q]
        &&& z.values.subrange(q * dim, q * dim + dim) == (x.values + y.values).subrange(
            q * dim,
            q * dim + dim,
        )
    } by {
        lemma_row_major(q, 0, dim, z.nq as int);
        let row = whole.subrange(q * dim, q * dim + dim);
        let codes = z.values.subrange(q * dim, q * dim + dim);
        assert(row_quantised::<A>(row, z.scales[q], codes));
        assert(product::<A>(z.scales[q], lut.scale, z.sqw[q]));
        let all = (x.values + y.values).subrange(q * dim, q * dim + dim);
        if q < n {
            lemma_row_major(q, 0, dim, n);
            assert(row =~= a.subrange(q * dim, q * dim + dim));
            let part = x.values.subrange(q * dim, q * dim + dim);
            assert(all =~= part);
            assert(row_quantised::<A>(
                a.subrange(q * dim, q * dim + dim),
                x.scales[q],
                x.values.subrange(q * dim, q * dim + dim),
            ));
            lemma_row_is_unique::<A>(row, z.scales[q], codes, x.scales[q], part);
            assert(product::<A>(x.scales[q], lut.scale, x.sqw[q]));
        } else {
            let r = q - n;
            lemma_row_major(r, 0, dim, y.nq as int);
            assert(q * dim == n * dim + r * dim) by (nonlinear_arith)
                requires
                    q == n + r,
            ;
            assert(row =~= b.subrange(r * dim, r * dim + dim));
            let part = y.values.subrange(r * dim, r * dim + dim);
            assert(all =~= part);
            assert(row_quantised::<A>(
                b.subrange(r * dim, r * dim + dim),
                y.scales[r],
                y.values.subrange(r * dim, r * dim + dim),
            ));
            lemma_row_is_unique::<A>(row, z.scales[q], codes, y.scales[r], part);
            assert(product::<A>(y.scales[r], lut.scale, y.sqw[r]));
        }
    }
    lemma_same_rows(z.values, x.values + y.values, z.scales, x.scales + y.scales, z.nq as int, dim);
    assert(z.scales =~= x.scales + y.scales);
    assert(z.sqw =~= x.sqw + y.sqw) by {
        assert forall|q: int| 0 <= q < z.nq implies z.sqw[q] == (x.sqw + y.sqw)[q] by {
            assert(z.scales[q] == (x.scales + y.scales)[q]);
        }
    }
}

/// Row-major codes whose rows are the same are the same.
proof fn lemma_same_rows(
    v: Seq<i8>,
    w: Seq<i8>,
    s: Seq<u32>,
    t: Seq<u32>,
    rows: int,
    dim: int,
)
    requires
        0 < dim,
        v.len() == rows * dim,
        w.len() == rows * dim,
        forall|q: int|
            0 <= q < rows ==> #[trigger] s[q] == t[q] && v.subrange(q * dim, q * dim + dim)
                == w.subrange(q * dim, q * dim + dim),
    ensures
        v == w,
{
    assert forall|i: int| 0 <= i < v.len() implies v[i] == w[i] by {
        lemma_plane_decode(dim, i, rows);
        let q = i / dim;
        let d = i % dim;
        lemma_row_major(q, d, dim, rows);
        assert(s[q] == t[q]);
        assert(v.subrange(q * dim, q * dim + dim)[d] == v[i]);
        assert(w.subrange(q * dim, q * dim + dim)[d] == w[i]);
    }
    assert(v =~= w);
}

/// One row negated: the same scale and the codes negated.
proof fn lemma_row_negated<A: Arith>(
    row: Seq<u32>,
    scale: u32,
    codes: Seq<i8>,
    other_row: Seq<u32>,
    other_scale: u32,
    other: Seq<i8>,
)
    requires
        deterministic::<A>(),
        sign_symmetric::<A>(),
        row.len() == other_row.len(),
        forall|d: int| 0 <= d < row.len() ==> #[trigger] other_row[d] == negated(row[d]),
        row_quantised::<A>(row, scale, codes),
        row_quantised::<A>(other_row, other_scale, other),
    ensures
        other_scale == scale,
        forall|d: int| 0 <= d < codes.len() ==> #[trigger] other[d] == -codes[d],
{
    if is_max_abs(row, 0) {
        lemma_max_abs_negated(row, other_row, 0);
        assert forall|d: int| 0 <= d < codes.len() implies #[trigger] other[d] == -codes[d] by {
            assert(codes[d] == 0);
        }
    } else {
        let m = choose|m: u32| #[trigger]
            is_max_abs(row, m) && quotient::<A>(m, CODE_MAX, scale);
        lemma_max_abs_negated(row, other_row, m);
        if is_max_abs(other_row, 0) {
            max_abs_is_unique(other_row, m, 0);
            assert(false);
        }
        let n = choose|n: u32| #[trigger]
            is_max_abs(other_row, n) && quotient::<A>(n, CODE_MAX, other_scale);
        max_abs_is_unique(other_row, m, n);
        assert(other_scale == scale);
        assert forall|d: int| 0 <= d < codes.len() implies #[trigger] other[d] == -codes[d] by {
            let x = row[d];
            assert(quantised::<A>(row[d], scale, codes[d]));
            assert(quantised::<A>(other_row[d], scale, other[d]));
            let (q, a) = choose|q: u32, a: i32| #[trigger]
                quotient::<A>(x, scale, q) && #[trigger] rounding::<A>(q, a) && codes[d] == clamped(
                    a as int,
                );
            let (r, b) = choose|q: u32, a: i32| #[trigger]
                quotient::<A>(negated(x), scale, q) && #[trigger] rounding::<A>(q, a) && other[d]
                    == clamped(a as int);
        }
    }
}

/// Quantisation is symmetric: negating a query keeps its scales and negates
/// its codes.
pub proof fn negating_a_query_negates_its_codes<A: Arith>(
    x: QueryView,
    y: QueryView,
    lut: LutView,
    a: Seq<u32>,
    b: Seq<u32>,
)
    requires
        deterministic::<A>(),
        sign_symmetric::<A>(),
        x.wf(),
        y.wf(),
        x.nq == y.nq,
        x.dim == y.dim,
        a.len() == x.nq * x.dim,
        b.len() == a.len(),
        forall|i: int| 0 <= i < a.len() ==> #[trigger] b[i] == negated(a[i]),
        x.built_from::<A>(lut, a),
        y.built_from::<A>(lut, b),
    ensures
        y.scales == x.scales,
        forall|i: int| 0 <= i < x.values.len() ==> #[trigger] y.values[i] == -x.values[i],
{
    let dim = x.dim as int;
    assert forall|q: int| 0 <= q < x.nq implies #[trigger] y.scales[q] == x.scales[q] && forall|
        d: int,
    |
        0 <= d < dim ==> #[trigger] y.values.subrange(q * dim, q * dim + dim)[d]
            == -x.values.subrange(q * dim, q * dim + dim)[d] by {
        lemma_row_major(q, 0, dim, x.nq as int);
        let row = a.subrange(q * dim, q * dim + dim);
        let other = b.subrange(q * dim, q * dim + dim);
        assert(row_quantised::<A>(row, x.scales[q], x.values.subrange(q * dim, q * dim + dim)));
        assert(row_quantised::<A>(other, y.scales[q], y.values.subrange(q * dim, q * dim + dim)));
        assert forall|d: int| 0 <= d < row.len() implies #[trigger] other[d] == negated(row[d]) by {
            assert(b[q * dim + d] == negated(a[q * dim + d]));
        }
        lemma_row_negated::<A>(
            row,
            x.scales[q],
            x.values.subrange(q * dim, q * dim + dim),
            other,
            y.scales[q],
            y.values.subrange(q * dim, q * dim + dim),
        );
    }
    assert(y.scales =~= x.scales);
    assert forall|i: int| 0 <= i < x.values.len() implies #[trigger] y.values[i] == -x.values[i] by {
        lemma_plane_decode(dim, i, x.nq as int);
        let q = i / dim;
        let d = i % dim;
        lemma_row_major(q, d, dim, x.nq as int);
        assert(y.scales[q] == x.scales[q]);
        assert(y.values.subrange(q * dim, q * dim + dim)[d] == -x.values.subrange(
            q * dim,
            q * dim + dim,
        )[d]);
    }
}

/// One row quadrupled: the scale quadrupled and the same codes.
proof fn lemma_row_quadrupled<A: Arith>(
    row: Seq<u32>,
    scale: u32,
    codes: Seq<i8>,
    other_row: Seq<u32>,
    other_scale: u32,
    other: Seq<i8>,
)
    requires
        deterministic::<A>(),
        scale_invariant::<A>(),
        row.len() == other_row.len(),
        forall|d: int| 0 <= d < row.len() ==> ordinary(#[trigger] row[d]),
        forall|d: int| 0 <= d < row.len() ==> #[trigger] other_row[d] == quadrupled(row[d]),
        row_quantised::<A>(row, scale, codes),
        row_quantised::<A>(other_row, other_scale, other),
    ensures
        other_scale == quadrupled(scale),
        other == codes,
{
    if is_max_abs(row, 0) {
        lemma_max_abs_quadrupled(row, other_row, 0);
        assert(other =~= codes);
    } else {
        let m = choose|m: u32| #[trigger]
            is_max_abs(row, m) && quotient::<A>(m, CODE_MAX, scale);
        lemma_max_abs_quadrupled(row, other_row, m);
        assert(m != 0);
        let i = choose|i: int|
            0 <= i < row.len() && !is_nan(#[trigger] row[i]) && magnitude(row[i]) == m;
        assert(magnitude(m) == m);
        if is_max_abs(other_row, 0) {
            max_abs_is_unique(other_row, quadrupled(m), 0);
            assert(false);
        }
        let n = choose|n: u32| #[trigger]
            is_max_abs(other_row, n) && quotient::<A>(n, CODE_MAX, other_scale);
        max_abs_is_unique(other_row, quadrupled(m), n);
        assert(other_scale == quadrupled(scale));
        assert forall|d: int| 0 <= d < codes.len() implies other[d] == codes[d] by {
            let x = row[d];
            assert(quantised::<A>(row[d], scale, codes[d]));
            assert(quantised::<A>(other_row[d], other_scale, other[d]));
            let (q, a) = choose|q: u32, a: i32| #[trigger]
                quotient::<A>(x, scale, q) && #[trigger] rounding::<A>(q, a) && codes[d] == clamped(
                    a as int,
                );
            let (r, b) = choose|q: u32, a: i32| #[trigger]
                quotient::<A>(quadrupled(x), quadrupled(scale), q) && #[trigger] rounding::<A>(q, a)
                    && other[d] == clamped(a as int);
            assert(ordinary(x));
            assert(q == r);
            assert(a == b);
        }
        assert(other =~= codes);
    }
}

/// Each row has its own scale: multiplying a query of ordinary components by
/// four multiplies its scales by four and keeps its codes.
pub proof fn quadrupling_a_query_keeps_its_codes<A: Arith>(
    x: QueryView,
    y: QueryView,
    lut: LutView,
    a: Seq<u32>,
    b: Seq<u32>,
)
    requires
        deterministic::<A>(),
        scale_invariant::<A>(),
        x.wf(),
        y.wf(),
        x.nq == y.nq,
        x.dim == y.dim,
        a.len() == x.nq * x.dim,
        b.len() == a.len(),
        forall|i: int| 0 <= i < a.len() ==> ordinary(#[trigger] a[i]),
        forall|i: int| 0 <= i < a.len() ==> #[trigger] b[i] == quadrupled(a[i]),
        x.built_from::<A>(lut, a),
        y.built_from::<A>(lut, b),
    ensures
        y.values == x.values,
        forall|q: int| 0 <= q < x.nq ==> #[trigger] y.scales[q] == quadrupled(x.scales[q]),
{
    let dim = x.dim as int;
    let four = Seq::new(x.nq, |q: int| quadrupled(x.scales[q]));
    assert forall|q: int| 0 <= q < x.nq implies #[trigger] y.scales[q] == four[q]
        && y.values.subrange(q * dim, q * dim + dim) == x.values.subrange(
        q * dim,
        q * dim + dim,
    ) by {
        lemma_row_major(q, 0, dim, x.nq as int);
        let row = a.subrange(q * dim, q * dim + dim);
        let other = b.subrange(q * dim, q * dim + dim);
        assert(row_quantised::<A>(row, x.scales[q], x.values.subrange(q * dim, q * dim + dim)));
        assert(row_quantised::<A>(other, y.scales[q], y.values.subrange(q * dim, q * dim + dim)));
        assert forall|d: int| 0 <= d < row.len() implies ordinary(#[trigger] row[d]) by {
            assert(ordinary(a[q * dim + d]));
        }
        assert forall|d: int| 0 <= d < row.len() implies #[trigger] other[d] == quadrupled(row[d]) by {
            assert(b[q * dim + d] == quadrupled(a[q * dim + d]));
        }
        lemma_row_quadrupled::<A>(
            row,
            x.scales[q],
            x.values.subrange(q * dim, q * dim + dim),
            other,
            y.scales[q],
            y.values.subrange(q * dim, q * dim + dim),
        );
    }
    lemma_same_rows(y.values, x.values, y.scales, four, x.nq as int, dim);
}

/// A query fits every table of the same weights as the one it was prepared
/// against, forced, pinned or not; it fits no table of another width, scale or
/// other weights.
pub proof fn a_query_fits_the_tables_of_its_weights<A: Arith>(
    x: LutView,
    y: LutView,
    layout: Layout,
    weights: Seq<u32>,
    q: QueryView,
    query: Seq<u32>,
)
    requires
        x.wf(),
        y.wf(),
        q.built_from::<A>(x, query),
    ensures
        deterministic::<A>() && x.nbits == y.nbits && weights.len() == pow2(x.nbits) && (forall|
            b: u8,
            k: nat,
        |
            k < x.kpb() ==> #[trigger] layout(b, k) < pow2(x.nbits)) && x.built_from::<A>(
            layout,
            weights,
        ) && y.built_from::<A>(layout, weights) ==> q.fits(y),
        forall|force: bool, pin: Option<Kernel>| #[trigger]
            q.fits(LutView { force_scalar: force, pin, ..x }),
        q.fits(y) <==> x.nbits == y.nbits && x.scale == y.scale && x.fused == y.fused,
{
    if deterministic::<A>() && x.nbits == y.nbits && weights.len() == pow2(x.nbits) && (forall|
        b: u8,
        k: nat,
    |
        k < x.kpb() ==> #[trigger] layout(b, k) < pow2(x.nbits)) && x.built_from::<A>(
        layout,
        weights,
    ) && y.built_from::<A>(layout, weights) {
        tables_of_the_same_weights_agree::<A>(x, y, layout, weights);
    }
}

} // verus!
