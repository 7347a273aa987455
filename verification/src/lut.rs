//! The document-side table: packed byte -> int8 bucket weights.
use crate::error::Error;
use crate::float::{
    clamped, deterministic, is_max_abs, larger, max, max_abs, max_abs_is_unique, quantise,
    quantised, quotient, rounding, Arith, CODE_MAX, MIN_SCALE,
};
use crate::kernel::dispatch::{select, selected, Dispatch};
use crate::kernel::Kernel;
use crate::bits::{bit, lemma_bit_add, lemma_number_eq};
use crate::packing::{
    colbert_bucket_bits, colbert_layout, lemma_keys_at, lemma_position, supported, ColbertPacking,
    Layout, Packing,
};
use vstd::arithmetic::div_mod::lemma_div_denominator;
use vstd::arithmetic::power2::{lemma2_to64, lemma_pow2_adds, lemma_pow2_pos, pow2};
use vstd::prelude::*;

verus! {

/// The fused table factored per key position into 16-entry nibble tables,
/// the shape NEON `tbl` / SSE `pshufb` consume: one in-register lookup per
/// key position per 16 packed bytes.
///
/// Codes of width 1, 2 or 4 never cross a nibble boundary, so key `k` of a
/// byte is a function of exactly one of its nibbles. The factorisation is
/// *checked* over all 256 byte values when the [`Lut`] is built, so a
/// [`Packing`] the tables cannot represent falls back to the scalar path
/// instead of silently diverging from it.
#[derive(Debug, Clone, Copy, PartialEq, Eq)]
pub struct NibbleTables {
    /// Per key position: weights indexed by the source nibble's value.
    pub tables: [[i8; 16]; 8],
    /// Whether key `k` reads the byte's high nibble (else the low one).
    pub from_hi: [bool; 8],
}

/// The weight of byte `b` at key `k` in a table of `kpb` weights per byte.
pub open spec fn entry(fused: Seq<i8>, kpb: int, b: int, k: int) -> i8 {
    fused[b * kpb + k]
}

/// Key `k` is a function of the byte's high nibble.
pub open spec fn follows_hi(fused: Seq<i8>, kpb: int, k: int) -> bool {
    forall|b: int|
        0 <= b < 256 ==> #[trigger] entry(fused, kpb, b, k) == entry(fused, kpb, 16 * (b / 16), k)
}

/// Key `k` is a function of the byte's low nibble.
pub open spec fn follows_lo(fused: Seq<i8>, kpb: int, k: int) -> bool {
    forall|b: int|
        0 <= b < 256 ==> #[trigger] entry(fused, kpb, b, k) == entry(fused, kpb, b % 16, k)
}

/// Every key position is a function of a single nibble.
pub open spec fn factorable(fused: Seq<i8>, kpb: int) -> bool {
    kpb != 1 && kpb <= 8 && forall|k: int|
        0 <= k < kpb ==> #[trigger] follows_hi(fused, kpb, k) || follows_lo(fused, kpb, k)
}

impl NibbleTables {
    /// The weight the tables give byte `b` at key `k`.
    pub open spec fn lookup(&self, b: int, k: int) -> i8 {
        self.tables[k][if self.from_hi[k] {
            b / 16
        } else {
            b % 16
        }]
    }

    /// These are the tables of `fused`: the high nibble is preferred, and the
    /// positions past `kpb` are empty.
    pub open spec fn factors(&self, fused: Seq<i8>, kpb: int) -> bool {
        &&& forall|k: int|
            0 <= k < 8 ==> #[trigger] self.from_hi[k] == (k < kpb && follows_hi(fused, kpb, k))
        &&& forall|k: int, x: int|
            0 <= k < 8 && 0 <= x < 16 ==> #[trigger] self.tables[k][x] == (if k >= kpb {
                0i8
            } else if follows_hi(fused, kpb, k) {
                entry(fused, kpb, 16 * x, k)
            } else {
                entry(fused, kpb, x, k)
            })
    }
}

/// Where the tables of a factorable table stand, they give its weights.
pub proof fn nibble_tables_give_the_fused_weights(n: NibbleTables, fused: Seq<i8>, kpb: int)
    requires
        factorable(fused, kpb),
        n.factors(fused, kpb),
    ensures
        forall|b: int, k: int|
            0 <= b < 256 && 0 <= k < kpb ==> #[trigger] n.lookup(b, k) == entry(fused, kpb, b, k),
{
    assert forall|b: int, k: int| 0 <= b < 256 && 0 <= k < kpb implies #[trigger] n.lookup(b, k)
        == entry(fused, kpb, b, k) by {
        assert(follows_hi(fused, kpb, k) || follows_lo(fused, kpb, k));
    }
}

/// Factor `fused` into per-key nibble tables; `None` if any key position is
/// not a function of a single nibble.
pub fn derive_nibble_tables(fused: &[i8], keys_per_byte: usize) -> (r: Option<NibbleTables>)
    requires
        keys_per_byte <= 8 ==> fused@.len() == 256 * keys_per_byte,
    ensures
        match r {
            Some(n) => factorable(fused@, keys_per_byte as int) && n.factors(
                fused@,
                keys_per_byte as int,
            ),
            None => !factorable(fused@, keys_per_byte as int),
        },
{
    if keys_per_byte > 8 || keys_per_byte == 1 {
        // nbits 8: a key spans the whole byte, no 16-entry factorisation.
        return None;
    }
    let ghost kpb = keys_per_byte as int;
    let mut tables: [[i8; 16]; 8] = [[0i8; 16]; 8];
    let mut from_hi: [bool; 8] = [false; 8];
    let mut k: usize = 0;
    while k < keys_per_byte
        invariant
            kpb == keys_per_byte,
            k <= keys_per_byte <= 8,
            keys_per_byte != 1,
            fused@.len() == 256 * kpb,
            forall|j: int|
                0 <= j < k ==> #[trigger] follows_hi(fused@, kpb, j) || follows_lo(fused@, kpb, j),
            forall|j: int|
                0 <= j < 8 ==> #[trigger] from_hi[j] == (j < k && follows_hi(fused@, kpb, j)),
            forall|j: int, x: int|
                0 <= j < 8 && 0 <= x < 16 ==> #[trigger] tables[j][x] == (if j >= k {
                    0i8
                } else if follows_hi(fused@, kpb, j) {
                    entry(fused@, kpb, 16 * x, j)
                } else {
                    entry(fused@, kpb, x, j)
                }),
        decreases keys_per_byte - k,
    {
        let (hi, hi_ok) = nibble_column(fused, keys_per_byte, k, true);
        if hi_ok {
            tables[k] = hi;
            from_hi[k] = true;
        } else {
            let (lo, lo_ok) = nibble_column(fused, keys_per_byte, k, false);
            if !lo_ok {
                assert(!follows_hi(fused@, kpb, k as int) && !follows_lo(fused@, kpb, k as int));
                return None;
            }
            tables[k] = lo;
        }
        k += 1;
    }
    Some(NibbleTables { tables, from_hi })
}

/// The 16 weights of key `k` at one nibble, the other nibble being 0, and
/// whether they stand for all 256 bytes.
fn nibble_column(fused: &[i8], keys_per_byte: usize, k: usize, high: bool) -> (r: ([i8; 16], bool))
    requires
        k < keys_per_byte <= 8,
        fused@.len() == 256 * keys_per_byte,
    ensures
        forall|x: int|
            0 <= x < 16 ==> #[trigger] r.0[x] == entry(
                fused@,
                keys_per_byte as int,
                if high {
                    16 * x
                } else {
                    x
                },
                k as int,
            ),
        r.1 == if high {
            follows_hi(fused@, keys_per_byte as int, k as int)
        } else {
            follows_lo(fused@, keys_per_byte as int, k as int)
        },
{
    let ghost kpb = keys_per_byte as int;
    let step: usize = if high {
        16
    } else {
        1
    };
    let mut column: [i8; 16] = [0i8; 16];
    let mut x: usize = 0;
    while x < 16
        invariant
            kpb == keys_per_byte,
            k < keys_per_byte <= 8,
            x <= 16,
            step == (if high {
                16int
            } else {
                1int
            }),
            fused@.len() == 256 * kpb,
            forall|y: int|
                0 <= y < x ==> #[trigger] column[y] == entry(fused@, kpb, step * y, k as int),
        decreases 16 - x,
    {
        proof {
            let b = step * x;
            assert(b * kpb + k < 256 * kpb && 0 <= b * kpb) by (nonlinear_arith)
                requires
                    0 <= b <= 240,
                    0 <= k < kpb <= 8,
            ;
        }
        column[x] = fused[step * x * keys_per_byte + k];
        x += 1;
    }
    let mut ok: bool = true;
    let mut b: usize = 0;
    while b < 256
        invariant
            kpb == keys_per_byte,
            k < keys_per_byte <= 8,
            b <= 256,
            step == (if high {
                16int
            } else {
                1int
            }),
            fused@.len() == 256 * kpb,
            forall|y: int|
                0 <= y < 16 ==> #[trigger] column[y] == entry(fused@, kpb, step * y, k as int),
            ok ==> forall|c: int|
                0 <= c < b ==> #[trigger] entry(fused@, kpb, c, k as int) == entry(
                    fused@,
                    kpb,
                    if high {
                        16 * (c / 16)
                    } else {
                        c % 16
                    },
                    k as int,
                ),
            !ok ==> exists|c: int|
                0 <= c < 256 && #[trigger] entry(fused@, kpb, c, k as int) != entry(
                    fused@,
                    kpb,
                    if high {
                        16 * (c / 16)
                    } else {
                        c % 16
                    },
                    k as int,
                ),
        decreases 256 - b,
    {
        let nibble: usize = if high {
            b / 16
        } else {
            b % 16
        };
        proof {
            assert(b * kpb + k < 256 * kpb && 0 <= b * kpb) by (nonlinear_arith)
                requires
                    0 <= b < 256,
                    0 <= k < kpb <= 8,
            ;
            assert(column[nibble as int] == entry(fused@, kpb, step * nibble, k as int));
        }
        if fused[b * keys_per_byte + k] != column[nibble] {
            proof {
                assert(entry(fused@, kpb, b as int, k as int) != entry(
                    fused@,
                    kpb,
                    step * nibble,
                    k as int,
                ));
            }
            ok = false;
        }
        b += 1;
    }
    (column, ok)
}

/// What a [`Lut`] holds.
pub struct LutView {
    /// Code width.
    pub nbits: nat,
    /// Pattern of the dequantisation scale.
    pub scale: u32,
    /// `256 * kpb` weights; row `b` is the expansion of byte `b`.
    pub fused: Seq<i8>,
    /// The factored tables, where the layout admits them.
    pub nibble: Option<NibbleTables>,
    /// Scores are pinned to the scalar reference.
    pub force_scalar: bool,
    /// Scores are pinned to this kernel, where it can run.
    pub pin: Option<Kernel>,
}

impl LutView {
    /// Keys per byte.
    pub open spec fn kpb(&self) -> int {
        (8nat / self.nbits) as int
    }

    /// The weight of byte `b` at key `k`.
    pub open spec fn weight(&self, b: u8, k: int) -> i8 {
        entry(self.fused, self.kpb(), b as int, k)
    }

    /// The table has the shape of its width, its weights are int8 codes, and
    /// the nibble tables are those of the fused table wherever there are any.
    pub open spec fn wf(&self) -> bool {
        &&& supported(self.nbits)
        &&& self.fused.len() == 256 * self.kpb()
        &&& forall|i: int| 0 <= i < self.fused.len() ==> -127 <= #[trigger] self.fused[i] <= 127
        &&& match self.nibble {
            Some(n) => factorable(self.fused, self.kpb()) && n.factors(self.fused, self.kpb()),
            None => !factorable(self.fused, self.kpb()),
        }
    }

    /// The table the host's arithmetic gives for a layout and its bucket
    /// weights: `scale = max(max|w| / 127, 1e-12)`, each weight quantised at
    /// that scale, and row `b` the weights of the buckets byte `b` holds.
    pub open spec fn built_from<A: Arith>(&self, layout: Layout, weights: Seq<u32>) -> bool {
        &&& table_scale::<A>(weights, self.scale)
        &&& exists|vals: Seq<i8>| #[trigger]
            quantises::<A>(weights, self.scale, vals) && fuses(
                self.fused,
                self.kpb(),
                layout,
                vals,
            )
    }
}

/// `scale` is a scale the host's arithmetic gives these weights.
pub open spec fn table_scale<A: Arith>(weights: Seq<u32>, scale: u32) -> bool {
    exists|m: u32, d: u32| #[trigger]
        is_max_abs(weights, m) && #[trigger] quotient::<A>(m, CODE_MAX, d) && scale == larger(
            d,
            MIN_SCALE,
        )
}

/// `vals` are codes of `weights` at `scale`.
pub open spec fn quantises<A: Arith>(weights: Seq<u32>, scale: u32, vals: Seq<i8>) -> bool {
    vals.len() == weights.len() && forall|i: int|
        0 <= i < vals.len() ==> quantised::<A>(weights[i], scale, #[trigger] vals[i])
}

/// Row `b` of `fused` holds the weights of the buckets in byte `b`.
pub open spec fn fuses(fused: Seq<i8>, kpb: int, layout: Layout, vals: Seq<i8>) -> bool {
    fused.len() == 256 * kpb && forall|b: int, k: int|
        0 <= b < 256 && 0 <= k < kpb ==> #[trigger] entry(fused, kpb, b, k) == vals[layout(
            b as u8,
            k as nat,
        ) as int]
}

/// The document-side lookup state for one residual codec: a table turning
/// each packed residual byte directly into its `8/nbits` int8 bucket
/// weights, plus the dequantisation scale.
///
/// Build once per index (it depends only on the bucket weights and the
/// packing), share across threads.
#[derive(Debug)]
pub struct Lut {
    fused: Vec<i8>,
    keys_per_byte: usize,
    nbits: usize,
    scale: u32,
    nibble: Option<NibbleTables>,
    force_scalar: bool,
    pin: Option<Kernel>,
}

impl View for Lut {
    type V = LutView;

    closed spec fn view(&self) -> LutView {
        LutView {
            nbits: self.nbits as nat,
            scale: self.scale,
            fused: self.fused@,
            nibble: self.nibble,
            force_scalar: self.force_scalar,
            pin: self.pin,
        }
    }
}

impl Clone for Lut {
    fn clone(&self) -> (r: Self)
        ensures
            r@ == self@,
            r.wf(),
    {
        proof {
            use_type_invariant(self);
        }
        let fused = self.fused.clone();
        assert(fused@ =~= self.fused@);
        Lut {
            fused,
            keys_per_byte: self.keys_per_byte,
            nbits: self.nbits,
            scale: self.scale,
            nibble: self.nibble,
            force_scalar: self.force_scalar,
            pin: self.pin,
        }
    }
}

impl Lut {
    /// The table is consistent.
    pub open spec fn wf(&self) -> bool {
        self@.wf() && self.cached()
    }

    /// The stored keys per byte are those of the width.
    pub closed spec fn cached(&self) -> bool {
        self.keys_per_byte == self@.kpb()
    }

    /// Every table is consistent.
    #[verifier::type_invariant]
    pub open spec fn consistent(self) -> bool {
        self.wf()
    }

    /// Build the table from a packing layout and the codec's `2^nbits` bucket
    /// weights (single-precision patterns, in bucket-index order).
    ///
    /// Weights are quantised symmetrically to int8 with `scale = max|w| / 127`.
    #[verifier::spinoff_prover]
    pub fn new<P: Packing, A: Arith>(packing: &P, bucket_weights: &[u32]) -> (r: Result<Self, Error>)
        requires
            supported(packing.width()) && bucket_weights@.len() == pow2(packing.width())
                ==> forall|b: u8, k: nat|
                k < 8nat / packing.width() ==> #[trigger] packing.layout()(b, k) < pow2(
                    packing.width(),
                ),
        ensures
            match r {
                Err(Error::NbitsUnsupported(n)) => !supported(packing.width()) && n
                    == packing.width(),
                Err(Error::BucketCount { expected, got }) => supported(packing.width()) && expected
                    == pow2(packing.width()) && got == bucket_weights@.len() && got != expected,
                Err(_) => false,
                Ok(lut) => {
                    &&& supported(packing.width())
                    &&& bucket_weights@.len() == pow2(packing.width())
                    &&& lut.wf()
                    &&& lut@.nbits == packing.width()
                    &&& lut@.built_from::<A>(packing.layout(), bucket_weights@)
                    &&& !lut@.force_scalar
                    &&& lut@.pin is None
                },
            },
    {
        let nbits: usize = packing.nbits();
        if !(nbits == 1 || nbits == 2 || nbits == 4 || nbits == 8) {
            return Err(Error::NbitsUnsupported(nbits));
        }
        let expected: usize = if nbits == 1 {
            2
        } else if nbits == 2 {
            4
        } else if nbits == 4 {
            16
        } else {
            256
        };
        proof {
            lemma2_to64();
            lemma_keys_at(nbits as nat);
        }
        if bucket_weights.len() != expected {
            return Err(Error::BucketCount { expected, got: bucket_weights.len() });
        }
        let largest: u32 = max_abs(bucket_weights);
        let ratio: u32 = A::div(largest, CODE_MAX);
        let scale: u32 = max(ratio, MIN_SCALE);
        assert(quotient::<A>(largest, CODE_MAX, ratio));
        assert(table_scale::<A>(bucket_weights@, scale));
        let mut vals: Vec<i8> = Vec::new();
        let mut i: usize = 0;
        while i < expected
            invariant
                i <= expected,
                expected == bucket_weights@.len(),
                vals@.len() == i,
                forall|j: int|
                    0 <= j < i ==> quantised::<A>(bucket_weights@[j], scale, #[trigger] vals@[j]),
                forall|j: int| 0 <= j < i ==> -127 <= #[trigger] vals@[j] <= 127,
            decreases expected - i,
        {
            vals.push(quantise::<A>(bucket_weights[i], scale));
            i += 1;
        }
        let keys_per_byte: usize = 8 / nbits;
        let ghost kpb = keys_per_byte as int;
        let mut fused: Vec<i8> = Vec::new();
        let mut byte: usize = 0;
        while byte < 256
            invariant
                byte <= 256,
                kpb == keys_per_byte,
                1 <= kpb <= 8,
                kpb == 8nat / packing.width(),
                0 < packing.width(),
                expected == pow2(packing.width()),
                vals@.len() == expected,
                forall|j: int| 0 <= j < expected ==> -127 <= #[trigger] vals@[j] <= 127,
                forall|b: u8, k: nat|
                    k < 8nat / packing.width() ==> #[trigger] packing.layout()(b, k) < pow2(
                        packing.width(),
                    ),
                fused@.len() == byte * kpb,
                forall|b: int, k: int|
                    0 <= b < byte && 0 <= k < kpb ==> #[trigger] entry(fused@, kpb, b, k)
                        == vals@[packing.layout()(b as u8, k as nat) as int],
                forall|j: int| 0 <= j < fused@.len() ==> -127 <= #[trigger] fused@[j] <= 127,
            decreases 256 - byte,
        {
            let ghost start = fused@;
            let mut k: usize = 0;
            while k < keys_per_byte
                invariant
                    byte < 256,
                    k <= keys_per_byte,
                    kpb == keys_per_byte,
                    1 <= kpb <= 8,
                    kpb == 8nat / packing.width(),
                    0 < packing.width(),
                    expected == pow2(packing.width()),
                    vals@.len() == expected,
                    forall|j: int| 0 <= j < expected ==> -127 <= #[trigger] vals@[j] <= 127,
                    forall|b: u8, j: nat|
                        j < 8nat / packing.width() ==> #[trigger] packing.layout()(b, j) < pow2(
                            packing.width(),
                        ),
                    start.len() == byte * kpb,
                    fused@.len() == start.len() + k,
                    forall|j: int| 0 <= j < start.len() ==> #[trigger] fused@[j] == start[j],
                    forall|j: int|
                        0 <= j < k ==> #[trigger] fused@[byte * kpb + j] == vals@[packing.layout()(
                            byte as u8,
                            j as nat,
                        ) as int],
                    forall|j: int| 0 <= j < fused@.len() ==> -127 <= #[trigger] fused@[j] <= 127,
                decreases keys_per_byte - k,
            {
                let bi: usize = packing.bucket_index(byte as u8, k);
                assert(packing.layout()(byte as u8, k as nat) == bi);
                fused.push(vals[bi]);
                k += 1;
            }
            proof {
                assert(byte * kpb + kpb == (byte + 1) * kpb) by (nonlinear_arith);
                assert forall|b: int, j: int| 0 <= b < byte + 1 && 0 <= j < kpb implies #[trigger] entry(
                    fused@,
                    kpb,
                    b,
                    j,
                ) == vals@[packing.layout()(b as u8, j as nat) as int] by {
                    if b < byte {
                        assert(b * kpb + j < byte * kpb && 0 <= b * kpb) by (nonlinear_arith)
                            requires
                                0 <= b < byte,
                                0 <= j < kpb,
                        ;
                        assert(entry(start, kpb, b, j) == entry(fused@, kpb, b, j));
                    } else {
                        assert(fused@[byte * kpb + j] == vals@[packing.layout()(
                            byte as u8,
                            j as nat,
                        ) as int]);
                    }
                }
            }
            byte += 1;
        }
        let nibble = derive_nibble_tables(&fused, keys_per_byte);
        let lut = Lut {
            fused,
            keys_per_byte,
            nbits,
            scale,
            nibble,
            force_scalar: false,
            pin: None,
        };
        assert(quantises::<A>(bucket_weights@, lut@.scale, vals@));
        Ok(lut)
    }

    /// Convenience for the ColBERT / PLAID layout.
    #[verifier::spinoff_prover]
    pub fn colbert<A: Arith>(nbits: usize, bucket_weights: &[u32]) -> (r: Result<Self, Error>)
        ensures
            match r {
                Err(Error::NbitsUnsupported(n)) => !supported(nbits as nat) && n == nbits,
                Err(Error::BucketCount { expected, got }) => supported(nbits as nat) && expected
                    == pow2(nbits as nat) && got == bucket_weights@.len() && got != expected,
                Err(_) => false,
                Ok(lut) => {
                    &&& supported(nbits as nat)
                    &&& bucket_weights@.len() == pow2(nbits as nat)
                    &&& lut.wf()
                    &&& lut@.nbits == nbits
                    &&& lut@.built_from::<A>(colbert_layout(nbits as nat), bucket_weights@)
                    &&& lut@.nibble is Some <==> nbits != 8
                    &&& !lut@.force_scalar
                    &&& lut@.pin is None
                },
            },
    {
        match ColbertPacking::new(nbits) {
            Ok(packing) => {
                proof {
                    assert forall|b: u8, k: nat| k < 8nat / packing.width() implies #[trigger] packing.layout()(
                        b,
                        k,
                    ) < pow2(packing.width()) by {
                        colbert_bucket_bits(packing.width(), b, k);
                    }
                }
                let r = Self::new::<ColbertPacking, A>(&packing, bucket_weights);
                proof {
                    if r is Ok {
                        let lut = r->Ok_0;
                        let vals = choose|vals: Seq<i8>| #[trigger]
                            quantises::<A>(bucket_weights@, lut@.scale, vals) && fuses(
                                lut@.fused,
                                lut@.kpb(),
                                packing.layout(),
                                vals,
                            );
                        colbert_tables_factor(nbits as nat, lut@.fused, vals);
                    }
                }
                r
            },
            Err(e) => Err(e),
        }
    }

    /// Pin every score to the scalar reference kernel. For tests and for
    /// measuring what the SIMD is worth; the results are bit-identical either
    /// way.
    pub fn force_scalar(self, yes: bool) -> (r: Self)
        ensures
            r.wf(),
            r@ == (LutView { force_scalar: yes, ..self@ }),
    {
        proof {
            use_type_invariant(&self);
        }
        Lut { force_scalar: yes, ..self }
    }

    /// Pin every score to one kernel instead of the calibrated one, or lift
    /// the pin with `None`. Honoured only for a kernel the CPU can execute
    /// and a shape the SIMD kernels accept; the results are bit-identical
    /// either way.
    pub fn pin_kernel(self, kernel: Option<Kernel>) -> (r: Self)
        ensures
            r.wf(),
            r@ == (LutView { pin: kernel, ..self@ }),
    {
        proof {
            use_type_invariant(&self);
        }
        Lut { pin: kernel, ..self }
    }

    /// Code width this table was built for.
    pub fn nbits(&self) -> (r: usize)
        ensures
            r == self@.nbits,
    {
        self.nbits
    }

    /// `8 / nbits`: how many dims one packed byte carries.
    pub fn keys_per_byte(&self) -> (r: usize)
        ensures
            r == self@.kpb(),
    {
        proof {
            use_type_invariant(self);
        }
        self.keys_per_byte
    }

    /// Pattern of the dequantisation scale: `fused * scale` approximates the
    /// bucket weight.
    pub fn scale(&self) -> (r: u32)
        ensures
            r == self@.scale,
    {
        self.scale
    }

    /// The `8/nbits` int8 weights a packed byte expands to, in dim order.
    pub fn expand(&self, byte: u8) -> (r: &[i8])
        ensures
            r@.len() == self@.kpb(),
            forall|k: int| 0 <= k < self@.kpb() ==> #[trigger] r@[k] == self@.weight(byte, k),
    {
        proof {
            use_type_invariant(self);
            let kpb = self.keys_per_byte;
            lemma_keys_at(self@.nbits);
            assert(byte * kpb + kpb <= 256 * kpb && 256 * kpb <= 2048) by (nonlinear_arith)
                requires
                    byte < 256,
                    0 <= kpb <= 8,
            ;
        }
        let base: usize = byte as usize * self.keys_per_byte;
        &self.fused[base..base + self.keys_per_byte]
    }

    /// The whole fused table, `256 * keys_per_byte` weights, row `b` = byte `b`.
    pub fn fused_table(&self) -> (r: &[i8])
        ensures
            r@ == self@.fused,
    {
        &self.fused
    }

    /// The nibble-factored tables, if the layout admits them (always, for
    /// [`crate::ColbertPacking`] at nbits 1, 2 or 4; never at nbits 8).
    pub fn nibble_tables(&self) -> (r: Option<&NibbleTables>)
        ensures
            match r {
                Some(n) => self@.nibble == Some(*n),
                None => self@.nibble is None,
            },
    {
        match &self.nibble {
            Some(n) => Some(n),
            None => None,
        }
    }

    /// Which kernel [`crate::Scorer::score`] will run for this table and
    /// `dim`. Print it next to any benchmark number: a speedup attributed to a
    /// path that never executed is the easiest measurement error to make and
    /// the hardest to notice.
    pub fn kernel(&self, dim: usize, d: &Dispatch) -> (r: Kernel)
        ensures
            r == selected(self@, dim as nat, d@),
    {
        select(self, dim, d)
    }

    /// Whether [`Lut::force_scalar`] was set.
    pub fn force_scalar_set(&self) -> (r: bool)
        ensures
            r == self@.force_scalar,
    {
        self.force_scalar
    }

    /// The kernel given to [`Lut::pin_kernel`].
    pub fn pinned_kernel(&self) -> (r: Option<Kernel>)
        ensures
            r == self@.pin,
    {
        self.pin
    }

    /// Two [`Lut`]s prepared from the same weights and packing are
    /// interchangeable for a [`crate::PreparedQuery`]; their width and scale
    /// are what the query compares first, before the weights.
    pub fn fingerprint(&self) -> (r: (usize, u32))
        ensures
            r.0 == self@.nbits,
            r.1 == self@.scale,
    {
        (self.nbits, self.scale)
    }
}

/// In the ColBERT layout, codes narrower than a byte always factor into
/// nibble tables, whatever the weights; 8-bit codes never do.
pub proof fn colbert_tables_factor(nbits: nat, fused: Seq<i8>, vals: Seq<i8>)
    requires
        supported(nbits),
        fuses(fused, (8nat / nbits) as int, colbert_layout(nbits), vals),
    ensures
        factorable(fused, (8nat / nbits) as int) <==> nbits != 8,
{
    lemma_keys_at(nbits);
    let kpb = (8nat / nbits) as int;
    let layout = colbert_layout(nbits);
    if nbits != 8 {
        assert forall|k: int| 0 <= k < kpb implies #[trigger] follows_hi(fused, kpb, k)
            || follows_lo(fused, kpb, k) by {
            if (k + 1) * nbits <= 4 {
                assert forall|b: int| 0 <= b < 256 implies #[trigger] entry(fused, kpb, b, k)
                    == entry(fused, kpb, 16 * (b / 16), k) by {
                    lemma_colbert_nibble(nbits, b as u8, (16 * (b / 16)) as u8, k as nat, true);
                    assert(entry(fused, kpb, b, k) == vals[layout(b as u8, k as nat) as int]);
                }
                assert(follows_hi(fused, kpb, k));
            } else {
                assert forall|b: int| 0 <= b < 256 implies #[trigger] entry(fused, kpb, b, k)
                    == entry(fused, kpb, b % 16, k) by {
                    lemma_colbert_nibble(nbits, b as u8, (b % 16) as u8, k as nat, false);
                    assert(entry(fused, kpb, b, k) == vals[layout(b as u8, k as nat) as int]);
                }
                assert(follows_lo(fused, kpb, k));
            }
        }
    }
}

/// A key of a sub-byte code reads one nibble: bytes that agree on it hold the
/// same bucket there.
proof fn lemma_colbert_nibble(nbits: nat, x: u8, y: u8, k: nat, high: bool)
    requires
        nbits == 1 || nbits == 2 || nbits == 4,
        k < 8nat / nbits,
        high ==> (k + 1) * nbits <= 4 && x / 16 == y / 16,
        !high ==> (k + 1) * nbits > 4 && x % 16 == y % 16,
    ensures
        colbert_layout(nbits)(x, k) == colbert_layout(nbits)(y, k),
{
    lemma_keys_at(nbits);
    lemma2_to64();
    let f = |b: nat| bit(x as nat, (7 - (k * nbits + b)) as nat);
    let g = |b: nat| bit(y as nat, (7 - (k * nbits + b)) as nat);
    assert forall|b: nat| b < nbits implies #[trigger] f(b) == g(b) by {
        lemma_position(nbits, k, b);
        assert((k + 1) * nbits == k * nbits + nbits) by (nonlinear_arith);
        let i = (7 - (k * nbits + b)) as nat;
        if high {
            assert(4 <= i < 8);
            assert(bit(x as nat, i) == bit(y as nat, i)) by {
                lemma_high_bit(x, i);
                lemma_high_bit(y, i);
            }
        } else {
            assert(i < 4) by {
                if nbits == 1 {
                } else if nbits == 2 {
                } else {
                }
            }
            lemma_low_bit(x, i);
            lemma_low_bit(y, i);
        }
    }
    lemma_number_eq(f, g, nbits);
}

proof fn lemma_high_bit(x: u8, i: nat)
    requires
        4 <= i < 8,
    ensures
        bit(x as nat, i) == bit((x / 16) as nat, (i - 4) as nat),
{
    lemma2_to64();
    lemma_pow2_adds(4, (i - 4) as nat);
    lemma_pow2_pos((i - 4) as nat);
    lemma_div_denominator(x as int, 16, pow2((i - 4) as nat) as int);
}

proof fn lemma_low_bit(x: u8, i: nat)
    requires
        i < 4,
    ensures
        bit(x as nat, i) == bit((x % 16) as nat, i),
{
    lemma2_to64();
    lemma_bit_add((x % 16) as nat, (x / 16) as nat, 4, i);
    assert(x as nat == (x % 16) as nat + (x / 16) as nat * pow2(4));
}

/// A code is unique under a deterministic arithmetic.
pub proof fn lemma_code_is_unique<A: Arith>(x: u32, scale: u32, v: i8, w: i8)
    requires
        deterministic::<A>(),
        quantised::<A>(x, scale, v),
        quantised::<A>(x, scale, w),
    ensures
        v == w,
{
    let (q, n) = choose|q: u32, n: i32| #[trigger]
        quotient::<A>(x, scale, q) && #[trigger] rounding::<A>(q, n) && v == clamped(n as int);
    let (r, m) = choose|q: u32, n: i32| #[trigger]
        quotient::<A>(x, scale, q) && #[trigger] rounding::<A>(q, n) && w == clamped(n as int);
    assert(q == r);
    assert(n == m);
}

/// Two tables built from the same weights and packing are interchangeable:
/// under a deterministic arithmetic they have the same scale and weights.
pub proof fn tables_of_the_same_weights_agree<A: Arith>(
    x: LutView,
    y: LutView,
    layout: Layout,
    weights: Seq<u32>,
)
    requires
        deterministic::<A>(),
        x.wf(),
        y.wf(),
        x.nbits == y.nbits,
        weights.len() == pow2(x.nbits),
        forall|b: u8, k: nat| k < x.kpb() ==> #[trigger] layout(b, k) < pow2(x.nbits),
        x.built_from::<A>(layout, weights),
        y.built_from::<A>(layout, weights),
    ensures
        x.scale == y.scale,
        x.fused == y.fused,
{
    let (m, d) = choose|m: u32, d: u32| #[trigger]
        is_max_abs(weights, m) && #[trigger] quotient::<A>(m, CODE_MAX, d) && x.scale == larger(
            d,
            MIN_SCALE,
        );
    let (n, e) = choose|m: u32, d: u32| #[trigger]
        is_max_abs(weights, m) && #[trigger] quotient::<A>(m, CODE_MAX, d) && y.scale == larger(
            d,
            MIN_SCALE,
        );
    max_abs_is_unique(weights, m, n);
    assert(d == e);
    let kpb = x.kpb();
    let u = choose|vals: Seq<i8>| #[trigger]
        quantises::<A>(weights, x.scale, vals) && fuses(x.fused, kpb, layout, vals);
    let v = choose|vals: Seq<i8>| #[trigger]
        quantises::<A>(weights, y.scale, vals) && fuses(y.fused, kpb, layout, vals);
    assert forall|i: int| 0 <= i < u.len() implies u[i] == v[i] by {
        lemma_code_is_unique::<A>(weights[i], x.scale, u[i], v[i]);
    }
    assert(u =~= v);
    lemma_keys_at(x.nbits);
    assert forall|i: int| 0 <= i < x.fused.len() implies x.fused[i] == y.fused[i] by {
        let b = i / kpb;
        let k = i % kpb;
        assert(0 <= b < 256 && 0 <= k < kpb && i == b * kpb + k) by (nonlinear_arith)
            requires
                b == i / kpb,
                k == i % kpb,
                0 <= i < 256 * kpb,
                0 < kpb,
        ;
        assert(entry(x.fused, kpb, b, k) == u[layout(b as u8, k as nat) as int]);
        assert(entry(y.fused, kpb, b, k) == v[layout(b as u8, k as nat) as int]);
    }
    assert(x.fused =~= y.fused);
}

} // verus!
