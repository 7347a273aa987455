//! What a packed byte stands for, told over the bits and the bucket weights a
//! host hands in.
use crate::bits::bit;
use crate::error::Error;
use crate::float::{
    clamped, deterministic, is_max_abs, is_nan, larger, magnitude, max_abs_is_unique, quantised,
    quotient, rounding, Arith, CODE_MAX, MIN_SCALE,
};
use crate::kernel::Kernel;
use crate::lut::{derive_nibble_tables, entry, factorable, follows_hi, follows_lo, fuses, quantises, table_scale, Lut, NibbleTables};
use crate::packing::{
    chunk, colbert_bucket_bits, encodes, lemma_keys_at, packs, ColbertPacking, Packing,
};
use vstd::arithmetic::power2::{lemma2_to64, pow2};
use vstd::prelude::*;

verus! {

/// The ColBERT layout takes widths 1, 2, 4 and 8, and no other.
pub proof fn colbert_widths(nbits: usize, r: Result<ColbertPacking, Error>)
    requires
        call_ensures(ColbertPacking::new, (nbits,), r),
    ensures
        r is Ok <==> nbits == 1 || nbits == 2 || nbits == 4 || nbits == 8,
        r is Err ==> r == Err::<ColbertPacking, Error>(Error::NbitsUnsupported(nbits)),
{
}

/// The ColBERT layout writes a bucket's bits lowest first from the top of the
/// byte down: bit `j` of the bucket at key `k` is the byte's bit
/// `7 - (k * nbits + j)`, and a bucket has no other bits.
pub proof fn a_colbert_bucket_is_its_bits_of_the_byte(
    nbits: usize,
    p: ColbertPacking,
    byte: u8,
    key: usize,
    w: usize,
    kpb: usize,
    b: usize,
)
    requires
        call_ensures(ColbertPacking::new, (nbits,), Ok(p)),
        call_ensures(<ColbertPacking as Packing>::nbits, (&p,), w),
        call_ensures(<ColbertPacking as Packing>::keys_per_byte, (&p,), kpb),
        call_ensures(<ColbertPacking as Packing>::bucket_index, (&p, byte, key), b),
    ensures
        w == nbits,
        kpb * nbits == 8,
        b < pow2(nbits as nat),
        forall|j: nat|
            j < nbits ==> (b as nat / #[trigger] pow2(j)) % 2 == (byte as nat / pow2(
                (7 - (key * nbits + j)) as nat,
            )) % 2,
{
    lemma_keys_at(nbits as nat);
    colbert_bucket_bits(nbits as nat, byte, key as nat);
    assert forall|j: nat| j < nbits implies (b as nat / #[trigger] pow2(j)) % 2 == (byte as nat
        / pow2((7 - (key * nbits + j)) as nat)) % 2 by {
        assert(bit(b as nat, j) == bit(byte as nat, (7 - (key * nbits + j)) as nat));
    }
}

/// Packing a row and reading it back gives the row: key `k` of byte `i` holds
/// bucket `i * kpb + k`, no lower byte holds the same buckets, and the bytes
/// after the row are left alone.
pub proof fn a_packed_row_reads_back<P: Packing>(
    p: &P,
    buckets: &[usize],
    out: &mut [u8],
    kpb: usize,
    i: int,
    key: usize,
    b: usize,
    lower: u8,
)
    requires
        call_ensures(P::keys_per_byte, (p,), kpb),
        call_ensures(P::pack_row, (p, buckets, out), ()),
        0 < p.width() <= 8,
        0 <= i < buckets@.len() / (kpb as nat),
        key < kpb,
        call_ensures(P::bucket_index, (p, final(out)@[i], key), b),
    ensures
        b == buckets@[i * kpb + key],
        lower < final(out)@[i] ==> exists|k: nat|
            k < kpb && #[trigger] p.layout()(lower, k) != buckets@[i * kpb + k],
        final(out)@.len() == old(out)@.len(),
        forall|j: int|
            buckets@.len() / (kpb as nat) <= j < old(out)@.len() ==> #[trigger] final(out)@[j]
                == old(out)@[j],
{
    let n = buckets@.len();
    let part = chunk(buckets@, kpb as nat, i);
    assert(0 <= i * kpb && i * kpb + kpb <= n) by (nonlinear_arith)
        requires
            0 < kpb,
            0 <= i < n / (kpb as nat),
    ;
    assert(packs(p.layout(), final(out)@[i], part));
    assert(encodes(p.layout(), final(out)@[i], part));
    assert(p.layout()(final(out)@[i], key as nat) == part[key as int]);
    if lower < final(out)@[i] {
        assert(!encodes(p.layout(), lower, part));
        let k = choose|k: nat| k < part.len() && #[trigger] p.layout()(lower, k) != part[k as int];
        assert(part[k as int] == buckets@[i * kpb + k]);
    }
}

/// A table is built for the layout's width, which must be 1, 2, 4 or 8, and
/// takes `2^nbits` weights.
pub proof fn a_table_takes_two_to_the_width_weights<P: Packing, A: Arith>(
    p: &P,
    weights: &[u32],
    r: Result<Lut, Error>,
    nbits: usize,
)
    requires
        call_ensures(P::nbits, (p,), nbits),
        call_ensures(Lut::new::<P, A>, (p, weights), r),
    ensures
        r is Ok <==> (nbits == 1 && weights@.len() == 2) || (nbits == 2 && weights@.len() == 4) || (
        nbits == 4 && weights@.len() == 16) || (nbits == 8 && weights@.len() == 256),
        nbits != 1 && nbits != 2 && nbits != 4 && nbits != 8 ==> r == Err::<Lut, Error>(
            Error::NbitsUnsupported(nbits),
        ),
        r matches Err(Error::BucketCount { expected, got }) ==> got == weights@.len() && expected
            == pow2(nbits as nat),
        r is Err && (nbits == 1 || nbits == 2 || nbits == 4 || nbits == 8) ==> r->Err_0
            is BucketCount,
{
    lemma2_to64();
}

/// The scale of a table is its largest weight divided by 127, over all its
/// weights, and `1e-12` where that is smaller or no number.
pub proof fn a_table_is_scaled_by_its_largest_weight<P: Packing, A: Arith>(
    p: &P,
    weights: &[u32],
    lut: Lut,
    scale: u32,
) -> (w: (u32, u32))
    requires
        call_ensures(Lut::new::<P, A>, (p, weights), Ok(lut)),
        call_ensures(Lut::scale, (&lut,), scale),
    ensures
        forall|i: int|
            0 <= i < weights@.len() && #[trigger] weights@[i] % 0x8000_0000 <= 0x7f80_0000
                ==> weights@[i] % 0x8000_0000 <= w.0,
        w.0 == 0 || exists|i: int|
            0 <= i < weights@.len() && #[trigger] weights@[i] % 0x8000_0000 == w.0 && w.0
                <= 0x7f80_0000,
        call_ensures(A::div, (w.0, 0x42fe_0000u32), w.1),
        w.1 < 0x2b8c_bccc || w.1 > 0x7f80_0000 ==> scale == 0x2b8c_bccc,
        0x2b8c_bccc <= w.1 <= 0x7f80_0000 ==> scale == w.1,
{
    let (m, d) = choose|m: u32, d: u32| #[trigger]
        is_max_abs(weights@, m) && #[trigger] quotient::<A>(m, CODE_MAX, d) && lut@.scale == larger(
            d,
            MIN_SCALE,
        );
    assert(table_scale::<A>(weights@, lut@.scale));
    lemma_largest(weights@, m);
    (m, d)
}

/// What the largest magnitude of a sequence is.
proof fn lemma_largest(s: Seq<u32>, m: u32)
    requires
        is_max_abs(s, m),
    ensures
        forall|i: int|
            0 <= i < s.len() && #[trigger] s[i] % 0x8000_0000 <= 0x7f80_0000 ==> s[i] % 0x8000_0000
                <= m,
        m == 0 || exists|i: int|
            0 <= i < s.len() && #[trigger] s[i] % 0x8000_0000 == m && m <= 0x7f80_0000,
{
    assert forall|i: int|
        0 <= i < s.len() && #[trigger] s[i] % 0x8000_0000 <= 0x7f80_0000 implies s[i] % 0x8000_0000
        <= m by {
        assert(!is_nan(s[i]));
    }
    if m != 0 {
        let i = choose|i: int| 0 <= i < s.len() && !is_nan(#[trigger] s[i]) && magnitude(s[i]) == m;
        assert(s[i] % 0x8000_0000 == m);
    }
}

/// Rearranging the weights of a table keeps its scale: tables whose weights
/// are each among the other's have the same one.
pub proof fn rearranging_the_weights_keeps_the_scale<P: Packing, A: Arith>(
    p: &P,
    q: &P,
    a: &[u32],
    b: &[u32],
    x: Lut,
    y: Lut,
    s: u32,
    t: u32,
)
    requires
        deterministic::<A>(),
        call_ensures(Lut::new::<P, A>, (p, a), Ok(x)),
        call_ensures(Lut::new::<P, A>, (q, b), Ok(y)),
        call_ensures(Lut::scale, (&x,), s),
        call_ensures(Lut::scale, (&y,), t),
        forall|i: int| 0 <= i < a@.len() ==> b@.contains(#[trigger] a@[i]),
        forall|i: int| 0 <= i < b@.len() ==> a@.contains(#[trigger] b@[i]),
    ensures
        s == t,
{
    let (m, d) = choose|m: u32, d: u32| #[trigger]
        is_max_abs(a@, m) && #[trigger] quotient::<A>(m, CODE_MAX, d) && x@.scale == larger(
            d,
            MIN_SCALE,
        );
    let (n, e) = choose|m: u32, d: u32| #[trigger]
        is_max_abs(b@, m) && #[trigger] quotient::<A>(m, CODE_MAX, d) && y@.scale == larger(
            d,
            MIN_SCALE,
        );
    assert(table_scale::<A>(a@, x@.scale) && table_scale::<A>(b@, y@.scale));
    assert(is_max_abs(a@, n)) by {
        assert forall|i: int| 0 <= i < a@.len() && !is_nan(#[trigger] a@[i]) implies magnitude(
            a@[i],
        ) <= n by {
            let j = choose|j: int| 0 <= j < b@.len() && b@[j] == a@[i];
            assert(!is_nan(b@[j]));
        }
        if n != 0 {
            let i = choose|i: int|
                0 <= i < b@.len() && !is_nan(#[trigger] b@[i]) && magnitude(b@[i]) == n;
            assert(a@.contains(b@[i]));
            let j = choose|j: int| 0 <= j < a@.len() && a@[j] == b@[i];
            assert(!is_nan(a@[j]) && magnitude(a@[j]) == n);
        }
    }
    max_abs_is_unique(a@, m, n);
}

/// A byte expands to the codes of the weights of the buckets it holds: the
/// weight of key `k` is the rounded quotient of its bucket's weight and the
/// scale, cut off at 127 in magnitude. The fused table holds the expansions of
/// all bytes one after the other.
pub proof fn a_byte_expands_to_the_codes_of_its_buckets<P: Packing, A: Arith>(
    p: &P,
    weights: &[u32],
    lut: Lut,
    nbits: usize,
    width: usize,
    kpb: usize,
    scale: u32,
    byte: u8,
    row: &[i8],
    table: &[i8],
    key: usize,
    b: usize,
) -> (w: (u32, i32))
    requires
        call_ensures(P::nbits, (p,), nbits),
        call_ensures(Lut::new::<P, A>, (p, weights), Ok(lut)),
        call_ensures(Lut::nbits, (&lut,), width),
        call_ensures(Lut::keys_per_byte, (&lut,), kpb),
        call_ensures(Lut::scale, (&lut,), scale),
        call_ensures(Lut::expand, (&lut, byte), row),
        call_ensures(Lut::fused_table, (&lut,), table),
        key < kpb,
        call_ensures(P::bucket_index, (p, byte, key), b),
        b < weights@.len(),
    ensures
        width == nbits,
        kpb * nbits == 8,
        row@.len() == kpb,
        table@.len() == 256 * kpb,
        row@[key as int] == table@[byte * kpb + key],
        call_ensures(A::div, (weights@[b as int], scale), w.0),
        call_ensures(A::round_to_i32, (w.0,), w.1),
        -127 <= w.1 <= 127 ==> row@[key as int] == w.1,
        w.1 > 127 ==> row@[key as int] == 127,
        w.1 < -127 ==> row@[key as int] == -127,
{
    lemma_keys_at(nbits as nat);
    let vals = choose|vals: Seq<i8>| #[trigger]
        quantises::<A>(weights@, lut@.scale, vals) && fuses(
            lut@.fused,
            lut@.kpb(),
            p.layout(),
            vals,
        );
    assert(p.layout()(byte, key as nat) == b);
    assert(entry(lut@.fused, lut@.kpb(), byte as int, key as int) == vals[b as int]);
    assert(lut@.weight(byte, key as int) == row@[key as int]);
    assert(quantised::<A>(weights@[b as int], scale, vals[b as int]));
    choose|q: u32, n: i32| #[trigger]
        quotient::<A>(weights@[b as int], scale, q) && #[trigger] rounding::<A>(q, n)
            && vals[b as int] == clamped(n as int)
}

/// The ColBERT table is the table of the ColBERT layout of its width.
pub proof fn a_colbert_table_is_that_of_its_layout<A: Arith>(
    nbits: usize,
    weights: &[u32],
    lut: Lut,
    p: ColbertPacking,
    scale: u32,
    byte: u8,
    row: &[i8],
    key: usize,
    b: usize,
) -> (w: (u32, i32))
    requires
        call_ensures(Lut::colbert::<A>, (nbits, weights), Ok(lut)),
        call_ensures(ColbertPacking::new, (nbits,), Ok(p)),
        call_ensures(Lut::scale, (&lut,), scale),
        call_ensures(Lut::expand, (&lut, byte), row),
        key * nbits < 8,
        call_ensures(<ColbertPacking as Packing>::bucket_index, (&p, byte, key), b),
    ensures
        row@.len() * nbits == 8,
        b < weights@.len(),
        call_ensures(A::div, (weights@[b as int], scale), w.0),
        call_ensures(A::round_to_i32, (w.0,), w.1),
        -127 <= w.1 <= 127 ==> row@[key as int] == w.1,
        w.1 > 127 ==> row@[key as int] == 127,
        w.1 < -127 ==> row@[key as int] == -127,
{
    lemma_keys_at(nbits as nat);
    colbert_bucket_bits(nbits as nat, byte, key as nat);
    assert(key < 8nat / (nbits as nat)) by {
        if nbits == 1 {
            assert(key * nbits == key);
        } else if nbits == 2 {
            assert(key * nbits == 2 * key);
        } else if nbits == 4 {
            assert(key * nbits == 4 * key);
        } else if nbits == 8 {
            assert(key * nbits == 8 * key);
        }
    }
    let vals = choose|vals: Seq<i8>| #[trigger]
        quantises::<A>(weights@, lut@.scale, vals) && fuses(
            lut@.fused,
            lut@.kpb(),
            p.layout(),
            vals,
        );
    assert(p.layout()(byte, key as nat) == b);
    assert(entry(lut@.fused, lut@.kpb(), byte as int, key as int) == vals[b as int]);
    assert(lut@.weight(byte, key as int) == row@[key as int]);
    assert(quantised::<A>(weights@[b as int], scale, vals[b as int]));
    choose|q: u32, n: i32| #[trigger]
        quotient::<A>(weights@[b as int], scale, q) && #[trigger] rounding::<A>(q, n)
            && vals[b as int] == clamped(n as int)
}

/// The scale of a ColBERT table is its largest weight divided by 127, over all
/// its weights, and `1e-12` where that is smaller or no number.
pub proof fn a_colbert_table_is_scaled_by_its_largest_weight<A: Arith>(
    nbits: usize,
    weights: &[u32],
    r: Result<Lut, Error>,
    scale: u32,
) -> (w: (u32, u32))
    requires
        call_ensures(Lut::colbert::<A>, (nbits, weights), r),
        r matches Ok(lut) ==> call_ensures(Lut::scale, (&lut,), scale),
    ensures
        r is Ok <==> (nbits == 1 && weights@.len() == 2) || (nbits == 2 && weights@.len() == 4) || (
        nbits == 4 && weights@.len() == 16) || (nbits == 8 && weights@.len() == 256),
        r is Ok ==> {
            &&& forall|i: int|
                0 <= i < weights@.len() && #[trigger] weights@[i] % 0x8000_0000 <= 0x7f80_0000
                    ==> weights@[i] % 0x8000_0000 <= w.0
            &&& w.0 == 0 || exists|i: int|
                0 <= i < weights@.len() && #[trigger] weights@[i] % 0x8000_0000 == w.0 && w.0
                    <= 0x7f80_0000
            &&& call_ensures(A::div, (w.0, 0x42fe_0000u32), w.1)
            &&& w.1 < 0x2b8c_bccc || w.1 > 0x7f80_0000 ==> scale == 0x2b8c_bccc
            &&& 0x2b8c_bccc <= w.1 <= 0x7f80_0000 ==> scale == w.1
        },
{
    lemma2_to64();
    if r is Ok {
        let lut = r->Ok_0;
        let (m, d) = choose|m: u32, d: u32| #[trigger]
            is_max_abs(weights@, m) && #[trigger] quotient::<A>(m, CODE_MAX, d) && lut@.scale
                == larger(d, MIN_SCALE);
        assert(table_scale::<A>(weights@, lut@.scale));
        lemma_largest(weights@, m);
        (m, d)
    } else {
        (0, 0)
    }
}

/// The nibble tables give every byte the weights the table expands it to.
/// There are none only where there can be none: where a byte has one key, or
/// some key `k` differs within one high nibble (bytes `b` and `c`) and within
/// one low nibble (bytes `e` and `f`).
pub proof fn nibble_tables_are_another_form_of_the_table(
    lut: Lut,
    kpb: usize,
    table: &[i8],
    r: Option<&NibbleTables>,
) -> (w: (int, int, int, int, int))
    requires
        lut.wf(),
        call_ensures(Lut::keys_per_byte, (&lut,), kpb),
        call_ensures(Lut::fused_table, (&lut,), table),
        call_ensures(Lut::nibble_tables, (&lut,), r),
    ensures
        r matches Some(n) ==> kpb > 1 && forall|b: int, k: int|
            0 <= b < 256 && 0 <= k < kpb ==> #[trigger] table@[b * kpb + k] == n.tables[k][if n.from_hi[k] {
                b / 16
            } else {
                b % 16
            }],
        r is None && kpb > 1 ==> {
            let (k, b, c, e, f) = w;
            &&& 0 <= k < kpb
            &&& 0 <= b < 256 && 0 <= c < 256 && b / 16 == c / 16
            &&& table@[b * kpb + k] != table@[c * kpb + k]
            &&& 0 <= e < 256 && 0 <= f < 256 && e % 16 == f % 16
            &&& table@[e * kpb + k] != table@[f * kpb + k]
        },
{
    let fused = table@;
    let kk = kpb as int;
    lemma_keys_at(lut@.nbits);
    if let Some(n) = r {
        assert forall|b: int, k: int| 0 <= b < 256 && 0 <= k < kpb implies #[trigger] fused[b * kpb
            + k] == n.tables[k][if n.from_hi[k] {
            b / 16
        } else {
            b % 16
        }] by {
            assert(follows_hi(fused, kk, k) || follows_lo(fused, kk, k));
            assert(entry(fused, kk, b, k) == fused[b * kpb + k]);
        }
        (0, 0, 0, 0, 0)
    } else if kpb > 1 {
        assert(!factorable(fused, kk));
        let k = choose|k: int|
            0 <= k < kk && !(#[trigger] follows_hi(fused, kk, k) || follows_lo(fused, kk, k));
        let b = choose|b: int|
            0 <= b < 256 && #[trigger] entry(fused, kk, b, k) != entry(fused, kk, 16 * (b / 16), k);
        let e = choose|b: int|
            0 <= b < 256 && #[trigger] entry(fused, kk, b, k) != entry(fused, kk, b % 16, k);
        (k, b, 16 * (b / 16), e, e % 16)
    } else {
        (0, 0, 0, 0, 0)
    }
}

/// The ColBERT layout has nibble tables exactly for codes narrower than a
/// byte.
pub proof fn colbert_tables_have_nibble_tables_below_a_byte<A: Arith>(
    nbits: usize,
    weights: &[u32],
    lut: Lut,
    r: Option<&NibbleTables>,
)
    requires
        call_ensures(Lut::colbert::<A>, (nbits, weights), Ok(lut)),
        call_ensures(Lut::nibble_tables, (&lut,), r),
    ensures
        r is Some <==> nbits < 8,
{
}

/// Forcing and pinning a table change how it is dispatched and nothing else:
/// its width, its scale and its weights stay, and each keeps the other.
pub proof fn forcing_and_pinning_keep_the_table(
    lut: Lut,
    yes: bool,
    k: Option<Kernel>,
    x: Lut,
    y: Lut,
    z: Lut,
)
    requires
        call_ensures(Lut::force_scalar, (lut, yes), x),
        call_ensures(Lut::pin_kernel, (x, k), y),
        call_ensures(<Lut as Clone>::clone, (&y,), z),
    ensures
        forall|t: &[i8], u: &[i8]| #[trigger]
            call_ensures(Lut::fused_table, (&lut,), t) && #[trigger] call_ensures(
                Lut::fused_table,
                (&z,),
                u,
            ) ==> t@ == u@,
        forall|s: u32, t: u32| #[trigger]
            call_ensures(Lut::scale, (&lut,), s) && #[trigger] call_ensures(Lut::scale, (&z,), t)
                ==> s == t,
        forall|s: usize, t: usize| #[trigger]
            call_ensures(Lut::nbits, (&lut,), s) && #[trigger] call_ensures(Lut::nbits, (&z,), t)
                ==> s == t,
        forall|b: bool| #[trigger] call_ensures(Lut::force_scalar_set, (&z,), b) ==> b == yes,
        forall|p: Option<Kernel>| #[trigger]
            call_ensures(Lut::pinned_kernel, (&z,), p) ==> p == k,
{
}

/// Factoring a table of `kpb` weights per byte: the tables of a key give every
/// byte's weight by the byte's high nibble where that decides it, else by its
/// low nibble; the tables past `kpb` are empty. Nothing comes of a table with
/// one key per byte, or one where neither nibble decides key `k` (bytes `b` and
/// `c`, `e` and `f`).
pub proof fn factoring_follows_the_nibble_that_decides(
    fused: &[i8],
    kpb: usize,
    r: Option<NibbleTables>,
) -> (w: (int, int, int, int, int))
    requires
        kpb <= 8 ==> fused@.len() == 256 * kpb,
        call_ensures(derive_nibble_tables, (fused, kpb), r),
    ensures
        r matches Some(n) ==> {
            &&& 2 <= kpb <= 8 || kpb == 0
            &&& forall|b: int, k: int|
                0 <= b < 256 && 0 <= k < kpb ==> #[trigger] fused@[b * kpb + k] == n.tables[k][if n.from_hi[k] {
                    b / 16
                } else {
                    b % 16
                }]
            &&& forall|k: int, x: int|
                kpb <= k < 8 && 0 <= x < 16 ==> #[trigger] n.tables[k][x] == 0
            &&& forall|k: int| kpb <= k < 8 ==> !#[trigger] n.from_hi[k]
            &&& forall|k: int|
                0 <= k < kpb && (forall|b: int, c: int|
                    0 <= b < 256 && 0 <= c < 256 && b / 16 == c / 16 ==> #[trigger] fused@[b * kpb
                        + k] == #[trigger] fused@[c * kpb + k]) ==> #[trigger] n.from_hi[k]
        },
        r is None && 2 <= kpb <= 8 ==> {
            let (k, b, c, e, f) = w;
            &&& 0 <= k < kpb
            &&& 0 <= b < 256 && 0 <= c < 256 && b / 16 == c / 16
            &&& fused@[b * kpb + k] != fused@[c * kpb + k]
            &&& 0 <= e < 256 && 0 <= f < 256 && e % 16 == f % 16
            &&& fused@[e * kpb + k] != fused@[f * kpb + k]
        },
{
    let t = fused@;
    let kk = kpb as int;
    if let Some(n) = r {
        assert forall|b: int, k: int| 0 <= b < 256 && 0 <= k < kpb implies #[trigger] t[b * kpb + k]
            == n.tables[k][if n.from_hi[k] {
            b / 16
        } else {
            b % 16
        }] by {
            assert(follows_hi(t, kk, k) || follows_lo(t, kk, k));
            assert(entry(t, kk, b, k) == t[b * kpb + k]);
        }
        assert forall|k: int|
            0 <= k < kpb && (forall|b: int, c: int|
                0 <= b < 256 && 0 <= c < 256 && b / 16 == c / 16 ==> #[trigger] t[b * kpb + k]
                    == #[trigger] t[c * kpb + k]) implies #[trigger] n.from_hi[k] by {
            assert forall|b: int| 0 <= b < 256 implies #[trigger] entry(t, kk, b, k) == entry(
                t,
                kk,
                16 * (b / 16),
                k,
            ) by {
                let c = 16 * (b / 16);
                assert(t[b * kpb + k] == t[c * kpb + k]);
            }
            assert(follows_hi(t, kk, k));
        }
        (0, 0, 0, 0, 0)
    } else if 2 <= kpb <= 8 {
        assert(!factorable(t, kk));
        let k = choose|k: int|
            0 <= k < kk && !(#[trigger] follows_hi(t, kk, k) || follows_lo(t, kk, k));
        let b = choose|b: int|
            0 <= b < 256 && #[trigger] entry(t, kk, b, k) != entry(t, kk, 16 * (b / 16), k);
        let e = choose|b: int|
            0 <= b < 256 && #[trigger] entry(t, kk, b, k) != entry(t, kk, b % 16, k);
        (k, b, 16 * (b / 16), e, e % 16)
    } else {
        (0, 0, 0, 0, 0)
    }
}

/// A table's fingerprint is its width and its scale.
pub proof fn a_fingerprint_is_width_and_scale(lut: &Lut, r: (usize, u32), nbits: usize, scale: u32)
    requires
        call_ensures(Lut::fingerprint, (lut,), r),
        call_ensures(Lut::nbits, (lut,), nbits),
        call_ensures(Lut::scale, (lut,), scale),
    ensures
        r == (nbits, scale),
{
}

/// No weight of a table is cut off: where the host's division keeps in
/// proportion, that is, where no number at most `m` in magnitude rounds to more
/// than 127 when divided by a 127th of `m` or by `1e-12` if that is larger, the
/// weight of a key is the rounded quotient of its bucket's weight and the scale
/// itself.
pub proof fn no_weight_is_cut_off<P: Packing, A: Arith>(
    p: &P,
    weights: &[u32],
    lut: Lut,
    nbits: usize,
    width: usize,
    kpb: usize,
    scale: u32,
    byte: u8,
    row: &[i8],
    table: &[i8],
    key: usize,
    b: usize,
) -> (w: (u32, i32))
    requires
        forall|x: u32, m: u32, d: u32, s: u32, q: u32, n: i32|
            x % 0x8000_0000 <= m <= 0x7f80_0000 && #[trigger] call_ensures(
                A::div,
                (m, 0x42fe_0000u32),
                d,
            ) && s == (if d < 0x2b8c_bccc || d > 0x7f80_0000 {
                0x2b8c_bccc
            } else {
                d
            }) && #[trigger] call_ensures(A::div, (x, s), q) && #[trigger] call_ensures(
                A::round_to_i32,
                (q,),
                n,
            ) ==> -127 <= n <= 127,
        call_ensures(P::nbits, (p,), nbits),
        call_ensures(Lut::new::<P, A>, (p, weights), Ok(lut)),
        call_ensures(Lut::nbits, (&lut,), width),
        call_ensures(Lut::keys_per_byte, (&lut,), kpb),
        call_ensures(Lut::scale, (&lut,), scale),
        call_ensures(Lut::expand, (&lut, byte), row),
        call_ensures(Lut::fused_table, (&lut,), table),
        key < kpb,
        call_ensures(P::bucket_index, (p, byte, key), b),
        b < weights@.len(),
        weights@[b as int] % 0x8000_0000 <= 0x7f80_0000,
    ensures
        call_ensures(A::div, (weights@[b as int], scale), w.0),
        call_ensures(A::round_to_i32, (w.0,), w.1),
        row@[key as int] == w.1,
{
    let (m, d) = a_table_is_scaled_by_its_largest_weight::<P, A>(p, weights, lut, scale);
    let w = a_byte_expands_to_the_codes_of_its_buckets::<P, A>(
        p,
        weights,
        lut,
        nbits,
        width,
        kpb,
        scale,
        byte,
        row,
        table,
        key,
        b,
    );
    let x = weights@[b as int];
    assert(x % 0x8000_0000 <= m);
    assert(-127 <= w.1 <= 127);
    w
}

} // verus!
