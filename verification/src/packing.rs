//! How a host packs `nbits`-wide bucket indices into bytes.
//!
//! This is the one thing a host has to tell the crate about its codec. The
//! fused table in [`crate::Lut`] is built by asking, for every byte value and
//! every key position, which bucket that position holds; nothing else about
//! the host's storage format leaks in.
use crate::bits::{
    bit, lemma_number, lemma_number_eq, lemma_number_of_bits, lemma_same_bits, number,
};
use crate::error::Error;
use vstd::arithmetic::power2::{lemma2_to64, lemma_pow2_strictly_increases, lemma_pow2_unfold, pow2};
use vstd::bits::lemma_u8_shr_is_div;
use vstd::prelude::*;

verus! {

/// The code widths the tables support.
pub open spec fn supported(nbits: nat) -> bool {
    nbits == 1 || nbits == 2 || nbits == 4 || nbits == 8
}

/// The bucket a ColBERT row stores from row bit `first` of `byte` on, counting
/// from the most significant bit: bucket bit `b` is row bit `first + b`.
pub open spec fn reversed_bits(byte: u8, first: nat, nbits: nat) -> nat {
    number(|b: nat| bit(byte as nat, (7 - (first + b)) as nat), nbits)
}

/// A bit layout: the bucket at a key position of a byte.
pub type Layout = spec_fn(u8, nat) -> nat;

/// `byte` holds `chunk`, one bucket per key position.
pub open spec fn encodes(layout: Layout, byte: u8, chunk: Seq<usize>) -> bool {
    forall|k: nat| k < chunk.len() ==> #[trigger] layout(byte, k) == chunk[k as int]
}

/// Some byte holds `chunk`.
pub open spec fn encodable(layout: Layout, chunk: Seq<usize>) -> bool {
    exists|byte: u8| #[trigger] encodes(layout, byte, chunk)
}

/// `byte` is the lowest byte that holds `chunk`.
pub open spec fn packs(layout: Layout, byte: u8, chunk: Seq<usize>) -> bool {
    encodes(layout, byte, chunk) && forall|b: u8| b < byte ==> !#[trigger] encodes(layout, b, chunk)
}

/// The `i`-th group of `kpb` buckets.
pub open spec fn chunk(buckets: Seq<usize>, kpb: nat, i: int) -> Seq<usize> {
    buckets.subrange(i * kpb, i * kpb + kpb)
}

proof fn lemma_keys(nbits: nat)
    requires
        0 < nbits <= 8,
    ensures
        0 < 8nat / nbits <= 8,
        nbits * (8nat / nbits) <= 8,
{
    assert(0 < 8nat / nbits <= 8 && nbits * (8nat / nbits) <= 8) by (nonlinear_arith)
        requires
            0 < nbits <= 8,
    ;
}

proof fn lemma_chunk(buckets: Seq<usize>, kpb: nat, i: int)
    requires
        0 < kpb,
        0 <= i < buckets.len() / kpb,
    ensures
        0 <= i * kpb,
        i * kpb + kpb <= buckets.len(),
        chunk(buckets, kpb, i).len() == kpb,
{
    let n = buckets.len();
    assert(0 <= i * kpb && i * kpb + kpb <= n) by (nonlinear_arith)
        requires
            0 < kpb,
            0 <= i < n / kpb,
    ;
}

/// The ColBERT layout at a code width.
pub open spec fn colbert_layout(nbits: nat) -> Layout {
    |byte: u8, key: nat| reversed_bits(byte, key * nbits, nbits)
}

/// Describes a bit-packing layout of `nbits`-wide bucket indices.
///
/// Key `k` of a byte is the `k`-th embedding dimension that byte carries, in
/// dimension order: a token's packed row `bytes[0..dim*nbits/8]` holds dims
/// `i*keys_per_byte + k` at `(bytes[i], key k)`.
pub trait Packing {
    /// Code width: left unspecified unless an implementation gives it.
    open spec fn width(&self) -> nat {
        arbitrary()
    }

    /// Bucket index at each key position of each byte: left unspecified unless
    /// an implementation gives it.
    open spec fn layout(&self) -> Layout {
        arbitrary()
    }

    /// Code width: 1, 2, 4 or 8.
    fn nbits(&self) -> (r: usize)
        ensures
            r == self.width(),
    ;

    /// Bucket index (`0 .. 2^nbits`) stored at key position `key`
    /// (`0 .. 8/nbits`) of `byte`.
    fn bucket_index(&self, byte: u8, key: usize) -> (r: usize)
        requires
            0 < self.width(),
            key < 8nat / self.width(),
        ensures
            r == self.layout()(byte, key as nat),
    ;

    /// `8 / nbits`.
    fn keys_per_byte(&self) -> (r: usize)
        requires
            0 < self.width(),
        ensures
            r == 8nat / self.width(),
    {
        8 / self.nbits()
    }

    /// Reference packer, the inverse of [`Packing::bucket_index`], for hosts
    /// that want to produce rows the same way the tests do. Not optimised:
    /// each byte is searched for among the 256 candidates.
    fn pack_row(&self, buckets: &[usize], out: &mut [u8])
        requires
            0 < self.width() <= 8,
            buckets@.len() % (8nat / self.width()) == 0,
            old(out)@.len() >= buckets@.len() / (8nat / self.width()),
            forall|i: int|
                0 <= i < buckets@.len() / (8nat / self.width()) ==> encodable(
                    self.layout(),
                    #[trigger] chunk(buckets@, 8nat / self.width(), i),
                ),
        ensures
            final(out)@.len() == old(out)@.len(),
            forall|i: int|
                0 <= i < buckets@.len() / (8nat / self.width()) ==> packs(
                    self.layout(),
                    #[trigger] final(out)@[i],
                    chunk(buckets@, 8nat / self.width(), i),
                ),
            forall|i: int|
                buckets@.len() / (8nat / self.width()) <= i < old(out)@.len()
                    ==> #[trigger] final(out)@[i] == old(out)@[i],
    {
        let kpb: usize = self.keys_per_byte();
        proof {
            lemma_keys(self.width());
        }
        let n: usize = buckets.len();
        let rows: usize = n / kpb;
        let mut i: usize = 0;
        while i < rows
            invariant
                0 < self.width() <= 8,
                kpb == 8nat / self.width(),
                0 < kpb <= 8,
                n == buckets@.len(),
                rows == buckets@.len() / (kpb as nat),
                i <= rows,
                out@.len() == old(out)@.len(),
                out@.len() >= rows,
                forall|j: int|
                    0 <= j < rows ==> encodable(self.layout(), #[trigger] chunk(buckets@, kpb as nat, j)),
                forall|j: int|
                    0 <= j < i ==> packs(self.layout(), #[trigger] out@[j], chunk(buckets@, kpb as nat, j)),
                forall|j: int| i <= j < old(out)@.len() ==> #[trigger] out@[j] == old(out)@[j],
            decreases rows - i,
        {
            let ghost part = chunk(buckets@, kpb as nat, i as int);
            proof {
                lemma_chunk(buckets@, kpb as nat, i as int);
                assert(i * kpb <= n) by {
                    assert(i * kpb == (i as int) * (kpb as nat));
                }
            }
            let base: usize = i * kpb;
            let mut byte: u8 = 0;
            let mut found: bool = false;
            while !found
                invariant
                    0 < self.width() <= 8,
                    kpb == 8nat / self.width(),
                    0 < kpb <= 8,
                    base + kpb <= n,
                    n == buckets@.len(),
                    part.len() == kpb,
                    forall|k: int| 0 <= k < kpb ==> part[k] == #[trigger] buckets@[base + k],
                    encodable(self.layout(), part),
                    forall|b: u8| b < byte ==> !#[trigger] encodes(self.layout(), b, part),
                    found ==> encodes(self.layout(), byte, part),
                decreases 256 - byte, !found as int,
            {
                let mut k: usize = 0;
                let mut matched: bool = true;
                while matched && k < kpb
                    invariant
                        0 < self.width() <= 8,
                        kpb == 8nat / self.width(),
                        0 < kpb <= 8,
                        k <= kpb,
                        base + kpb <= buckets@.len(),
                        part.len() == kpb,
                        forall|j: int| 0 <= j < kpb ==> part[j] == #[trigger] buckets@[base + j],
                        base + kpb <= n,
                        n == buckets@.len(),
                        forall|j: nat| j < k ==> #[trigger] self.layout()(byte, j) == part[j as int],
                        !matched ==> !encodes(self.layout(), byte, part),
                    decreases kpb - k, matched as int,
                {
                    if self.bucket_index(byte, k) == buckets[base + k] {
                        k += 1;
                    } else {
                        assert(part[k as int] == buckets@[base + k]);
                        assert(self.layout()(byte, k as nat) != part[k as int]);
                        matched = false;
                    }
                }
                if matched {
                    found = true;
                } else {
                    proof {
                        if byte == 255 {
                            let b = choose|b: u8| #[trigger] encodes(self.layout(), b, part);
                            assert(b < byte || b == byte);
                            assert(false);
                        }
                    }
                    byte += 1;
                }
            }
            out[i] = byte;
            i += 1;
        }
    }
}

/// The ColBERT / PLAID residual layout, shared by ColBERTv2's `ResidualCodec`,
/// PLAID, fast-plaid, next-plaid and WARP.
///
/// The encoder writes each dimension's bucket bits MSB-first into the row,
/// *bit 0 of the bucket first*. So within a byte, key `k` occupies bits
/// `7 - k*nbits` down to `8 - (k+1)*nbits`, and the bucket index is that
/// `nbits`-wide segment with its bits reversed.
#[derive(Debug, Clone, Copy, PartialEq, Eq)]
pub struct ColbertPacking {
    nbits: usize,
}

impl ColbertPacking {
    /// `nbits` must be 1, 2, 4 or 8.
    pub fn new(nbits: usize) -> (r: Result<Self, Error>)
        ensures
            match r {
                Ok(p) => supported(nbits as nat) && p.width() == nbits,
                Err(e) => !supported(nbits as nat) && e == Error::NbitsUnsupported(nbits),
            },
    {
        if nbits == 1 || nbits == 2 || nbits == 4 || nbits == 8 {
            Ok(Self { nbits })
        } else {
            Err(Error::NbitsUnsupported(nbits))
        }
    }
}

impl Packing for ColbertPacking {
    closed spec fn width(&self) -> nat {
        self.nbits as nat
    }

    open spec fn layout(&self) -> Layout {
        colbert_layout(self.width())
    }

    fn nbits(&self) -> usize {
        self.nbits
    }

    fn bucket_index(&self, byte: u8, key: usize) -> usize {
        let nbits: usize = self.nbits;
        proof {
            assert(nbits <= 8) by (nonlinear_arith)
                requires
                    0 <= key < 8nat / (nbits as nat),
                    0 < nbits,
            ;
            lemma_keys(nbits as nat);
            assert(key * nbits + nbits <= 8 && 0 <= key * nbits) by (nonlinear_arith)
                requires
                    key < 8nat / (nbits as nat),
                    0 < nbits,
                    nbits * (8nat / (nbits as nat)) <= 8,
            ;
            lemma2_to64();
        }
        let first: usize = key * nbits;
        // Bucket bit 0 sits at the highest position of the group.
        let mut index: usize = 0;
        let mut place: usize = 1;
        let mut b: usize = 0;
        while b < nbits
            invariant
                b <= nbits <= 8,
                first + nbits <= 8,
                first == key * nbits,
                place == pow2(b as nat),
                place <= 256,
                index == reversed_bits(byte, first as nat, b as nat),
                index < place,
            decreases nbits - b,
        {
            let pos: usize = 7 - (first + b);
            let digit: u8 = (byte >> pos as u8) & 1;
            proof {
                lemma_u8_shr_is_div(byte, pos as u8);
                let high = byte >> pos as u8;
                assert(high & 1 == high % 2) by (bit_vector);
                assert(digit == bit(byte as nat, pos as nat));
                lemma_pow2_unfold((b + 1) as nat);
                lemma2_to64();
                assert(digit * place == 0 || digit * place == place) by (nonlinear_arith)
                    requires
                        digit == 0 || digit == 1,
                ;
                assert(reversed_bits(byte, first as nat, (b + 1) as nat) == index + digit * place);
                if b < 7 {
                    lemma_pow2_strictly_increases((b + 1) as nat, 8);
                }
            }
            if digit == 1 {
                index = index + place;
            }
            place = place * 2;
            b += 1;
        }
        index
    }
}

/// Bit `b` of the bucket at key `key` is bit `7 - (key * nbits + b)` of the
/// byte, and a bucket is below `2^nbits`.
pub proof fn colbert_bucket_bits(nbits: nat, byte: u8, key: nat)
    ensures
        colbert_layout(nbits)(byte, key) < pow2(nbits),
        forall|b: nat|
            b < nbits ==> #[trigger] bit(colbert_layout(nbits)(byte, key), b) == bit(
                byte as nat,
                (7 - (key * nbits + b)) as nat,
            ),
{
    let f = |b: nat| bit(byte as nat, (7 - (key * nbits + b)) as nat);
    lemma_number(f, nbits);
    assert forall|b: nat| b < nbits implies #[trigger] bit(colbert_layout(nbits)(byte, key), b)
        == bit(byte as nat, (7 - (key * nbits + b)) as nat) by {
        assert(bit(number(f, nbits), b) == f(b));
    }
}

/// Every row of in-range buckets can be packed in the ColBERT layout.
pub proof fn colbert_packs_every_chunk(nbits: nat, chunk: Seq<usize>)
    requires
        supported(nbits),
        chunk.len() == 8nat / nbits,
        forall|k: int| 0 <= k < chunk.len() ==> #[trigger] chunk[k] < pow2(nbits),
    ensures
        encodable(colbert_layout(nbits), chunk),
{
    let f = |i: nat|
        bit(chunk[(7 - i) / nbits as int] as nat, ((7 - i) % nbits as int) as nat);
    lemma_number(f, 8);
    lemma2_to64();
    let byte = number(f, 8) as u8;
    let layout = colbert_layout(nbits);
    assert forall|k: nat| k < chunk.len() implies #[trigger] layout(byte, k) == chunk[k as int] by {
        let x = chunk[k as int] as nat;
        let g = |b: nat| bit(byte as nat, (7 - (k * nbits + b)) as nat);
        let h = |b: nat| bit(x, b);
        assert forall|b: nat| b < nbits implies #[trigger] g(b) == h(b) by {
            lemma_position(nbits, k, b);
            let i = (7 - (k * nbits + b)) as nat;
            assert(bit(number(f, 8), i) == f(i));
        }
        lemma_number_eq(g, h, nbits);
        lemma_number_of_bits(x, nbits);
    }
    assert(encodes(layout, byte, chunk));
}

/// A row of buckets has one encoding in the ColBERT layout: bytes that hold
/// the same buckets are equal.
pub proof fn colbert_encoding_is_unique(nbits: nat, x: u8, y: u8, chunk: Seq<usize>)
    requires
        supported(nbits),
        chunk.len() == 8nat / nbits,
        encodes(colbert_layout(nbits), x, chunk),
        encodes(colbert_layout(nbits), y, chunk),
    ensures
        x == y,
{
    let layout = colbert_layout(nbits);
    assert forall|i: nat| i < 8 implies #[trigger] bit(x as nat, i) == bit(y as nat, i) by {
        let r = 7 - i;
        let k = (r / nbits as int) as nat;
        let b = (r % nbits as int) as nat;
        assert(k < chunk.len() && b < nbits && r == k * nbits + b) by {
            lemma_split(nbits, r as nat);
        }
        colbert_bucket_bits(nbits, x, k);
        colbert_bucket_bits(nbits, y, k);
        assert(layout(x, k) == chunk[k as int]);
        assert(layout(y, k) == chunk[k as int]);
        assert(bit(layout(x, k), b) == bit(x as nat, i));
        assert(bit(layout(y, k), b) == bit(y as nat, i));
    }
    lemma2_to64();
    lemma_same_bits(x as nat, y as nat, 8);
}

/// `8 / nbits` for each supported width.
pub proof fn lemma_keys_at(nbits: nat)
    requires
        supported(nbits),
    ensures
        nbits == 1 ==> 8nat / nbits == 8,
        nbits == 2 ==> 8nat / nbits == 4,
        nbits == 4 ==> 8nat / nbits == 2,
        nbits == 8 ==> 8nat / nbits == 1,
{
    assert(8nat / 1 == 8);
    assert(8nat / 2 == 4);
    assert(8nat / 4 == 2);
    assert(8nat / 8 == 1);
}

/// Row bit `k * nbits + b` lies in the byte and names key `k`, bit `b`.
pub proof fn lemma_position(nbits: nat, k: nat, b: nat)
    requires
        supported(nbits),
        k < 8nat / nbits,
        b < nbits,
    ensures
        0 <= k * nbits + b < 8,
        (k * nbits + b) / nbits == k,
        (k * nbits + b) % nbits == b,
{
    lemma_keys_at(nbits);
    if nbits == 1 {
        assert(k * nbits == k);
    } else if nbits == 2 {
        assert(k * nbits == 2 * k);
    } else if nbits == 4 {
        assert(k * nbits == 4 * k);
    } else {
        assert(k * nbits == 8 * k);
    }
}

proof fn lemma_split(nbits: nat, r: nat)
    requires
        supported(nbits),
        r < 8,
    ensures
        r / nbits < 8nat / nbits,
        r % nbits < nbits,
        r == (r / nbits) * nbits + r % nbits,
{
    if nbits == 1 {
    } else if nbits == 2 {
    } else if nbits == 4 {
    } else {
    }
}

} // verus!
