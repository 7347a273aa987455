//! The ColBERT layout against its encoder.
use maxsim_lut::{ColbertPacking, Error, Packing};

/// The encoder's bit loop, written out independently.
fn encoder_pack(buckets: &[usize], nbits: usize) -> Vec<u8> {
    let mut out = vec![0u8; buckets.len() * nbits / 8];
    let mut bit_idx = 0usize;
    for &bucket in buckets {
        for b in 0..nbits {
            let bit = ((bucket >> b) & 1) as u8;
            out[bit_idx / 8] |= bit << (7 - (bit_idx % 8));
            bit_idx += 1;
        }
    }
    out
}

#[test]
fn colbert_packing_matches_encoder_bit_loop() {
    for nbits in [1usize, 2, 4, 8] {
        let p = ColbertPacking::new(nbits).unwrap();
        let kpb = p.keys_per_byte();
        let n = 1usize << nbits;
        // Every bucket in every key position, plus a pseudo-random row.
        let mut buckets: Vec<usize> = Vec::new();
        for b in 0..n {
            for _ in 0..kpb {
                buckets.push(b);
            }
        }
        let mut x = 0x9E3779B9u32;
        for _ in 0..(64 * kpb) {
            x ^= x << 13;
            x ^= x >> 17;
            x ^= x << 5;
            buckets.push(x as usize % n);
        }
        let bytes = encoder_pack(&buckets, nbits);
        for (d, &want) in buckets.iter().enumerate() {
            let got = p.bucket_index(bytes[d / kpb], d % kpb);
            assert_eq!(got, want, "nbits={nbits} dim={d}");
        }
        // And the reference packer round-trips.
        let mut repacked = vec![0u8; bytes.len()];
        p.pack_row(&buckets, &mut repacked);
        assert_eq!(repacked, bytes, "nbits={nbits}");
    }
}

#[test]
fn packing_reads_back_and_leaves_the_rest_alone() {
    let p = ColbertPacking::new(2).unwrap();
    let buckets = [3usize, 0, 1, 2, 2, 2, 0, 3];
    let mut out = [0xEEu8; 4];
    p.pack_row(&buckets, &mut out);
    assert_eq!(out[2..], [0xEE, 0xEE]);
    for (d, &b) in buckets.iter().enumerate() {
        assert_eq!(p.bucket_index(out[d / 4], d % 4), b);
    }
    // Bucket bit 0 comes first: 3, 0, 1, 2 is 11 00 10 01.
    assert_eq!(out[0], 0b1100_1001);
}

#[test]
fn widths_other_than_a_divisor_of_eight_are_refused() {
    for nbits in [0usize, 3, 5, 6, 7, 9, 16, usize::MAX] {
        assert_eq!(ColbertPacking::new(nbits).unwrap_err(), Error::NbitsUnsupported(nbits));
    }
    for (nbits, kpb) in [(1usize, 8usize), (2, 4), (4, 2), (8, 1)] {
        let p = ColbertPacking::new(nbits).unwrap();
        assert_eq!((p.nbits(), p.keys_per_byte()), (nbits, kpb));
    }
}
