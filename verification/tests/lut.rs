//! The fused table and its nibble factorisation.
use maxsim_lut::{Arith, ColbertPacking, CpuFeatures, Dispatch, Error, Kernel, Lut, Packing, ScalarReason};

/// The host's single-precision arithmetic.
struct Native;

impl Arith for Native {
    fn div(a: u32, b: u32) -> u32 {
        (f32::from_bits(a) / f32::from_bits(b)).to_bits()
    }
    fn mul(a: u32, b: u32) -> u32 {
        (f32::from_bits(a) * f32::from_bits(b)).to_bits()
    }
    fn add(a: u32, b: u32) -> u32 {
        (f32::from_bits(a) + f32::from_bits(b)).to_bits()
    }
    fn from_i32(x: i32) -> u32 {
        (x as f32).to_bits()
    }
    fn round_to_i32(x: u32) -> i32 {
        f32::from_bits(x).round() as i32
    }
}

fn bits(v: &[f32]) -> Vec<u32> {
    v.iter().map(|x| x.to_bits()).collect()
}

fn weights(nbits: usize) -> Vec<f32> {
    let n = 1usize << nbits;
    (0..n)
        .map(|i| -0.35 + 0.7 * (i as f32 + 0.5) / n as f32)
        .collect()
}

#[test]
fn fused_table_expands_to_quantised_bucket_weights() {
    for nbits in [1usize, 2, 4, 8] {
        let p = ColbertPacking::new(nbits).unwrap();
        let w = weights(nbits);
        let lut = Lut::new::<_, Native>(&p, &bits(&w)).unwrap();
        let scale = f32::from_bits(lut.scale());
        for byte in 0..=255u8 {
            for k in 0..lut.keys_per_byte() {
                let bi = p.bucket_index(byte, k);
                let want = (w[bi] / scale).round().clamp(-127.0, 127.0) as i8;
                assert_eq!(lut.expand(byte)[k], want, "nbits={nbits} byte={byte} k={k}");
            }
        }
    }
}

#[test]
fn nibble_factorisation_holds_for_sub_byte_codes() {
    for nbits in [1usize, 2, 4] {
        let lut = Lut::colbert::<Native>(nbits, &bits(&weights(nbits))).unwrap();
        let nib = lut
            .nibble_tables()
            .unwrap_or_else(|| panic!("nbits={nbits}: not nibble-separable"));
        for b in 0..256usize {
            for k in 0..lut.keys_per_byte() {
                let nibble = if nib.from_hi[k] { b >> 4 } else { b & 15 };
                assert_eq!(
                    lut.fused_table()[b * lut.keys_per_byte() + k],
                    nib.tables[k][nibble]
                );
            }
        }
    }
    assert!(Lut::colbert::<Native>(8, &bits(&weights(8)))
        .unwrap()
        .nibble_tables()
        .is_none());
}

#[test]
fn rejects_bad_inputs() {
    assert_eq!(ColbertPacking::new(3).unwrap_err(), Error::NbitsUnsupported(3));
    assert_eq!(
        Lut::colbert::<Native>(4, &bits(&[0.0; 15])).unwrap_err(),
        Error::BucketCount {
            expected: 16,
            got: 15
        }
    );
}

/// A layout whose one-bit keys each depend on both nibbles of the byte.
struct Parity;

impl Packing for Parity {
    fn nbits(&self) -> usize {
        1
    }
    fn bucket_index(&self, byte: u8, key: usize) -> usize {
        let low = (byte >> (key % 4)) & 1;
        let high = (byte >> (4 + key % 4)) & 1;
        (low ^ high) as usize
    }
}

/// A layout no width supports.
struct Triple;

impl Packing for Triple {
    fn nbits(&self) -> usize {
        3
    }
    fn bucket_index(&self, _byte: u8, _key: usize) -> usize {
        0
    }
}

#[test]
fn a_layout_across_nibbles_has_no_nibble_tables() {
    let lut = Lut::new::<_, Native>(&Parity, &bits(&[-1.0, 1.0])).unwrap();
    assert!(lut.nibble_tables().is_none());
    let d = Dispatch::new::<Native>(CpuFeatures::Other, None, None, None);
    assert_eq!(lut.kernel(64, &d), Kernel::Scalar(ScalarReason::NoNibbleTables));
    assert_eq!(lut.expand(0b0001_0001)[0], -127);
    assert_eq!(lut.expand(0b0001_0000)[0], 127);
    // Bucket weights that are all alike still factor.
    let flat = Lut::new::<_, Native>(&Parity, &bits(&[1.0, 1.0])).unwrap();
    assert!(flat.nibble_tables().is_some());
}

#[test]
fn an_unsupported_width_is_an_error() {
    assert_eq!(
        Lut::new::<_, Native>(&Triple, &bits(&[0.0; 8])).unwrap_err(),
        Error::NbitsUnsupported(3)
    );
    assert_eq!(
        Lut::colbert::<Native>(0, &[]).unwrap_err(),
        Error::NbitsUnsupported(0)
    );
}

#[test]
fn table_scale_is_a_127th_of_the_largest_weight() {
    let lut = Lut::colbert::<Native>(1, &bits(&[-0.25, 0.5])).unwrap();
    assert_eq!(lut.scale(), (0.5f32 / 127.0).to_bits());
    // Bucket 0 is -0.25, which is -63.5 steps: halves round away from zero.
    assert_eq!(lut.expand(0), [-64; 8]);
    assert_eq!(lut.expand(0x80), [127, -64, -64, -64, -64, -64, -64, -64]);
    // Zero weights take the smallest scale, and a NaN is no magnitude.
    let zero = Lut::colbert::<Native>(1, &bits(&[0.0, -0.0])).unwrap();
    assert_eq!(zero.scale(), 1e-12f32.to_bits());
    assert_eq!(zero.expand(0xff), [0; 8]);
    let nan = Lut::colbert::<Native>(1, &bits(&[f32::NAN, 0.5])).unwrap();
    assert_eq!(nan.scale(), (0.5f32 / 127.0).to_bits());
    assert_eq!(nan.expand(0), [0; 8]);
}

#[test]
fn the_same_weights_give_the_same_table() {
    let a = Lut::colbert::<Native>(2, &bits(&weights(2))).unwrap();
    let b = Lut::colbert::<Native>(2, &bits(&weights(2))).unwrap();
    assert_eq!(a.fingerprint(), b.fingerprint());
    assert_eq!(a.fused_table(), b.fused_table());
    let c = a.clone().force_scalar(true).pin_kernel(Some(Kernel::Avx2));
    assert_eq!(c.fused_table(), a.fused_table());
    assert_eq!(c.pinned_kernel(), Some(Kernel::Avx2));
    assert_eq!(c.nbits(), 2);
    assert!(c.force_scalar_set() && !a.force_scalar_set());
}

#[test]
fn errors_have_messages() {
    let cases = [
        (Error::NbitsUnsupported(3), "nbits must be 1, 2, 4 or 8, got 3"),
        (
            Error::BucketCount { expected: 16, got: 15 },
            "expected 16 bucket weights (2^nbits), got 15",
        ),
        (
            Error::DimNotByteAligned { dim: 10, nbits: 2 },
            "dim 10 × nbits 2 is not a multiple of 8",
        ),
        (Error::DimTooLarge(264), "dim 264 exceeds MAX_DIM 256"),
        (Error::Shape("short".to_string()), "shape mismatch: short"),
        (Error::LutMismatch, "query was prepared against a different Lut"),
    ];
    for (e, want) in cases {
        assert_eq!(e.message(), want);
    }
}
