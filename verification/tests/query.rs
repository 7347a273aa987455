//! The prepared query and its layouts.
use maxsim_lut::query::padded_stride;
use maxsim_lut::{Arith, Error, Lut, PreparedQuery};

/// The host's single-precision arithmetic.
struct Native;

impl Arith for Native {
    fn div(a: u32, b: u32) -> u32 {
        (f32::from_bits(a) / f32::from_bits(b)).to_bits()
    }
    fn mul(a: u32, b: u32) -> u32 {
        (f32::from_bits(a) * f32::from_bits(b)).to_bits()
    }
    fn add(a: u32, b: u32) -> u32 {
        (f32::from_bits(a) + f32::from_bits(b)).to_bits()
    }
    fn from_i32(x: i32) -> u32 {
        (x as f32).to_bits()
    }
    fn round_to_i32(x: u32) -> i32 {
        f32::from_bits(x).round() as i32
    }
}

fn bits(v: &[f32]) -> Vec<u32> {
    v.iter().map(|x| x.to_bits()).collect()
}

#[test]
fn quantisation_is_symmetric_per_row() {
    let lut = Lut::colbert::<Native>(4, &bits(&[0.0; 16])).unwrap();
    let dim = 8;
    let q = vec![
        0.5, -1.0, 0.25, 0.0, 0.0, 0.0, 0.0, 0.0, 0.0, 0.0, 0.0, 0.0, 0.0, 0.0, 0.0, 0.0,
    ];
    let p = PreparedQuery::new::<Native>(&lut, &bits(&q), 2, dim).unwrap();
    assert_eq!(p.codes()[..3], [64, -127, 32]);
    assert!((f32::from_bits(p.scales()[0]) - 1.0 / 127.0).abs() < 1e-9);
    assert_eq!(f32::from_bits(p.scales()[1]), 0.0);
    assert!(p.codes()[dim..].iter().all(|&c| c == 0));
    // Planes: nbits 4 gives 2 keys/byte, plane 0 = even dims, plane 1 = odd dims.
    assert_eq!(p.planes()[..4], [64, 32, 0, 0]);
    assert_eq!(p.planes()[4..8], [-127, 0, 0, 0]);
    assert_eq!(p.stride(), 64);
    // Tiles: one 16-row tile, 16 dim groups of 64 bytes. Group 0 row 0 =
    // planes[0..4] + 128; group 1 row 0 = planes[4..8] + 128; row 1 (zero
    // query) and the 14 padding rows are 128 everywhere.
    let t = p.tiles_u8();
    assert_eq!(t.len(), 16 * 64);
    assert_eq!(&t[0..4], &[192, 160, 128, 128]);
    assert!(t[4..64].iter().all(|&b| b == 128));
    assert_eq!(&t[64..68], &[1, 128, 128, 128]);
    assert!(t[68..].iter().all(|&b| b == 128));
    // Exhaustive: every (row, dim) lands where the kernel will read it.
    for qi in 0..2 {
        for d in 0..dim {
            let (tile, r) = (qi / 16, qi % 16);
            let idx = (tile * 16 + d / 4) * 64 + r * 4 + d % 4;
            assert_eq!(t[idx] as i16 - 128, p.planes()[qi * 64 + d] as i16);
        }
    }
}

#[test]
fn rejects_misaligned_dim() {
    let lut = Lut::colbert::<Native>(2, &bits(&[0.0; 4])).unwrap();
    assert_eq!(
        PreparedQuery::new::<Native>(&lut, &bits(&[0.0; 10]), 1, 10).unwrap_err(),
        Error::DimNotByteAligned { dim: 10, nbits: 2 }
    );
    assert_eq!(
        PreparedQuery::new::<Native>(&lut, &bits(&[0.0; 264]), 1, 264).unwrap_err(),
        Error::DimTooLarge(264)
    );
}

#[test]
fn a_query_of_the_wrong_length_is_an_error() {
    let lut = Lut::colbert::<Native>(2, &bits(&[0.0; 4])).unwrap();
    assert_eq!(
        PreparedQuery::new::<Native>(&lut, &bits(&[0.0; 9]), 2, 8).unwrap_err(),
        Error::Shape("query has 9 values, expected n_tokens 2 × dim 8".to_string())
    );
    // A product past the index type is a mismatch too.
    assert!(PreparedQuery::new::<Native>(&lut, &[], usize::MAX, 8).is_err());
}

#[test]
fn strides_round_up_to_64_lanes() {
    for (dim, want) in [(0, 0), (1, 64), (64, 64), (65, 128), (200, 256), (256, 256), (257, 320)] {
        assert_eq!(padded_stride(dim), want);
    }
}

#[test]
fn row_pairs_hold_eight_dims_of_two_rows() {
    let lut = Lut::colbert::<Native>(1, &bits(&[-1.0, 1.0])).unwrap();
    let dim = 16;
    let q: Vec<f32> = (0..3 * dim).map(|i| (i as f32 - 20.0) / 7.0).collect();
    let p = PreparedQuery::new::<Native>(&lut, &bits(&q), 3, dim).unwrap();
    let pairs = p.pairs();
    assert_eq!(pairs.len(), 4 * 64);
    for row in 0..4 {
        for d in 0..64 {
            let at = (row / 2) * 128 + (d / 8) * 16 + (row % 2) * 8 + d % 8;
            let want = if row < 3 { p.planes()[row * 64 + d] } else { 0 };
            assert_eq!(pairs[at], want, "row {row} dim {d}");
        }
    }
}

#[test]
fn factors_and_zeros_go_with_the_rows() {
    let lut = Lut::colbert::<Native>(4, &bits(&[0.3; 16])).unwrap();
    let q: Vec<f32> = (0..4 * 8).map(|i| i as f32 - 9.0).collect();
    let p = PreparedQuery::new::<Native>(&lut, &bits(&q), 4, 8).unwrap();
    assert_eq!((p.n_tokens(), p.dim()), (4, 8));
    for row in 0..4 {
        let want = f32::from_bits(p.scales()[row]) * f32::from_bits(lut.scale());
        assert_eq!(p.sqw()[row], want.to_bits());
    }
    assert_eq!(p.zeros(), [0; 4]);
    assert!(p.matches(&lut));
    assert_eq!(p.clone().codes(), p.codes());
    let other = Lut::colbert::<Native>(4, &bits(&[0.4; 16])).unwrap();
    assert!(!p.matches(&other));
}

#[test]
fn a_query_may_have_no_rows() {
    let lut = Lut::colbert::<Native>(4, &bits(&[0.3; 16])).unwrap();
    let p = PreparedQuery::new::<Native>(&lut, &[], 0, 8).unwrap();
    assert_eq!(p.n_tokens(), 0);
    assert!(p.codes().is_empty() && p.tiles_u8().is_empty() && p.pairs().is_empty());
}

#[test]
fn nan_components_get_code_zero() {
    let lut = Lut::colbert::<Native>(8, &bits(&[0.1; 256])).unwrap();
    let p = PreparedQuery::new::<Native>(&lut, &bits(&[f32::NAN, 2.0, -1.0]), 1, 3).unwrap();
    assert_eq!(p.codes(), [0, 127, -64]);
    let all = PreparedQuery::new::<Native>(&lut, &bits(&[f32::NAN; 3]), 1, 3).unwrap();
    assert_eq!(all.scales(), [0]);
    assert_eq!(all.codes(), [0, 0, 0]);
}

#[test]
fn preparing_again_gives_an_equal_query() {
    let lut = Lut::colbert::<Native>(2, &bits(&[-0.3, -0.1, 0.1, 0.3])).unwrap();
    let q: Vec<f32> = (0..3 * 12).map(|i| ((i * 29 % 17) as f32 - 8.0) / 3.0).collect();
    let a = PreparedQuery::new::<Native>(&lut, &bits(&q), 3, 12).unwrap();
    let b = PreparedQuery::new::<Native>(&lut, &bits(&q), 3, 12).unwrap();
    assert_eq!(a.codes(), b.codes());
    assert_eq!(a.scales(), b.scales());
    assert_eq!(a.sqw(), b.sqw());
}

/// Neither the plane order nor the padding nor the tile offset changes a dot
/// product.
#[test]
fn every_layout_holds_the_same_dot_product() {
    let lut = Lut::colbert::<Native>(2, &bits(&[-0.3, -0.1, 0.1, 0.3])).unwrap();
    let (nq, dim, kpb) = (3, 24, 4);
    let q: Vec<f32> = (0..nq * dim).map(|i| ((i * 31 % 23) as f32 - 11.0) / 4.0).collect();
    let p = PreparedQuery::new::<Native>(&lut, &bits(&q), nq, dim).unwrap();
    let pdim = dim / kpb;
    let weight = |d: usize| (d as i32 * 37 % 255) - 127;
    for row in 0..nq {
        let by_dim: i32 = (0..dim).map(|d| p.codes()[row * dim + d] as i32 * weight(d)).sum();
        let at = |i: usize| {
            if i < dim {
                weight((i % pdim) * kpb + i / pdim)
            } else {
                99
            }
        };
        let by_plane: i32 = (0..64).map(|i| p.planes()[row * 64 + i] as i32 * at(i)).sum();
        assert_eq!(by_plane, by_dim);
        let tile = |i: usize| p.tiles_u8()[(i / 4) * 64 + row * 4 + i % 4] as i32;
        let by_tile: i32 = (0..64).map(|i| tile(i) * at(i)).sum();
        let offset: i32 = (0..64).map(|i| 128 * at(i)).sum();
        assert_eq!(by_tile, by_dim + offset);
    }
}

#[test]
fn rows_are_quantised_apart() {
    let lut = Lut::colbert::<Native>(4, &bits(&[0.25; 16])).unwrap();
    let a: Vec<f32> = (0..2 * 8).map(|i| (i as f32 - 5.0) / 3.0).collect();
    let b: Vec<f32> = (0..3 * 8).map(|i| (i as f32 * 7.0) % 11.0 - 4.0).collect();
    let both: Vec<f32> = a.iter().chain(&b).copied().collect();
    let x = PreparedQuery::new::<Native>(&lut, &bits(&a), 2, 8).unwrap();
    let y = PreparedQuery::new::<Native>(&lut, &bits(&b), 3, 8).unwrap();
    let z = PreparedQuery::new::<Native>(&lut, &bits(&both), 5, 8).unwrap();
    assert_eq!(z.codes(), [x.codes(), y.codes()].concat());
    assert_eq!(z.scales(), [x.scales(), y.scales()].concat());
}

#[test]
fn negating_a_query_negates_its_codes() {
    let lut = Lut::colbert::<Native>(4, &bits(&[0.25; 16])).unwrap();
    let a: Vec<f32> = (0..16).map(|i| (i as f32 * 5.0) % 9.0 - 4.25).collect();
    let b: Vec<f32> = a.iter().map(|x| -x).collect();
    let x = PreparedQuery::new::<Native>(&lut, &bits(&a), 2, 8).unwrap();
    let y = PreparedQuery::new::<Native>(&lut, &bits(&b), 2, 8).unwrap();
    assert_eq!(y.scales(), x.scales());
    for (p, n) in x.codes().iter().zip(y.codes()) {
        assert_eq!(*n, -*p);
    }
    assert!(x.codes().contains(&127) || x.codes().contains(&-127));
}

#[test]
fn quadrupling_a_query_keeps_its_codes() {
    let lut = Lut::colbert::<Native>(4, &bits(&[0.25; 16])).unwrap();
    let a: Vec<f32> = (0..16).map(|i| (i as f32 * 5.0) % 9.0 - 4.25).collect();
    let b: Vec<f32> = a.iter().map(|x| 4.0 * x).collect();
    let x = PreparedQuery::new::<Native>(&lut, &bits(&a), 2, 8).unwrap();
    let y = PreparedQuery::new::<Native>(&lut, &bits(&b), 2, 8).unwrap();
    assert_eq!(y.codes(), x.codes());
    for (s, t) in x.scales().iter().zip(y.scales()) {
        assert_eq!(4.0 * f32::from_bits(*s), f32::from_bits(*t));
    }
}
