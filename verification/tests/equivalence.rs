//! The contract: every path returns the same bits as the scalar reference,
//! the reference matches an f64 recomputation, and the optional terms behave
//! as identities.
use maxsim_lut::{
    Arith, Codes, ColbertPacking, CpuFeatures, Dispatch, DocView, Error, Kernel, Lut, Packing,
    PreparedQuery, Scorer,
};

/// The host's single-precision arithmetic.
struct Native;

impl Arith for Native {
    fn div(a: u32, b: u32) -> u32 {
        (f32::from_bits(a) / f32::from_bits(b)).to_bits()
    }
    fn mul(a: u32, b: u32) -> u32 {
        (f32::from_bits(a) * f32::from_bits(b)).to_bits()
    }
    fn add(a: u32, b: u32) -> u32 {
        (f32::from_bits(a) + f32::from_bits(b)).to_bits()
    }
    fn from_i32(x: i32) -> u32 {
        (x as f32).to_bits()
    }
    fn round_to_i32(x: u32) -> i32 {
        f32::from_bits(x).round() as i32
    }
}

fn bits(v: &[f32]) -> Vec<u32> {
    v.iter().map(|x| x.to_bits()).collect()
}

/// Deterministic xorshift.
struct Rng(u64);

impl Rng {
    fn next(&mut self) -> u64 {
        let mut x = self.0;
        x ^= x << 13;
        x ^= x >> 7;
        x ^= x << 17;
        self.0 = x;
        x
    }
    fn f32(&mut self, lo: f32, hi: f32) -> f32 {
        lo + (hi - lo) * ((self.next() >> 40) as f32 / (1u64 << 24) as f32)
    }
    fn below(&mut self, n: usize) -> usize {
        (self.next() % n as u64) as usize
    }
}

/// An x86 CPU with every vector kernel, and an Arm one.
fn cpus() -> [CpuFeatures; 2] {
    [
        CpuFeatures::X86_64 {
            avx512f: true,
            avx512bw: true,
            avx512vnni: true,
            avxvnni: true,
            avx2: true,
        },
        CpuFeatures::Aarch64 { dotprod: true, i8mm: true },
    ]
}

fn dispatches() -> Vec<Dispatch> {
    cpus()
        .iter()
        .map(|&cpu| Dispatch::new::<Native>(cpu, None, None, None))
        .collect()
}

fn weights(nbits: usize, rng: &mut Rng) -> Vec<f32> {
    // Sorted quantile-like weights in [-0.4, 0.4], as a residual quantiser produces.
    let n = 1usize << nbits;
    let mut w: Vec<f32> = (0..n).map(|_| rng.f32(-0.4, 0.4)).collect();
    w.sort_by(|a, b| a.total_cmp(b));
    w
}

struct Doc {
    packed: Vec<u8>,
    buckets: Vec<usize>, // [ntok * dim]
    codes: Vec<u32>,
    inv: Vec<u32>,
    ntok: usize,
    stride: usize,
}

fn make_doc(
    p: &ColbertPacking,
    dim: usize,
    ntok: usize,
    ncent: usize,
    extra_stride: usize,
    rng: &mut Rng,
) -> Doc {
    let nb = 1usize << p.nbits();
    let pdim = dim / p.keys_per_byte();
    let stride = pdim + extra_stride;
    let mut packed = vec![0u8; ntok * stride];
    let mut buckets = Vec::with_capacity(ntok * dim);
    for t in 0..ntok {
        let row: Vec<usize> = (0..dim).map(|_| rng.below(nb)).collect();
        p.pack_row(&row, &mut packed[t * stride..t * stride + pdim]);
        // Garbage in the padding must never be read.
        for b in &mut packed[t * stride + pdim..(t + 1) * stride] {
            *b = 0xA5;
        }
        buckets.extend_from_slice(&row);
    }
    Doc {
        packed,
        buckets,
        codes: (0..ntok).map(|_| rng.below(ncent) as u32).collect(),
        inv: (0..ntok).map(|_| rng.f32(0.5, 1.5).to_bits()).collect(),
        ntok,
        stride,
    }
}

/// f64 recomputation from the integer codes: what every kernel must approximate
/// to float rounding.
fn reference(
    lut: &Lut,
    q: &PreparedQuery,
    w: &[f32],
    doc: &Doc,
    cdot: Option<(&[u32], usize)>,
    use_inv: bool,
) -> f64 {
    let nq = q.n_tokens();
    let dim = q.dim();
    let lut_scale = f32::from_bits(lut.scale());
    let mut total = 0.0f64;
    for qi in 0..nq {
        let mut best = f64::NEG_INFINITY;
        for t in 0..doc.ntok {
            let mut acc = 0i64;
            for d in 0..dim {
                let wq = (w[doc.buckets[t * dim + d]] / lut_scale)
                    .round()
                    .clamp(-127.0, 127.0) as i64;
                acc += q.codes()[qi * dim + d] as i64 * wq;
            }
            let c = match cdot {
                Some((cd, _)) => f32::from_bits(cd[doc.codes[t] as usize * nq + qi]) as f64,
                None => 0.0,
            };
            let inv = if use_inv { f32::from_bits(doc.inv[t]) as f64 } else { 1.0 };
            let scale = f32::from_bits(q.scales()[qi]) as f64;
            let s = (scale * lut_scale as f64 * acc as f64 + c) * inv;
            best = best.max(s);
        }
        total += best;
    }
    total
}

#[test]
fn simd_matches_scalar_bitwise_across_shapes() {
    let mut rng = Rng(0x243F6A8885A308D3);
    let ds = dispatches();
    // nq values exercise every fold branch: 1,3 pure tail; 7 one NEON block +
    // tail; 8 one AVX2 block; 9 block + 1-lane tail; 16 one AVX-512 block;
    // 32 the production shape.
    let mut simd_seen = false;
    for &nq in &[1usize, 3, 7, 8, 9, 16, 32] {
        for &nbits in &[1usize, 2, 4] {
            for &dim in &[8usize, 16, 40, 48, 96, 128, 200, 256] {
                let p = ColbertPacking::new(nbits).unwrap();
                let w = weights(nbits, &mut rng);
                let lut = Lut::new::<_, Native>(&p, &bits(&w)).unwrap();
                let lut_scalar = lut.clone().force_scalar(true);
                let query: Vec<f32> = (0..nq * dim).map(|_| rng.f32(-1.0, 1.0)).collect();
                let q = PreparedQuery::new::<Native>(&lut, &bits(&query), nq, dim).unwrap();
                let ncent = 12;
                let cdot: Vec<f32> = (0..ncent * nq).map(|_| rng.f32(-1.0, 1.0)).collect();
                let cdot = bits(&cdot);
                for &extra in &[0usize, 5] {
                    let doc = make_doc(&p, dim, 13, ncent, extra, &mut rng);
                    let view = DocView::new(&doc.packed, doc.ntok, doc.stride)
                        .codes(Codes::U32(&doc.codes))
                        .inv_norms(&doc.inv);
                    for d in &ds {
                        let fast = Scorer::new(&lut, &q)
                            .with_centroid_term(&cdot, ncent)
                            .unwrap()
                            .score::<Native>(view, d);
                        let slow = Scorer::new(&lut_scalar, &q)
                            .with_centroid_term(&cdot, ncent)
                            .unwrap()
                            .score::<Native>(view, d);
                        assert_eq!(
                            fast,
                            slow,
                            "nq={nq} nbits={nbits} dim={dim} extra={extra}: {} gave {fast}, scalar gave {slow}",
                            lut.kernel(dim, d).label()
                        );
                        simd_seen |= lut.kernel(dim, d).is_simd();
                        let want = reference(&lut, &q, &w, &doc, Some((&cdot, ncent)), true);
                        let fast = f32::from_bits(fast);
                        assert!(
                            (fast as f64 - want).abs() < 1e-3 * (1.0 + want.abs()),
                            "nq={nq} nbits={nbits} dim={dim}: {fast} vs f64 reference {want}"
                        );
                    }
                }
            }
        }
    }
    // The test must have exercised a vector kernel; otherwise the
    // bit-equality above compared scalar with scalar.
    let expect_simd = Lut::colbert::<Native>(4, &bits(&[0.0; 16]))
        .unwrap()
        .kernel(128, &ds[0])
        .is_simd();
    assert_eq!(simd_seen, expect_simd, "SIMD dispatch state did not match Lut::kernel");
    assert!(expect_simd);
}

#[test]
fn optional_terms_are_identities() {
    let mut rng = Rng(0x13198A2E03707344);
    for dp in &dispatches() {
        for &nbits in &[1usize, 2, 4] {
            let dim = 128;
            let nq = 32;
            let p = ColbertPacking::new(nbits).unwrap();
            let w = weights(nbits, &mut rng);
            let lut = Lut::new::<_, Native>(&p, &bits(&w)).unwrap();
            let query: Vec<f32> = (0..nq * dim).map(|_| rng.f32(-1.0, 1.0)).collect();
            let q = PreparedQuery::new::<Native>(&lut, &bits(&query), nq, dim).unwrap();
            let ncent = 9;
            let doc = make_doc(&p, dim, 21, ncent, 0, &mut rng);
            let zeros = bits(&vec![0.0f32; ncent * nq]);
            let ones = bits(&vec![1.0f32; doc.ntok]);

            let base = DocView::new(&doc.packed, doc.ntok, doc.stride);
            // No centroid term == zero centroid term (with any codes, or none).
            let a = Scorer::new(&lut, &q).score::<Native>(base.inv_norms(&doc.inv), dp);
            let b = Scorer::new(&lut, &q)
                .with_centroid_term(&zeros, ncent)
                .unwrap()
                .score::<Native>(base.codes(Codes::U32(&doc.codes)).inv_norms(&doc.inv), dp);
            assert_eq!(a, b, "nbits={nbits}: no-cdot vs zero-cdot");
            // No inv norms == inv norms of 1.
            let c = Scorer::new(&lut, &q).score::<Native>(base, dp);
            let d = Scorer::new(&lut, &q).score::<Native>(base.inv_norms(&ones), dp);
            assert_eq!(c, d, "nbits={nbits}: no-inv vs ones");
            // Code widths are interchangeable.
            let cdot: Vec<f32> = (0..ncent * nq).map(|_| rng.f32(-1.0, 1.0)).collect();
            let cdot = bits(&cdot);
            let s = Scorer::new(&lut, &q).with_centroid_term(&cdot, ncent).unwrap();
            let i64s: Vec<i64> = doc.codes.iter().map(|&c| c as i64).collect();
            let us: Vec<usize> = doc.codes.iter().map(|&c| c as usize).collect();
            let e = s.score::<Native>(base.codes(Codes::U32(&doc.codes)), dp);
            assert_eq!(e, s.score::<Native>(base.codes(Codes::I64(&i64s)), dp));
            assert_eq!(e, s.score::<Native>(base.codes(Codes::Usize(&us)), dp));
            let want = reference(&lut, &q, &w, &doc, Some((&cdot, ncent)), false);
            assert!((f32::from_bits(e) as f64 - want).abs() < 1e-3 * (1.0 + want.abs()));
        }
    }
}

#[test]
fn non_simd_dims_and_nbits8_score_on_scalar_path() {
    let mut rng = Rng(0xA4093822299F31D0);
    let ds = dispatches();
    // nbits 2, dim 44: 11 packed bytes, not a multiple of 8 dims.
    for &(nbits, dim) in &[(2usize, 44usize), (4, 12), (8, 40), (8, 128)] {
        let p = ColbertPacking::new(nbits).unwrap();
        let w = weights(nbits, &mut rng);
        let lut = Lut::new::<_, Native>(&p, &bits(&w)).unwrap();
        let k = lut.kernel(dim, &ds[0]);
        assert!(matches!(k, Kernel::Scalar(_)), "nbits={nbits} dim={dim}: {k:?}");
        let nq = 6;
        let query: Vec<f32> = (0..nq * dim).map(|_| rng.f32(-1.0, 1.0)).collect();
        let q = PreparedQuery::new::<Native>(&lut, &bits(&query), nq, dim).unwrap();
        let ncent = 5;
        let cdot: Vec<f32> = (0..ncent * nq).map(|_| rng.f32(-1.0, 1.0)).collect();
        let cdot = bits(&cdot);
        let doc = make_doc(&p, dim, 9, ncent, 3, &mut rng);
        let got = Scorer::new(&lut, &q)
            .with_centroid_term(&cdot, ncent)
            .unwrap()
            .score::<Native>(
                DocView::new(&doc.packed, doc.ntok, doc.stride)
                    .codes(Codes::U32(&doc.codes))
                    .inv_norms(&doc.inv),
                &ds[0],
            );
        let got = f32::from_bits(got);
        let want = reference(&lut, &q, &w, &doc, Some((&cdot, ncent)), true);
        assert!(
            (got as f64 - want).abs() < 1e-3 * (1.0 + want.abs()),
            "nbits={nbits} dim={dim}: {got} vs {want}"
        );
    }
}

#[test]
fn shape_violations_are_errors_not_reads() {
    let d = &dispatches()[0];
    let w: Vec<f32> = (0..16).map(|i| i as f32 * 0.05 - 0.4).collect();
    let lut = Lut::colbert::<Native>(4, &bits(&w)).unwrap();
    let dim = 64;
    let q = PreparedQuery::new::<Native>(&lut, &bits(&vec![0.1; 8 * dim]), 8, dim).unwrap();
    let cdot = bits(&vec![0.0f32; 4 * 8]);
    let s = Scorer::new(&lut, &q).with_centroid_term(&cdot, 4).unwrap();
    let packed = vec![0u8; 3 * 32];
    let ok = DocView::new(&packed, 3, 32).codes(Codes::U32(&[0, 1, 3]));
    assert!(s.try_score::<Native>(ok, d).is_ok());
    // Centroid id out of range.
    assert!(s.try_score::<Native>(ok.codes(Codes::U32(&[0, 1, 4])), d).is_err());
    assert!(s.try_score::<Native>(ok.codes(Codes::I64(&[0, -1, 2])), d).is_err());
    // Codes missing while a centroid term is set.
    assert!(s.try_score::<Native>(ok.codes(Codes::Absent), d).is_err());
    // Wrong code count, short buffer, narrow stride, wrong inv length.
    assert!(s.try_score::<Native>(ok.codes(Codes::U32(&[0, 1])), d).is_err());
    assert!(s
        .try_score::<Native>(DocView::new(&packed[..80], 3, 32).codes(Codes::U32(&[0, 1, 3])), d)
        .is_err());
    assert!(s
        .try_score::<Native>(DocView::new(&packed, 3, 31).codes(Codes::U32(&[0, 1, 3])), d)
        .is_err());
    assert!(s.try_score::<Native>(ok.inv_norms(&bits(&[1.0, 1.0])), d).is_err());
    // Centroid term of the wrong size.
    assert!(Scorer::new(&lut, &q).with_centroid_term(&cdot, 5).is_err());
    // Query prepared against a different table.
    let w: Vec<f32> = (0..16).map(|i| i as f32 * 0.07 - 0.5).collect();
    let other = Lut::colbert::<Native>(4, &bits(&w)).unwrap();
    assert!(Scorer::try_new(&other, &q).is_err());
    // Zero tokens scores zero and reads nothing.
    let zero = s.score::<Native>(DocView::new(&[], 0, 32).codes(Codes::U32(&[])), d);
    assert_eq!(f32::from_bits(zero), 0.0);
}

#[test]
fn score_many_matches_score() {
    let mut rng = Rng(0x082EFA98EC4E6C89);
    let d = &dispatches()[0];
    let p = ColbertPacking::new(4).unwrap();
    let w = weights(4, &mut rng);
    let lut = Lut::new::<_, Native>(&p, &bits(&w)).unwrap();
    let (nq, dim) = (32, 128);
    let query: Vec<f32> = (0..nq * dim).map(|_| rng.f32(-1.0, 1.0)).collect();
    let q = PreparedQuery::new::<Native>(&lut, &bits(&query), nq, dim).unwrap();
    let docs: Vec<Doc> = (0..7)
        .map(|i| make_doc(&p, dim, 5 + 3 * i, 4, 0, &mut rng))
        .collect();
    let s = Scorer::new(&lut, &q);
    let mut out = vec![0u32; docs.len()];
    let views: Vec<DocView> = docs
        .iter()
        .map(|d| DocView::new(&d.packed, d.ntok, d.stride))
        .collect();
    s.score_many::<Native>(&views, &mut out, d);
    for (doc, &got) in docs.iter().zip(&out) {
        assert_eq!(
            got,
            s.score::<Native>(DocView::new(&doc.packed, doc.ntok, doc.stride), d)
        );
    }
}

#[test]
fn shape_messages_name_the_numbers() {
    let d = &dispatches()[1];
    let lut = Lut::colbert::<Native>(4, &bits(&[0.25; 16])).unwrap();
    let q = PreparedQuery::new::<Native>(&lut, &bits(&[0.1; 2 * 64]), 2, 64).unwrap();
    let cdot = bits(&[0.0; 8]);
    let s = Scorer::new(&lut, &q).with_centroid_term(&cdot, 4).unwrap();
    let packed = vec![0u8; 3 * 32];
    let ids = [0u32, 1, 3];
    let doc = DocView::new(&packed, 3, 32).codes(Codes::U32(&ids));
    let inv = bits(&[1.0, 1.0]);
    let cases = [
        (
            DocView::new(&packed, 3, 31).codes(Codes::U32(&ids)),
            "row_stride 31 < 32 packed bytes for dim 64 at 2 keys/byte",
        ),
        (
            DocView::new(&packed[..80], 3, 32).codes(Codes::U32(&ids)),
            "packed has 80 bytes, need 96 for 3 tokens at stride 32",
        ),
        (doc.inv_norms(&inv), "inv_norms has 2 values for 3 tokens"),
        (doc.codes(Codes::Absent), "centroid term supplied but DocView has Codes::None"),
        (doc.codes(Codes::U32(&ids[..2])), "codes has 2 ids for 3 tokens"),
        (
            doc.codes(Codes::Usize(&[0, 9, 7])),
            "centroid id 9 at token 1 out of range 4",
        ),
    ];
    for (bad, want) in cases {
        assert_eq!(
            s.try_score::<Native>(bad, d).unwrap_err(),
            Error::Shape(want.to_string())
        );
    }
    assert_eq!(
        Scorer::new(&lut, &q).with_centroid_term(&cdot, 5).unwrap_err(),
        Error::Shape(
            "centroid term has 8 values, expected num_centroids 5 × n_query_tokens 2".to_string()
        )
    );
    let other = Lut::colbert::<Native>(2, &bits(&[0.25; 4])).unwrap();
    assert_eq!(Scorer::try_new(&other, &q).unwrap_err(), Error::LutMismatch);
    // A stride that would overflow the needed bytes is a shape error too.
    let huge = DocView::new(&packed, usize::MAX, usize::MAX).codes(Codes::U32(&ids));
    assert!(s.try_score::<Native>(huge, d).is_err());
    // Rows may follow one another without padding.
    let tight = DocView::new(&packed[..96], 3, 32).codes(Codes::U32(&ids));
    assert!(s.try_score::<Native>(tight, d).is_ok());
    assert_eq!((s.lut().nbits(), s.query().dim()), (4, 64));
}

#[test]
fn padding_between_rows_changes_no_score() {
    let mut rng = Rng(0x3F84D5B5B5470917);
    let d = &dispatches()[1];
    let p = ColbertPacking::new(2).unwrap();
    let lut = Lut::new::<_, Native>(&p, &bits(&weights(2, &mut rng))).unwrap();
    let query: Vec<f32> = (0..5 * 40).map(|_| rng.f32(-1.0, 1.0)).collect();
    let q = PreparedQuery::new::<Native>(&lut, &bits(&query), 5, 40).unwrap();
    let tight = make_doc(&p, 40, 6, 3, 0, &mut rng);
    let mut loose = Vec::new();
    for row in tight.packed.chunks(10) {
        loose.extend_from_slice(row);
        loose.extend_from_slice(&[0x5A; 7]);
    }
    let s = Scorer::new(&lut, &q);
    assert_eq!(
        s.score::<Native>(DocView::new(&tight.packed, 6, 10), d),
        s.score::<Native>(DocView::new(&loose, 6, 17), d)
    );
}

#[test]
fn a_query_without_rows_scores_zero() {
    let d = &dispatches()[0];
    let lut = Lut::colbert::<Native>(4, &bits(&[0.25; 16])).unwrap();
    let q = PreparedQuery::new::<Native>(&lut, &[], 0, 8).unwrap();
    let s = Scorer::new(&lut, &q);
    assert_eq!(s.score::<Native>(DocView::new(&[1, 2, 3, 4], 1, 4), d), 0);
}

#[test]
fn pinned_kernels_agree_with_the_calibrated_default() {
    let mut rng = Rng(0x9216D5D98979FB1B);
    for d in &dispatches() {
        for &(nbits, dim, nq, ntok) in &[(4usize, 128usize, 32usize, 9usize), (2, 40, 5, 6), (1, 16, 3, 5)] {
            let p = ColbertPacking::new(nbits).unwrap();
            let lut = Lut::new::<_, Native>(&p, &bits(&weights(nbits, &mut rng))).unwrap();
            let query: Vec<f32> = (0..nq * dim).map(|_| rng.f32(-1.0, 1.0)).collect();
            let q = PreparedQuery::new::<Native>(&lut, &bits(&query), nq, dim).unwrap();
            let doc = make_doc(&p, dim, ntok, 1, 2, &mut rng);
            let view = DocView::new(&doc.packed, doc.ntok, doc.stride).inv_norms(&doc.inv);
            let want = Scorer::new(&lut, &q).score::<Native>(view, d);
            for &k in d.kernels() {
                let pinned = lut.clone().pin_kernel(Some(k));
                assert_eq!(pinned.kernel(dim, d), k);
                assert_eq!(Scorer::new(&pinned, &q).score::<Native>(view, d), want, "{k:?}");
            }
        }
    }
}

#[test]
fn randomised_shapes_match_the_scalar_reference() {
    let mut rng = Rng(0xD1310BA698DFB5AC);
    let ds = dispatches();
    let (mut simd, mut fallback) = (0, 0);
    for i in 0..250 {
        let nbits = [1usize, 2, 4, 8][rng.below(4)];
        let kpb = 8 / nbits;
        let dim = kpb * (1 + rng.below(256 / kpb));
        let nq = 1 + rng.below(20);
        let ntok = 1 + rng.below(12);
        let p = ColbertPacking::new(nbits).unwrap();
        let lut = Lut::new::<_, Native>(&p, &bits(&weights(nbits, &mut rng))).unwrap();
        let query: Vec<f32> = (0..nq * dim).map(|_| rng.f32(-1.0, 1.0)).collect();
        let q = PreparedQuery::new::<Native>(&lut, &bits(&query), nq, dim).unwrap();
        let extra = rng.below(9);
        let doc = make_doc(&p, dim, ntok, 1, extra, &mut rng);
        let view = DocView::new(&doc.packed, doc.ntok, doc.stride).inv_norms(&doc.inv);
        let d = &ds[i % 2];
        let forced = lut.clone().force_scalar(true);
        let want = Scorer::new(&forced, &q).score::<Native>(view, d);
        assert_eq!(
            Scorer::new(&lut, &q).score::<Native>(view, d),
            want,
            "nbits={nbits} dim={dim} nq={nq} ntok={ntok}"
        );
        if lut.kernel(dim, d).is_simd() {
            simd += 1;
        } else {
            fallback += 1;
        }
    }
    assert!(simd > 0 && fallback > 0, "{simd} vector shapes, {fallback} scalar ones");
}

/// The packed bytes must hold every row at its full stride, the last one too.
#[test]
fn the_last_row_has_its_padding_too() {
    let d = &dispatches()[0];
    let lut = Lut::colbert::<Native>(4, &bits(&[0.25; 16])).unwrap();
    let q = PreparedQuery::new::<Native>(&lut, &bits(&[1.0; 8]), 1, 8).unwrap();
    let s = Scorer::new(&lut, &q);
    assert_eq!(
        s.try_score::<Native>(DocView::new(&[0; 9], 2, 5), d).unwrap_err(),
        Error::Shape("packed has 9 bytes, need 10 for 2 tokens at stride 5".to_string())
    );
    assert!(s.try_score::<Native>(DocView::new(&[0; 10], 2, 5), d).is_ok());
}

/// A query goes with every table of the weights it was prepared against, and
/// with no other.
#[test]
fn a_query_goes_with_the_tables_of_its_weights() {
    let a = Lut::colbert::<Native>(1, &bits(&[1.0, -1.0])).unwrap();
    let b = Lut::colbert::<Native>(1, &bits(&[-1.0, 1.0])).unwrap();
    let q = PreparedQuery::new::<Native>(&a, &bits(&[1.0; 8]), 1, 8).unwrap();
    // The same width and the same scale, other weights.
    assert_eq!((a.nbits(), a.scale()), (b.nbits(), b.scale()));
    assert_eq!(Scorer::try_new(&b, &q).unwrap_err(), Error::LutMismatch);
    assert!(q.matches(&a) && !q.matches(&b));
    let again = Lut::colbert::<Native>(1, &bits(&[1.0, -1.0])).unwrap();
    assert!(Scorer::try_new(&again, &q).is_ok());
    assert!(Scorer::try_new(&again.clone().force_scalar(true), &q).is_ok());
    assert!(Scorer::try_new(&again.pin_kernel(Some(Kernel::Avx2)), &q).is_ok());
    let scaled = Lut::colbert::<Native>(1, &bits(&[2.0, -2.0])).unwrap();
    assert_eq!(Scorer::try_new(&scaled, &q).unwrap_err(), Error::LutMismatch);
    let wider = Lut::colbert::<Native>(2, &bits(&[1.0, -1.0, 1.0, -1.0])).unwrap();
    assert_eq!(Scorer::try_new(&wider, &q).unwrap_err(), Error::LutMismatch);
}

/// Tokens reversed, and one of them repeated: the same score.
#[test]
fn token_order_and_repetition_change_no_score() {
    let mut rng = Rng(0x243F6A8885A308D3);
    let p = ColbertPacking::new(4).unwrap();
    let lut = Lut::new::<_, Native>(&p, &bits(&weights(4, &mut rng))).unwrap();
    let query: Vec<f32> = (0..7 * 64).map(|_| rng.f32(-1.0, 1.0)).collect();
    let q = PreparedQuery::new::<Native>(&lut, &bits(&query), 7, 64).unwrap();
    let doc = make_doc(&p, 64, 5, 3, 0, &mut rng);
    let cdot: Vec<u32> = (0..3 * 7).map(|_| rng.f32(-0.5, 0.5).to_bits()).collect();
    let order = [4usize, 2, 3, 1, 2, 0];
    let mut packed = Vec::new();
    for &t in &order {
        packed.extend_from_slice(&doc.packed[t * doc.stride..(t + 1) * doc.stride]);
    }
    let codes: Vec<u32> = order.iter().map(|&t| doc.codes[t]).collect();
    let inv: Vec<u32> = order.iter().map(|&t| doc.inv[t]).collect();
    for d in &dispatches() {
        let s = Scorer::new(&lut, &q).with_centroid_term(&cdot, 3).unwrap();
        let one = DocView::new(&doc.packed, 5, doc.stride)
            .codes(Codes::U32(&doc.codes))
            .inv_norms(&doc.inv);
        let two = DocView::new(&packed, 6, doc.stride).codes(Codes::U32(&codes)).inv_norms(&inv);
        assert_eq!(s.score::<Native>(one, d), s.score::<Native>(two, d));
    }
}

/// Of tied scores the first stays, so the order of two zeros of opposite sign
/// decides the sign.
#[test]
fn the_first_of_tied_zeros_stays() {
    let d = &dispatches()[0];
    let lut = Lut::colbert::<Native>(8, &bits(&[0.0; 256])).unwrap();
    let q = PreparedQuery::new::<Native>(&lut, &bits(&[1.0; 8]), 1, 8).unwrap();
    let s = Scorer::new(&lut, &q);
    let packed = [0u8; 16];
    let up = bits(&[1.0, -1.0]);
    let down = bits(&[-1.0, 1.0]);
    assert_eq!(
        s.score::<Native>(DocView::new(&packed, 2, 8).inv_norms(&up), d),
        0.0f32.to_bits()
    );
    assert_eq!(
        s.score::<Native>(DocView::new(&packed, 2, 8).inv_norms(&down), d),
        (-0.0f32).to_bits()
    );
}

/// Against more and more tokens the score never falls, for one query row and
/// for several.
#[test]
fn more_tokens_never_lower_a_score() {
    let mut rng = Rng(0x13198A2E03707344);
    let p = ColbertPacking::new(2).unwrap();
    let lut = Lut::new::<_, Native>(&p, &bits(&weights(2, &mut rng))).unwrap();
    for nq in [1usize, 6] {
        let query: Vec<f32> = (0..nq * 40).map(|_| rng.f32(-1.0, 1.0)).collect();
        let q = PreparedQuery::new::<Native>(&lut, &bits(&query), nq, 40).unwrap();
        let doc = make_doc(&p, 40, 20, 1, 0, &mut rng);
        let s = Scorer::new(&lut, &q);
        for d in &dispatches() {
            let mut last = f32::NEG_INFINITY;
            for n in 1..=20 {
                let view = DocView::new(&doc.packed, n, doc.stride);
                let now = f32::from_bits(s.score::<Native>(view, d));
                assert!(now >= last, "{n} tokens: {now} after {last}");
                last = now;
            }
            // A copy of a token changes nothing.
            let mut copied = doc.packed.clone();
            copied.extend_from_slice(&doc.packed[..doc.stride]);
            let view = DocView::new(&copied, 21, doc.stride);
            assert_eq!(f32::from_bits(s.score::<Native>(view, d)), last);
        }
    }
}

/// Without tokens the score is zero, and the first token may lower it.
#[test]
fn the_first_token_may_score_below_zero() {
    let d = &dispatches()[0];
    let lut = Lut::colbert::<Native>(1, &bits(&[-1.0, -1.0])).unwrap();
    let q = PreparedQuery::new::<Native>(&lut, &bits(&[1.0; 8]), 1, 8).unwrap();
    let s = Scorer::new(&lut, &q);
    assert_eq!(s.score::<Native>(DocView::new(&[0], 0, 1), d), 0.0f32.to_bits());
    assert!(f32::from_bits(s.score::<Native>(DocView::new(&[0], 1, 1), d)) < -7.9);
}
