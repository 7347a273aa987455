//! Decisions on bit patterns against the machine's floating point.
use maxsim_lut::float::{
    gt, max, max_abs, quantise, CODE_MAX, MIN_SCALE, NEG_INFINITY, NEG_ZERO, ONE, ZERO,
};
use maxsim_lut::Arith;

/// The host's single-precision arithmetic.
struct Native;

impl Arith for Native {
    fn div(a: u32, b: u32) -> u32 {
        (f32::from_bits(a) / f32::from_bits(b)).to_bits()
    }
    fn mul(a: u32, b: u32) -> u32 {
        (f32::from_bits(a) * f32::from_bits(b)).to_bits()
    }
    fn add(a: u32, b: u32) -> u32 {
        (f32::from_bits(a) + f32::from_bits(b)).to_bits()
    }
    fn from_i32(x: i32) -> u32 {
        (x as f32).to_bits()
    }
    fn round_to_i32(x: u32) -> i32 {
        f32::from_bits(x).round() as i32
    }
}

fn bits(v: &[f32]) -> Vec<u32> {
    v.iter().map(|x| x.to_bits()).collect()
}

fn samples() -> Vec<f32> {
    vec![
        0.0,
        -0.0,
        1.0,
        -1.0,
        1e-45,
        -1e-45,
        0.1,
        -0.1,
        127.0,
        -127.5,
        f32::MAX,
        f32::MIN,
        f32::INFINITY,
        f32::NEG_INFINITY,
        f32::NAN,
        -f32::NAN,
    ]
}

#[test]
fn patterns_compare_as_their_values() {
    for a in samples() {
        for b in samples() {
            assert_eq!(gt(a.to_bits(), b.to_bits()), a > b, "{a} > {b}");
            let m = f32::from_bits(max(a.to_bits(), b.to_bits()));
            let want = a.max(b);
            assert!(m == want || (m.is_nan() && want.is_nan()), "max({a}, {b})");
        }
    }
}

#[test]
fn constants_are_the_patterns_they_name() {
    assert_eq!(ZERO, 0.0f32.to_bits());
    assert_eq!(NEG_ZERO, (-0.0f32).to_bits());
    assert_eq!(ONE, 1.0f32.to_bits());
    assert_eq!(NEG_INFINITY, f32::NEG_INFINITY.to_bits());
    assert_eq!(CODE_MAX, 127.0f32.to_bits());
    assert_eq!(MIN_SCALE, 1e-12f32.to_bits());
}

#[test]
fn the_largest_magnitude_ignores_nans() {
    assert_eq!(max_abs(&[]), 0);
    assert_eq!(max_abs(&bits(&[0.5, -2.0, 1.0])), 2.0f32.to_bits());
    assert_eq!(max_abs(&bits(&[f32::NAN, -0.0])), 0);
    assert_eq!(max_abs(&bits(&[1.0, f32::NEG_INFINITY])), f32::INFINITY.to_bits());
}

#[test]
fn codes_round_halves_away_and_clamp() {
    let code = |x: f32, scale: f32| quantise::<Native>(x.to_bits(), scale.to_bits());
    assert_eq!(code(2.5, 1.0), 3);
    assert_eq!(code(-2.5, 1.0), -3);
    assert_eq!(code(2.49, 1.0), 2);
    assert_eq!(code(1000.0, 1.0), 127);
    assert_eq!(code(-1000.0, 1.0), -127);
    assert_eq!(code(f32::NAN, 1.0), 0);
    assert_eq!(code(f32::INFINITY, 1.0), 127);
}
