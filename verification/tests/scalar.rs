use rand::rngs::StdRng;
use rand::{Rng, SeedableRng};
use ray_tracing::scalar::{BYTE_MAX_BITS, INFINITY_BITS, ONE_BITS, SIGN_BIT};
use ray_tracing::Scalar;

fn s(x: f64) -> Scalar {
    Scalar::from_bits(x.to_bits())
}

fn f(x: Scalar) -> f64 {
    f64::from_bits(x.to_bits())
}

fn samples() -> Vec<f64> {
    vec![
        0.0,
        -0.0,
        5e-324,
        -5e-324,
        2.2250738585072009e-308,
        2.2250738585072014e-308,
        -2.2250738585072014e-308,
        1e-3,
        0.5,
        0.9999999999999999,
        1.0,
        1.0000000000000002,
        -1.0,
        1.5,
        2.0,
        3.999,
        4.0,
        127.5,
        254.99999999999997,
        255.0,
        255.00000000000003,
        255.999,
        256.0,
        362.0,
        1e10,
        -1e10,
        4503599627370496.0,
        9007199254740993.0,
        1e300,
        f64::MAX,
        f64::MIN,
        f64::MIN_POSITIVE,
        f64::EPSILON,
        f64::INFINITY,
        f64::NEG_INFINITY,
        f64::NAN,
        -f64::NAN,
        f64::from_bits(0x7ff0_0000_0000_0001),
        f64::from_bits(0xffff_ffff_ffff_ffff),
    ]
}

fn random_double(rng: &mut StdRng) -> f64 {
    match rng.gen_range(0..4) {
        0 => f64::from_bits(rng.gen::<u64>()),
        1 => rng.gen::<f64>(),
        2 => (rng.gen::<f64>() - 0.5) * 600.0,
        _ => (rng.gen::<f64>() - 0.5) * 1e-300,
    }
}

#[test]
fn bits_round_trip() {
    for x in samples() {
        assert_eq!(s(x).to_bits(), x.to_bits());
        assert_eq!(Scalar::from_bits(x.to_bits()).bits, x.to_bits());
    }
}

#[test]
fn constants_are_the_numbers_they_name() {
    assert_eq!(Scalar::zero().to_bits(), 0.0f64.to_bits());
    assert_eq!(Scalar::one().to_bits(), 1.0f64.to_bits());
    assert_eq!(Scalar::byte_max().to_bits(), 255.0f64.to_bits());
    assert_eq!(Scalar::infinity().to_bits(), f64::INFINITY.to_bits());
    assert_eq!(ONE_BITS, 1.0f64.to_bits());
    assert_eq!(BYTE_MAX_BITS, 255.0f64.to_bits());
    assert_eq!(INFINITY_BITS, f64::INFINITY.to_bits());
    assert_eq!(SIGN_BIT, (-0.0f64).to_bits());
}

#[test]
fn is_nan_agrees_with_the_hardware() {
    for x in samples() {
        assert_eq!(s(x).is_nan(), x.is_nan(), "{:?}", x);
    }
    let mut rng = StdRng::seed_from_u64(1);
    for _ in 0..20000 {
        let x = f64::from_bits(rng.gen::<u64>());
        assert_eq!(s(x).is_nan(), x.is_nan(), "{:?}", x);
    }
}

#[test]
fn ordering_agrees_with_the_hardware() {
    for x in samples() {
        for y in samples() {
            assert_eq!(s(x).lt(s(y)), x < y, "{:?} < {:?}", x, y);
            assert_eq!(s(x).le(s(y)), x <= y, "{:?} <= {:?}", x, y);
            assert_eq!(s(x).gt(s(y)), x > y, "{:?} > {:?}", x, y);
            assert_eq!(s(x).ge(s(y)), x >= y, "{:?} >= {:?}", x, y);
        }
    }
}

#[test]
fn ordering_agrees_with_the_hardware_on_random_pairs() {
    let mut rng = StdRng::seed_from_u64(2);
    for _ in 0..50000 {
        let x = random_double(&mut rng);
        let y = random_double(&mut rng);
        assert_eq!(s(x).lt(s(y)), x < y, "{:?} < {:?}", x, y);
        assert_eq!(s(x).le(s(y)), x <= y, "{:?} <= {:?}", x, y);
        assert_eq!(s(x).gt(s(y)), x > y, "{:?} > {:?}", x, y);
        assert_eq!(s(x).ge(s(y)), x >= y, "{:?} >= {:?}", x, y);
    }
}

#[test]
fn the_two_zeros_are_equal_and_neither_is_below_the_other() {
    let pos = s(0.0);
    let neg = s(-0.0);
    assert!(!pos.lt(neg));
    assert!(!neg.lt(pos));
    assert!(pos.le(neg));
    assert!(neg.le(pos));
}

#[test]
fn nan_is_unordered() {
    let nan = s(f64::NAN);
    for x in samples() {
        assert!(!nan.lt(s(x)));
        assert!(!nan.le(s(x)));
        assert!(!nan.gt(s(x)));
        assert!(!nan.ge(s(x)));
        assert!(!s(x).lt(nan));
        assert!(!s(x).le(nan));
    }
}

#[test]
fn infinity_is_above_every_finite_number() {
    for x in samples() {
        if x.is_finite() {
            assert!(s(x).lt(Scalar::infinity()));
            assert!(Scalar::infinity().neg().lt(s(x)));
        }
    }
}

#[test]
fn neg_flips_the_sign_bit_as_the_hardware_does() {
    for x in samples() {
        assert_eq!(s(x).neg().to_bits(), (-x).to_bits(), "{:?}", x);
        assert_eq!(s(x).neg().neg().to_bits(), x.to_bits());
    }
    let mut rng = StdRng::seed_from_u64(3);
    for _ in 0..20000 {
        let x = random_double(&mut rng);
        assert_eq!(s(x).neg().to_bits(), (-x).to_bits(), "{:?}", x);
    }
    assert_eq!(s(1.0).neg().to_bits(), 0xbff0_0000_0000_0000);
}

#[test]
fn min_agrees_with_the_hardware() {
    for x in samples() {
        for y in samples() {
            let got = f(s(x).min(s(y)));
            let want = x.min(y);
            if want.is_nan() {
                assert!(got.is_nan(), "min({:?}, {:?})", x, y);
            } else {
                assert!(got == want, "min({:?}, {:?}) gave {:?}", x, y, got);
            }
        }
    }
}

#[test]
fn min_gives_way_to_the_operand_that_is_a_number() {
    assert_eq!(s(f64::NAN).min(s(255.0)).to_bits(), 255.0f64.to_bits());
    assert_eq!(s(7.0).min(s(f64::NAN)).to_bits(), 7.0f64.to_bits());
    assert_eq!(s(3.0).min(s(2.0)).to_bits(), 2.0f64.to_bits());
    assert_eq!(s(2.0).min(s(3.0)).to_bits(), 2.0f64.to_bits());
    assert_eq!(s(-0.0).min(s(0.0)).to_bits(), (-0.0f64).to_bits());
}

#[test]
fn to_u8_agrees_with_the_cast() {
    for x in samples() {
        assert_eq!(s(x).to_u8(), x as u8, "{:?}", x);
    }
    let mut rng = StdRng::seed_from_u64(4);
    for _ in 0..50000 {
        let x = random_double(&mut rng);
        assert_eq!(s(x).to_u8(), x as u8, "{:?}", x);
    }
    for i in 0..2560 {
        let x = i as f64 / 10.0;
        assert_eq!(s(x).to_u8(), x as u8, "{:?}", x);
    }
}

#[test]
fn to_u8_exact_values() {
    assert_eq!(s(0.0).to_u8(), 0);
    assert_eq!(s(0.999).to_u8(), 0);
    assert_eq!(s(1.0).to_u8(), 1);
    assert_eq!(s(1.999).to_u8(), 1);
    assert_eq!(s(127.5).to_u8(), 127);
    assert_eq!(s(254.99999999999997).to_u8(), 254);
    assert_eq!(s(255.0).to_u8(), 255);
    assert_eq!(s(255.999).to_u8(), 255);
    assert_eq!(s(256.0).to_u8(), 255);
    assert_eq!(s(1e300).to_u8(), 255);
    assert_eq!(s(f64::INFINITY).to_u8(), 255);
    assert_eq!(s(-1.0).to_u8(), 0);
    assert_eq!(s(-1e300).to_u8(), 0);
    assert_eq!(s(f64::NEG_INFINITY).to_u8(), 0);
    assert_eq!(s(f64::NAN).to_u8(), 0);
    assert_eq!(s(5e-324).to_u8(), 0);
}

#[test]
fn clamp_to_byte_agrees_with_clamp_then_cast() {
    for x in samples() {
        assert_eq!(s(x).clamp_to_byte(), x.min(255.0) as u8, "{:?}", x);
    }
    let mut rng = StdRng::seed_from_u64(5);
    for _ in 0..50000 {
        let x = random_double(&mut rng);
        assert_eq!(s(x).clamp_to_byte(), x.min(255.0) as u8, "{:?}", x);
    }
}

#[test]
fn clamp_to_byte_never_wraps() {
    assert_eq!(s(255.999).clamp_to_byte(), 255);
    assert_eq!(s(256.0).clamp_to_byte(), 255);
    assert_eq!(s(257.0).clamp_to_byte(), 255);
    assert_eq!(s(511.998).clamp_to_byte(), 255);
    assert_eq!(s(1e18).clamp_to_byte(), 255);
    assert_eq!(s(-3.0).clamp_to_byte(), 0);
    assert_eq!(s(f64::NAN).clamp_to_byte(), 255);
}

#[test]
fn clamp_to_byte_is_monotone() {
    let mut rng = StdRng::seed_from_u64(6);
    for _ in 0..20000 {
        let x = (rng.gen::<f64>() - 0.25) * 400.0;
        let y = (rng.gen::<f64>() - 0.25) * 400.0;
        let (lo, hi) = if x <= y { (x, y) } else { (y, x) };
        assert!(s(lo).clamp_to_byte() <= s(hi).clamp_to_byte());
    }
}

#[test]
fn dyadic_exact_values() {
    assert_eq!(f(Scalar::dyadic(false, 1, 1074)), 1.0);
    assert_eq!(f(Scalar::dyadic(true, 1, 1074)), -1.0);
    assert_eq!(f(Scalar::dyadic(false, 3, 1073)), 1.5);
    assert_eq!(f(Scalar::dyadic(false, 255, 1074)), 255.0);
    assert_eq!(f(Scalar::dyadic(true, 5, 1072)), -1.25);
    assert_eq!(f(Scalar::dyadic(false, (1 << 53) - 1, 1021)), 0.9999999999999999);
    assert_eq!(f(Scalar::dyadic(false, 1 << 52, 1022)), 1.0);
    assert_eq!(f(Scalar::dyadic(false, 1, 52)), f64::MIN_POSITIVE);
    assert_eq!(f(Scalar::dyadic(false, (1 << 53) - 1, 2045)), f64::MAX);
    assert_eq!(f(Scalar::dyadic(true, (1 << 53) - 1, 2045)), f64::MIN);
    assert_eq!(Scalar::dyadic(false, 0, 1074).to_bits(), 0.0f64.to_bits());
    assert_eq!(Scalar::dyadic(true, 0, 52).to_bits(), (-0.0f64).to_bits());
}

#[test]
fn dyadic_agrees_with_scaling_by_a_power_of_two() {
    let mut rng = StdRng::seed_from_u64(16);
    for _ in 0..50000 {
        let significand: u64 = rng.gen::<u64>() >> rng.gen_range(11..64);
        let exponent: u64 = rng.gen_range(52..=2045);
        let negative: bool = rng.gen();
        let mut want = significand as f64;
        // Scale in two exact steps: one power of two may not be a number.
        let shift = exponent as i32 - 1074;
        want *= 2f64.powi(shift / 2);
        want *= 2f64.powi(shift - shift / 2);
        if negative {
            want = -want;
        }
        let got = Scalar::dyadic(negative, significand, exponent);
        assert_eq!(got.to_bits(), want.to_bits(), "{} * 2^{}", significand, shift);
    }
}
