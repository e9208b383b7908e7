use sray::scalar::Scalar;

fn s(x: f64) -> Scalar {
    Scalar::from_bits(x.to_bits())
}

fn same(got: Scalar, want: f64) -> bool {
    if want.is_nan() {
        got.is_nan()
    } else {
        got.to_bits() == want.to_bits()
    }
}

fn samples() -> Vec<f64> {
    let mut v = vec![
        0.0,
        -0.0,
        1.0,
        -1.0,
        0.5,
        255.0,
        1.0 / 255.0,
        0.1,
        0.2,
        0.3,
        1.5,
        3.5,
        -7.25,
        1e-10,
        1e10,
        1e200,
        1e-200,
        1e308,
        1e-308,
        5e-324,
        1e-323,
        2.2250738585072014e-308,
        2.225073858507201e-308,
        1.7976931348623157e308,
        -1.7976931348623157e308,
        f64::INFINITY,
        f64::NEG_INFINITY,
        f64::NAN,
        std::f64::consts::PI,
        std::f64::consts::E,
        4503599627370496.0,
        4503599627370497.0,
        9007199254740991.0,
        9007199254740992.0,
        1.0000000000000002,
        0.9999999999999999,
        0.49999999999999994,
        2.0f64.powi(-60),
        2.0f64.powi(60),
        2.0f64.powi(61) + 2.0f64.powi(9),
    ];
    let mut x: u64 = 0x9e37_79b9_7f4a_7c15;
    for i in 0..400 {
        x ^= x << 13;
        x ^= x >> 7;
        x ^= x << 17;
        v.push(f64::from_bits(x));
        // values of similar size, so that sums cancel and round
        let near = 0x3ff0_0000_0000_0000u64 + (x >> 12) + ((i as u64 % 7) << 52);
        v.push(f64::from_bits(near ^ ((x & 1) << 63)));
    }
    v
}

#[test]
fn product_matches_the_hardware() {
    let v = samples();
    for &a in v.iter() {
        for &b in v.iter() {
            assert!(same(s(a) * s(b), a * b), "{:?} * {:?}", a, b);
        }
    }
}

#[test]
fn sum_matches_the_hardware() {
    let v = samples();
    for &a in v.iter() {
        for &b in v.iter() {
            assert!(same(s(a) + s(b), a + b), "{:?} + {:?}", a, b);
        }
    }
}

#[test]
fn difference_matches_the_hardware() {
    let v = samples();
    for &a in v.iter() {
        for &b in v.iter() {
            assert!(same(s(a) - s(b), a - b), "{:?} - {:?}", a, b);
        }
    }
}

#[test]
fn quotient_matches_the_hardware() {
    let v = samples();
    for &a in v.iter() {
        for &b in v.iter() {
            assert!(same(s(a) / s(b), a / b), "{:?} / {:?}", a, b);
        }
    }
}

#[test]
fn negation_flips_the_sign_bit() {
    for &a in samples().iter() {
        assert_eq!((-s(a)).to_bits(), (-a).to_bits());
    }
}

#[test]
fn product_of_small_numbers_is_subnormal_or_zero() {
    assert_eq!((s(1e-200) * s(1e-200)).to_bits(), 0);
    assert_eq!((s(-1e-200) * s(1e-200)).to_bits(), (-0.0f64).to_bits());
    assert_eq!((s(1e-160) * s(1e-160)).to_bits(), (1e-160f64 * 1e-160f64).to_bits());
}

#[test]
fn ties_go_to_the_even_significand() {
    // 2^53 + 1 lies halfway between two doubles
    assert_eq!((s(9007199254740992.0) + s(1.0)).to_bits(), 9007199254740992.0f64.to_bits());
    assert_eq!((s(9007199254740994.0) + s(1.0)).to_bits(), 9007199254740996.0f64.to_bits());
}

#[test]
fn zero_sums_are_negative_only_for_two_negative_zeros() {
    assert_eq!((s(-0.0) + s(-0.0)).to_bits(), (-0.0f64).to_bits());
    assert_eq!((s(0.0) + s(-0.0)).to_bits(), 0);
    assert_eq!((s(1.5) - s(1.5)).to_bits(), 0);
    assert_eq!((s(-1.5) + s(1.5)).to_bits(), 0);
}

#[test]
fn division_by_zero_is_infinite_or_nan() {
    assert_eq!((s(1.0) / s(0.0)).to_bits(), f64::INFINITY.to_bits());
    assert_eq!((s(-1.0) / s(0.0)).to_bits(), f64::NEG_INFINITY.to_bits());
    assert_eq!((s(1.0) / s(-0.0)).to_bits(), f64::NEG_INFINITY.to_bits());
    assert!((s(0.0) / s(0.0)).is_nan());
}

#[test]
fn ceiling_is_kept_within_a_byte() {
    let cases: [(f64, u8); 14] = [
        (0.0, 0),
        (-0.0, 0),
        (-3.0, 0),
        (1e-300, 1),
        (0.5, 1),
        (1.0, 1),
        (1.0000000000000002, 2),
        (127.5, 128),
        (254.0, 254),
        (254.00000000000003, 255),
        (255.0, 255),
        (256.0, 255),
        (f64::INFINITY, 255),
        (f64::NEG_INFINITY, 0),
    ];
    for &(x, want) in cases.iter() {
        assert_eq!(s(x).ceil_to_byte(), want, "{:?}", x);
        assert_eq!(s(x).ceil_to_byte() as u32, (x.ceil() as u32).clamp(0, 255));
    }
    assert_eq!(s(f64::NAN).ceil_to_byte(), 0);
}
