use sray::misc::equal;
use sray::scalar::Scalar;

fn s(x: f64) -> Scalar {
    Scalar::from_bits(x.to_bits())
}

#[test]
fn misc_compare_floating_point_number() {
    let x = 3.5_f64;
    let y = -3.5_f64;

    assert!(equal(s(x), s(-y)));
    assert!(equal(s(-x), s(y)));
    assert!(!equal(s(x), s(y)));
    assert!(equal(s(x), s(y.powi(2).sqrt())));
}

#[test]
fn tolerance_is_strict() {
    assert!(equal(s(1.0), s(1.0 + 0.5e-10)));
    assert!(!equal(s(0.0), s(1e-10)));
    assert!(equal(s(0.0), s(0.9999999999e-10)));
    assert!(!equal(s(1.0), s(1.0 + 2e-10)));
    assert!(!equal(s(f64::NAN), s(f64::NAN)));
    assert!(!equal(s(f64::INFINITY), s(f64::INFINITY)));
    assert!(equal(s(0.0), s(-0.0)));
}
