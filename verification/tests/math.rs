use sray::math::{Point3, Tuple4, Vector3};
use sray::misc::equal;
use sray::scalar::Scalar;

fn s(x: f64) -> Scalar {
    Scalar::from_bits(x.to_bits())
}

fn f(x: Scalar) -> f64 {
    f64::from_bits(x.to_bits())
}

fn tuple(x: f64, y: f64, z: f64, w: f64) -> Tuple4 {
    Tuple4 { x: s(x), y: s(y), z: s(z), w: s(w) }
}

fn point(x: f64, y: f64, z: f64) -> Point3 {
    Point3::new(s(x), s(y), s(z))
}

fn vector(x: f64, y: f64, z: f64) -> Vector3 {
    Vector3::new(s(x), s(y), s(z))
}

#[test]
fn math_compare_floating_point_number() {
    let x = 3.5_f64;
    let y = -3.5_f64;

    assert!(equal(s(x), s(-y)));
    assert!(equal(s(-x), s(y)));
    assert!(!equal(s(x), s(y)));
    assert!(equal(s(x), (s(y) * s(y)).sqrt()));
}

#[test]
fn adding_two_tuples() {
    let t1 = tuple(3.0, -2.0, 5.0, 1.0);
    let t2 = tuple(-2.0, 3.0, 1.0, 0.0);
    let expected = t1 + t2;

    assert_eq!(1.0, f(expected.x));
    assert_eq!(1.0, f(expected.y));
    assert_eq!(6.0, f(expected.z));
    assert_eq!(1.0, f(expected.w));
}

#[test]
fn subtracting_two_tuples() {
    let t1 = tuple(3.0, 2.0, 1.0, 1.0);
    let t2 = tuple(5.0, 6.0, 7.0, 0.0);
    let expected = t1 - t2;

    assert_eq!(-2.0, f(expected.x));
    assert_eq!(-4.0, f(expected.y));
    assert_eq!(-6.0, f(expected.z));
    assert_eq!(1.0, f(expected.w));
}

#[test]
fn comparing_two_tuples() {
    let t1 = tuple(3.0, 2.0, 1.0, 1.0);
    let t2 = tuple(3.0, 2.0, 1.0, 1.0);
    let t3 = tuple(5.0, 6.0, 7.0, 0.0);

    assert!(t1 == t2);
    assert!(t2 == t1);
    assert!(t1 != t3);
    assert!(t3 != t1);
}

#[test]
fn multiplying_a_tuple_by_a_scalar() {
    let t = tuple(1.0, -2.0, 3.0, -4.0);

    assert_eq!(tuple(3.5, -7.0, 10.5, -14.0), t * s(3.5));
}

#[test]
fn multiplying_a_tuple_by_a_fraction() {
    let t = tuple(1.0, -2.0, 3.0, -4.0);

    assert_eq!(tuple(0.5, -1.0, 1.5, -2.0), t * s(0.5));
}

#[test]
fn dividing_a_tuple_by_a_scalar() {
    let t = tuple(1.0, -2.0, 3.0, -4.0);

    assert_eq!(tuple(0.5, -1.0, 1.5, -2.0), t / s(2.0));
}

#[test]
fn negating_a_tuple() {
    let t = -tuple(1.0, -2.0, 3.0, -4.0);
    assert_eq!((f(t.x), f(t.y), f(t.z), f(t.w)), (-1.0, 2.0, -3.0, 4.0));
}

#[test]
fn coordinates_come_back_as_given() {
    let p = point(4.3, -4.2, 3.1);
    assert_eq!(4.3, f(p.x()));
    assert_eq!(-4.2, f(p.y()));
    assert_eq!(3.1, f(p.z()));
    let v = vector(4.3, -4.2, 3.1);
    assert_eq!(4.3, f(v.x()));
    assert_eq!(-4.2, f(v.y()));
    assert_eq!(3.1, f(v.z()));
    let odd = [f64::NAN, f64::INFINITY, -0.0, 5e-324];
    for &x in odd.iter() {
        assert_eq!(point(x, 0.0, 0.0).x().to_bits(), x.to_bits());
        assert_eq!(vector(0.0, x, 0.0).y().to_bits(), x.to_bits());
    }
}

#[test]
fn point_plus_vector_is_a_point() {
    let pv = point(3.0, -2.0, 5.0) + vector(-2.0, 3.0, 1.0);
    assert_eq!(point(1.0, 1.0, 6.0), pv);
}

#[test]
fn point_minus_point_is_a_vector() {
    let pp = point(3.0, 2.0, 1.0) - point(5.0, 6.0, 7.0);
    assert_eq!(vector(-2.0, -4.0, -6.0), pp);
}

#[test]
fn point_minus_vector_is_a_point() {
    let pv = point(3.0, 2.0, 1.0) - vector(5.0, 6.0, 7.0);
    assert_eq!(point(-2.0, -4.0, -6.0), pv);
}

#[test]
fn the_zero_vector_leaves_a_point_where_it_is() {
    let cases = [(0.0, 0.0, 0.0), (4.3, -4.2, 3.1), (1e300, -1e-300, 5e-324), (-0.0, 1.0, 2.0)];
    for &(a, b, c) in cases.iter() {
        assert!(point(a, b, c) - vector(0.0, 0.0, 0.0) == point(a, b, c));
        assert!(point(a, b, c) + vector(0.0, 0.0, 0.0) == point(a, b, c));
    }
}

#[test]
fn vector_arithmetic() {
    assert_eq!(vector(1.0, 1.0, 6.0), vector(3.0, -2.0, 5.0) + vector(-2.0, 3.0, 1.0));
    assert_eq!(vector(-2.0, -4.0, -6.0), vector(3.0, 2.0, 1.0) - vector(5.0, 6.0, 7.0));
    assert_eq!(vector(-1.0, 2.0, -3.0), -vector(1.0, -2.0, 3.0));
    assert_eq!(vector(3.5, -7.0, 10.5), vector(1.0, -2.0, 3.0) * s(3.5));
    assert_eq!(vector(0.5, -1.0, 1.5), vector(1.0, -2.0, 3.0) / s(2.0));
}

#[test]
fn magnitude_of_vectors() {
    assert_eq!(1.0, f(vector(1.0, 0.0, 0.0).mag()));
    assert_eq!(1.0, f(vector(0.0, 1.0, 0.0).mag()));
    assert_eq!(1.0, f(vector(0.0, 0.0, 1.0).mag()));
    assert_eq!((14.0_f64).sqrt(), f(vector(1.0, 2.0, 3.0).mag()));
    assert_eq!((14.0_f64).sqrt(), f(vector(-1.0, -2.0, -3.0).mag()));
    assert_eq!(0.0, f(vector(0.0, 0.0, 0.0).mag()));
}

#[test]
fn normalizing_vectors() {
    assert_eq!(vector(1.0, 0.0, 0.0), vector(4.0, 0.0, 0.0).norm());
    let r = 14.0_f64.sqrt();
    assert_eq!(vector(1.0 / r, 2.0 / r, 3.0 / r), vector(1.0, 2.0, 3.0).norm());
    assert_eq!(1.0, f(vector(1.0, 2.0, 3.0).norm().mag()));
}

#[test]
fn normalized_vectors_have_length_one() {
    let tiny = 2.0f64.powi(-200);
    let huge = 2.0f64.powi(200);
    let cases = [
        (1.0, 2.0, 3.0),
        (-4.0, 0.0, 0.5),
        (1e-3, 1e3, 7.0),
        (0.1, 0.2, 0.3),
        (tiny, 0.0, 0.0),
        (huge, -huge, huge),
        (tiny, huge, 0.0),
        (-tiny, tiny, -tiny),
        (3.0e59, 1.0e-59, 7.0),
    ];
    for &(a, b, c) in cases.iter() {
        assert!(equal(vector(a, b, c).norm().mag(), s(1.0)), "{:?}", (a, b, c));
    }
}

#[test]
fn normalizing_the_zero_vector_gives_no_numbers() {
    let n = vector(0.0, 0.0, 0.0).norm();
    assert!(n.x().is_nan() && n.y().is_nan() && n.z().is_nan());
    let big = vector(1e200, 0.0, 0.0);
    assert_eq!(f(big.mag()), f64::INFINITY);
    assert_eq!(f(big.norm().mag()), 0.0);
}

#[test]
fn dot_product_of_vectors() {
    assert_eq!(20.0, f(vector(1.0, 2.0, 3.0).dot(&vector(2.0, 3.0, 4.0))));
}

#[test]
fn cross_product_of_vectors() {
    let v1 = vector(1.0, 2.0, 3.0);
    let v2 = vector(2.0, 3.0, 4.0);
    assert_eq!(vector(-1.0, 2.0, -1.0), v1.cross(&v2));
    assert_eq!(vector(1.0, -2.0, 1.0), v2.cross(&v1));
}

#[test]
fn cross_product_changes_sign_when_turned_round() {
    let cases = [
        ((1.0, 2.0, 3.0), (2.0, 3.0, 4.0)),
        ((0.1, -0.2, 0.3), (1e10, 1e-10, 7.0)),
        ((1.0, 1.0, 1.0), (1.0, 1.0, 1.0)),
        ((0.0, 0.0, 0.0), (5.0, 6.0, 7.0)),
    ];
    for &((a, b, c), (d, e, g)) in cases.iter() {
        let u = vector(a, b, c);
        let v = vector(d, e, g);
        assert!(u.cross(&v) == -(v.cross(&u)));
    }
}

#[test]
fn square_root_matches_the_hardware() {
    let mut x: u64 = 0x9e37_79b9_7f4a_7c15;
    let mut cases: Vec<f64> = vec![
        0.0,
        -0.0,
        1.0,
        2.0,
        4.0,
        14.0,
        0.25,
        5e-324,
        1e-310,
        2.2250738585072014e-308,
        1.7976931348623157e308,
        f64::INFINITY,
        f64::NEG_INFINITY,
        -1.0,
        f64::NAN,
        12.25,
        1.0000000000000002,
        0.9999999999999999,
    ];
    for _ in 0..20000 {
        x ^= x << 13;
        x ^= x >> 7;
        x ^= x << 17;
        cases.push(f64::from_bits(x));
        let y = f64::from_bits(x >> 1);
        cases.push(y * y);
    }
    for &v in cases.iter() {
        let got = s(v).sqrt();
        let want = v.sqrt();
        if want.is_nan() {
            assert!(got.is_nan(), "{:?}", v);
        } else {
            assert_eq!(got.to_bits(), want.to_bits(), "{:?}", v);
        }
    }
}

#[test]
fn order_matches_the_hardware() {
    let vals = [
        0.0,
        -0.0,
        1.0,
        -1.0,
        5e-324,
        -5e-324,
        1e-10,
        1e300,
        -1e300,
        f64::INFINITY,
        f64::NEG_INFINITY,
        f64::NAN,
        2.5,
        2.5000000000000004,
    ];
    for &a in vals.iter() {
        for &b in vals.iter() {
            assert_eq!(s(a).lt(s(b)), a < b, "{:?} < {:?}", a, b);
            assert_eq!(equal(s(a), s(b)), (a - b).abs() < 1e-10, "{:?} ~ {:?}", a, b);
        }
        assert_eq!(s(a).abs().to_bits(), a.abs().to_bits());
    }
}
