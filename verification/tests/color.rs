use sray::color::{Color, DefaultColors};
use sray::scalar::Scalar;

fn s(x: f64) -> Scalar {
    Scalar::from_bits(x.to_bits())
}

fn f(x: Scalar) -> f64 {
    f64::from_bits(x.to_bits())
}

fn color(r: f64, g: f64, b: f64) -> Color {
    Color::new(s(r), s(g), s(b))
}

fn parts(c: Color) -> (f64, f64, f64) {
    (f(c.r()), f(c.g()), f(c.b()))
}

#[test]
fn parts_come_back_as_given() {
    let c = color(-0.5, 0.4, 1.7);
    assert_eq!(-0.5, f(c.r()));
    assert_eq!(0.4, f(c.g()));
    assert_eq!(1.7, f(c.b()));
}

#[test]
fn adding_colors() {
    assert_eq!(color(1.6, 0.7, 1.0), color(0.9, 0.6, 0.75) + color(0.7, 0.1, 0.25));
    assert_eq!(parts(color(0.9, 0.6, 0.75) + color(0.7, 0.1, 0.25)), (0.9 + 0.7, 0.6 + 0.1, 1.0));
}

#[test]
fn subtracting_colors() {
    assert_eq!(color(0.2, 0.5, 0.5), color(0.9, 0.6, 0.75) - color(0.7, 0.1, 0.25));
    assert_eq!(parts(color(0.9, 0.6, 0.75) - color(0.7, 0.1, 0.25)), (0.9 - 0.7, 0.6 - 0.1, 0.5));
}

#[test]
fn multiplying_a_color_by_a_scalar() {
    assert_eq!(color(0.4, 0.6, 0.8), color(0.2, 0.3, 0.4) * s(2.0));
}

#[test]
fn blending_colors() {
    assert_eq!(color(0.9, 0.2, 0.04), color(1.0, 0.2, 0.4) * color(0.9, 1.0, 0.1));
    assert_eq!(parts(color(1.0, 0.2, 0.4) * color(0.9, 1.0, 0.1)), (0.9, 0.2, 0.4 * 0.1));
}

#[test]
fn colors_differ_beyond_the_tolerance() {
    assert!(color(0.1, 0.2, 0.3) != color(0.1, 0.2, 0.3001));
    assert!(color(0.1, 0.2, 0.3) == color(0.1, 0.2, 0.3 + 1e-12));
}

#[test]
fn named_colors() {
    assert_eq!(parts(Color::black()), (0.0, 0.0, 0.0));
    assert_eq!(parts(Color::red()), (1.0, 0.0, 0.0));
    assert_eq!(parts(Color::rose()), (1.0, 0.0, 0.5));
    assert_eq!(parts(Color::magenta()), (1.0, 0.0, 1.0));
    assert_eq!(parts(Color::violet()), (0.5, 0.0, 1.0));
    assert_eq!(parts(Color::blue()), (0.0, 0.0, 1.0));
    assert_eq!(parts(Color::azure()), (0.0, 0.5, 1.0));
    assert_eq!(parts(Color::cyan()), (0.0, 1.0, 1.0));
    assert_eq!(parts(Color::spring_green()), (0.0, 1.0, 0.5));
    assert_eq!(parts(Color::green()), (0.0, 1.0, 0.0));
    assert_eq!(parts(Color::chartreuse()), (0.5, 1.0, 0.0));
    assert_eq!(parts(Color::yellow()), (1.0, 1.0, 0.0));
    assert_eq!(parts(Color::orange()), (1.0, 0.5, 0.0));
}
