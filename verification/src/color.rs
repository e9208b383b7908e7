//! Linear RGB colors.
use vstd::prelude::*;
use vstd::arithmetic::power2::*;
use crate::arith::{difference, mul_value, product, sum};
use crate::misc::{close, equal};
use crate::scalar::{clamped_ceiling, one_magnitude, Scalar, Value};

verus! {

/// A color by its red, green and blue parts. The parts are not limited to
/// the range from zero to one.
#[derive(Clone, Copy, Debug)]
pub struct Color {
    pub r: Scalar,
    pub g: Scalar,
    pub b: Scalar,
}

impl Color {
    /// The color whose three parts are zero.
    pub open spec fn spec_black() -> Color {
        Color { r: Scalar::zero(), g: Scalar::zero(), b: Scalar::zero() }
    }

    /// A color of the three parts.
    pub fn new(r: Scalar, g: Scalar, b: Scalar) -> (c: Color)
        ensures
            c == (Color { r, g, b }),
    {
        Color { r, g, b }
    }

    pub fn r(&self) -> (r: Scalar)
        ensures
            r == self.r,
    {
        self.r
    }

    pub fn g(&self) -> (g: Scalar)
        ensures
            g == self.g,
    {
        self.g
    }

    pub fn b(&self) -> (b: Scalar)
        ensures
            b == self.b,
    {
        self.b
    }
}

/// The sum of two colors, part by part.
pub open spec fn color_sum(a: Color, b: Color) -> Color {
    Color { r: sum(a.r, b.r), g: sum(a.g, b.g), b: sum(a.b, b.b) }
}

/// The difference of two colors, part by part.
pub open spec fn color_difference(a: Color, b: Color) -> Color {
    Color { r: difference(a.r, b.r), g: difference(a.g, b.g), b: difference(a.b, b.b) }
}

/// A color with every part multiplied by a scalar.
pub open spec fn color_scaled(a: Color, s: Scalar) -> Color {
    Color { r: product(a.r, s), g: product(a.g, s), b: product(a.b, s) }
}

/// The blend of two colors: the products of their parts.
pub open spec fn color_blend(a: Color, b: Color) -> Color {
    Color { r: product(a.r, b.r), g: product(a.g, b.g), b: product(a.b, b.b) }
}

/// Whether two colors are equal within the tolerance, part by part.
pub open spec fn colors_close(a: Color, b: Color) -> bool {
    close(a.r@, b.r@) && close(a.g@, b.g@) && close(a.b@, b.b@)
}

impl vstd::std_specs::ops::AddSpecImpl for Color {
    open spec fn obeys_add_spec() -> bool {
        true
    }

    open spec fn add_req(self, rhs: Color) -> bool {
        true
    }

    open spec fn add_spec(self, rhs: Color) -> Color {
        color_sum(self, rhs)
    }
}

impl core::ops::Add for Color {
    type Output = Color;

    fn add(self, rhs: Color) -> (c: Color) {
        Color { r: self.r + rhs.r, g: self.g + rhs.g, b: self.b + rhs.b }
    }
}

impl vstd::std_specs::ops::SubSpecImpl for Color {
    open spec fn obeys_sub_spec() -> bool {
        true
    }

    open spec fn sub_req(self, rhs: Color) -> bool {
        true
    }

    open spec fn sub_spec(self, rhs: Color) -> Color {
        color_difference(self, rhs)
    }
}

impl core::ops::Sub for Color {
    type Output = Color;

    fn sub(self, rhs: Color) -> (c: Color) {
        Color { r: self.r - rhs.r, g: self.g - rhs.g, b: self.b - rhs.b }
    }
}

impl vstd::std_specs::ops::MulSpecImpl<Scalar> for Color {
    open spec fn obeys_mul_spec() -> bool {
        true
    }

    open spec fn mul_req(self, rhs: Scalar) -> bool {
        true
    }

    open spec fn mul_spec(self, rhs: Scalar) -> Color {
        color_scaled(self, rhs)
    }
}

impl core::ops::Mul<Scalar> for Color {
    type Output = Color;

    fn mul(self, rhs: Scalar) -> (c: Color) {
        Color { r: self.r * rhs, g: self.g * rhs, b: self.b * rhs }
    }
}

impl vstd::std_specs::ops::MulSpecImpl<Color> for Color {
    open spec fn obeys_mul_spec() -> bool {
        true
    }

    open spec fn mul_req(self, rhs: Color) -> bool {
        true
    }

    open spec fn mul_spec(self, rhs: Color) -> Color {
        color_blend(self, rhs)
    }
}

impl core::ops::Mul<Color> for Color {
    type Output = Color;

    fn mul(self, rhs: Color) -> (c: Color) {
        Color { r: self.r * rhs.r, g: self.g * rhs.g, b: self.b * rhs.b }
    }
}

impl vstd::std_specs::cmp::PartialEqSpecImpl for Color {
    open spec fn obeys_eq_spec() -> bool {
        true
    }

    open spec fn eq_spec(&self, other: &Color) -> bool {
        colors_close(*self, *other)
    }
}

impl PartialEq for Color {
    fn eq(&self, other: &Color) -> (r: bool) {
        equal(self.r, other.r) && equal(self.g, other.g) && equal(self.b, other.b)
    }
}

/// The number 255 as a value.
pub open spec fn full_scale() -> Value {
    Value::Finite { negative: false, magnitude: 255 * one_magnitude() }
}

/// The level, from 0 to 255, that stands for a part of a color in an image:
/// the part times 255, rounded as a double, then rounded up to a whole
/// number and kept within the range. A NaN gives 0.
pub open spec fn channel_level(part: Scalar) -> nat {
    clamped_ceiling(mul_value(part@, full_scale()))
}

/// The level of a part of a color.
pub fn channel(part: Scalar) -> (level: u8)
    ensures
        level == channel_level(part),
{
    let scale = Scalar::from_bits(0x406f_e000_0000_0000);
    proof {
        lemma2_to64_rest();
        lemma_pow2_adds(45, 1029);
        assert(scale.exponent() == 1030 && scale.fraction() == 0xf_e000_0000_0000);
        let p: int = pow2(1029) as int;
        assert(0x1f_e000_0000_0000 * p == 255 * (0x2000_0000_0000 * p)) by (nonlinear_arith);
    }
    (part * scale).ceil_to_byte()
}

/// Some widely used colors.
pub trait DefaultColors {
    fn black() -> (c: Color)
        ensures
            c == (Color { r: Scalar::zero(), g: Scalar::zero(), b: Scalar::zero() }),
    ;

    fn red() -> (c: Color)
        ensures
            c == (Color { r: Scalar::one(), g: Scalar::zero(), b: Scalar::zero() }),
    ;

    fn rose() -> (c: Color)
        ensures
            c == (Color { r: Scalar::one(), g: Scalar::zero(), b: Scalar::half() }),
    ;

    fn magenta() -> (c: Color)
        ensures
            c == (Color { r: Scalar::one(), g: Scalar::zero(), b: Scalar::one() }),
    ;

    fn violet() -> (c: Color)
        ensures
            c == (Color { r: Scalar::half(), g: Scalar::zero(), b: Scalar::one() }),
    ;

    fn blue() -> (c: Color)
        ensures
            c == (Color { r: Scalar::zero(), g: Scalar::zero(), b: Scalar::one() }),
    ;

    fn azure() -> (c: Color)
        ensures
            c == (Color { r: Scalar::zero(), g: Scalar::half(), b: Scalar::one() }),
    ;

    fn cyan() -> (c: Color)
        ensures
            c == (Color { r: Scalar::zero(), g: Scalar::one(), b: Scalar::one() }),
    ;

    fn spring_green() -> (c: Color)
        ensures
            c == (Color { r: Scalar::zero(), g: Scalar::one(), b: Scalar::half() }),
    ;

    fn green() -> (c: Color)
        ensures
            c == (Color { r: Scalar::zero(), g: Scalar::one(), b: Scalar::zero() }),
    ;

    fn chartreuse() -> (c: Color)
        ensures
            c == (Color { r: Scalar::half(), g: Scalar::one(), b: Scalar::zero() }),
    ;

    fn yellow() -> (c: Color)
        ensures
            c == (Color { r: Scalar::one(), g: Scalar::one(), b: Scalar::zero() }),
    ;

    fn orange() -> (c: Color)
        ensures
            c == (Color { r: Scalar::one(), g: Scalar::half(), b: Scalar::zero() }),
    ;
}

impl DefaultColors for Color {
    fn black() -> (c: Color) {
        Color::new(Scalar::zero(), Scalar::zero(), Scalar::zero())
    }

    fn red() -> (c: Color) {
        Color::new(Scalar::one(), Scalar::zero(), Scalar::zero())
    }

    fn rose() -> (c: Color) {
        Color::new(Scalar::one(), Scalar::zero(), Scalar::half())
    }

    fn magenta() -> (c: Color) {
        Color::new(Scalar::one(), Scalar::zero(), Scalar::one())
    }

    fn violet() -> (c: Color) {
        Color::new(Scalar::half(), Scalar::zero(), Scalar::one())
    }

    fn blue() -> (c: Color) {
        Color::new(Scalar::zero(), Scalar::zero(), Scalar::one())
    }

    fn azure() -> (c: Color) {
        Color::new(Scalar::zero(), Scalar::half(), Scalar::one())
    }

    fn cyan() -> (c: Color) {
        Color::new(Scalar::zero(), Scalar::one(), Scalar::one())
    }

    fn spring_green() -> (c: Color) {
        Color::new(Scalar::zero(), Scalar::one(), Scalar::half())
    }

    fn green() -> (c: Color) {
        Color::new(Scalar::zero(), Scalar::one(), Scalar::zero())
    }

    fn chartreuse() -> (c: Color) {
        Color::new(Scalar::half(), Scalar::one(), Scalar::zero())
    }

    fn yellow() -> (c: Color) {
        Color::new(Scalar::one(), Scalar::one(), Scalar::zero())
    }

    fn orange() -> (c: Color) {
        Color::new(Scalar::one(), Scalar::half(), Scalar::zero())
    }
}

} // verus!
