//! Double-precision scalars held as their IEEE-754 binary64 encoding.
use vstd::prelude::*;
use vstd::arithmetic::power2::*;
use vstd::arithmetic::div_mod::*;
use crate::rounding::{
    lemma_pow2_le,
    lemma_pow2_step,
    overflow_magnitude,
    pow2_u128,
    spacing_exponent,
    SIGNIFICAND_LIMIT,
};

verus! {

/// The sign bit of an encoding.
pub const SIGN_BIT: u64 = 0x8000_0000_0000_0000;

/// The implicit leading bit of a normal significand, `2^52`.
pub const HIDDEN_BIT: u64 = 0x0010_0000_0000_0000;

/// The encoding of positive infinity; every larger magnitude encodes a NaN.
pub const INFINITY_BITS: u64 = 0x7ff0_0000_0000_0000;

/// The encoding of the NaN that arithmetic produces.
pub const NAN_BITS: u64 = 0x7ff8_0000_0000_0000;

/// What a scalar denotes. A finite magnitude counts units of `2^-1074`, the
/// smallest positive double, so every finite double is a whole number of units.
pub enum Value {
    Nan,
    Infinite { negative: bool },
    Finite { negative: bool, magnitude: nat },
}

/// A double-precision number.
#[derive(Clone, Copy, Debug)]
pub struct Scalar {
    pub bits: u64,
}

impl Scalar {
    /// Whether the sign bit is set.
    pub open spec fn sign(self) -> bool {
        self.bits >= SIGN_BIT
    }

    /// The biased exponent field, `0..=2047`.
    pub open spec fn exponent(self) -> nat {
        ((self.bits / HIDDEN_BIT) % 0x800) as nat
    }

    /// The fraction field, below `2^52`.
    pub open spec fn fraction(self) -> nat {
        (self.bits % HIDDEN_BIT) as nat
    }

    /// The significand of a finite encoding: the fraction, with the implicit
    /// leading bit where the exponent field is not zero.
    pub open spec fn significand(self) -> nat {
        if self.exponent() == 0 {
            self.fraction()
        } else {
            HIDDEN_BIT as nat + self.fraction()
        }
    }

    /// The power of two that the significand of a finite encoding counts.
    pub open spec fn scale(self) -> nat {
        if self.exponent() == 0 {
            0
        } else {
            (self.exponent() - 1) as nat
        }
    }

    /// The magnitude of a finite encoding in units of `2^-1074`.
    pub open spec fn magnitude(self) -> nat {
        self.significand() * pow2(self.scale())
    }

    /// The sign bit for a sign.
    pub open spec fn sign_bits(negative: bool) -> u64 {
        if negative {
            SIGN_BIT
        } else {
            0
        }
    }

    /// The encoding of a finite magnitude that some double has.
    pub open spec fn finite_bits(magnitude: nat) -> nat {
        let e = spacing_exponent(magnitude, 1);
        e * HIDDEN_BIT as nat + magnitude / pow2(e)
    }

    /// The scalar that denotes a value; of the NaNs, the one with `NAN_BITS`.
    pub open spec fn encode(v: Value) -> Scalar {
        match v {
            Value::Nan => Scalar { bits: NAN_BITS },
            Value::Infinite { negative } => Scalar {
                bits: (Self::sign_bits(negative) + INFINITY_BITS) as u64,
            },
            Value::Finite { negative, magnitude } => Scalar {
                bits: (Self::sign_bits(negative) + Self::finite_bits(magnitude)) as u64,
            },
        }
    }

    /// The three fields of the encoding: sign, biased exponent, fraction.
    pub fn unpack(self) -> (r: (bool, u32, u64))
        ensures
            r.0 == self.sign(),
            r.1 == self.exponent(),
            r.2 == self.fraction(),
            r.1 <= 0x7ff,
            r.2 < HIDDEN_BIT,
    {
        let b = self.bits;
        proof {
            lemma_fields(b);
        }
        (b >> 63 == 1, ((b >> 52) & 0x7ff) as u32, b & 0x000f_ffff_ffff_ffff)
    }

    /// Whether this is a NaN.
    pub fn is_nan(self) -> (r: bool)
        ensures
            r == (self@ is Nan),
    {
        let (_, e, f) = self.unpack();
        e == 0x7ff && f != 0
    }

    /// Whether this is one of the two infinities.
    pub fn is_infinite(self) -> (r: bool)
        ensures
            r == (self@ is Infinite),
    {
        let (_, e, f) = self.unpack();
        e == 0x7ff && f == 0
    }

    /// Whether this is one of the two zeros.
    pub fn is_zero(self) -> (r: bool)
        ensures
            r == (self@ is Finite && self.magnitude() == 0),
    {
        let (_, e, f) = self.unpack();
        proof {
            lemma_zero_magnitude(self);
        }
        e == 0 && f == 0
    }

    /// Whether the sign bit is set, as it is in negative numbers and in the
    /// negative zero.
    pub fn is_sign_negative(self) -> (r: bool)
        ensures
            r == self.sign(),
    {
        self.unpack().0
    }

    /// The significand and the exponent of a finite scalar: its magnitude
    /// is the first times two to the second.
    pub fn decompose(self) -> (r: (u64, u32))
        requires
            self@ is Finite,
        ensures
            r.0 == self.significand(),
            r.1 == self.scale(),
            r.0 < SIGNIFICAND_LIMIT,
            r.1 <= 2045,
            r.1 > 0 ==> r.0 >= HIDDEN_BIT,
    {
        let (_, e, f) = self.unpack();
        if e == 0 {
            (f, 0)
        } else {
            (HIDDEN_BIT + f, e - 1)
        }
    }

    /// The infinity of a sign.
    pub fn infinity(negative: bool) -> (r: Scalar)
        ensures
            r@ == (Value::Infinite { negative }),
            r == Scalar::encode(r@),
    {
        if negative {
            Scalar { bits: SIGN_BIT + INFINITY_BITS }
        } else {
            Scalar { bits: INFINITY_BITS }
        }
    }

    /// The zero of a sign.
    pub fn signed_zero(negative: bool) -> (r: Scalar)
        ensures
            r@ == (Value::Finite { negative, magnitude: 0 }),
            r == Scalar::encode(r@),
    {
        let r = if negative {
            Scalar { bits: SIGN_BIT }
        } else {
            Scalar { bits: 0 }
        };
        proof {
            lemma_zero_magnitude(r);
            crate::rounding::lemma_exact(r);
        }
        r
    }

    /// The NaN that arithmetic produces.
    pub fn nan() -> (r: Scalar)
        ensures
            r@ == Value::Nan,
            r == Scalar::encode(r@),
    {
        Scalar { bits: NAN_BITS }
    }

    /// The least whole number that is not below the scalar, kept within
    /// `0..=255`; `0` for a NaN.
    pub fn ceil_to_byte(self) -> (r: u8)
        ensures
            r == clamped_ceiling(self@),
    {
        let (negative, e, f) = self.unpack();
        if e == 0x7ff {
            return if f == 0 && !negative {
                255
            } else {
                0
            };
        }
        if negative {
            return 0;
        }
        proof {
            lemma_ceiling(self);
            lemma_zero_magnitude(self);
        }
        if e >= 1031 {
            255
        } else if e < 1023 {
            if e == 0 && f == 0 {
                0
            } else {
                1
            }
        } else {
            let m = HIDDEN_BIT + f;
            proof {
                lemma2_to64_rest();
                lemma_pow2_le((1075 - e) as nat, 52);
                lemma_pow2_le(45, (1075 - e) as nat);
                lemma_div_is_ordered_by_denominator(
                    m as int,
                    0x2000_0000_0000,
                    pow2((1075 - e) as nat) as int,
                );
            }
            let p = pow2_u128(1075 - e) as u64;
            let whole = m / p;
            if m % p != 0 {
                if whole >= 255 {
                    255
                } else {
                    (whole + 1) as u8
                }
            } else {
                whole as u8
            }
        }
    }

    /// The scalar without its sign.
    pub fn abs(self) -> (r: Scalar)
        ensures
            r@ == abs_value(self@),
            r.bits == self.bits % SIGN_BIT,
    {
        let a = self.bits;
        let bits = a & 0x7fff_ffff_ffff_ffff;
        assert(bits % 0x0010_0000_0000_0000 == a % 0x0010_0000_0000_0000 && (bits
            / 0x0010_0000_0000_0000) % 0x800 == (a / 0x0010_0000_0000_0000) % 0x800 && bits
            < 0x8000_0000_0000_0000u64 && bits == a % 0x8000_0000_0000_0000) by (bit_vector)
            requires
                bits == a & 0x7fff_ffff_ffff_ffffu64,
        ;
        Scalar { bits }
    }

    /// Whether the scalar is less than another. A NaN is not less than
    /// anything, nor anything less than it; the two zeros are equal.
    pub fn lt(self, rhs: Scalar) -> (r: bool)
        ensures
            r == lt_value(self@, rhs@),
    {
        if self.is_nan() || rhs.is_nan() {
            return false;
        }
        let ma = self.abs().bits;
        let mb = rhs.abs().bits;
        proof {
            lemma_order(self, rhs);
            lemma_order(rhs, self);
        }
        if self.is_sign_negative() {
            if rhs.is_sign_negative() {
                mb < ma
            } else {
                ma != 0 || mb != 0
            }
        } else {
            if rhs.is_sign_negative() {
                false
            } else {
                ma < mb
            }
        }
    }

    /// Positive zero.
    pub open spec fn spec_zero() -> Scalar {
        Scalar { bits: 0 }
    }

    /// One half.
    pub open spec fn spec_half() -> Scalar {
        Scalar { bits: 0x3fe0_0000_0000_0000 }
    }

    /// One.
    pub open spec fn spec_one() -> Scalar {
        Scalar { bits: 0x3ff0_0000_0000_0000 }
    }

    /// Positive zero.
    #[verifier::when_used_as_spec(spec_zero)]
    pub fn zero() -> (r: Scalar)
        ensures
            r == Scalar::spec_zero(),
            r@ == (Value::Finite { negative: false, magnitude: 0 }),
    {
        proof {
            lemma_constants();
        }
        Scalar { bits: 0 }
    }

    /// One half.
    #[verifier::when_used_as_spec(spec_half)]
    pub fn half() -> (r: Scalar)
        ensures
            r == Scalar::spec_half(),
            r@ == (Value::Finite { negative: false, magnitude: pow2(1073) }),
    {
        proof {
            lemma_constants();
        }
        Scalar { bits: 0x3fe0_0000_0000_0000 }
    }

    /// One.
    #[verifier::when_used_as_spec(spec_one)]
    pub fn one() -> (r: Scalar)
        ensures
            r == Scalar::spec_one(),
            r@ == (Value::Finite { negative: false, magnitude: one_magnitude() }),
    {
        proof {
            lemma_constants();
        }
        Scalar { bits: 0x3ff0_0000_0000_0000 }
    }

    /// The scalar of an encoding.
    pub fn from_bits(bits: u64) -> (r: Scalar)
        ensures
            r.bits == bits,
    {
        Scalar { bits }
    }

    /// The encoding of the scalar.
    pub fn to_bits(self) -> (r: u64)
        ensures
            r == self.bits,
    {
        self.bits
    }
}

impl View for Scalar {
    type V = Value;

    open spec fn view(&self) -> Value {
        if self.exponent() == 0x7ff {
            if self.fraction() == 0 {
                Value::Infinite { negative: self.sign() }
            } else {
                Value::Nan
            }
        } else {
            Value::Finite { negative: self.sign(), magnitude: self.magnitude() }
        }
    }
}

/// The fields of an encoding by shifts and masks are those by division.
proof fn lemma_fields(b: u64)
    by (bit_vector)
    ensures
        (b >> 63 == 1) == (b >= 0x8000_0000_0000_0000),
        (b >> 52) & 0x7ff == (b / 0x0010_0000_0000_0000) % 0x800,
        b & 0x000f_ffff_ffff_ffff == b % 0x0010_0000_0000_0000,
        (b >> 52) & 0x7ff <= 0x7ff,
        b & 0x000f_ffff_ffff_ffff < 0x0010_0000_0000_0000,
{
}

/// A magnitude is zero only where the exponent field and the fraction are.
pub proof fn lemma_zero_magnitude(s: Scalar)
    ensures
        s.magnitude() == 0 <==> s.exponent() == 0 && s.fraction() == 0,
{
    let p: int = pow2(s.scale()) as int;
    let m: int = s.significand() as int;
    lemma_pow2_pos(s.scale());
    assert(m * p == 0 <==> m == 0) by (nonlinear_arith)
        requires
            m >= 0,
            p > 0,
    ;
}

/// What the named scalars denote.
pub proof fn lemma_constants()
    ensures
        Scalar::zero()@ == (Value::Finite { negative: false, magnitude: 0 }),
        Scalar::half()@ == (Value::Finite { negative: false, magnitude: pow2(1073) }),
        Scalar::one()@ == (Value::Finite { negative: false, magnitude: one_magnitude() }),
{
    lemma2_to64_rest();
    lemma_pow2_adds(52, 1021);
    lemma_pow2_adds(52, 1022);
    lemma_zero_magnitude(Scalar::zero());
    assert(Scalar::half().exponent() == 1022 && Scalar::half().fraction() == 0);
    assert(Scalar::one().exponent() == 1023 && Scalar::one().fraction() == 0);
}

/// The magnitude of the number one, `2^1074` units.
pub open spec fn one_magnitude() -> nat {
    pow2(1074)
}

/// The least whole number that is not below a magnitude.
pub open spec fn ceiling(magnitude: nat) -> nat {
    if magnitude % one_magnitude() == 0 {
        magnitude / one_magnitude()
    } else {
        magnitude / one_magnitude() + 1
    }
}

/// The least whole number that is not below a value, kept within `0..=255`.
/// A NaN gives `0`.
pub open spec fn clamped_ceiling(v: Value) -> nat {
    match v {
        Value::Nan => 0,
        Value::Infinite { negative } => if negative {
            0
        } else {
            255
        },
        Value::Finite { negative, magnitude } => if negative {
            0
        } else if ceiling(magnitude) > 255 {
            255
        } else {
            ceiling(magnitude)
        },
    }
}

/// The ceiling of a finite scalar by the range of its exponent field.
proof fn lemma_ceiling(s: Scalar)
    requires
        s.exponent() < 0x7ff,
    ensures
        s.exponent() >= 1031 ==> ceiling(s.magnitude()) >= 256,
        s.exponent() < 1023 ==> ceiling(s.magnitude()) == (if s.magnitude() == 0 {
            0nat
        } else {
            1nat
        }),
        1023 <= s.exponent() <= 1030 ==> ({
            let m = HIDDEN_BIT as nat + s.fraction();
            let p = pow2((1075 - s.exponent()) as nat);
            ceiling(s.magnitude()) == (if m % p == 0 {
                m / p
            } else {
                m / p + 1
            })
        }),
{
    let e = s.exponent();
    let one: int = one_magnitude() as int;
    let mag: int = s.magnitude() as int;
    lemma_zero_magnitude(s);
    lemma_pow2_pos(1074);
    lemma2_to64_rest();
    if e >= 1031 {
        let x: nat = (e - 1) as nat;
        let px: int = pow2(x) as int;
        lemma_pow2_le(1030, x);
        lemma_pow2_adds(1022, 52);
        lemma_pow2_adds(1022, 8);
        lemma2_to64();
        let p1022: int = pow2(1022) as int;
        let m: int = HIDDEN_BIT + s.fraction();
        assert(m * px >= 256 * one) by (nonlinear_arith)
            requires
                m >= 0x0010_0000_0000_0000,
                px >= p1022 * 0x100,
                one == p1022 * 0x0010_0000_0000_0000,
                p1022 > 0,
        ;
        lemma_fundamental_div_mod(mag, one);
        assert(one * (mag / one) == (mag / one) * one) by (nonlinear_arith);
        assert(mag / one >= 255) by (nonlinear_arith)
            requires
                mag == (mag / one) * one + mag % one,
                mag >= 256 * one,
                0 <= mag % one < one,
        ;
        if mag / one == 255 {
            assert(mag % one != 0) by (nonlinear_arith)
                requires
                    mag == 255 * one + mag % one,
                    mag >= 256 * one,
                    one > 0,
            ;
        }
    } else if e < 1023 {
        if e == 0 {
            lemma_pow2_le(52, 1074);
            lemma2_to64();
            let p_unit: int = pow2(0) as int;
            let f: int = s.fraction() as int;
            assert(f * p_unit == f) by (nonlinear_arith)
                requires
                    p_unit == 1,
            ;
        } else {
            let x: nat = (e - 1) as nat;
            let px: int = pow2(x) as int;
            lemma_pow2_le(x, 1021);
            lemma_pow2_adds(1021, 53);
            let p1021: int = pow2(1021) as int;
            let m: int = HIDDEN_BIT + s.fraction();
            assert(m * px < one) by (nonlinear_arith)
                requires
                    0 <= m < 0x0020_0000_0000_0000,
                    0 < px <= p1021,
                    one == p1021 * 0x0020_0000_0000_0000,
            ;
        }
        lemma_basic_div(mag, one);
        lemma_small_mod(mag as nat, one as nat);
    } else {
        let x: nat = (e - 1) as nat;
        let sh: nat = (1075 - e) as nat;
        let px: int = pow2(x) as int;
        let p: int = pow2(sh) as int;
        let m: int = HIDDEN_BIT + s.fraction();
        lemma_pow2_adds(sh, x);
        lemma_pow2_pos(sh);
        lemma_pow2_pos(x);
        lemma_fundamental_div_mod(m, p);
        let q: int = m / p;
        let r: int = m % p;
        assert(m * px == q * one + r * px && 0 <= r * px < one && (r == 0 <==> r * px == 0)) by (
        nonlinear_arith)
            requires
                m == p * q + r,
                0 <= r < p,
                one == p * px,
                px > 0,
        ;
        lemma_fundamental_div_mod_converse(mag, one, q, r * px);
    }
}

/// A magnitude with its sign, as a whole number of units.
pub open spec fn signed(negative: bool, magnitude: nat) -> int {
    if negative {
        -(magnitude as int)
    } else {
        magnitude as int
    }
}

/// The place of a value on the number line, in units; an infinity stands
/// where the overflow magnitude is.
pub open spec fn rank(v: Value) -> int {
    match v {
        Value::Nan => 0,
        Value::Infinite { negative } => signed(negative, overflow_magnitude()),
        Value::Finite { negative, magnitude } => signed(negative, magnitude),
    }
}

/// Whether a value is less than another; false where one of them is a NaN.
pub open spec fn lt_value(a: Value, b: Value) -> bool {
    !(a is Nan) && !(b is Nan) && rank(a) < rank(b)
}

/// Whether a value is a NaN or has no sign: it is not below zero, nor the
/// negative zero.
pub open spec fn unsigned(v: Value) -> bool {
    match v {
        Value::Nan => true,
        Value::Infinite { negative } => !negative,
        Value::Finite { negative, .. } => !negative,
    }
}

/// A value without its sign.
pub open spec fn abs_value(v: Value) -> Value {
    match v {
        Value::Nan => Value::Nan,
        Value::Infinite { .. } => Value::Infinite { negative: false },
        Value::Finite { magnitude, .. } => Value::Finite { negative: false, magnitude },
    }
}

/// The magnitude of a scalar that is no NaN lies between those that its
/// exponent field and the next one begin with.
proof fn lemma_magnitude_range(s: Scalar)
    requires
        !(s@ is Nan),
    ensures
        s.exponent() >= 1 ==> HIDDEN_BIT * pow2((s.exponent() - 1) as nat) <= rank(abs_value(s@)),
        s.exponent() < 0x7ff ==> rank(abs_value(s@)) < HIDDEN_BIT * pow2(s.exponent()),
{
    let e = s.exponent();
    let h: int = HIDDEN_BIT as int;
    let f: int = s.fraction() as int;
    if e == 0x7ff {
    } else if e == 0 {
        lemma2_to64();
        let p_unit: int = pow2(0) as int;
        assert(f * p_unit == f && h * p_unit == h) by (nonlinear_arith)
            requires
                p_unit == 1,
        ;
    } else {
        let p: int = pow2((e - 1) as nat) as int;
        lemma_pow2_step((e - 1) as nat);
        assert(h * p <= (h + f) * p && (h + f) * p < h * (2 * p)) by (nonlinear_arith)
            requires
                0 <= f < h,
                p > 0,
        ;
    }
}

/// Among scalars that are no NaN, the encodings without their signs are
/// ordered as the magnitudes are.
proof fn lemma_order(a: Scalar, b: Scalar)
    requires
        !(a@ is Nan),
        !(b@ is Nan),
    ensures
        a.bits % SIGN_BIT < b.bits % SIGN_BIT <==> rank(abs_value(a@)) < rank(abs_value(b@)),
        a.bits % SIGN_BIT == 0 <==> rank(abs_value(a@)) == 0,
{
    let h: int = HIDDEN_BIT as int;
    let ea = a.exponent();
    let eb = b.exponent();
    lemma_magnitude_range(a);
    lemma_magnitude_range(b);
    lemma_zero_magnitude(a);
    lemma_pow2_pos(2046);
    assert(a.bits % SIGN_BIT == ea * h + a.fraction());
    assert(b.bits % SIGN_BIT == eb * h + b.fraction());
    if ea < eb {
        lemma_pow2_le(ea, (eb - 1) as nat);
        let pa: int = pow2(ea) as int;
        let pb: int = pow2((eb - 1) as nat) as int;
        assert(h * pa <= h * pb) by (nonlinear_arith)
            requires
                pa <= pb,
                h > 0,
        ;
    } else if eb < ea {
        lemma_pow2_le(eb, (ea - 1) as nat);
        let pa: int = pow2((ea - 1) as nat) as int;
        let pb: int = pow2(eb) as int;
        assert(h * pb <= h * pa) by (nonlinear_arith)
            requires
                pb <= pa,
                h > 0,
        ;
    } else if ea < 0x7ff {
        let p: int = pow2(a.scale()) as int;
        let sa: int = a.significand() as int;
        let sb: int = b.significand() as int;
        lemma_pow2_pos(a.scale());
        assert((sa < sb <==> sa * p < sb * p) && (sa == sb <==> sa * p == sb * p)) by (
        nonlinear_arith)
            requires
                p > 0,
        ;
    }
}

/// A value with its sign flipped.
pub open spec fn neg_value(v: Value) -> Value {
    match v {
        Value::Nan => Value::Nan,
        Value::Infinite { negative } => Value::Infinite { negative: !negative },
        Value::Finite { negative, magnitude } => Value::Finite { negative: !negative, magnitude },
    }
}

/// A scalar with its sign bit flipped.
pub open spec fn negated(a: Scalar) -> Scalar {
    Scalar {
        bits: if a.bits >= SIGN_BIT {
            (a.bits - SIGN_BIT) as u64
        } else {
            (a.bits + SIGN_BIT) as u64
        },
    }
}

/// What a negated scalar denotes.
pub proof fn lemma_negated(a: Scalar)
    ensures
        negated(a)@ == neg_value(a@),
{
}

impl vstd::std_specs::ops::NegSpecImpl for Scalar {
    open spec fn obeys_neg_spec() -> bool {
        true
    }

    open spec fn neg_req(self) -> bool {
        true
    }

    open spec fn neg_spec(self) -> Scalar {
        negated(self)
    }
}

impl core::ops::Neg for Scalar {
    type Output = Scalar;

    /// The scalar with its sign flipped; a NaN stays a NaN.
    fn neg(self) -> (r: Scalar)
        ensures
            r@ == neg_value(self@),
    {
        let a = self.bits;
        let bits = a ^ SIGN_BIT;
        assert(bits == if a >= 0x8000_0000_0000_0000u64 {
            (a - 0x8000_0000_0000_0000u64) as u64
        } else {
            (a + 0x8000_0000_0000_0000u64) as u64
        }) by (bit_vector)
            requires
                bits == a ^ 0x8000_0000_0000_0000u64,
        ;
        proof {
            lemma_negated(self);
        }
        Scalar { bits }
    }
}

} // verus!
