//! Arithmetic on scalars: each result is the exact one, rounded to the
//! nearest double.
use vstd::prelude::*;
use vstd::arithmetic::power2::*;
use crate::rounding::{
    brackets,
    lemma_exact,
    lemma_pack,
    lemma_pow2_le,
    lemma_pow2_step,
    lemma_round_interval,
    pow2_u128,
    round_magnitude,
    round_pack,
    round_value,
    PACK_LIMIT,
    SIGNIFICAND_LIMIT,
};
use crate::scalar::{
    lemma_zero_magnitude,
    neg_value,
    one_magnitude,
    signed,
    Scalar,
    Value,
    HIDDEN_BIT,
    SIGN_BIT,
};

verus! {

/// The product of two values, rounded to the nearest double.
pub open spec fn mul_value(a: Value, b: Value) -> Value {
    match (a, b) {
        (Value::Nan, _) => Value::Nan,
        (_, Value::Nan) => Value::Nan,
        (Value::Infinite { negative: na }, Value::Infinite { negative: nb }) => Value::Infinite {
            negative: na != nb,
        },
        (Value::Infinite { negative: na }, Value::Finite { negative: nb, magnitude }) => {
            if magnitude == 0 {
                Value::Nan
            } else {
                Value::Infinite { negative: na != nb }
            }
        },
        (Value::Finite { negative: na, magnitude }, Value::Infinite { negative: nb }) => {
            if magnitude == 0 {
                Value::Nan
            } else {
                Value::Infinite { negative: na != nb }
            }
        },
        (
            Value::Finite { negative: na, magnitude: ma },
            Value::Finite { negative: nb, magnitude: mb },
        ) => round_value(na != nb, ma * mb, pow2(1074)),
    }
}

/// The product of two significands, with the sum of the exponents, is the
/// product of the magnitudes in units.
proof fn lemma_mul_brackets(ma: nat, xa: nat, mb: nat, xb: nat)
    ensures
        brackets(
            ma * mb,
            xa + xb - 1074,
            false,
            (ma * pow2(xa)) * (mb * pow2(xb)),
            pow2(1074),
        ),
{
    let k: int = xa + xb - 1074;
    let pa: int = pow2(xa) as int;
    let pb: int = pow2(xb) as int;
    let one: int = pow2(1074) as int;
    let a: int = ma as int;
    let b: int = mb as int;
    lemma2_to64();
    lemma_pow2_pos(1074);
    lemma_pow2_adds(xa, xb);
    if k >= 0 {
        lemma_pow2_adds(k as nat, 1074);
        let pk: int = pow2(k as nat) as int;
        assert(((a * pa) * (b * pb)) * 1 == (a * b) * (pk * one)) by (nonlinear_arith)
            requires
                pa * pb == pk * one,
        ;
    } else {
        lemma_pow2_adds((xa + xb) as nat, (-k) as nat);
        let pk: int = pow2((-k) as nat) as int;
        assert(((a * pa) * (b * pb)) * pk == (a * b) * (1 * one)) by (nonlinear_arith)
            requires
                (pa * pb) * pk == one,
        ;
    }
}

impl vstd::std_specs::ops::MulSpecImpl for Scalar {
    open spec fn obeys_mul_spec() -> bool {
        true
    }

    open spec fn mul_req(self, rhs: Scalar) -> bool {
        true
    }

    open spec fn mul_spec(self, rhs: Scalar) -> Scalar {
        product(self, rhs)
    }
}

impl core::ops::Mul for Scalar {
    type Output = Scalar;

    /// The product, rounded to the nearest double.
    fn mul(self, rhs: Scalar) -> (r: Scalar)
        ensures
            r@ == mul_value(self@, rhs@),
    {
        if self.is_nan() || rhs.is_nan() {
            return Scalar::nan();
        }
        let negative = self.is_sign_negative() != rhs.is_sign_negative();
        if self.is_infinite() || rhs.is_infinite() {
            if self.is_zero() || rhs.is_zero() {
                return Scalar::nan();
            }
            return Scalar::infinity(negative);
        }
        let (ma, xa) = self.decompose();
        let (mb, xb) = rhs.decompose();
        proof {
            let l: int = SIGNIFICAND_LIMIT as int;
            assert(ma * mb < l * l) by (nonlinear_arith)
                requires
                    0 <= ma < l,
                    0 <= mb < l,
            ;
            lemma_mul_brackets(ma as nat, xa as nat, mb as nat, xb as nat);
        }
        let t: u128 = (ma as u128) * (mb as u128);
        let k: i32 = xa as i32 + xb as i32 - 1074;
        round_pack(negative, t, k, false)
    }
}

/// The sum of two finite numbers, rounded to the nearest double. A sum that
/// is zero is negative only where both numbers are.
pub open spec fn sum_value(na: bool, ma: nat, nb: bool, mb: nat) -> Value {
    let sum = signed(na, ma) + signed(nb, mb);
    if sum == 0 {
        Value::Finite { negative: na && nb, magnitude: 0 }
    } else if sum < 0 {
        round_value(true, (-sum) as nat, 1)
    } else {
        round_value(false, sum as nat, 1)
    }
}

/// The sum of two values, rounded to the nearest double.
pub open spec fn add_value(a: Value, b: Value) -> Value {
    match (a, b) {
        (Value::Nan, _) => Value::Nan,
        (_, Value::Nan) => Value::Nan,
        (Value::Infinite { negative: na }, Value::Infinite { negative: nb }) => {
            if na == nb {
                a
            } else {
                Value::Nan
            }
        },
        (Value::Infinite { .. }, Value::Finite { .. }) => a,
        (Value::Finite { .. }, Value::Infinite { .. }) => b,
        (
            Value::Finite { negative: na, magnitude: ma },
            Value::Finite { negative: nb, magnitude: mb },
        ) => sum_value(na, ma, nb, mb),
    }
}

/// The difference of two values, rounded to the nearest double.
pub open spec fn sub_value(a: Value, b: Value) -> Value {
    add_value(a, neg_value(b))
}

/// Adding to a normal number, or taking from it, less than a quarter of its
/// spacing leaves it as it is.
proof fn lemma_negligible(ma: nat, xa: nat, small: nat, minus: bool)
    requires
        HIDDEN_BIT <= ma < SIGNIFICAND_LIMIT,
        xa >= 2,
        small < pow2((xa - 2) as nat),
    ensures
        small < ma * pow2(xa),
        round_magnitude(
            (if minus {
                ma * pow2(xa) - small
            } else {
                (ma * pow2(xa) + small) as int
            }) as nat,
            1,
        ) == ma * pow2(xa),
{
    let h: int = HIDDEN_BIT as int;
    let l: int = SIGNIFICAND_LIMIT as int;
    let m: int = ma as int;
    let p: int = pow2(xa) as int;
    let half_p: int = pow2((xa - 1) as nat) as int;
    let quarter_p: int = pow2((xa - 2) as nat) as int;
    let sa: int = m * p;
    let sb: int = small as int;
    lemma_pow2_step((xa - 2) as nat);
    lemma_pow2_step((xa - 1) as nat);
    assert(p == 2 * half_p && half_p == 2 * quarter_p && quarter_p > 0);
    assert(sa >= h * p) by (nonlinear_arith)
        requires
            sa == m * p,
            m >= h,
            p > 0,
    ;
    if !minus || sb == 0 {
        let num: int = sa + sb;
        let d: int = (1 * pow2(xa)) as int;
        assert(d == p);
        assert(m * d <= num < (m + 1) * d && (2 * m + 1) * d == 2 * sa + p) by (nonlinear_arith)
            requires
                num == m * p + sb,
                sa == m * p,
                0 <= sb < p,
                d == p,
        ;
        lemma_round_interval(num as nat, 1, xa, ma);
    } else if m > h {
        let num: int = sa - sb;
        let d: int = (1 * pow2(xa)) as int;
        let q: int = m - 1;
        assert(d == p);
        assert(q * d <= num < (q + 1) * d && (2 * q + 1) * d == 2 * sa - p && (q + 1) * pow2(xa)
            == sa) by (nonlinear_arith)
            requires
                num == m * p - sb,
                sa == m * p,
                0 < sb < p,
                d == p,
                q == m - 1,
                pow2(xa) == p,
        ;
        lemma_round_interval(num as nat, 1, xa, q as nat);
    } else {
        let num: int = sa - sb;
        let e: nat = (xa - 1) as nat;
        let d: int = (1 * pow2(e)) as int;
        let q: int = l - 1;
        assert(d == half_p);
        assert(q * d <= num < (q + 1) * d && (2 * q + 1) * d == 2 * sa - half_p && (q + 1) * pow2(e)
            == sa) by (nonlinear_arith)
            requires
                num == sa - sb,
                sa == h * (2 * half_p),
                0 < sb < half_p,
                d == half_p,
                q == 2 * h - 1,
                pow2(e) == half_p,
        ;
        lemma_round_interval(num as nat, 1, e, q as nat);
    }
}

/// The sum or the difference of two significands, the first shifted to the
/// exponent of the second, is that of the magnitudes.
proof fn lemma_add_brackets(ma: nat, xa: nat, mb: nat, xb: nat, t: nat, minus: bool)
    requires
        xa >= xb,
        t == if minus {
            ma * pow2((xa - xb) as nat) - mb
        } else {
            (ma * pow2((xa - xb) as nat) + mb) as int
        },
    ensures
        brackets(
            t,
            xb as int,
            false,
            (if minus {
                ma * pow2(xa) - mb * pow2(xb)
            } else {
                (ma * pow2(xa) + mb * pow2(xb)) as int
            }) as nat,
            1,
        ),
        ma * pow2(xa) == (ma * pow2((xa - xb) as nat)) * pow2(xb),
{
    let f: int = pow2((xa - xb) as nat) as int;
    let pa: int = pow2(xa) as int;
    let pb: int = pow2(xb) as int;
    let a: int = ma as int;
    let b: int = mb as int;
    lemma2_to64();
    lemma_pow2_adds((xa - xb) as nat, xb);
    lemma_pow2_pos(xb);
    assert(a * pa == (a * f) * pb && (a * f - b) * (pb * 1) == (a * f) * pb - b * pb && (a * f
        + b) * (pb * 1) == (a * f) * pb + b * pb) by (nonlinear_arith)
        requires
            pa == f * pb,
    ;
    if minus {
        assert((a * pa - b * pb) * 1 == (a * f - b) * (pb * 1));
        assert(a * pa - b * pb >= 0);
    } else {
        assert((a * pa + b * pb) * 1 == (a * f + b) * (pb * 1));
        assert(a * pa + b * pb >= 0) by (nonlinear_arith)
            requires
                a >= 0,
                b >= 0,
                pa >= 0,
                pb >= 0,
        ;
    }
}

/// The rounded sum of two finite numbers, the first with the greater
/// exponent.
fn add_aligned(na: bool, ma: u64, xa: u32, nb: bool, mb: u64, xb: u32) -> (r: Scalar)
    requires
        xb <= xa <= 2045,
        ma < SIGNIFICAND_LIMIT,
        mb < SIGNIFICAND_LIMIT,
        xa > 0 ==> ma >= HIDDEN_BIT,
    ensures
        r@ == sum_value(na, (ma as nat) * pow2(xa as nat), nb, (mb as nat) * pow2(xb as nat)),
        r == Scalar::encode(r@),
{
    let ghost sa: nat = (ma as nat) * pow2(xa as nat);
    let ghost sb: nat = (mb as nat) * pow2(xb as nat);
    let d = xa - xb;
    if d > 60 {
        proof {
            let pb: int = pow2(xb as nat) as int;
            lemma_pow2_adds(53, xb as nat);
            lemma_pow2_le((53 + xb) as nat, (xa - 2) as nat);
            vstd::arithmetic::power2::lemma2_to64_rest();
            lemma_pow2_pos(xb as nat);
            assert(mb * pb < 0x20_0000_0000_0000 * pb) by (nonlinear_arith)
                requires
                    mb < 0x20_0000_0000_0000,
                    pb > 0,
            ;
            lemma_negligible(ma as nat, xa as nat, sb, na != nb);
            lemma_pack(na, xa as nat, ma as nat);
        }
        let sign: u64 = if na {
            SIGN_BIT
        } else {
            0
        };
        return Scalar { bits: sign + (xa as u64) * HIDDEN_BIT + ma };
    }
    let f = pow2_u128(d);
    proof {
        vstd::arithmetic::power2::lemma2_to64_rest();
        lemma_pow2_le(d as nat, 60);
        assert(ma * f <= 0x20_0000_0000_0000 * 0x1000_0000_0000_0000) by (nonlinear_arith)
            requires
                ma <= 0x20_0000_0000_0000,
                f <= 0x1000_0000_0000_0000,
        ;
    }
    let ta: u128 = (ma as u128) * f;
    let tb: u128 = mb as u128;
    let negative: bool;
    let t: u128;
    if na == nb {
        negative = na;
        t = ta + tb;
    } else if ta >= tb {
        negative = na;
        t = ta - tb;
    } else {
        negative = nb;
        t = tb - ta;
    }
    proof {
        let pb: int = pow2(xb as nat) as int;
        lemma_pow2_pos(xb as nat);
        if na == nb || ta >= tb {
            lemma_add_brackets(ma as nat, xa as nat, mb as nat, xb as nat, t as nat, na != nb);
        } else {
            lemma_add_flipped(ma as nat, xa as nat, mb as nat, xb as nat, t as nat);
        }
        assert(sa == ta * pb && sb == tb * pb);
        assert((ta >= tb <==> ta * pb >= tb * pb) && (ta == tb <==> ta * pb == tb * pb) && (ta
            + tb == 0 <==> ta * pb + tb * pb == 0)) by (nonlinear_arith)
            requires
                pb > 0,
                ta >= 0,
                tb >= 0,
        ;
    }
    if t == 0 {
        proof {
            lemma_exact(Scalar { bits: SIGN_BIT });
            lemma_exact(Scalar { bits: 0 });
            crate::scalar::lemma_zero_magnitude(Scalar { bits: SIGN_BIT });
            crate::scalar::lemma_zero_magnitude(Scalar { bits: 0 });
        }
        return if na && nb {
            Scalar { bits: SIGN_BIT }
        } else {
            Scalar { bits: 0 }
        };
    }
    round_pack(negative, t, xb as i32, false)
}

/// The same for the difference the other way round, where the second
/// magnitude is the greater.
proof fn lemma_add_flipped(ma: nat, xa: nat, mb: nat, xb: nat, t: nat)
    requires
        xa >= xb,
        t == mb - ma * pow2((xa - xb) as nat),
    ensures
        brackets(t, xb as int, false, (mb * pow2(xb) - ma * pow2(xa)) as nat, 1),
        ma * pow2(xa) == (ma * pow2((xa - xb) as nat)) * pow2(xb),
{
    let f: int = pow2((xa - xb) as nat) as int;
    let pa: int = pow2(xa) as int;
    let pb: int = pow2(xb) as int;
    let a: int = ma as int;
    let b: int = mb as int;
    lemma2_to64();
    lemma_pow2_adds((xa - xb) as nat, xb);
    lemma_pow2_pos(xb);
    assert(a * pa == (a * f) * pb && (b - a * f) * (pb * 1) == b * pb - (a * f) * pb) by (
    nonlinear_arith)
        requires
            pa == f * pb,
    ;
    assert((b * pb - a * pa) * 1 == (b - a * f) * (pb * 1));
    assert(b * pb - a * pa >= 0) by (nonlinear_arith)
        requires
            b * pb - a * pa == (b - a * f) * pb,
            b - a * f >= 0,
            pb > 0,
    ;
}

impl vstd::std_specs::ops::AddSpecImpl for Scalar {
    open spec fn obeys_add_spec() -> bool {
        true
    }

    open spec fn add_req(self, rhs: Scalar) -> bool {
        true
    }

    open spec fn add_spec(self, rhs: Scalar) -> Scalar {
        sum(self, rhs)
    }
}

impl core::ops::Add for Scalar {
    type Output = Scalar;

    /// The sum, rounded to the nearest double.
    fn add(self, rhs: Scalar) -> (r: Scalar)
        ensures
            r@ == add_value(self@, rhs@),
    {
        if self.is_nan() || rhs.is_nan() {
            return Scalar::nan();
        }
        let na = self.is_sign_negative();
        let nb = rhs.is_sign_negative();
        if self.is_infinite() {
            return if rhs.is_infinite() && na != nb {
                Scalar::nan()
            } else {
                Scalar::infinity(na)
            };
        }
        if rhs.is_infinite() {
            return Scalar::infinity(nb);
        }
        let (ma, xa) = self.decompose();
        let (mb, xb) = rhs.decompose();
        if xa >= xb {
            add_aligned(na, ma, xa, nb, mb, xb)
        } else {
            add_aligned(nb, mb, xb, na, ma, xa)
        }
    }
}

impl vstd::std_specs::ops::SubSpecImpl for Scalar {
    open spec fn obeys_sub_spec() -> bool {
        true
    }

    open spec fn sub_req(self, rhs: Scalar) -> bool {
        true
    }

    open spec fn sub_spec(self, rhs: Scalar) -> Scalar {
        difference(self, rhs)
    }
}

impl core::ops::Sub for Scalar {
    type Output = Scalar;

    /// The difference, rounded to the nearest double.
    fn sub(self, rhs: Scalar) -> (r: Scalar)
        ensures
            r@ == sub_value(self@, rhs@),
    {
        self + core::ops::Neg::neg(rhs)
    }
}

/// The sum of two scalars.
pub open spec fn sum(a: Scalar, b: Scalar) -> Scalar {
    Scalar::encode(add_value(a@, b@))
}

/// The difference of two scalars.
pub open spec fn difference(a: Scalar, b: Scalar) -> Scalar {
    Scalar::encode(sub_value(a@, b@))
}

/// The product of two scalars.
pub open spec fn product(a: Scalar, b: Scalar) -> Scalar {
    Scalar::encode(mul_value(a@, b@))
}

/// The quotient of two scalars.
pub open spec fn quotient(a: Scalar, b: Scalar) -> Scalar {
    Scalar::encode(div_value(a@, b@))
}

/// The NaN, the infinities and the zeros are what their encodings denote.
pub proof fn lemma_encode_special(negative: bool)
    ensures
        Scalar::encode(Value::Nan)@ == Value::Nan,
        Scalar::encode(Value::Infinite { negative })@ == (Value::Infinite { negative }),
        Scalar::encode(Value::Finite { negative, magnitude: 0 })@ == (Value::Finite {
            negative,
            magnitude: 0,
        }),
{
    let z = Scalar { bits: Scalar::sign_bits(negative) };
    lemma_exact(z);
    lemma_zero_magnitude(z);
}

/// What the sum of two scalars denotes.
pub proof fn lemma_sum(a: Scalar, b: Scalar)
    ensures
        sum(a, b)@ == add_value(a@, b@),
{
    lemma_encode_special(true);
    lemma_encode_special(false);
    if a@ is Finite && b@ is Finite {
        let total = signed(a.sign(), a.magnitude()) + signed(b.sign(), b.magnitude());
        if total < 0 {
            crate::rounding::lemma_round_encodes(true, (-total) as nat, 1);
        } else if total > 0 {
            crate::rounding::lemma_round_encodes(false, total as nat, 1);
        }
    }
}

/// What the difference of two scalars denotes.
pub proof fn lemma_difference(a: Scalar, b: Scalar)
    ensures
        difference(a, b)@ == sub_value(a@, b@),
{
    crate::scalar::lemma_negated(b);
    lemma_sum(a, crate::scalar::negated(b));
}

/// What the product of two scalars denotes.
pub proof fn lemma_product(a: Scalar, b: Scalar)
    ensures
        product(a, b)@ == mul_value(a@, b@),
{
    lemma_encode_special(a.sign() != b.sign());
    lemma_pow2_pos(1074);
    if a@ is Finite && b@ is Finite {
        crate::rounding::lemma_round_encodes(
            a.sign() != b.sign(),
            a.magnitude() * b.magnitude(),
            pow2(1074),
        );
    }
}

/// What the quotient of two scalars denotes.
pub proof fn lemma_quotient(a: Scalar, b: Scalar)
    ensures
        quotient(a, b)@ == div_value(a@, b@),
{
    lemma_encode_special(a.sign() != b.sign());
    if a@ is Finite && b@ is Finite && b.magnitude() != 0 {
        crate::rounding::lemma_round_encodes(
            a.sign() != b.sign(),
            a.magnitude() * one_magnitude(),
            b.magnitude(),
        );
    }
}

/// The quotient of two values, rounded to the nearest double.
pub open spec fn div_value(a: Value, b: Value) -> Value {
    match (a, b) {
        (Value::Nan, _) => Value::Nan,
        (_, Value::Nan) => Value::Nan,
        (Value::Infinite { .. }, Value::Infinite { .. }) => Value::Nan,
        (Value::Infinite { negative: na }, Value::Finite { negative: nb, .. }) => Value::Infinite {
            negative: na != nb,
        },
        (Value::Finite { negative: na, .. }, Value::Infinite { negative: nb }) => Value::Finite {
            negative: na != nb,
            magnitude: 0,
        },
        (
            Value::Finite { negative: na, magnitude: ma },
            Value::Finite { negative: nb, magnitude: mb },
        ) => {
            if mb != 0 {
                round_value(na != nb, ma * one_magnitude(), mb)
            } else if ma != 0 {
                Value::Infinite { negative: na != nb }
            } else {
                Value::Nan
            }
        },
    }
}

/// A value `x` in units `w`, known through `x * c` and `w * c`, lies where
/// the division of `q * b + rem` by `b` puts it.
proof fn lemma_bracket_scaled(x: int, w: int, q: int, c: int, b: int, rem: int, z: int)
    requires
        c > 0,
        z > 0,
        x * c == (q * b + rem) * z,
        w * c == b * z,
        0 <= rem < b,
    ensures
        rem == 0 ==> x == q * w,
        rem > 0 ==> q * w < x < (q + 1) * w,
{
    assert((q * w) * c == (q * b) * z && ((q + 1) * w) * c == (q * b + b) * z) by (nonlinear_arith)
        requires
            w * c == b * z,
    ;
    assert((q * b + rem) * z == (q * b) * z + rem * z && (q * b + b) * z == (q * b) * z + b * z
        && (rem == 0 ==> rem * z == 0) && (rem > 0 ==> rem * z > 0) && rem * z < b * z) by (
    nonlinear_arith)
        requires
            z > 0,
            0 <= rem < b,
    ;
    assert((x < q * w <==> x * c < (q * w) * c) && (x == q * w <==> x * c == (q * w) * c) && (x < (q
        + 1) * w <==> x * c < ((q + 1) * w) * c)) by (nonlinear_arith)
        requires
            c > 0,
    ;
}

/// The integers that bracket a quotient: the significands, shifted until
/// both lie between `2^52` and `2^53`, are divided with 64 more bits.
proof fn lemma_div_brackets(
    ma: nat,
    xa: nat,
    mb: nat,
    xb: nat,
    sa: nat,
    sb: nat,
    q: nat,
    rem: nat,
    k: int,
)
    requires
        (ma * pow2(sa)) * pow2(64) == q * (mb * pow2(sb)) + rem,
        rem < mb * pow2(sb),
        k == xa - xb - sa + sb + 1010,
    ensures
        brackets(q, k, rem != 0, (ma * pow2(xa)) * one_magnitude(), mb * pow2(xb)),
{
    let a: int = ma as int;
    let b: int = mb as int;
    let pa: int = pow2(sa) as int;
    let pb: int = pow2(sb) as int;
    let p64: int = pow2(64) as int;
    let pxa: int = pow2(xa) as int;
    let pxb: int = pow2(xb) as int;
    let one: int = pow2(1074) as int;
    let num: int = ((ma * pow2(xa)) * one_magnitude()) as int;
    let den: int = (mb * pow2(xb)) as int;
    let bb: int = b * pb;
    let ap: int = (a * pa) * p64;
    lemma2_to64();
    lemma_pow2_pos(sa);
    lemma_pow2_pos(sb);
    lemma_pow2_pos(64);
    lemma_pow2_pos(xa);
    lemma_pow2_pos(xb);
    lemma_pow2_pos(1074);
    assert(b > 0 && den > 0 && bb > 0) by (nonlinear_arith)
        requires
            0 <= rem < b * pb,
            den == b * pxb,
            bb == b * pb,
            pb > 0,
            pxb > 0,
            b >= 0,
    ;
    if k >= 0 {
        let kk: int = pow2(k as nat) as int;
        lemma_pow2_pos(k as nat);
        lemma_pow2_adds(k as nat, xb);
        lemma_pow2_adds((k + xb) as nat, sa);
        lemma_pow2_adds((k + xb + sa) as nat, 64);
        lemma_pow2_adds(xa, 1074);
        lemma_pow2_adds((xa + 1074) as nat, sb);
        assert(((kk * pxb) * pa) * p64 == (pxa * one) * pb);
        let c: int = pa * p64;
        let z: int = pxa * one;
        let w: int = kk * den;
        assert(c > 0 && z > 0) by (nonlinear_arith)
            requires
                c == pa * p64,
                z == pxa * one,
                pa > 0,
                p64 > 0,
                pxa > 0,
                one > 0,
        ;
        assert(num * c == ap * z) by (nonlinear_arith)
            requires
                num == (a * pxa) * one,
                c == pa * p64,
                ap == (a * pa) * p64,
                z == pxa * one,
        ;
        let g: int = ((kk * pxb) * pa) * p64;
        assert(w * c == b * g) by (nonlinear_arith)
            requires
                w == kk * (b * pxb),
                c == pa * p64,
                g == ((kk * pxb) * pa) * p64,
        ;
        assert(b * ((pxa * one) * pb) == bb * z) by (nonlinear_arith)
            requires
                bb == b * pb,
                z == pxa * one,
        ;
        lemma_bracket_scaled(num, w, q as int, c, bb, rem as int, z);
        assert(num * 1 == num);
    } else {
        let kk: int = pow2((-k) as nat) as int;
        lemma_pow2_pos((-k) as nat);
        lemma_pow2_adds(xa, 1074);
        lemma_pow2_adds((xa + 1074) as nat, (-k) as nat);
        lemma_pow2_adds((xa + 1074 - k) as nat, sb);
        lemma_pow2_adds(xb, sa);
        lemma_pow2_adds((xb + sa) as nat, 64);
        assert(((pxa * one) * kk) * pb == (pxb * pa) * p64);
        let x: int = num * kk;
        let w: int = 1 * den;
        let g: int = ((pxa * one) * kk) * pb;
        assert(x * pb == a * g) by (nonlinear_arith)
            requires
                x == ((a * pxa) * one) * kk,
                g == ((pxa * one) * kk) * pb,
        ;
        assert(a * ((pxb * pa) * p64) == ap * pxb) by (nonlinear_arith)
            requires
                ap == (a * pa) * p64,
        ;
        assert(w * pb == bb * pxb) by (nonlinear_arith)
            requires
                w == 1 * (b * pxb),
                bb == b * pb,
        ;
        lemma_bracket_scaled(x, w, q as int, pb, bb, rem as int, pxb);
    }
}

/// A significand shifted until its leading bit is bit 52.
pub fn normalize(m: u64) -> (r: (u64, u32))
    requires
        0 < m < SIGNIFICAND_LIMIT,
    ensures
        r.1 <= 52,
        r.0 == m * pow2(r.1 as nat),
        HIDDEN_BIT <= r.0 < SIGNIFICAND_LIMIT,
{
    proof {
        crate::rounding::lemma_pack_limit();
    }
    let n = crate::rounding::bit_length(m as u128);
    proof {
        if n > 53 {
            lemma_pow2_le(53, (n - 1) as nat);
        }
        lemma_pow2_adds(n as nat, (53 - n) as nat);
        lemma_pow2_adds((n - 1) as nat, (53 - n) as nat);
        let f: int = pow2((53 - n) as nat) as int;
        let lo: int = pow2((n - 1) as nat) as int;
        let hi: int = pow2(n as nat) as int;
        lemma_pow2_pos((53 - n) as nat);
        assert(lo * f <= m * f < hi * f) by (nonlinear_arith)
            requires
                lo <= m < hi,
                f > 0,
        ;
    }
    let f = pow2_u128(53 - n);
    ((m as u128 * f) as u64, 53 - n)
}

impl vstd::std_specs::ops::DivSpecImpl for Scalar {
    open spec fn obeys_div_spec() -> bool {
        true
    }

    open spec fn div_req(self, rhs: Scalar) -> bool {
        true
    }

    open spec fn div_spec(self, rhs: Scalar) -> Scalar {
        quotient(self, rhs)
    }
}

impl core::ops::Div for Scalar {
    type Output = Scalar;

    /// The quotient, rounded to the nearest double. Dividing by zero gives
    /// an infinity, or a NaN where the dividend is zero too.
    fn div(self, rhs: Scalar) -> (r: Scalar)
        ensures
            r@ == div_value(self@, rhs@),
    {
        if self.is_nan() || rhs.is_nan() {
            return Scalar::nan();
        }
        let negative = self.is_sign_negative() != rhs.is_sign_negative();
        if self.is_infinite() {
            return if rhs.is_infinite() {
                Scalar::nan()
            } else {
                Scalar::infinity(negative)
            };
        }
        if rhs.is_infinite() {
            return Scalar::signed_zero(negative);
        }
        if rhs.is_zero() {
            return if self.is_zero() {
                Scalar::nan()
            } else {
                Scalar::infinity(negative)
            };
        }
        let (ma, xa) = self.decompose();
        let (mb, xb) = rhs.decompose();
        proof {
            lemma_zero_magnitude(self);
            lemma_zero_magnitude(rhs);
        }
        if ma == 0 {
            proof {
                assert(0 * one_magnitude() == 0) by (nonlinear_arith);
                crate::rounding::lemma_round_nothing(negative, rhs.magnitude());
            }
            return Scalar::signed_zero(negative);
        }
        let (a, sa) = normalize(ma);
        let (b, sb) = normalize(mb);
        proof {
            vstd::arithmetic::power2::lemma2_to64_rest();
        }
        let n: u128 = (a as u128) * 0x1_0000_0000_0000_0000;
        let q: u128 = n / (b as u128);
        let rem: u128 = n % (b as u128);
        let k: i32 = xa as i32 - xb as i32 - sa as i32 + sb as i32 + 1010;
        proof {
            crate::rounding::lemma_pack_limit();
            vstd::arithmetic::div_mod::lemma_fundamental_div_mod(n as int, b as int);
            assert(q * b == b * q) by (nonlinear_arith);
            assert(0x40_0000_0000_0000 <= q < PACK_LIMIT) by (nonlinear_arith)
                requires
                    n == q * b + rem,
                    0 <= rem < b,
                    0x10_0000_0000_0000 <= b < 0x20_0000_0000_0000,
                    0x10_0000_0000_0000 * 0x1_0000_0000_0000_0000 <= n < 0x20_0000_0000_0000
                        * 0x1_0000_0000_0000_0000,
                    PACK_LIMIT == 0x100_0000_0000_0000_0000_0000_0000_0000,
            ;
            lemma_div_brackets(
                ma as nat,
                xa as nat,
                mb as nat,
                xb as nat,
                sa as nat,
                sb as nat,
                q as nat,
                rem as nat,
                k as int,
            );
        }
        round_pack(negative, q, k, rem != 0)
    }
}

} // verus!
