//! The square root of a scalar, rounded to the nearest double.
use vstd::prelude::*;
use vstd::arithmetic::power2::*;
use crate::arith::normalize;
use crate::rounding::{
    lemma_pack_limit,
    lemma_pow2_le,
    lemma_pow2_step,
    lemma_round_interval,
    overflow_magnitude,
    pack,
    pow2_u128,
    round_parts,
    rounded,
    shifted_up,
    spacing_exponent,
    PACK_LIMIT,
    SIGNIFICAND_LIMIT,
};
use crate::scalar::{lemma_zero_magnitude, one_magnitude, Scalar, Value, HIDDEN_BIT};

verus! {

/// Whether `r` is the whole part of the square root of `n`.
pub open spec fn is_root_floor(r: nat, n: nat) -> bool {
    r * r <= n < (r + 1) * (r + 1)
}

/// The whole part of the square root of `n`.
pub open spec fn root_floor(n: nat) -> nat {
    choose|r: nat| is_root_floor(r, n)
}

/// The multiple of the spacing that is nearest to the square root of `n`;
/// of two equally near ones, the even multiple.
pub open spec fn round_root(n: nat) -> nat {
    let e = spacing_exponent(root_floor(n), 1);
    let q = root_floor(n) / pow2(e);
    let mid = (2 * q + 1) * pow2(e);
    if 4 * n > mid * mid || (4 * n == mid * mid && q % 2 == 1) {
        (q + 1) * pow2(e)
    } else {
        q * pow2(e)
    }
}

/// The square root of a value, rounded to the nearest double. That of a
/// negative number is a NaN; that of a zero is the zero itself.
pub open spec fn sqrt_value(v: Value) -> Value {
    match v {
        Value::Nan => Value::Nan,
        Value::Infinite { negative } => if negative {
            Value::Nan
        } else {
            v
        },
        Value::Finite { negative, magnitude } => if magnitude == 0 {
            v
        } else if negative {
            Value::Nan
        } else {
            Value::Finite { negative: false, magnitude: round_root(magnitude * one_magnitude()) }
        },
    }
}

/// The square root of a scalar.
pub open spec fn root(a: Scalar) -> Scalar {
    Scalar::encode(sqrt_value(a@))
}

/// Numbers that are not negative are ordered as their squares are.
proof fn lemma_square_order(a: int, b: int)
    by (nonlinear_arith)
    requires
        0 <= a,
        0 <= b,
    ensures
        a < b <==> a * a < b * b,
        a <= b <==> a * a <= b * b,
{
}

/// Every number has a whole square root, and only one.
pub proof fn lemma_root_floor(n: nat)
    ensures
        is_root_floor(root_floor(n), n),
        forall|r: nat| is_root_floor(r, n) ==> r == root_floor(n),
    decreases n,
{
    if n == 0 {
        assert(0nat * 0nat == 0 && (0nat + 1) * (0nat + 1) == 1) by (nonlinear_arith);
        assert(is_root_floor(0, 0));
    } else {
        lemma_root_floor((n - 1) as nat);
        let r = root_floor((n - 1) as nat);
        if (r + 1) * (r + 1) <= n {
            assert((r + 2) * (r + 2) > (r + 1) * (r + 1)) by (nonlinear_arith);
            assert(is_root_floor(r + 1, n));
        } else {
            assert(is_root_floor(r, n));
        }
    }
    let f = root_floor(n);
    assert forall|r: nat| is_root_floor(r, n) implies r == f by {
        lemma_square_order(r as int + 1, f as int);
        lemma_square_order(f as int + 1, r as int);
    }
}

/// A rounded square root is a magnitude that a scalar has.
pub proof fn lemma_round_root_encodes(n: nat)
    requires
        round_root(n) < overflow_magnitude(),
    ensures
        Scalar::encode(Value::Finite { negative: false, magnitude: round_root(n) })@ == (
        Value::Finite { negative: false, magnitude: round_root(n) }),
{
    let f = root_floor(n);
    let e = spacing_exponent(f, 1);
    let p: int = pow2(e) as int;
    let q: int = f as int / p;
    let r: int = f as int % p;
    let l: int = SIGNIFICAND_LIMIT as int;
    let h: int = HIDDEN_BIT as int;
    crate::rounding::lemma_spacing_bounds(f, 1);
    lemma_pow2_pos(e);
    assert(1 * pow2(e) == pow2(e));
    vstd::arithmetic::div_mod::lemma_fundamental_div_mod(f as int, p);
    assert(0 <= q < l && (e > 0 ==> h <= q)) by (nonlinear_arith)
        requires
            f == p * q + r,
            0 <= r < p,
            f < p * l,
            e > 0 ==> p * h <= f,
            f >= 0,
    ;
    let mid = (2 * q + 1) * p;
    let q1: nat = if 4 * n > mid * mid || (4 * n == mid * mid && q % 2 == 1) {
        (q + 1) as nat
    } else {
        q as nat
    };
    crate::rounding::lemma_pack(false, e, q1);
}

/// What the square root of a positive scalar denotes.
pub proof fn lemma_root(a: Scalar)
    requires
        a@ is Finite,
        !a.sign(),
        a.magnitude() != 0,
        round_root(a.magnitude() * one_magnitude()) < overflow_magnitude(),
    ensures
        root(a)@ == (Value::Finite {
            negative: false,
            magnitude: round_root(a.magnitude() * one_magnitude()),
        }),
{
    lemma_round_root_encodes(a.magnitude() * one_magnitude());
}

/// Whether the square root of `n` is `t * 2^k`, or, with `above`, lies
/// strictly between `t * 2^k` and `(t + 1) * 2^k`.
pub open spec fn root_brackets(t: nat, k: nat, above: bool, n: nat) -> bool {
    let lo = t * pow2(k);
    let hi = (t + 1) * pow2(k);
    if above {
        lo * lo < n < hi * hi
    } else {
        n == lo * lo
    }
}

/// What `round_parts` computes is the nearest double to any square root
/// that its arguments bracket.
pub proof fn lemma_rounded_root(t: nat, k: nat, above: bool, q1: nat, e: nat, n: nat)
    requires
        rounded(t, k as int, above, q1, e),
        root_brackets(t, k, above, n),
        t >= 0x40_0000_0000_0000,
    ensures
        round_root(n) == q1 * pow2(e),
{
    let sh: int = e - k;
    lemma_pack_limit();
    lemma_pow2_pos(k);
    lemma_pow2_pos(e);
    let u: int = pow2(k) as int;
    let pe: int = pow2(e) as int;
    let ti: int = t as int;
    if sh <= 0 {
        let f: int = pow2((-sh) as nat) as int;
        lemma_pow2_pos((-sh) as nat);
        assert(ti * f >= ti) by (nonlinear_arith)
            requires
                f >= 1,
                ti >= 0,
        ;
        assert(false);
    } else {
        let p: int = pow2(sh as nat) as int;
        let q: int = (t / pow2(sh as nat)) as int;
        let rem: int = (t % pow2(sh as nat)) as int;
        lemma_pow2_pos(sh as nat);
        lemma_pow2_step((sh - 1) as nat);
        lemma_pow2_adds(sh as nat, k);
        vstd::arithmetic::div_mod::lemma_fundamental_div_mod(ti, p);
        assert(p * q == q * p) by (nonlinear_arith);
        assert(pe == p * u);
        let lo: int = ti * u;
        let hi: int = (ti + 1) * u;
        let a: int = q * pe;
        let b: int = (q + 1) * pe;
        assert(q >= 0) by (nonlinear_arith)
            requires
                ti == p * q + rem,
                rem < p,
                ti >= 0,
                p > 0,
        ;
        assert(a == (q * p) * u && b == (q * p + p) * u && a >= 0) by (nonlinear_arith)
            requires
                a == q * (p * u),
                b == (q + 1) * (p * u),
                q >= 0,
                p > 0,
                u > 0,
        ;
        assert((q * p) * u <= lo && hi <= (q * p + p) * u && lo < hi) by (nonlinear_arith)
            requires
                lo == (q * p + rem) * u,
                hi == (q * p + rem + 1) * u,
                0 <= rem < p,
                u > 0,
        ;
        lemma_square_order(a, lo);
        lemma_square_order(hi, b);
        lemma_square_order(lo, hi);
        lemma_root_floor(n);
        let f: int = root_floor(n) as int;
        lemma_square_order(a, f + 1);
        lemma_square_order(f, b);
        assert(a <= f < b);
        assert(1 * pow2(e) == pow2(e));
        lemma_round_interval(f as nat, 1, e, q as nat);
        let mid: int = (2 * q + 1) * pe;
        let c: int = 2 * ti - 2 * rem + p;
        assert(mid == c * u && 2 * lo == (2 * ti) * u && 2 * hi == (2 * ti + 2) * u && mid >= 0
            && lo >= 0) by (nonlinear_arith)
            requires
                mid == (2 * q + 1) * (p * u),
                c == 2 * (q * p + rem) - 2 * rem + p,
                lo == ti * u,
                hi == (ti + 1) * u,
                ti == q * p + rem,
                u > 0,
                q >= 0,
                p > 0,
                rem >= 0,
        ;
        assert((2 * lo) * (2 * lo) == 4 * (lo * lo) && (2 * hi) * (2 * hi) == 4 * (hi * hi)) by (
        nonlinear_arith);
        if 2 * rem > p {
            assert(mid < 2 * lo) by (nonlinear_arith)
                requires
                    mid == c * u,
                    2 * lo == (2 * ti) * u,
                    c < 2 * ti,
                    u > 0,
            ;
            lemma_square_order(mid, 2 * lo);
        } else if 2 * rem < p {
            assert(mid >= 2 * hi) by (nonlinear_arith)
                requires
                    mid == c * u,
                    2 * hi == (2 * ti + 2) * u,
                    c >= 2 * ti + 2,
                    u > 0,
            ;
            lemma_square_order(2 * hi, mid);
        } else {
            assert(mid == 2 * lo);
        }
        assert(shifted_up(q as nat, rem as nat, sh as nat, above) == (4 * n > mid * mid || (4 * n
            == mid * mid && q % 2 == 1)));
    }
}

/// The whole part of a square root.
pub fn isqrt(n: u128) -> (r: u128)
    requires
        n < PACK_LIMIT,
    ensures
        is_root_floor(r as nat, n as nat),
        r < 0x1000_0000_0000_0000,
{
    let mut r: u128 = 0;
    let mut b: u32 = 60;
    proof {
        lemma_pack_limit();
        lemma2_to64_rest();
        lemma_pow2_adds(60, 60);
    }
    while b > 0
        invariant
            b <= 60,
            r * r <= n,
            n < (r + pow2(b as nat)) * (r + pow2(b as nat)),
            r + pow2(b as nat) <= 0x1000_0000_0000_0000,
        decreases b,
    {
        b = b - 1;
        let step = pow2_u128(b);
        proof {
            lemma_pow2_step(b as nat);
        }
        let c: u128 = r + step;
        assert(c * c <= 0x1000_0000_0000_0000 * 0x1000_0000_0000_0000) by (nonlinear_arith)
            requires
                0 <= c <= 0x1000_0000_0000_0000,
        ;
        if c * c <= n {
            r = c;
        }
    }
    proof {
        lemma2_to64();
    }
    r
}

impl Scalar {
    /// The square root, rounded to the nearest double.
    pub fn sqrt(self) -> (r: Scalar)
        ensures
            r@ == sqrt_value(self@),
            r == root(self),
    {
        if self.is_nan() {
            return Scalar::nan();
        }
        if self.is_zero() {
            proof {
                lemma_zero_magnitude(self);
                crate::rounding::lemma_exact(self);
            }
            return self;
        }
        if self.is_sign_negative() {
            return Scalar::nan();
        }
        if self.is_infinite() {
            return self;
        }
        let (m, x) = self.decompose();
        proof {
            lemma_zero_magnitude(self);
        }
        let (a, sa) = normalize(m);
        let s: u32 = 60 + (x + sa) % 2;
        let f = pow2_u128(s);
        proof {
            lemma2_to64_rest();
            lemma_pack_limit();
            lemma_pow2_le(s as nat, 61);
            lemma_pow2_step(60);
            assert(a * f < 0x20_0000_0000_0000 * 0x2000_0000_0000_0000) by (nonlinear_arith)
                requires
                    0 <= a < 0x20_0000_0000_0000,
                    0 < f <= 0x2000_0000_0000_0000,
            ;
        }
        let wide: u128 = (a as u128) * f;
        let root = isqrt(wide);
        let above = root * root != wide;
        let k: u32 = (x + 1074 - sa - s) / 2;
        proof {
            lemma_sqrt_brackets(
                m as nat,
                x as nat,
                sa as nat,
                s as nat,
                root as nat,
                k as nat,
                self.magnitude() * one_magnitude(),
            );
        }
        let (q, e) = round_parts(root, k as i32, above);
        proof {
            lemma_rounded_root(
                root as nat,
                k as nat,
                above,
                q as nat,
                e as nat,
                self.magnitude() * one_magnitude(),
            );
            lemma_root_in_range(root as nat, k as nat, above, q as nat, e as nat);
        }
        pack(false, q, e)
    }
}

/// The whole square root of the widened significand brackets the square
/// root of the number.
proof fn lemma_sqrt_brackets(m: nat, x: nat, sa: nat, s: nat, root: nat, k: nat, n: nat)
    requires
        n == (m * pow2(x)) * one_magnitude(),
        is_root_floor(root, (m * pow2(sa)) * pow2(s)),
        2 * k + sa + s == x + 1074,
        HIDDEN_BIT <= m * pow2(sa),
        s >= 60,
    ensures
        root_brackets(root, k, root * root != (m * pow2(sa)) * pow2(s), n),
        root >= 0x40_0000_0000_0000,
{
    let mi: int = m as int;
    let wide: int = ((m * pow2(sa)) * pow2(s)) as int;
    let pk: int = pow2(k) as int;
    let r: int = root as int;
    let one: int = pow2(1074) as int;
    let px: int = pow2(x) as int;
    let psa: int = pow2(sa) as int;
    let ps: int = pow2(s) as int;
    lemma_pow2_pos(k);
    lemma_pow2_adds(k, k);
    lemma_pow2_adds(sa, s);
    lemma_pow2_adds((sa + s) as nat, 2 * k);
    lemma_pow2_adds(x, 1074);
    assert(n == wide * (pk * pk)) by (nonlinear_arith)
        requires
            n == (mi * px) * one,
            wide == (mi * psa) * ps,
            px * one == (psa * ps) * (pk * pk),
    ;
    let lo: int = r * pk;
    let hi: int = (r + 1) * pk;
    assert(lo * lo == (r * r) * (pk * pk) && hi * hi == ((r + 1) * (r + 1)) * (pk * pk)) by (
    nonlinear_arith)
        requires
            lo == r * pk,
            hi == (r + 1) * pk,
    ;
    let pp: int = pk * pk;
    assert(pp > 0) by (nonlinear_arith)
        requires
            pp == pk * pk,
            pk > 0,
    ;
    let rr: int = r * r;
    let r1: int = (r + 1) * (r + 1);
    assert((rr < wide ==> rr * pp < wide * pp) && (rr == wide ==> rr * pp == wide * pp) && (wide
        < r1 ==> wide * pp < r1 * pp)) by (nonlinear_arith)
        requires
            pp > 0,
    ;
    lemma2_to64_rest();
    lemma_pow2_le(60, s);
    lemma_pow2_adds(54, 54);
    assert(wide >= 0x10_0000_0000_0000 * 0x1000_0000_0000_0000) by (nonlinear_arith)
        requires
            wide == (mi * psa) * ps,
            mi * psa >= 0x10_0000_0000_0000,
            ps >= 0x1000_0000_0000_0000,
    ;
    lemma_square_order(r + 1, 0x40_0000_0000_0000);
}

/// A square root is far below the overflow magnitude.
proof fn lemma_root_in_range(t: nat, k: nat, above: bool, q1: nat, e: nat)
    requires
        rounded(t, k as int, above, q1, e),
        0x40_0000_0000_0000 <= t < 0x1000_0000_0000_0000,
        k <= 1600,
        q1 <= SIGNIFICAND_LIMIT,
    ensures
        q1 * pow2(e) < overflow_magnitude(),
{
    let sh: int = e - k;
    lemma2_to64_rest();
    if sh > 8 {
        let p: int = pow2(sh as nat) as int;
        lemma_pow2_le(9, sh as nat);
        lemma2_to64();
        lemma_pow2_pos(sh as nat);
        vstd::arithmetic::div_mod::lemma_fundamental_div_mod(t as int, p);
        assert(false) by (nonlinear_arith)
            requires
                p >= 512,
                t < 0x1000_0000_0000_0000,
                t >= 0x40_0000_0000_0000,
                e > 0,
                (t as int) / p >= 0x10_0000_0000_0000,
                (t as int) == p * ((t as int) / p) + (t as int) % p,
                0 <= (t as int) % p,
        ;
    }
    lemma_pow2_le(e, 1700);
    lemma_pow2_le(1702, 2046);
    lemma_pow2_step(1700);
    lemma_pow2_step(1701);
    let pe: int = pow2(e) as int;
    let p17: int = pow2(1700) as int;
    let p20: int = pow2(2046) as int;
    assert(q1 * pe < 0x10_0000_0000_0000 * p20) by (nonlinear_arith)
        requires
            q1 <= 0x20_0000_0000_0000,
            0 < pe <= p17,
            4 * p17 <= p20,
    ;
}

} // verus!
