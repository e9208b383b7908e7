//! Rounding of exact results to the nearest double, ties to even.
//!
//! Magnitudes are counted in units of `2^-1074`, so an exact result is a
//! fraction `num / den` of such units.
use vstd::prelude::*;
use vstd::arithmetic::power2::*;
use vstd::arithmetic::div_mod::*;
use crate::scalar::{Scalar, Value, HIDDEN_BIT, INFINITY_BITS, SIGN_BIT};

verus! {

/// `2^53`, the bound of a significand.
pub const SIGNIFICAND_LIMIT: u64 = 0x0020_0000_0000_0000;

/// `2^120`, the bound of what `round_pack` takes.
pub const PACK_LIMIT: u128 = 0x100_0000_0000_0000_0000_0000_0000_0000;

/// The exponent `e` of the distance `2^e` between neighbouring doubles at
/// `num / den`: the least one with `num / den < 2^53 * 2^e`.
pub open spec fn spacing_exponent(num: nat, den: nat) -> nat
    decreases num,
{
    if den == 0 || num < den * SIGNIFICAND_LIMIT {
        0
    } else {
        1 + spacing_exponent(num / 2, den)
    }
}

/// The multiple of the spacing that is nearest to `num / den`; of two equally
/// near ones, the even multiple.
pub open spec fn round_magnitude(num: nat, den: nat) -> nat {
    let e = spacing_exponent(num, den);
    let d = den * pow2(e);
    let q = num / d;
    let r = num % d;
    if 2 * r > d || (2 * r == d && q % 2 == 1) {
        (q + 1) * pow2(e)
    } else {
        q * pow2(e)
    }
}

/// The least magnitude that is too large for a finite double, `2^2098` units.
pub open spec fn overflow_magnitude() -> nat {
    HIDDEN_BIT as nat * pow2(2046)
}

/// The double nearest to `num / den` units with the given sign; infinite
/// where the nearest multiple of the spacing is out of range.
pub open spec fn round_value(negative: bool, num: nat, den: nat) -> Value {
    let m = round_magnitude(num, den);
    if m < overflow_magnitude() {
        Value::Finite { negative, magnitude: m }
    } else {
        Value::Infinite { negative }
    }
}

/// Each power of two is twice the one before.
pub proof fn lemma_pow2_step(e: nat)
    ensures
        pow2(e + 1) == 2 * pow2(e),
        pow2(e) > 0,
{
    lemma_pow2_unfold(e + 1);
    lemma_pow2_pos(e);
}

/// The powers of two grow with their exponents.
pub proof fn lemma_pow2_le(a: nat, b: nat)
    requires
        a <= b,
    ensures
        pow2(a) <= pow2(b),
        pow2(a) > 0,
{
    lemma_pow2_pos(a);
    if a < b {
        lemma_pow2_strictly_increases(a, b);
    }
}

/// A multiple of a power of two is twice that of the one before.
pub proof fn lemma_scaled_pow2_step(den: nat, e: nat)
    ensures
        den * pow2(e + 1) == 2 * (den * pow2(e)),
        den > 0 ==> den * pow2(e) > 0,
{
    lemma_pow2_step(e);
    let p = pow2(e);
    assert(den * (2 * p) == 2 * (den * p)) by (nonlinear_arith);
    assert(den > 0 ==> den * p > 0) by (nonlinear_arith)
        requires
            p > 0,
    ;
}

/// The multiples of the powers of two grow with the exponents.
pub proof fn lemma_scaled_pow2_le(den: nat, a: nat, b: nat)
    requires
        a <= b,
    ensures
        den * pow2(a) <= den * pow2(b),
{
    lemma_pow2_le(a, b);
    let pa = pow2(a);
    let pb = pow2(b);
    assert(den * pa <= den * pb) by (nonlinear_arith)
        requires
            pa <= pb,
    ;
}

/// The spacing exponent brackets `num / den` between `2^52 * 2^e` and `2^53 * 2^e`.
pub proof fn lemma_spacing_bounds(num: nat, den: nat)
    requires
        den > 0,
    ensures
        num < (den * pow2(spacing_exponent(num, den))) * SIGNIFICAND_LIMIT,
        spacing_exponent(num, den) > 0 ==> (den * pow2(spacing_exponent(num, den))) * HIDDEN_BIT
            <= num,
    decreases num,
{
    lemma2_to64();
    if num < den * SIGNIFICAND_LIMIT {
        assert(den * pow2(0) == den);
    } else {
        let h = num / 2;
        lemma_spacing_bounds(h, den);
        let e1 = spacing_exponent(h, den);
        lemma_scaled_pow2_step(den, e1);
        assert(spacing_exponent(num, den) == e1 + 1);
        if e1 == 0 {
            assert(den * pow2(0) == den);
        }
    }
}

/// Only one exponent brackets `num / den`.
pub proof fn lemma_spacing_unique(num: nat, den: nat, e: nat)
    requires
        den > 0,
        num < (den * pow2(e)) * SIGNIFICAND_LIMIT,
        e > 0 ==> (den * pow2(e)) * HIDDEN_BIT <= num,
    ensures
        spacing_exponent(num, den) == e,
{
    lemma_spacing_bounds(num, den);
    let e0 = spacing_exponent(num, den);
    if e0 < e {
        lemma_scaled_pow2_le(den, e0 + 1, e);
        lemma_scaled_pow2_step(den, e0);
    } else if e < e0 {
        lemma_scaled_pow2_le(den, e + 1, e0);
        lemma_scaled_pow2_step(den, e);
    }
}

/// Whether `num / den`, which lies between `q` and `q + 1` spacings `2^e`,
/// is rounded to the upper one.
pub open spec fn rounds_up(num: nat, den: nat, e: nat, q: nat) -> bool {
    let mid = (2 * q + 1) * (den * pow2(e));
    2 * num > mid || (2 * num == mid && q % 2 == 1)
}

/// Rounding, once the two neighbouring multiples of the spacing are known.
pub proof fn lemma_round_interval(num: nat, den: nat, e: nat, q: nat)
    requires
        den > 0,
        q * (den * pow2(e)) <= num < (q + 1) * (den * pow2(e)),
        q < SIGNIFICAND_LIMIT,
        e > 0 ==> HIDDEN_BIT <= q,
    ensures
        spacing_exponent(num, den) == e,
        num / (den * pow2(e)) == q,
        round_magnitude(num, den) == (if rounds_up(num, den, e, q) {
            q + 1
        } else {
            q
        }) * pow2(e),
{
    let d: int = (den * pow2(e)) as int;
    let l: int = SIGNIFICAND_LIMIT as int;
    let h: int = HIDDEN_BIT as int;
    lemma_scaled_pow2_step(den, e);
    assert((q + 1) * d <= d * l) by (nonlinear_arith)
        requires
            q + 1 <= l,
            d > 0,
    ;
    if e > 0 {
        assert(d * h <= q * d) by (nonlinear_arith)
            requires
                h <= q,
                d > 0,
        ;
    }
    lemma_spacing_unique(num, den, e);
    let r: int = num - q * d;
    assert((q + 1) * d == q * d + d) by (nonlinear_arith);
    lemma_fundamental_div_mod_converse(num as int, d, q as int, r);
    assert((2 * q + 1) * d == 2 * (q * d) + d) by (nonlinear_arith);
}

/// The encoding `e * 2^52 + q` of `q` spacings `2^e`, and when it is finite.
pub proof fn lemma_pack(negative: bool, e: nat, q: nat)
    requires
        q <= SIGNIFICAND_LIMIT,
        e > 0 ==> HIDDEN_BIT <= q,
    ensures
        e * HIDDEN_BIT + q < INFINITY_BITS <==> q * pow2(e) < overflow_magnitude(),
        e * HIDDEN_BIT + q < INFINITY_BITS ==> ({
            let s = Scalar { bits: (Scalar::sign_bits(negative) + e * HIDDEN_BIT + q) as u64 };
            &&& s@ == Value::Finite { negative, magnitude: q * pow2(e) }
            &&& s == Scalar::encode(s@)
        }),
{
    let h: int = HIDDEN_BIT as int;
    let p: int = pow2(e) as int;
    let m: nat = q * pow2(e);
    lemma_pow2_step(e);
    lemma_pow2_step(2045);
    let p45: int = pow2(2045) as int;
    let p46: int = pow2(2046) as int;
    if e >= 2046 {
        lemma_pow2_le(2046, e);
        assert(q * p >= h * p46) by (nonlinear_arith)
            requires
                q >= h,
                p >= p46,
                p46 > 0,
                h > 0,
        ;
    } else if e == 2045 {
        if q == 2 * h {
            assert((2 * h) * p45 == h * (2 * p45)) by (nonlinear_arith);
        } else {
            assert(q * p45 < h * (2 * p45)) by (nonlinear_arith)
                requires
                    q < 2 * h,
                    p45 > 0,
            ;
        }
    } else {
        lemma_pow2_le(e + 1, 2045);
        assert(q * p < h * (2 * p45)) by (nonlinear_arith)
            requires
                q <= 2 * h,
                2 * p <= p45,
                p > 0,
                h > 0,
        ;
    }
    if e * HIDDEN_BIT + q < INFINITY_BITS {
        let s = Scalar { bits: (Scalar::sign_bits(negative) + e * HIDDEN_BIT + q) as u64 };
        if q < h {
            lemma2_to64();
            assert(q * p == q && (q + 1) * p == q + 1) by (nonlinear_arith)
                requires
                    p == 1,
            ;
            assert(1 * pow2(0) == 1);
            lemma_round_interval(m, 1, 0, q);
        } else if q < 2 * h {
            assert(s.exponent() == e + 1);
            assert(s.fraction() == q - h);
            assert((q + 1) * p == q * p + p) by (nonlinear_arith);
            assert(1 * pow2(e) == pow2(e));
            lemma_round_interval(m, 1, e, q);
        } else {
            assert(s.exponent() == e + 2);
            assert(s.fraction() == 0);
            let next_p: int = pow2(e + 1) as int;
            assert((2 * h) * p == h * (2 * p)) by (nonlinear_arith);
            assert((h + 1) * next_p == h * next_p + next_p) by (nonlinear_arith);
            assert(1 * pow2(e + 1) == pow2(e + 1));
            lemma_round_interval(m, 1, e + 1, h as nat);
        }
    }
}

/// A finite scalar is the encoding of what it denotes, and rounding leaves
/// its magnitude as it is.
pub proof fn lemma_exact(s: Scalar)
    requires
        s@ is Finite,
    ensures
        Scalar::encode(s@) == s,
        s.magnitude() < overflow_magnitude(),
        round_magnitude(s.magnitude(), 1) == s.magnitude(),
        round_value(s.sign(), s.magnitude(), 1) == s@,
{
    let q = s.significand();
    let e = s.scale();
    let d: int = (1 * pow2(e)) as int;
    let qi: int = q as int;
    lemma_pack(s.sign(), e, q);
    assert(s.bits == Scalar::sign_bits(s.sign()) + e * HIDDEN_BIT + q);
    lemma_pow2_pos(e);
    assert(qi * d == qi * pow2(e) && (qi + 1) * d == qi * d + d && (2 * qi + 1) * d == 2 * (qi
        * d) + d && d > 0) by (nonlinear_arith)
        requires
            d == 1 * pow2(e),
            pow2(e) > 0,
    ;
    lemma_round_interval(s.magnitude(), 1, e, q);
}

/// A rounded value is one that a scalar denotes.
pub proof fn lemma_round_encodes(negative: bool, num: nat, den: nat)
    requires
        den > 0,
    ensures
        Scalar::encode(round_value(negative, num, den))@ == round_value(negative, num, den),
{
    let e = spacing_exponent(num, den);
    let d: int = (den * pow2(e)) as int;
    let q: int = num as int / d;
    let r: int = num as int % d;
    let l: int = SIGNIFICAND_LIMIT as int;
    let h: int = HIDDEN_BIT as int;
    lemma_spacing_bounds(num, den);
    lemma_scaled_pow2_step(den, e);
    lemma_fundamental_div_mod(num as int, d);
    assert(0 <= q < l && (e > 0 ==> h <= q)) by (nonlinear_arith)
        requires
            num == d * q + r,
            0 <= r < d,
            num < d * l,
            e > 0 ==> d * h <= num,
            num >= 0,
    ;
    let q1: nat = if 2 * r > d || (2 * r == d && q % 2 == 1) {
        (q + 1) as nat
    } else {
        q as nat
    };
    lemma_pack(negative, e, q1);
}

/// Nothing, whatever it is divided by, is rounded to zero.
pub proof fn lemma_round_nothing(negative: bool, den: nat)
    requires
        den > 0,
    ensures
        round_value(negative, 0, den) == (Value::Finite { negative, magnitude: 0 }),
{
    let d: int = (den * pow2(0)) as int;
    lemma_scaled_pow2_step(den, 0);
    lemma_pow2_pos(2046);
    assert(0 * d == 0 && (0 + 1) * d == d && (2 * 0 + 1) * d == d && 0 * pow2(0) == 0) by (
    nonlinear_arith);
    lemma_round_interval(0, den, 0, 0);
}

/// The whole power of two in `2^k`.
pub open spec fn scale_up(k: int) -> nat {
    pow2(if k >= 0 { k as nat } else { 0 })
}

/// The power of two that `2^k` is divided by.
pub open spec fn scale_down(k: int) -> nat {
    pow2(if k < 0 { (-k) as nat } else { 0 })
}

/// Whether `num / den` is `t * 2^k`, or, with `above`, lies strictly between
/// `t * 2^k` and `(t + 1) * 2^k`.
pub open spec fn brackets(t: nat, k: int, above: bool, num: nat, den: nat) -> bool {
    let w = scale_up(k) * den;
    let x = num * scale_down(k);
    &&& den > 0
    &&& if above {
        t * w < x < (t + 1) * w
    } else {
        x == t * w
    }
}

/// Two numbers are ordered as their multiples by a positive number are.
proof fn lemma_mul_compare(a: int, b: int, c: int)
    by (nonlinear_arith)
    requires
        c > 0,
    ensures
        a < b <==> a * c < b * c,
        a == b <==> a * c == b * c,
{
}

/// Whether `q * 2^sh + rem`, with something more where `above`, is nearer to
/// `(q + 1) * 2^sh` than to `q * 2^sh`, ties going to the even one.
pub open spec fn shifted_up(q: nat, rem: nat, sh: nat, above: bool) -> bool {
    2 * rem > pow2(sh) || (2 * rem == pow2(sh) && (above || q % 2 == 1))
}

/// Rounding a bracketed value whose spacing is `2^sh` times its unit `2^k`.
pub proof fn lemma_round_shifted(
    t: nat,
    k: int,
    above: bool,
    num: nat,
    den: nat,
    e: nat,
    sh: nat,
    q: nat,
    rem: nat,
)
    requires
        brackets(t, k, above, num, den),
        sh >= 1,
        e == sh + k,
        t == q * pow2(sh) + rem,
        rem < pow2(sh),
        q < SIGNIFICAND_LIMIT,
        e > 0 ==> HIDDEN_BIT <= q,
    ensures
        spacing_exponent(num, den) == e,
        round_magnitude(num, den) == (if shifted_up(q, rem, sh, above) {
            q + 1
        } else {
            q
        }) * pow2(e),
{
    let up: int = scale_up(k) as int;
    let dn: int = scale_down(k) as int;
    let w: int = (scale_up(k) * den) as int;
    let x: int = (num * scale_down(k)) as int;
    let p: int = pow2(sh) as int;
    let pe: int = pow2(e) as int;
    let d: int = (den * pow2(e)) as int;
    let dd: int = den as int;
    lemma2_to64();
    lemma_pow2_pos(sh);
    lemma_pow2_pos(e);
    lemma_pow2_step((sh - 1) as nat);
    if k >= 0 {
        lemma_pow2_adds(sh, k as nat);
        lemma_pow2_pos(k as nat);
        assert(dn == 1);
        assert(pe == p * up);
    } else {
        lemma_pow2_adds(e, (-k) as nat);
        lemma_pow2_pos((-k) as nat);
        assert(up == 1);
        assert(p == pe * dn);
    }
    assert(d * dn == p * w && w > 0 && d > 0) by (nonlinear_arith)
        requires
            d == dd * pe,
            w == up * dd,
            pe * dn == p * up,
            dd > 0,
            up > 0,
            pe > 0,
            dn > 0,
    ;
    let qi: int = q as int;
    let ti: int = t as int;
    let ri: int = rem as int;
    assert((qi * d) * dn == (qi * p) * w && ((qi + 1) * d) * dn == (qi * p + p) * w && ((2 * qi
        + 1) * d) * dn == (2 * (qi * p) + p) * w) by (nonlinear_arith)
        requires
            d * dn == p * w,
    ;
    assert((qi * p) * w <= ti * w && (ti + 1) * w <= (qi * p + p) * w) by (nonlinear_arith)
        requires
            ti == qi * p + ri,
            0 <= ri < p,
            w > 0,
    ;
    assert((ti + 1) * w == ti * w + w) by (nonlinear_arith);
    lemma_mul_compare(qi * d, num as int, dn);
    lemma_mul_compare(num as int, (qi + 1) * d, dn);
    assert(qi * d <= num < (qi + 1) * d);
    lemma_round_interval(num, den, e, q);
    let mid: int = (2 * qi + 1) * d;
    let c: int = 2 * ti - 2 * ri + p;
    assert(mid * dn == c * w);
    let n2: int = 2 * (num as int);
    assert(n2 * dn == 2 * x) by (nonlinear_arith)
        requires
            x == num * dn,
            n2 == 2 * num,
    ;
    lemma_mul_compare(n2, mid, dn);
    lemma_mul_compare(mid, n2, dn);
    if 2 * ri > p {
        assert(c * w <= (2 * ti - 1) * w && (2 * ti - 1) * w < 2 * (ti * w)) by (nonlinear_arith)
            requires
                c <= 2 * ti - 1,
                w > 0,
        ;
    } else if 2 * ri < p {
        assert(c * w >= (2 * ti + 2) * w && (2 * ti + 2) * w == 2 * (ti * w + w)) by (
        nonlinear_arith)
            requires
                c >= 2 * ti + 2,
                w > 0,
        ;
    } else {
        assert(c * w == 2 * (ti * w)) by (nonlinear_arith)
            requires
                c == 2 * ti,
        ;
    }
}

/// The powers of two that the bounds of significands are.
pub proof fn lemma_pack_limit()
    ensures
        pow2(120) == PACK_LIMIT,
        pow2(54) == 0x40_0000_0000_0000,
        pow2(53) == SIGNIFICAND_LIMIT,
        pow2(52) == HIDDEN_BIT,
{
    lemma2_to64_rest();
    lemma_pow2_adds(60, 60);
}

/// One, shifted left, is a power of two.
proof fn lemma_shl_one(n: u32)
    requires
        n <= 126,
    ensures
        1u128 << n == pow2(n as nat),
    decreases n,
{
    if n == 0 {
        assert(1u128 << 0u32 == 1) by (bit_vector);
        lemma2_to64();
    } else {
        let m = (n - 1) as u32;
        lemma_shl_one(m);
        assert(1u128 << n == 2 * (1u128 << m)) by (bit_vector)
            requires
                n == m + 1,
                m < 126,
        ;
        lemma_pow2_step(m as nat);
    }
}

/// `2^n` as a machine integer.
pub fn pow2_u128(n: u32) -> (r: u128)
    requires
        n <= 126,
    ensures
        r == pow2(n as nat),
        r > 0,
{
    proof {
        lemma_shl_one(n);
        lemma_pow2_pos(n as nat);
    }
    1u128 << n
}

/// The number of bits of `t`.
pub fn bit_length(t: u128) -> (n: u32)
    requires
        0 < t < PACK_LIMIT,
    ensures
        1 <= n <= 120,
        pow2((n - 1) as nat) <= t < pow2(n as nat),
{
    let mut n: u32 = 1;
    let mut p: u128 = 2;
    proof {
        lemma2_to64();
        lemma_pack_limit();
    }
    while p <= t
        invariant
            1 <= n <= 120,
            p == pow2(n as nat),
            pow2((n - 1) as nat) <= t,
            t < PACK_LIMIT,
            pow2(120) == PACK_LIMIT,
        decreases 120 - n,
    {
        proof {
            if n >= 120 {
                lemma_pow2_le(120, n as nat);
            }
            lemma_pow2_step(n as nat);
        }
        p = p * 2;
        n = n + 1;
    }
    n
}

/// The quotient of a number of `n` bits by `2^sh` has no more than 53 bits,
/// and exactly 53 where `n` is `53 + sh`.
proof fn lemma_quotient_bounds(t: nat, n: nat, sh: nat, q: nat, rem: nat)
    requires
        n >= 1,
        pow2((n - 1) as nat) <= t < pow2(n),
        t == q * pow2(sh) + rem,
        n <= 53 + sh,
    ensures
        q < SIGNIFICAND_LIMIT,
        n == 53 + sh && rem < pow2(sh) ==> HIDDEN_BIT <= q,
{
    let p: int = pow2(sh) as int;
    let l: int = SIGNIFICAND_LIMIT as int;
    let h: int = HIDDEN_BIT as int;
    lemma_pack_limit();
    lemma_pow2_pos(sh);
    lemma_pow2_le(n, 53 + sh);
    lemma_pow2_adds(53, sh);
    assert(q < l) by (nonlinear_arith)
        requires
            q * p + rem < l * p,
            p > 0,
    ;
    if n == 53 + sh && rem < pow2(sh) {
        lemma_pow2_adds(52, sh);
        assert(h <= q) by (nonlinear_arith)
            requires
                h * p <= q * p + rem,
                rem < p,
                p > 0,
        ;
    }
}

/// A value that is a whole number of spacings is left as it is.
proof fn lemma_round_exact(t: nat, k: int, num: nat, den: nat, e: nat, q: nat)
    requires
        brackets(t, k, false, num, den),
        0 <= e <= k,
        q == t * pow2((k - e) as nat),
        q < SIGNIFICAND_LIMIT,
        e > 0 ==> HIDDEN_BIT <= q,
    ensures
        round_magnitude(num, den) == q * pow2(e),
{
    let f: int = pow2((k - e) as nat) as int;
    let pe: int = pow2(e) as int;
    let pk: int = pow2(k as nat) as int;
    let d: int = (den * pow2(e)) as int;
    let dd: int = den as int;
    let ti: int = t as int;
    let qi: int = q as int;
    lemma2_to64();
    lemma_pow2_adds((k - e) as nat, e);
    lemma_pow2_pos(e);
    assert(num * 1 == num);
    assert(qi * d == ti * (pk * dd) && d > 0 && (qi + 1) * d == qi * d + d && (2 * qi + 1) * d == 2
        * (qi * d) + d) by (nonlinear_arith)
        requires
            qi == ti * f,
            pk == f * pe,
            d == dd * pe,
            dd > 0,
            pe > 0,
    ;
    lemma_round_interval(num, den, e, q);
}

/// Zero is left as it is.
proof fn lemma_round_zero(k: int, num: nat, den: nat)
    requires
        brackets(0, k, false, num, den),
    ensures
        round_magnitude(num, den) == 0 * pow2(0),
{
    let dn: int = scale_down(k) as int;
    let w: int = (scale_up(k) * den) as int;
    let d: int = (den * pow2(0)) as int;
    lemma_pow2_pos(if k < 0 { (-k) as nat } else { 0 });
    assert(num == 0 && 0 * w == 0) by (nonlinear_arith)
        requires
            num * dn == 0 * w,
            dn > 0,
    ;
    lemma_scaled_pow2_step(den, 0);
    assert(0 * d == 0 && (0 + 1) * d == d && (2 * 0 + 1) * d == d && 0 * pow2(0) == 0) by (
    nonlinear_arith);
    lemma_round_interval(0, den, 0, 0);
}

/// A number of `n` bits whose unit is no smaller than the spacing fits a
/// significand when it is counted in spacings.
proof fn lemma_exact_bounds(t: nat, n: nat, f: nat, e: int, k: int)
    requires
        n >= 1,
        pow2((n - 1) as nat) <= t < pow2(n),
        0 <= e <= k,
        e == if n + k > 53 { n + k - 53 } else { 0 },
        f == pow2((k - e) as nat),
    ensures
        t * f < SIGNIFICAND_LIMIT,
        e > 0 ==> HIDDEN_BIT <= t * f,
{
    let s: nat = (k - e) as nat;
    let p: int = pow2(n) as int;
    lemma_pack_limit();
    lemma_pow2_pos(s);
    lemma_pow2_adds(n, s);
    lemma_pow2_le(n + s, 53);
    assert(t * f < p * f) by (nonlinear_arith)
        requires
            t < p,
            f > 0,
    ;
    if e > 0 {
        lemma_pow2_adds((n - 1) as nat, s);
        let next_p: int = pow2((n - 1) as nat) as int;
        assert(next_p * f <= t * f) by (nonlinear_arith)
            requires
                next_p <= t,
                f > 0,
        ;
    }
}

/// What `round_parts` computes from the integers that bracket a value: the
/// significand `q1` and the exponent `e` of the nearest double, by dividing
/// `t` by the number of units `2^k` in a spacing `2^e`.
pub open spec fn rounded(t: nat, k: int, above: bool, q1: nat, e: nat) -> bool {
    let sh = e - k;
    if t == 0 {
        q1 == 0 && e == 0
    } else if sh <= 0 {
        &&& !above
        &&& q1 == t * pow2((-sh) as nat)
        &&& q1 < SIGNIFICAND_LIMIT
        &&& e > 0 ==> HIDDEN_BIT <= q1
    } else {
        let q = t / pow2(sh as nat);
        let rem = t % pow2(sh as nat);
        &&& q < SIGNIFICAND_LIMIT
        &&& e > 0 ==> HIDDEN_BIT <= q
        &&& q1 == if shifted_up(q, rem, sh as nat, above) {
            q + 1
        } else {
            q
        }
    }
}

/// What `round_parts` computes is the nearest double to any fraction that
/// its arguments bracket.
pub proof fn lemma_rounded_fraction(
    t: nat,
    k: int,
    above: bool,
    q1: nat,
    e: nat,
    num: nat,
    den: nat,
)
    requires
        rounded(t, k, above, q1, e),
        brackets(t, k, above, num, den),
        above ==> t > 0,
    ensures
        round_magnitude(num, den) == q1 * pow2(e),
{
    let sh = e - k;
    if t == 0 {
        lemma_round_zero(k, num, den);
    } else if sh <= 0 {
        lemma_round_exact(t, k, num, den, e, q1);
    } else {
        let p = pow2(sh as nat);
        lemma_pow2_pos(sh as nat);
        lemma_fundamental_div_mod(t as int, p as int);
        assert(p * (t / p) == (t / p) * p) by (nonlinear_arith);
        lemma_round_shifted(t, k, above, num, den, e, sh as nat, t / p, t % p);
    }
}

/// The significand and the exponent of the double nearest to a value given
/// by the integers that bracket it: `t * 2^k` itself, or, with `above`,
/// something strictly between that and `(t + 1) * 2^k`.
pub fn round_parts(t: u128, k: i32, above: bool) -> (r: (u64, u32))
    requires
        t < PACK_LIMIT,
        -8192 <= k <= 8192,
        above ==> t >= 0x40_0000_0000_0000,
    ensures
        r.0 <= SIGNIFICAND_LIMIT,
        r.1 > 0 ==> HIDDEN_BIT <= r.0,
        r.1 <= 8400,
        rounded(t as nat, k as int, above, r.0 as nat, r.1 as nat),
{
    if t == 0 {
        return (0, 0);
    }
    let n = bit_length(t);
    let top: i32 = n as i32 + k;
    let e: i32 = if top > 53 {
        top - 53
    } else {
        0
    };
    let sh: i32 = e - k;
    proof {
        lemma_pack_limit();
        if n < 55 {
            lemma_pow2_le(n as nat, 54);
        }
    }
    if sh <= 0 {
        let f = pow2_u128((0 - sh) as u32);
        proof {
            lemma_exact_bounds(t as nat, n as nat, f as nat, e as int, k as int);
        }
        ((t * f) as u64, e as u32)
    } else if sh > 121 {
        proof {
            let p: int = pow2(sh as nat) as int;
            lemma_pow2_le(121, sh as nat);
            lemma_pow2_step(120);
            lemma_basic_div(t as int, p);
            lemma_small_mod(t as nat, p as nat);
        }
        (0, 0)
    } else {
        let p = pow2_u128(sh as u32);
        let q = (t / p) as u64;
        let rem = t % p;
        let half = p / 2;
        proof {
            lemma_pow2_step((sh - 1) as nat);
            lemma_fundamental_div_mod(t as int, p as int);
            assert(p * (t / p) == (t / p) * p) by (nonlinear_arith);
            lemma_quotient_bounds(t as nat, n as nat, sh as nat, (t / p) as nat, rem as nat);
        }
        let up = rem > half || (rem == half && (above || q % 2 == 1));
        if up {
            (q + 1, e as u32)
        } else {
            (q, e as u32)
        }
    }
}

/// The scalar of a sign, a significand and an exponent, infinite where they
/// are out of range.
pub fn pack(negative: bool, q: u64, e: u32) -> (r: Scalar)
    requires
        q <= SIGNIFICAND_LIMIT,
        e > 0 ==> HIDDEN_BIT <= q,
    ensures
        r@ == (if q * pow2(e as nat) < overflow_magnitude() {
            Value::Finite { negative, magnitude: q as nat * pow2(e as nat) }
        } else {
            Value::Infinite { negative }
        }),
        r == Scalar::encode(r@),
{
    let sign: u64 = if negative {
        SIGN_BIT
    } else {
        0
    };
    proof {
        lemma_pack(negative, e as nat, q as nat);
    }
    if e <= 2046 {
        let body: u64 = (e as u64) * HIDDEN_BIT + q;
        if body < INFINITY_BITS {
            return Scalar { bits: sign + body };
        }
    }
    Scalar { bits: sign + INFINITY_BITS }
}

/// The double nearest to a fraction given by the integers that bracket it.
pub fn round_pack(negative: bool, t: u128, k: i32, above: bool) -> (r: Scalar)
    requires
        t < PACK_LIMIT,
        -8192 <= k <= 8192,
        above ==> t >= 0x40_0000_0000_0000,
    ensures
        forall|num: nat, den: nat| #[trigger]
            brackets(t as nat, k as int, above, num, den) ==> r == Scalar::encode(
                round_value(negative, num, den),
            ) && r@ == round_value(negative, num, den),
{
    let (q, e) = round_parts(t, k, above);
    proof {
        assert forall|num: nat, den: nat| #[trigger]
            brackets(t as nat, k as int, above, num, den) implies round_magnitude(num, den) == q
            * pow2(e as nat) by {
            lemma_rounded_fraction(t as nat, k as int, above, q as nat, e as nat, num, den);
        }
    }
    pack(negative, q, e)
}

} // verus!
