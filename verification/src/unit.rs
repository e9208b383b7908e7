//! The length of a normalized vector.
//!
//! Every rounding changes a number in the normal range by no more than one
//! part in `2^53`; the errors of a normalization and of the length taken
//! after it add up to far less than the tolerance.
use vstd::prelude::*;
use vstd::arithmetic::power2::*;
use vstd::arithmetic::div_mod::*;
use crate::arith::{lemma_product, lemma_quotient, lemma_sum, product, quotient, sum};
use crate::math::{length, tuple_divided, vector_tuple, Tuple4};
use crate::misc::{close, lemma_close_at_same_rank, lemma_tolerance};
use crate::root::{lemma_root, lemma_root_floor, root_floor, round_root};
use crate::rounding::{
    lemma_exact,
    lemma_round_nothing,
    overflow_magnitude,
    lemma_pow2_le,
    lemma_pow2_step,
    lemma_scaled_pow2_step,
    lemma_spacing_bounds,
    round_magnitude,
    spacing_exponent,
    SIGNIFICAND_LIMIT,
};
use crate::scalar::{lemma_constants, one_magnitude, Scalar, Value, HIDDEN_BIT};

verus! {

/// Whether `x` differs from `t` by no more than `k` parts in `2^53` of `t`.
pub open spec fn near(x: int, t: int, k: int) -> bool {
    (SIGNIFICAND_LIMIT - k) * t <= SIGNIFICAND_LIMIT * x <= (SIGNIFICAND_LIMIT + k) * t
}

/// Rounding a fraction that is zero or in the normal range changes it by no
/// more than one part in `2^53`.
pub proof fn lemma_relative_error(num: nat, den: nat)
    requires
        den > 0,
        num == 0 || num >= HIDDEN_BIT * den,
    ensures
        near((round_magnitude(num, den) * den) as int, num as int, 1),
{
    let e = spacing_exponent(num, den);
    let d: int = (den * pow2(e)) as int;
    let pe: int = pow2(e) as int;
    let q: int = num as int / d;
    let r: int = num as int % d;
    let big: int = round_magnitude(num, den) as int;
    lemma_spacing_bounds(num, den);
    lemma_scaled_pow2_step(den, e);
    lemma_fundamental_div_mod(num as int, d);
    if e == 0 {
        lemma2_to64();
        assert(d == den) by (nonlinear_arith)
            requires
                d == den * pe,
                pe == 1,
        ;
    }
    assert(q >= 0) by (nonlinear_arith)
        requires
            num == d * q + r,
            0 <= r < d,
            num >= 0,
    ;
    assert(((q + 1) * pe) * den == d * q + d && (q * pe) * den == d * q) by (nonlinear_arith)
        requires
            d == den * pe,
    ;
}

/// Of two numbers that are not negative, the greater has the greater square.
proof fn lemma_square_le(a: int, b: int)
    by (nonlinear_arith)
    requires
        0 <= a <= b,
    ensures
        a * a <= b * b,
{
}

/// The rounded square root of a number in the normal range differs from
/// the square root by no more than one part in `2^53`, so its square by no
/// more than three.
pub proof fn lemma_root_relative_error(n: nat)
    requires
        n >= HIDDEN_BIT * HIDDEN_BIT,
    ensures
        near((round_root(n) * round_root(n)) as int, n as int, 3),
        round_root(n) >= HIDDEN_BIT,
{
    let h: int = HIDDEN_BIT as int;
    let l: int = SIGNIFICAND_LIMIT as int;
    lemma_root_floor(n);
    let f: int = root_floor(n) as int;
    assert(f >= h) by {
        if f < h {
            lemma_square_le(f + 1, h);
        }
    }
    let e = spacing_exponent(f as nat, 1);
    let p: int = pow2(e) as int;
    lemma_spacing_bounds(f as nat, 1);
    lemma_pow2_pos(e);
    lemma2_to64();
    assert(1 * pow2(e) == pow2(e));
    lemma_fundamental_div_mod(f, p);
    let q: int = f / p;
    let r: int = f % p;
    assert(h <= q < l) by (nonlinear_arith)
        requires
            f == p * q + r,
            0 <= r < p,
            f < p * l,
            e > 0 ==> p * h <= f,
            e == 0 ==> p == 1,
            f >= h,
    ;
    let a: int = q * p;
    let b: int = (q + 1) * p;
    let mid: int = (2 * q + 1) * p;
    assert(p * q == a && b == a + p && mid == 2 * a + p) by (nonlinear_arith)
        requires
            a == q * p,
            b == (q + 1) * p,
            mid == (2 * q + 1) * p,
    ;
    assert(h * p <= a && a >= q) by (nonlinear_arith)
        requires
            a == q * p,
            q >= h,
            p >= 1,
            h >= 0,
    ;
    assert(a <= f && f + 1 <= b && l * p <= 2 * a && a >= h);
    lemma_square_le(a, f);
    lemma_square_le(f + 1, b);
    assert(a * a <= n < b * b);
    assert((2 * a) * (2 * a) == 4 * (a * a) && (2 * b) * (2 * b) == 4 * (b * b)) by (
    nonlinear_arith);
    let m: int = round_root(n) as int;
    let mm: int = (round_root(n) * round_root(n)) as int;
    let aa: int = a * a;
    let bb: int = b * b;
    let dd: int = mid * mid;
    let ni: int = n as int;
    if 4 * n > mid * mid || (4 * n == mid * mid && q % 2 == 1) {
        assert(m == b);
        assert(mm == bb) by (nonlinear_arith)
            requires
                mm == m * m,
                bb == b * b,
                m == b,
        ;
        lemma_square_le(l * (2 * b), (l + 1) * mid);
        assert((l * (2 * b)) * (l * (2 * b)) == (l * l) * (4 * bb) && ((l + 1) * mid) * ((l + 1)
            * mid) == ((l + 1) * (l + 1)) * dd) by (nonlinear_arith)
            requires
                bb == b * b,
                dd == mid * mid,
        ;
        assert((l - 3) * ni <= l * bb <= (l + 3) * ni) by (nonlinear_arith)
            requires
                (l * l) * (4 * bb) <= ((l + 1) * (l + 1)) * dd,
                dd <= 4 * ni,
                ni < bb,
                ni >= 0,
                l == 0x20_0000_0000_0000,
        ;
    } else {
        assert(m == a);
        assert(mm == aa) by (nonlinear_arith)
            requires
                mm == m * m,
                aa == a * a,
                m == a,
        ;
        lemma_square_le(l * mid, (l + 1) * (2 * a));
        assert((l * mid) * (l * mid) == (l * l) * dd && ((l + 1) * (2 * a)) * ((l + 1) * (2 * a))
            == ((l + 1) * (l + 1)) * (4 * aa)) by (nonlinear_arith)
            requires
                aa == a * a,
                dd == mid * mid,
        ;
        assert((l - 3) * ni <= l * aa <= (l + 3) * ni) by (nonlinear_arith)
            requires
                (l * l) * dd <= ((l + 1) * (l + 1)) * (4 * aa),
                4 * ni <= dd,
                aa <= ni,
                ni >= 0,
                l == 0x20_0000_0000_0000,
        ;
    }
}

/// Nearness is kept when both numbers are multiplied by the same.
pub proof fn lemma_near_scaled(x: int, t: int, k: int, c: int)
    by (nonlinear_arith)
    requires
        near(x, t, k),
        c >= 0,
    ensures
        near(x * c, t * c, k),
{
}

/// The squares of two near numbers are near, with twice the parts and one.
pub proof fn lemma_near_squares(x: int, t: int, k: int)
    requires
        near(x, t, k),
        0 <= x,
        0 <= t,
        0 <= k <= 1000,
    ensures
        near(x * x, t * t, 2 * k + 1),
{
    let l: int = SIGNIFICAND_LIMIT as int;
    lemma_square_le((l - k) * t, l * x);
    lemma_square_le(l * x, (l + k) * t);
    assert(((l - k) * t) * ((l - k) * t) == ((l - k) * (l - k)) * (t * t) && (l * x) * (l * x)
        == (l * l) * (x * x) && ((l + k) * t) * ((l + k) * t) == ((l + k) * (l + k)) * (t * t))
        by (nonlinear_arith);
    let xx = x * x;
    let tt = t * t;
    assert(tt >= 0 && xx >= 0) by (nonlinear_arith)
        requires
            tt == t * t,
            xx == x * x,
    ;
    assert((l - (2 * k + 1)) * tt <= l * xx <= (l + (2 * k + 1)) * tt) by (nonlinear_arith)
        requires
            ((l - k) * (l - k)) * tt <= (l * l) * xx <= ((l + k) * (l + k)) * tt,
            l == 0x20_0000_0000_0000,
            0 <= k <= 1000,
            tt >= 0,
            xx >= 0,
    ;
}

/// Two numbers whose squares are near are near.
pub proof fn lemma_near_roots(x: int, t: int, k: int)
    requires
        near(x * x, t * t, k),
        0 <= x,
        0 <= t,
        0 <= k <= 1000,
    ensures
        near(x, t, k),
{
    let l: int = SIGNIFICAND_LIMIT as int;
    let xx = x * x;
    let tt = t * t;
    assert(((l - k) * t) * ((l - k) * t) == ((l - k) * (l - k)) * tt && (l * x) * (l * x) == (l
        * l) * xx && ((l + k) * t) * ((l + k) * t) == ((l + k) * (l + k)) * tt && tt >= 0 && xx
        >= 0) by (nonlinear_arith)
        requires
            xx == x * x,
            tt == t * t,
    ;
    assert(((l - k) * (l - k)) * tt <= (l * l) * xx <= ((l + k) * (l + k)) * tt) by (
    nonlinear_arith)
        requires
            (l - k) * tt <= l * xx <= (l + k) * tt,
            l == 0x20_0000_0000_0000,
            0 <= k <= 1000,
            tt >= 0,
            xx >= 0,
    ;
    if (l - k) * t > l * x {
        lemma_square_le(l * x + 1, (l - k) * t);
        assert((l * x + 1) * (l * x + 1) > (l * x) * (l * x)) by (nonlinear_arith)
            requires
                l * x >= 0,
        ;
    }
    if l * x > (l + k) * t {
        lemma_square_le((l + k) * t + 1, l * x);
        assert(((l + k) * t + 1) * ((l + k) * t + 1) > ((l + k) * t) * ((l + k) * t)) by (
        nonlinear_arith)
            requires
                (l + k) * t >= 0,
        ;
    }
}

/// A number near one that is near another is near that one, with the
/// parts added and one more.
pub proof fn lemma_near_chain(x: int, y: int, t: int, a: int, b: int)
    requires
        near(x, y, a),
        near(y, t, b),
        0 <= t,
        0 <= a <= 1000,
        0 <= b <= 1000,
    ensures
        near(x, t, a + b + 1),
{
    let l: int = SIGNIFICAND_LIMIT as int;
    assert((l + a) * y >= 0 ==> (l + a) * (l * y) <= (l + a) * ((l + b) * t)) by (
    nonlinear_arith)
        requires
            l * y <= (l + b) * t,
            l + a >= 0,
    ;
    assert((l - a) * ((l - b) * t) <= (l - a) * (l * y)) by (nonlinear_arith)
        requires
            (l - b) * t <= l * y,
            l - a >= 0,
    ;
    assert(l * ((l + a) * y) == (l + a) * (l * y) && l * ((l - a) * y) == (l - a) * (l * y)
        && (l + a) * ((l + b) * t) <= l * ((l + a + b + 1) * t) && l * ((l - (a + b + 1)) * t)
        <= (l - a) * ((l - b) * t)) by (nonlinear_arith)
        requires
            l == 0x20_0000_0000_0000,
            0 <= a <= 1000,
            0 <= b <= 1000,
            0 <= t,
    ;
}

/// Two sums are near when their terms are.
pub proof fn lemma_near_sum(x1: int, t1: int, x2: int, t2: int, k: int)
    requires
        near(x1, t1, k),
        near(x2, t2, k),
    ensures
        near(x1 + x2, t1 + t2, k),
{
    let l: int = SIGNIFICAND_LIMIT as int;
    assert((l - k) * (t1 + t2) == (l - k) * t1 + (l - k) * t2 && (l + k) * (t1 + t2) == (l + k)
        * t1 + (l + k) * t2) by (nonlinear_arith);
}

/// Nearness within fewer parts is nearness within more.
pub proof fn lemma_near_wider(x: int, t: int, a: int, b: int)
    by (nonlinear_arith)
    requires
        near(x, t, a),
        a <= b,
        0 <= t,
    ensures
        near(x, t, b),
{
}

/// The magnitude of a rounded square.
pub open spec fn square_magnitude(x: nat) -> nat {
    round_magnitude(x * x, one_magnitude())
}

/// The magnitude of a rounded sum of two positive numbers.
pub open spec fn sum_magnitude(a: nat, b: nat) -> nat {
    round_magnitude(a + b, 1)
}

/// The magnitude of the sum of three squares, rounded at every step.
pub open spec fn squares_magnitude(x: nat, y: nat, z: nat) -> nat {
    sum_magnitude(sum_magnitude(square_magnitude(x), square_magnitude(y)), square_magnitude(z))
}

/// Whether a magnitude is zero or has a square in the normal range:
/// between `2^66` and `2^1926`.
pub open spec fn squarable(c: nat) -> bool {
    c == 0 || pow2(66) * one_magnitude() <= c * c <= pow2(1926) * one_magnitude()
}

/// Two numbers are ordered as their multiples by a positive number are.
proof fn lemma_cancel(a: int, b: int, c: int)
    by (nonlinear_arith)
    requires
        c > 0,
    ensures
        a * c <= b * c <==> a <= b,
        a * c < b * c <==> a < b,
{
}

/// The rounded square of a magnitude whose square is in the normal range.
pub proof fn lemma_square(x: nat)
    requires
        squarable(x),
    ensures
        near((square_magnitude(x) * one_magnitude()) as int, (x * x) as int, 1),
        x == 0 ==> square_magnitude(x) == 0,
        x != 0 ==> pow2(65) <= square_magnitude(x) <= pow2(1927),
{
    let one: int = one_magnitude() as int;
    let xx: int = (x * x) as int;
    let a: int = square_magnitude(x) as int;
    let l: int = SIGNIFICAND_LIMIT as int;
    lemma_pow2_pos(1074);
    lemma2_to64_rest();
    lemma_pow2_le(52, 66);
    lemma_pow2_step(65);
    lemma_pow2_step(1926);
    let p66: int = pow2(66) as int;
    let p65: int = pow2(65) as int;
    let p1926: int = pow2(1926) as int;
    let p1927: int = pow2(1927) as int;
    if x == 0 {
        assert(xx == 0) by (nonlinear_arith)
            requires
                xx == x * x,
                x == 0,
        ;
    } else {
        assert(0x10_0000_0000_0000 * one <= p66 * one) by (nonlinear_arith)
            requires
                0x10_0000_0000_0000 <= p66,
                one > 0,
        ;
    }
    lemma_relative_error(xx as nat, one as nat);
    assert(a * one == square_magnitude(x) * one_magnitude());
    if x == 0 {
        assert(a == 0) by (nonlinear_arith)
            requires
                a * one <= 0,
                a >= 0,
                one > 0,
        ;
    }
    if x != 0 {
        assert(l * (a * one) == (l * a) * one && (l - 1) * (p66 * one) == ((l - 1) * p66) * one
            && (l + 1) * (p1926 * one) == ((l + 1) * p1926) * one) by (nonlinear_arith);
        lemma_cancel((l - 1) * p66, l * a, one);
        lemma_cancel(l * a, (l + 1) * p1926, one);
    }
}

/// The rounded sum of two magnitudes that are zero or at least `2^60`.
pub proof fn lemma_sum_magnitude(a: nat, b: nat)
    requires
        a == 0 || a >= pow2(60),
        b == 0 || b >= pow2(60),
    ensures
        near(sum_magnitude(a, b) as int, (a + b) as int, 1),
        a + b == 0 ==> sum_magnitude(a, b) == 0,
{
    lemma2_to64_rest();
    lemma_relative_error(a + b, 1);
    let s: int = sum_magnitude(a, b) as int;
    assert(s * 1 == s) by (nonlinear_arith);
}

/// The sum of three rounded squares, rounded at every step, differs from
/// the sum of the squares by no more than five parts in `2^53`.
pub proof fn lemma_squares(x: nat, y: nat, z: nat)
    requires
        squarable(x),
        squarable(y),
        squarable(z),
    ensures
        near(
            (squares_magnitude(x, y, z) * one_magnitude()) as int,
            (x * x + y * y + z * z) as int,
            5,
        ),
        square_magnitude(x) <= pow2(1927),
        square_magnitude(y) <= pow2(1927),
        square_magnitude(z) <= pow2(1927),
        sum_magnitude(square_magnitude(x), square_magnitude(y)) <= pow2(1929),
        squares_magnitude(x, y, z) <= pow2(1931),
        x != 0 || y != 0 || z != 0 ==> squares_magnitude(x, y, z) >= pow2(63),
{
    let one: int = one_magnitude() as int;
    let a: int = square_magnitude(x) as int;
    let b: int = square_magnitude(y) as int;
    let c: int = square_magnitude(z) as int;
    let s1: int = sum_magnitude(a as nat, b as nat) as int;
    let s2: int = sum_magnitude(s1 as nat, c as nat) as int;
    let xx: int = (x * x) as int;
    let yy: int = (y * y) as int;
    let zz: int = (z * z) as int;
    lemma_pow2_pos(1074);
    lemma_square(x);
    lemma_square(y);
    lemma_square(z);
    lemma_pow2_le(60, 65);
    lemma_pow2_le(60, 64);
    lemma_pow2_step(63);
    lemma_pow2_step(64);
    lemma_pow2_step(1927);
    lemma_pow2_step(1928);
    lemma_pow2_step(1929);
    lemma_pow2_step(1930);
    lemma_pow2_pos(63);
    lemma_pow2_pos(1927);
    lemma_sum_magnitude(a as nat, b as nat);
    assert(s1 == 0 || s1 >= pow2(64));
    lemma_sum_magnitude(s1 as nat, c as nat);
    lemma_near_scaled(s1, a + b, 1, one);
    lemma_near_scaled(s2, s1 + c, 1, one);
    assert((a + b) * one == a * one + b * one && (s1 + c) * one == s1 * one + c * one) by (
    nonlinear_arith);
    assert(a * one == square_magnitude(x) * one_magnitude());
    assert(b * one == square_magnitude(y) * one_magnitude());
    assert(c * one == square_magnitude(z) * one_magnitude());
    assert(s2 * one == squares_magnitude(x, y, z) * one_magnitude());
    lemma_near_sum(a * one, xx, b * one, yy, 1);
    lemma_near_chain(s1 * one, a * one + b * one, xx + yy, 1, 1);
    lemma_near_wider(c * one, zz, 1, 3);
    lemma_near_sum(s1 * one, xx + yy, c * one, zz, 3);
    lemma_near_chain(s2 * one, s1 * one + c * one, xx + yy + zz, 1, 3);
}

/// The magnitude of the length of a vector of three coordinates.
pub open spec fn length_magnitude(x: nat, y: nat, z: nat) -> nat {
    round_root(squares_magnitude(x, y, z) * one_magnitude())
}

/// The magnitude of a rounded quotient.
pub open spec fn ratio_magnitude(x: nat, m: nat) -> nat {
    round_magnitude(x * one_magnitude(), m)
}

/// Whether a magnitude is zero or lies between `2^-200` and `2^200`.
pub open spec fn moderate(c: nat) -> bool {
    c == 0 || pow2(874) <= c <= pow2(1274)
}

/// The sum of three squares in the normal range is below `2^1928`.
proof fn lemma_squares_bound(x: nat, y: nat, z: nat)
    requires
        squarable(x),
        squarable(y),
        squarable(z),
    ensures
        x * x + y * y + z * z <= 3 * (pow2(1926) * one_magnitude()),
        pow2(1502) * pow2(1502) == 8 * (pow2(1927) * one_magnitude()),
        pow2(1927) == 2 * pow2(1926),
{
    lemma_pow2_adds(1502, 1502);
    lemma_pow2_adds(1930, 1074);
    lemma_pow2_step(1926);
    lemma_pow2_step(1927);
    lemma_pow2_step(1928);
    lemma_pow2_step(1929);
    assert(0nat * 0nat == 0) by (nonlinear_arith);
    let one: int = one_magnitude() as int;
    let p: int = pow2(1927) as int;
    let q: int = pow2(1930) as int;
    assert(q * one == 8 * (p * one)) by (nonlinear_arith)
        requires
            q == 8 * p,
    ;
}

/// The rounded length of a vector with squares in the normal range is below
/// `2^1502`.
proof fn lemma_length_bound(x: nat, y: nat, z: nat)
    requires
        squarable(x),
        squarable(y),
        squarable(z),
        x != 0 || y != 0 || z != 0,
    ensures
        length_magnitude(x, y, z) <= pow2(1502),
{
    let s: int = squares_magnitude(x, y, z) as int;
    let one: int = one_magnitude() as int;
    let n: int = (squares_magnitude(x, y, z) * one_magnitude()) as int;
    let m: int = length_magnitude(x, y, z) as int;
    let t: int = (x * x + y * y + z * z) as int;
    let l: int = SIGNIFICAND_LIMIT as int;
    lemma_squares(x, y, z);
    lemma_squares_bound(x, y, z);
    lemma_pow2_le(41, 1074);
    lemma2_to64_rest();
    assert(n >= 0x10_0000_0000_0000 * 0x10_0000_0000_0000) by (nonlinear_arith)
        requires
            n == s * one,
            s >= 0x8000_0000_0000_0000,
            one >= 0x200_0000_0000,
    ;
    lemma_root_relative_error(n as nat);
    let hi: int = pow2(1502) as int;
    let w: int = (pow2(1926) * one_magnitude()) as int;
    let mm: int = (length_magnitude(x, y, z) * length_magnitude(x, y, z)) as int;
    lemma_near_chain(mm, n, t, 3, 5);
    lemma_pow2_pos(1926);
    lemma_pow2_pos(1074);
    assert(w > 0 && mm == m * m && t >= 0) by (nonlinear_arith)
        requires
            w == pow2(1926) * one,
            pow2(1926) > 0,
            one > 0,
            mm == m * m,
            t == x * x + y * y + z * z,
    ;
    assert(mm <= 4 * w) by (nonlinear_arith)
        requires
            l * mm <= (l + 9) * t,
            t <= 3 * w,
            l == 0x20_0000_0000_0000,
            w > 0,
    ;
    let p26: int = pow2(1926) as int;
    let p27: int = pow2(1927) as int;
    assert(p27 * one == 2 * w) by (nonlinear_arith)
        requires
            p27 == 2 * p26,
            w == p26 * one,
    ;
    if m > hi {
        lemma_square_le(hi, m);
    }
}

/// The square of the rounded length of a vector differs from the sum of
/// the squares of its coordinates by no more than nine parts in `2^53`.
pub proof fn lemma_length(x: nat, y: nat, z: nat)
    requires
        squarable(x),
        squarable(y),
        squarable(z),
        x != 0 || y != 0 || z != 0,
    ensures
        near(
            (length_magnitude(x, y, z) * length_magnitude(x, y, z)) as int,
            (x * x + y * y + z * z) as int,
            9,
        ),
        HIDDEN_BIT <= length_magnitude(x, y, z) <= pow2(1502),
        squares_magnitude(x, y, z) >= pow2(63),
{
    lemma_length_bound(x, y, z);
    let s: int = squares_magnitude(x, y, z) as int;
    let one: int = one_magnitude() as int;
    let n: int = (squares_magnitude(x, y, z) * one_magnitude()) as int;
    let m: int = length_magnitude(x, y, z) as int;
    let t: int = (x * x + y * y + z * z) as int;
    lemma_squares(x, y, z);
    lemma_pow2_le(41, 1074);
    lemma2_to64_rest();
    let p63: int = pow2(63) as int;
    let p41: int = pow2(41) as int;
    assert(n >= 0x10_0000_0000_0000 * 0x10_0000_0000_0000) by (nonlinear_arith)
        requires
            n == s * one,
            s >= 0x8000_0000_0000_0000,
            one >= 0x200_0000_0000,
    ;
    lemma_root_relative_error(n as nat);
    lemma_near_chain(m * m, n, t, 3, 5);
}

/// A moderate magnitude has a square in the normal range.
pub proof fn lemma_moderate(c: nat)
    requires
        moderate(c),
    ensures
        squarable(c),
        c != 0 ==> pow2(674) * one_magnitude() <= c * c <= pow2(1474) * one_magnitude(),
{
    if c != 0 {
        let lo: int = pow2(874) as int;
        let hi: int = pow2(1274) as int;
        let ci: int = c as int;
        lemma_pow2_adds(874, 874);
        lemma_pow2_adds(1274, 1274);
        lemma_pow2_adds(674, 1074);
        lemma_pow2_adds(1474, 1074);
        lemma_pow2_le(66, 674);
        lemma_pow2_le(1474, 1926);
        lemma_pow2_pos(1074);
        lemma_square_le(lo, ci);
        lemma_square_le(ci, hi);
        let one: int = one_magnitude() as int;
        let a: int = pow2(66) as int;
        let b: int = pow2(674) as int;
        let c2: int = pow2(1474) as int;
        let d: int = pow2(1926) as int;
        assert(a * one <= b * one && c2 * one <= d * one) by (nonlinear_arith)
            requires
                a <= b,
                c2 <= d,
                one > 0,
        ;
    }
}

/// A coordinate of a moderate vector, divided by the rounded length, has a
/// square in the normal range again.
pub proof fn lemma_ratio(x: nat, m: nat, t: nat)
    requires
        moderate(x),
        m > 0,
        x * x <= t,
        near((m * m) as int, t as int, 9),
        pow2(674) * one_magnitude() <= t <= 3 * (pow2(1474) * one_magnitude()),
    ensures
        near((ratio_magnitude(x, m) * m) as int, (x * one_magnitude()) as int, 1),
        squarable(ratio_magnitude(x, m)),
        x == 0 ==> ratio_magnitude(x, m) == 0,
        ratio_magnitude(x, m) <= pow2(1927),
{
    let l: int = SIGNIFICAND_LIMIT as int;
    let h: int = HIDDEN_BIT as int;
    let one: int = one_magnitude() as int;
    let xi: int = x as int;
    let mi: int = m as int;
    let ti: int = t as int;
    let mm: int = (m * m) as int;
    let xo: int = (x * one_magnitude()) as int;
    let r: int = ratio_magnitude(x, m) as int;
    let rm: int = (ratio_magnitude(x, m) * m) as int;
    lemma_pow2_pos(1074);
    lemma_moderate(x);
    if x == 0 {
        assert(xo == 0) by (nonlinear_arith)
            requires
                xo == xi * one,
                xi == 0,
        ;
        lemma_relative_error(0, m);
        assert(r == 0) by (nonlinear_arith)
            requires
                r * mi <= 0,
                r >= 0,
                mi > 0,
        ;
        assert(0nat * 0nat == 0) by (nonlinear_arith);
    } else {
        // the length is below 2^1276, far below the dividend
        let p1276: int = pow2(1276) as int;
        let p1474: int = pow2(1474) as int;
        let p874: int = pow2(874) as int;
        lemma_pow2_adds(1276, 1276);
        lemma_pow2_adds(1478, 1074);
        lemma_pow2_step(1474);
        lemma_pow2_step(1475);
        lemma_pow2_step(1476);
        lemma_pow2_step(1477);
        lemma_pow2_pos(1474);
        assert(mm < p1276 * p1276) by (nonlinear_arith)
            requires
                l * mm <= (l + 9) * ti,
                ti <= 3 * (p1474 * one),
                p1276 * p1276 == (16 * p1474) * one,
                l == 0x20_0000_0000_0000,
                one > 0,
                p1474 > 0,
        ;
        assert(mi < p1276) by {
            if mi >= p1276 {
                lemma_square_le(p1276, mi);
            }
        }
        lemma_pow2_adds(52, 1276);
        lemma_pow2_adds(874, 1074);
        lemma_pow2_le(1328, 1948);
        lemma2_to64_rest();
        assert(h * mi <= xo) by (nonlinear_arith)
            requires
                mi < p1276,
                h * p1276 <= p874 * one,
                xo == xi * one,
                xi >= p874,
                h > 0,
                one > 0,
        ;
        lemma_relative_error(xo as nat, m);
        // the quotient, squared, lies between 2^66 and 2^1926
        lemma_near_squares(rm, xo, 1);
        let rr: int = r * r;
        let xx: int = xi * xi;
        let oo: int = one * one;
        assert(rm * rm == rr * mm && xo * xo == xx * oo) by (nonlinear_arith)
            requires
                rm == r * mi,
                mm == mi * mi,
                rr == r * r,
                xo == xi * one,
                xx == xi * xi,
                oo == one * one,
        ;
        let p674: int = pow2(674) as int;
        let p66: int = pow2(66) as int;
        let p1926: int = pow2(1926) as int;
        lemma_pow2_le(1077, 1926);
        lemma_pow2_adds(3, 1074);
        lemma2_to64();
        // upper: rr * mm is at most twice xx * oo, and xx at most twice mm
        assert(rr * mm <= (8 * oo) * mm) by (nonlinear_arith)
            requires
                l * (rr * mm) <= (l + 3) * (xx * oo),
                xx <= ti,
                (l - 9) * ti <= l * mm,
                l == 0x20_0000_0000_0000,
                oo >= 0,
                xx >= 0,
                mm >= 0,
        ;
        assert(mm > 0) by (nonlinear_arith)
            requires
                mm == mi * mi,
                mi > 0,
        ;
        lemma_cancel(rr, 8 * oo, mm);
        assert(8 * oo <= p1926 * one) by (nonlinear_arith)
            requires
                oo == one * one,
                8 * one <= p1926,
                one > 0,
        ;
        // lower: twice rr * mm is at least xx * oo, and mm at most 2^1476 ones
        let w: int = p1474 * one;
        let p271: int = pow2(271) as int;
        let p1477: int = pow2(1477) as int;
        let xo2: int = xx * oo;
        let rm2: int = rr * mm;
        lemma_pow2_adds(271, 1477);
        lemma_pow2_adds(674, 1074);
        lemma_pow2_le(66, 271);
        lemma_pow2_pos(1477);
        assert(xx >= 0 && oo > 0 && rr >= 0 && xo2 >= 0 && rm2 >= 0) by (nonlinear_arith)
            requires
                xx == xi * xi,
                oo == one * one,
                rr == r * r,
                xo2 == xx * oo,
                rm2 == rr * mm,
                mm >= 0,
                one > 0,
        ;
        assert(mm <= 4 * w);
        assert(near(rm * rm, xo * xo, 3));
        assert((l - 3) * xo2 <= l * rm2);
        assert(xo2 <= 2 * rm2) by (nonlinear_arith)
            requires
                (l - 3) * xo2 <= l * rm2,
                l == 0x20_0000_0000_0000,
                xo2 >= 0,
                rm2 >= 0,
        ;
        assert(xo2 >= (p674 * one) * oo) by (nonlinear_arith)
            requires
                xo2 == xx * oo,
                xx >= p674 * one,
                oo >= 0,
        ;
        assert(rm2 <= rr * (4 * w)) by (nonlinear_arith)
            requires
                rm2 == rr * mm,
                mm <= 4 * w,
                rr >= 0,
        ;
        assert(2 * (rr * (4 * w)) == (rr * p1477) * one && (p674 * one) * oo == ((p271 * one)
            * p1477) * one) by (nonlinear_arith)
            requires
                w == p1474 * one,
                p1477 == 8 * p1474,
                oo == one * one,
                p674 * one == p271 * p1477,
        ;
        lemma_cancel((p271 * one) * p1477, rr * p1477, one);
        lemma_cancel(p271 * one, rr, p1477);
        assert(p66 * one <= p271 * one) by (nonlinear_arith)
            requires
                p66 <= p271,
                one > 0,
        ;
        assert(r <= 4 * one) by {
            if r > 4 * one {
                lemma_square_le(4 * one, r);
                assert((4 * one) * (4 * one) == 16 * oo) by (nonlinear_arith)
                    requires
                        oo == one * one,
                ;
            }
        }
        lemma_pow2_adds(2, 1074);
        lemma_pow2_le(1076, 1927);
    }
}

/// Two numbers that are near a third are near each other.
pub proof fn lemma_near_both(a: int, b: int, t: int, ka: int, kb: int)
    requires
        near(a, t, ka),
        near(b, t, kb),
        0 <= t,
        0 <= ka <= 1000,
        0 <= kb <= 1000,
    ensures
        near(a, b, ka + kb + 1),
{
    let l: int = SIGNIFICAND_LIMIT as int;
    let k: int = ka + kb + 1;
    assert((l - kb) * (l * a) <= (l - kb) * ((l + ka) * t) && (l + ka) * ((l - kb) * t) <= (l
        + ka) * (l * b)) by (nonlinear_arith)
        requires
            l * a <= (l + ka) * t,
            (l - kb) * t <= l * b,
            l - kb >= 0,
            l + ka >= 0,
    ;
    assert((l + kb) * ((l - ka) * t) <= (l + kb) * (l * a) && (l - ka) * (l * b) <= (l - ka)
        * ((l + kb) * t)) by (nonlinear_arith)
        requires
            (l - ka) * t <= l * a,
            l * b <= (l + kb) * t,
            l + kb >= 0,
            l - ka >= 0,
    ;
    assert((l - kb) * ((l + ka) * t) == (l + ka) * ((l - kb) * t) && (l + kb) * ((l - ka) * t) == (
    l - ka) * ((l + kb) * t)) by (nonlinear_arith);
    assert(b >= 0 && a >= 0) by (nonlinear_arith)
        requires
            (l - kb) * t <= l * b,
            (l - ka) * t <= l * a,
            l == 0x20_0000_0000_0000,
            0 <= ka <= 1000,
            0 <= kb <= 1000,
            0 <= t,
    ;
    assert(l * a <= (l + k) * b && (l - k) * b <= l * a) by (nonlinear_arith)
        requires
            (l - kb) * (l * a) <= (l + ka) * (l * b),
            (l - ka) * (l * b) <= (l + kb) * (l * a),
            k == ka + kb + 1,
            l == 0x20_0000_0000_0000,
            0 <= ka <= 1000,
            0 <= kb <= 1000,
            a >= 0,
            b >= 0,
    ;
}

/// Nearness is kept when a common positive factor is taken away.
pub proof fn lemma_near_cancel(x: int, t: int, k: int, c: int)
    requires
        near(x * c, t * c, k),
        c > 0,
    ensures
        near(x, t, k),
{
    let l: int = SIGNIFICAND_LIMIT as int;
    assert((l - k) * (t * c) == ((l - k) * t) * c && l * (x * c) == (l * x) * c && (l + k) * (t
        * c) == ((l + k) * t) * c) by (nonlinear_arith);
    lemma_cancel((l - k) * t, l * x, c);
    lemma_cancel(l * x, (l + k) * t, c);
}

/// The rounded length of a moderate vector that was divided by its rounded
/// length differs from one by no more than 23 parts in `2^53`.
pub proof fn lemma_unit_magnitude(x: nat, y: nat, z: nat)
    requires
        moderate(x),
        moderate(y),
        moderate(z),
        x != 0 || y != 0 || z != 0,
    ensures
        ({
            let m = length_magnitude(x, y, z);
            let nx = ratio_magnitude(x, m);
            let ny = ratio_magnitude(y, m);
            let nz = ratio_magnitude(z, m);
            &&& m >= HIDDEN_BIT
            &&& squarable(nx)
            &&& squarable(ny)
            &&& squarable(nz)
            &&& nx <= pow2(1927)
            &&& ny <= pow2(1927)
            &&& nz <= pow2(1927)
            &&& nx != 0 || ny != 0 || nz != 0
            &&& near(length_magnitude(nx, ny, nz) as int, one_magnitude() as int, 23)
        }),
{
    let one: int = one_magnitude() as int;
    let oo: int = one * one;
    let xx: int = (x * x) as int;
    let yy: int = (y * y) as int;
    let zz: int = (z * z) as int;
    let t: int = xx + yy + zz;
    let m = length_magnitude(x, y, z);
    let mi: int = m as int;
    let mm: int = (m * m) as int;
    let nx = ratio_magnitude(x, m);
    let ny = ratio_magnitude(y, m);
    let nz = ratio_magnitude(z, m);
    lemma_pow2_pos(1074);
    lemma_moderate(x);
    lemma_moderate(y);
    lemma_moderate(z);
    lemma_length(x, y, z);
    assert(0nat * 0nat == 0) by (nonlinear_arith);
    assert(xx >= 0 && yy >= 0 && zz >= 0);
    lemma_ratio(x, m, t as nat);
    lemma_ratio(y, m, t as nat);
    lemma_ratio(z, m, t as nat);
    // a coordinate that is not zero has a quotient that is not zero
    let l: int = SIGNIFICAND_LIMIT as int;
    assert forall|c: nat| c != 0 && #[trigger] near(
        (ratio_magnitude(c, m) * m) as int,
        (c * one_magnitude()) as int,
        1,
    ) implies ratio_magnitude(c, m) != 0 by {
        let r: int = ratio_magnitude(c, m) as int;
        let ci: int = c as int;
        assert(ci * one > 0 && (r == 0 ==> r * mi == 0)) by (nonlinear_arith)
            requires
                ci > 0,
                one > 0,
        ;
    }
    lemma_length(nx, ny, nz);
    let m2 = length_magnitude(nx, ny, nz);
    let n2: int = (nx * nx + ny * ny + nz * nz) as int;
    // the squares of the quotients, times the square of the length
    let ax: int = (nx * m) as int;
    let ay: int = (ny * m) as int;
    let az: int = (nz * m) as int;
    let bx: int = (x * one_magnitude()) as int;
    let by: int = (y * one_magnitude()) as int;
    let bz: int = (z * one_magnitude()) as int;
    lemma_near_squares(ax, bx, 1);
    lemma_near_squares(ay, by, 1);
    lemma_near_squares(az, bz, 1);
    lemma_near_sum(ax * ax, bx * bx, ay * ay, by * by, 3);
    lemma_near_sum(ax * ax + ay * ay, bx * bx + by * by, az * az, bz * bz, 3);
    assert(ax * ax + ay * ay + az * az == n2 * mm) by (nonlinear_arith)
        requires
            ax == nx * mi,
            ay == ny * mi,
            az == nz * mi,
            mm == mi * mi,
            n2 == nx * nx + ny * ny + nz * nz,
    ;
    assert(bx * bx + by * by + bz * bz == t * oo) by (nonlinear_arith)
        requires
            bx == x * one,
            by == y * one,
            bz == z * one,
            oo == one * one,
            t == x * x + y * y + z * z,
    ;
    assert(oo > 0 && mm > 0 && t * oo >= 0) by (nonlinear_arith)
        requires
            oo == one * one,
            mm == mi * mi,
            one > 0,
            mi > 0,
            t >= 0,
    ;
    lemma_near_scaled(mm, t, 9, oo);
    lemma_near_both(n2 * mm, mm * oo, t * oo, 3, 9);
    assert(mm * oo == oo * mm) by (nonlinear_arith);
    lemma_near_cancel(n2, oo, 13, mm);
    lemma_near_chain((m2 * m2) as int, n2, oo, 9, 13);
    lemma_near_roots(m2 as int, one, 23);
}

/// Rounding does not more than double a fraction, but for one unit.
pub proof fn lemma_round_upper(num: nat, den: nat)
    requires
        den > 0,
    ensures
        round_magnitude(num, den) * den <= 2 * num + den,
{
    let e = spacing_exponent(num, den);
    let d: int = (den * pow2(e)) as int;
    let pe: int = pow2(e) as int;
    let q: int = num as int / d;
    let r: int = num as int % d;
    lemma_spacing_bounds(num, den);
    lemma_scaled_pow2_step(den, e);
    lemma_fundamental_div_mod(num as int, d);
    if e == 0 {
        lemma2_to64();
        assert(d == den) by (nonlinear_arith)
            requires
                d == den * pe,
                pe == 1,
        ;
    }
    assert(q >= 0) by (nonlinear_arith)
        requires
            num == d * q + r,
            0 <= r < d,
            num >= 0,
    ;
    assert(((q + 1) * pe) * den == d * q + d && (q * pe) * den == d * q) by (nonlinear_arith)
        requires
            d == den * pe,
    ;
}

/// The magnitudes that arithmetic on moderate vectors meets are far below
/// the overflow magnitude.
proof fn lemma_below_overflow()
    ensures
        pow2(1931) < overflow_magnitude(),
        pow2(1027) < overflow_magnitude(),
{
    lemma_pow2_le(1027, 1931);
    lemma_pow2_le(1931, 2046);
    lemma_pow2_pos(2046);
    let p: int = pow2(2046) as int;
    assert(0x10_0000_0000_0000 * p > p) by (nonlinear_arith)
        requires
            p > 0,
    ;
}

/// A positive scalar that differs from one by no more than 23 parts in
/// `2^53` is equal to it within the tolerance.
pub proof fn lemma_close_to_one(a: Scalar)
    requires
        a@ is Finite,
        !a.sign(),
        near(a.magnitude() as int, one_magnitude() as int, 23),
    ensures
        close(a@, Scalar::one()@),
{
    let m: int = a.magnitude() as int;
    let one: int = one_magnitude() as int;
    let l: int = SIGNIFICAND_LIMIT as int;
    lemma_constants();
    if m == one {
        lemma_close_at_same_rank(a@, Scalar::one()@);
    } else {
        let delta: nat = if m > one {
            (m - one) as nat
        } else {
            (one - m) as nat
        };
        let r: int = round_magnitude(delta, 1) as int;
        let p1021: int = pow2(1021) as int;
        let p988: int = pow2(988) as int;
        lemma_pow2_adds(53, 1021);
        lemma_pow2_adds(6, 1021);
        lemma_pow2_adds(52, 988);
        lemma_pow2_le(1027, 1040);
        lemma2_to64();
        lemma2_to64_rest();
        lemma_pow2_pos(1021);
        lemma_pow2_pos(988);
        lemma_below_overflow();
        lemma_tolerance();
        lemma_round_upper(delta, 1);
        assert(r * 1 == r) by (nonlinear_arith);
        assert(delta <= 23 * p1021) by (nonlinear_arith)
            requires
                (l - 23) * one <= l * m <= (l + 23) * one,
                one == l * p1021,
                delta == m - one || delta == one - m,
                l == 0x20_0000_0000_0000,
                p1021 > 0,
        ;
        assert(0x1b_7cdf_d9d7_bdbb * p988 >= 0x10_0000_0000_0000 * p988) by (nonlinear_arith)
            requires
                p988 > 0,
        ;
    }
}

/// What the length of a tuple denotes, where its first three parts have
/// squares in the normal range and its fourth is zero.
pub proof fn lemma_length_value(t: Tuple4)
    requires
        t.x@ is Finite,
        t.y@ is Finite,
        t.z@ is Finite,
        t.w@ is Finite,
        t.w.magnitude() == 0,
        squarable(t.x.magnitude()),
        squarable(t.y.magnitude()),
        squarable(t.z.magnitude()),
        t.x.magnitude() != 0 || t.y.magnitude() != 0 || t.z.magnitude() != 0,
    ensures
        length(t)@ == (Value::Finite {
            negative: false,
            magnitude: length_magnitude(t.x.magnitude(), t.y.magnitude(), t.z.magnitude()),
        }),
{
    let x = t.x.magnitude();
    let y = t.y.magnitude();
    let z = t.z.magnitude();
    let a = square_magnitude(x);
    let b = square_magnitude(y);
    let c = square_magnitude(z);
    let s1 = sum_magnitude(a, b);
    let s2 = sum_magnitude(s1, c);
    lemma_squares(x, y, z);
    lemma_length(x, y, z);
    lemma_below_overflow();
    lemma_pow2_le(1927, 1931);
    lemma_pow2_le(1929, 1931);
    lemma_pow2_le(1502, 1931);
    lemma_pow2_pos(63);
    lemma_pow2_pos(1074);
    let px = product(t.x, t.x);
    let py = product(t.y, t.y);
    let pz = product(t.z, t.z);
    let pw = product(t.w, t.w);
    lemma_product(t.x, t.x);
    lemma_product(t.y, t.y);
    lemma_product(t.z, t.z);
    lemma_product(t.w, t.w);
    assert(0nat * 0nat == 0) by (nonlinear_arith);
    lemma_round_nothing(false, pow2(1074));
    lemma_round_nothing(false, 1);
    assert(px@ == (Value::Finite { negative: false, magnitude: a }));
    assert(py@ == (Value::Finite { negative: false, magnitude: b }));
    assert(pz@ == (Value::Finite { negative: false, magnitude: c }));
    assert(pw@ == (Value::Finite { negative: false, magnitude: 0 }));
    let q1 = sum(px, py);
    lemma_sum(px, py);
    assert(q1@ == (Value::Finite { negative: false, magnitude: s1 }));
    let q2 = sum(q1, pz);
    lemma_sum(q1, pz);
    assert(q2@ == (Value::Finite { negative: false, magnitude: s2 }));
    let q3 = sum(q2, pw);
    lemma_sum(q2, pw);
    lemma_exact(q2);
    assert(q3@ == (Value::Finite { negative: false, magnitude: s2 }));
    lemma_root(q3);
}

/// A vector of moderate coordinates, not all of them zero, that is divided
/// by its length has a length that is equal to one within the tolerance. A
/// coordinate is moderate where it is zero or lies between `2^-200` and
/// `2^200`.
pub proof fn lemma_normalized_length(x: Scalar, y: Scalar, z: Scalar)
    requires
        x@ is Finite,
        y@ is Finite,
        z@ is Finite,
        moderate(x.magnitude()),
        moderate(y.magnitude()),
        moderate(z.magnitude()),
        x.magnitude() != 0 || y.magnitude() != 0 || z.magnitude() != 0,
    ensures
        close(
            length(tuple_divided(vector_tuple(x, y, z), length(vector_tuple(x, y, z))))@,
            Scalar::one()@,
        ),
{
    let v = vector_tuple(x, y, z);
    let m = length(v);
    let n = tuple_divided(v, m);
    let mx = x.magnitude();
    let my = y.magnitude();
    let mz = z.magnitude();
    let mm = length_magnitude(mx, my, mz);
    lemma_constants();
    lemma_moderate(mx);
    lemma_moderate(my);
    lemma_moderate(mz);
    lemma_length_value(v);
    lemma_unit_magnitude(mx, my, mz);
    lemma_below_overflow();
    lemma_pow2_le(1927, 1931);
    lemma_quotient(x, m);
    lemma_quotient(y, m);
    lemma_quotient(z, m);
    lemma_quotient(Scalar::zero(), m);
    assert(0 * one_magnitude() == 0) by (nonlinear_arith);
    lemma_round_nothing(false, mm);
    assert(n.x@ == (Value::Finite { negative: x.sign(), magnitude: ratio_magnitude(mx, mm) }));
    assert(n.y@ == (Value::Finite { negative: y.sign(), magnitude: ratio_magnitude(my, mm) }));
    assert(n.z@ == (Value::Finite { negative: z.sign(), magnitude: ratio_magnitude(mz, mm) }));
    assert(n.w@ == (Value::Finite { negative: false, magnitude: 0 }));
    lemma_length_value(n);
    lemma_close_to_one(length(n));
}

} // verus!
