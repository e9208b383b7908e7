//! Comparison of scalars within a tolerance.
use vstd::prelude::*;
use vstd::arithmetic::power2::*;
use crate::arith::sub_value;
use crate::scalar::{abs_value, lt_value, rank, Scalar, Value};

verus! {

/// The tolerance of comparisons, the double nearest to `10^-10`.
pub open spec fn tolerance() -> Scalar {
    Scalar { bits: 0x3ddb_7cdf_d9d7_bdbb }
}

/// Whether the difference of two values, rounded as a double and taken
/// without its sign, is less than the tolerance.
pub open spec fn close(a: Value, b: Value) -> bool {
    lt_value(abs_value(sub_value(a, b)), tolerance()@)
}

/// The tolerance is `0x1b7cdfd9d7bdbb / 2^86`, and no double is nearer to
/// `10^-10`: the two differ by no more than half the spacing `2^-86`.
pub proof fn lemma_tolerance()
    ensures
        tolerance()@ == (Value::Finite {
            negative: false,
            magnitude: 0x1b_7cdf_d9d7_bdbb * pow2(988),
        }),
        pow2(86) == 0x40_0000_0000_0000_0000_0000,
        2 * (0x40_0000_0000_0000_0000_0000 - 0x1b_7cdf_d9d7_bdbb * 10_000_000_000) <= 10_000_000_000,
        2 * (0x1b_7cdf_d9d7_bdbb * 10_000_000_000 - 0x40_0000_0000_0000_0000_0000)
            <= 10_000_000_000,
{
    lemma2_to64_rest();
    lemma_pow2_adds(43, 43);
    assert(tolerance().exponent() == 989 && tolerance().fraction() == 0xb_7cdf_d9d7_bdbb);
}

/// Two finite values at the same place of the number line, such as the two
/// zeros, are equal within the tolerance.
pub proof fn lemma_close_at_same_rank(a: Value, b: Value)
    requires
        a is Finite,
        b is Finite,
        rank(a) == rank(b),
    ensures
        close(a, b),
{
    lemma_tolerance();
    lemma_pow2_pos(988);
    let p: int = pow2(988) as int;
    assert(0x1b_7cdf_d9d7_bdbb * p > 0) by (nonlinear_arith)
        requires
            p > 0,
    ;
}

/// Whether two scalars are equal within the tolerance.
pub fn equal(lhs: Scalar, rhs: Scalar) -> (r: bool)
    ensures
        r == close(lhs@, rhs@),
{
    (lhs - rhs).abs().lt(Scalar::from_bits(0x3ddb_7cdf_d9d7_bdbb))
}

} // verus!
