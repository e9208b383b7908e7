//! Points and vectors in three dimensions.
//!
//! Both are tuples of four scalars. The fourth, `w`, is one in a point and
//! zero in a vector, so that the difference of two points is a vector and
//! the sum of a point and a vector is a point.
use vstd::prelude::*;
use crate::arith::{
    add_value,
    difference,
    div_value,
    lemma_difference,
    lemma_product,
    lemma_quotient,
    lemma_sum,
    mul_value,
    product,
    quotient,
    sub_value,
    sum,
};
use crate::misc::{close, equal, lemma_close_at_same_rank};
use crate::root::root;
use crate::rounding::{lemma_exact, lemma_round_nothing};
use crate::scalar::{
    lemma_constants,
    lemma_negated,
    neg_value,
    negated,
    one_magnitude,
    unsigned,
    Scalar,
    Value,
};

verus! {

/// Four scalars.
#[derive(Clone, Copy, Debug)]
pub struct Tuple4 {
    pub x: Scalar,
    pub y: Scalar,
    pub z: Scalar,
    pub w: Scalar,
}

/// The sum of two tuples, part by part.
pub open spec fn tuple_sum(a: Tuple4, b: Tuple4) -> Tuple4 {
    Tuple4 { x: sum(a.x, b.x), y: sum(a.y, b.y), z: sum(a.z, b.z), w: sum(a.w, b.w) }
}

/// The difference of two tuples, part by part.
pub open spec fn tuple_difference(a: Tuple4, b: Tuple4) -> Tuple4 {
    Tuple4 {
        x: difference(a.x, b.x),
        y: difference(a.y, b.y),
        z: difference(a.z, b.z),
        w: difference(a.w, b.w),
    }
}

/// A tuple with the sign of every part flipped.
pub open spec fn tuple_negated(a: Tuple4) -> Tuple4 {
    Tuple4 { x: negated(a.x), y: negated(a.y), z: negated(a.z), w: negated(a.w) }
}

/// A tuple with every part multiplied by a scalar.
pub open spec fn tuple_scaled(a: Tuple4, s: Scalar) -> Tuple4 {
    Tuple4 { x: product(a.x, s), y: product(a.y, s), z: product(a.z, s), w: product(a.w, s) }
}

/// A tuple with every part divided by a scalar.
pub open spec fn tuple_divided(a: Tuple4, s: Scalar) -> Tuple4 {
    Tuple4 { x: quotient(a.x, s), y: quotient(a.y, s), z: quotient(a.z, s), w: quotient(a.w, s) }
}

impl vstd::std_specs::ops::AddSpecImpl for Tuple4 {
    open spec fn obeys_add_spec() -> bool {
        true
    }

    open spec fn add_req(self, rhs: Tuple4) -> bool {
        true
    }

    open spec fn add_spec(self, rhs: Tuple4) -> Tuple4 {
        tuple_sum(self, rhs)
    }
}

impl core::ops::Add for Tuple4 {
    type Output = Tuple4;

    fn add(self, rhs: Tuple4) -> (r: Tuple4) {
        Tuple4 { x: self.x + rhs.x, y: self.y + rhs.y, z: self.z + rhs.z, w: self.w + rhs.w }
    }
}

impl vstd::std_specs::ops::SubSpecImpl for Tuple4 {
    open spec fn obeys_sub_spec() -> bool {
        true
    }

    open spec fn sub_req(self, rhs: Tuple4) -> bool {
        true
    }

    open spec fn sub_spec(self, rhs: Tuple4) -> Tuple4 {
        tuple_difference(self, rhs)
    }
}

impl core::ops::Sub for Tuple4 {
    type Output = Tuple4;

    fn sub(self, rhs: Tuple4) -> (r: Tuple4) {
        Tuple4 { x: self.x - rhs.x, y: self.y - rhs.y, z: self.z - rhs.z, w: self.w - rhs.w }
    }
}

impl vstd::std_specs::ops::NegSpecImpl for Tuple4 {
    open spec fn obeys_neg_spec() -> bool {
        true
    }

    open spec fn neg_req(self) -> bool {
        true
    }

    open spec fn neg_spec(self) -> Tuple4 {
        tuple_negated(self)
    }
}

impl core::ops::Neg for Tuple4 {
    type Output = Tuple4;

    fn neg(self) -> (r: Tuple4) {
        Tuple4 {
            x: core::ops::Neg::neg(self.x),
            y: core::ops::Neg::neg(self.y),
            z: core::ops::Neg::neg(self.z),
            w: core::ops::Neg::neg(self.w),
        }
    }
}

impl vstd::std_specs::ops::MulSpecImpl<Scalar> for Tuple4 {
    open spec fn obeys_mul_spec() -> bool {
        true
    }

    open spec fn mul_req(self, rhs: Scalar) -> bool {
        true
    }

    open spec fn mul_spec(self, rhs: Scalar) -> Tuple4 {
        tuple_scaled(self, rhs)
    }
}

impl core::ops::Mul<Scalar> for Tuple4 {
    type Output = Tuple4;

    fn mul(self, rhs: Scalar) -> (r: Tuple4) {
        Tuple4 { x: self.x * rhs, y: self.y * rhs, z: self.z * rhs, w: self.w * rhs }
    }
}

impl vstd::std_specs::ops::DivSpecImpl<Scalar> for Tuple4 {
    open spec fn obeys_div_spec() -> bool {
        true
    }

    open spec fn div_req(self, rhs: Scalar) -> bool {
        true
    }

    open spec fn div_spec(self, rhs: Scalar) -> Tuple4 {
        tuple_divided(self, rhs)
    }
}

impl core::ops::Div<Scalar> for Tuple4 {
    type Output = Tuple4;

    fn div(self, rhs: Scalar) -> (r: Tuple4) {
        Tuple4 { x: self.x / rhs, y: self.y / rhs, z: self.z / rhs, w: self.w / rhs }
    }
}

/// Whether two tuples are equal within the tolerance, part by part.
pub open spec fn tuples_close(a: Tuple4, b: Tuple4) -> bool {
    close(a.x@, b.x@) && close(a.y@, b.y@) && close(a.z@, b.z@) && close(a.w@, b.w@)
}

impl vstd::std_specs::cmp::PartialEqSpecImpl for Tuple4 {
    open spec fn obeys_eq_spec() -> bool {
        true
    }

    open spec fn eq_spec(&self, other: &Tuple4) -> bool {
        tuples_close(*self, *other)
    }
}

impl PartialEq for Tuple4 {
    fn eq(&self, other: &Tuple4) -> (r: bool) {
        equal(self.x, other.x) && equal(self.y, other.y) && equal(self.z, other.z) && equal(
            self.w,
            other.w,
        )
    }
}

/// Whether a value is one, or a NaN.
pub open spec fn one_or_nan(v: Value) -> bool {
    v is Nan || v == (Value::Finite { negative: false, magnitude: one_magnitude() })
}

/// Whether a value is a zero, or a NaN.
pub open spec fn zero_or_nan(v: Value) -> bool {
    v is Nan || (v is Finite && v->Finite_magnitude == 0)
}

/// Whether a tuple can be a point: its `w` is one, or a NaN after
/// arithmetic with a NaN.
pub open spec fn is_point(t: Tuple4) -> bool {
    one_or_nan(t.w@)
}

/// Whether a tuple can be a vector: its `w` is a zero, or a NaN after
/// arithmetic that has no number for a result.
pub open spec fn is_vector(t: Tuple4) -> bool {
    zero_or_nan(t.w@)
}

/// The fourth parts of points and vectors keep their kinds under the
/// operations on them.
pub proof fn lemma_kinds(a: Value, b: Value, s: Value)
    ensures
        one_or_nan(a) && zero_or_nan(b) ==> one_or_nan(add_value(a, b)) && one_or_nan(
            sub_value(a, b),
        ),
        one_or_nan(a) && one_or_nan(b) ==> zero_or_nan(sub_value(a, b)),
        zero_or_nan(a) && zero_or_nan(b) ==> zero_or_nan(add_value(a, b)) && zero_or_nan(
            sub_value(a, b),
        ),
        zero_or_nan(a) ==> zero_or_nan(neg_value(a)) && zero_or_nan(mul_value(a, s))
            && zero_or_nan(div_value(a, s)),
{
    lemma_constants();
    lemma_exact(Scalar::one());
    if s is Finite {
        let m = s->Finite_magnitude;
        assert(0 * m == 0 && 0 * one_magnitude() == 0) by (nonlinear_arith);
        vstd::arithmetic::power2::lemma_pow2_pos(1074);
        lemma_round_nothing(true, vstd::arithmetic::power2::pow2(1074));
        lemma_round_nothing(false, vstd::arithmetic::power2::pow2(1074));
        if m > 0 {
            lemma_round_nothing(true, m);
            lemma_round_nothing(false, m);
        }
    }
}

/// The tuple of the point at three coordinates.
pub open spec fn point_tuple(x: Scalar, y: Scalar, z: Scalar) -> Tuple4 {
    Tuple4 { x, y, z, w: Scalar::one() }
}

/// The tuple of the vector of three coordinates.
pub open spec fn vector_tuple(x: Scalar, y: Scalar, z: Scalar) -> Tuple4 {
    Tuple4 { x, y, z, w: Scalar::zero() }
}

/// A point and a vector give back the coordinates that they were made of.
pub proof fn lemma_coordinates(x: Scalar, y: Scalar, z: Scalar)
    ensures
        point_tuple(x, y, z).x == x,
        point_tuple(x, y, z).y == y,
        point_tuple(x, y, z).z == z,
        vector_tuple(x, y, z).x == x,
        vector_tuple(x, y, z).y == y,
        vector_tuple(x, y, z).z == z,
{
}

/// Zero added to a finite scalar, or taken from it, gives a scalar within
/// the tolerance of it.
pub proof fn lemma_zero_is_neutral(a: Scalar)
    requires
        a@ is Finite,
    ensures
        close(sum(a, Scalar::zero())@, a@),
        close(difference(a, Scalar::zero())@, a@),
{
    lemma_constants();
    lemma_sum(a, Scalar::zero());
    lemma_difference(a, Scalar::zero());
    lemma_exact(a);
    lemma_close_at_same_rank(sum(a, Scalar::zero())@, a@);
    lemma_close_at_same_rank(difference(a, Scalar::zero())@, a@);
}

/// The zero vector, added to a point with finite coordinates or taken from
/// it, gives a point that is equal to it.
pub proof fn lemma_zero_vector_is_neutral(a: Scalar, b: Scalar, c: Scalar)
    requires
        a@ is Finite,
        b@ is Finite,
        c@ is Finite,
    ensures
        tuples_close(
            tuple_difference(
                point_tuple(a, b, c),
                vector_tuple(Scalar::zero(), Scalar::zero(), Scalar::zero()),
            ),
            point_tuple(a, b, c),
        ),
        tuples_close(
            tuple_sum(
                point_tuple(a, b, c),
                vector_tuple(Scalar::zero(), Scalar::zero(), Scalar::zero()),
            ),
            point_tuple(a, b, c),
        ),
{
    lemma_constants();
    lemma_zero_is_neutral(a);
    lemma_zero_is_neutral(b);
    lemma_zero_is_neutral(c);
    lemma_zero_is_neutral(Scalar::one());
}

/// The product of two values does not depend on their order.
pub proof fn lemma_product_commutes(a: Scalar, b: Scalar)
    ensures
        product(a, b) == product(b, a),
{
    let ma = a.magnitude();
    let mb = b.magnitude();
    assert(ma * mb == mb * ma) by (nonlinear_arith);
}

/// A difference that is finite is, within the tolerance, the negated
/// difference the other way round.
pub proof fn lemma_difference_turned(p: Scalar, q: Scalar)
    requires
        difference(p, q)@ is Finite,
    ensures
        close(difference(p, q)@, negated(difference(q, p))@),
{
    lemma_difference(p, q);
    lemma_difference(q, p);
    lemma_negated(difference(q, p));
    lemma_close_at_same_rank(difference(p, q)@, negated(difference(q, p))@);
}

/// The cross product of two vectors, where its parts are finite, is equal
/// to the negated cross product of the two the other way round.
pub proof fn lemma_cross_antisymmetric(u: Tuple4, v: Tuple4)
    requires
        cross_product(u, v).x@ is Finite,
        cross_product(u, v).y@ is Finite,
        cross_product(u, v).z@ is Finite,
    ensures
        tuples_close(cross_product(u, v), tuple_negated(cross_product(v, u))),
{
    lemma_product_commutes(u.y, v.z);
    lemma_product_commutes(u.z, v.y);
    lemma_product_commutes(u.z, v.x);
    lemma_product_commutes(u.x, v.z);
    lemma_product_commutes(u.x, v.y);
    lemma_product_commutes(u.y, v.x);
    lemma_difference_turned(product(u.y, v.z), product(u.z, v.y));
    lemma_difference_turned(product(u.z, v.x), product(u.x, v.z));
    lemma_difference_turned(product(u.x, v.y), product(u.y, v.x));
    lemma_constants();
    lemma_negated(Scalar::zero());
    lemma_close_at_same_rank(Scalar::zero()@, negated(Scalar::zero())@);
}

/// A point in space.
#[derive(Clone, Copy, Debug)]
pub struct Point3 {
    t: Tuple4,
}

/// A vector in space.
#[derive(Clone, Copy, Debug)]
pub struct Vector3 {
    t: Tuple4,
}

impl View for Point3 {
    type V = Tuple4;

    closed spec fn view(&self) -> Tuple4 {
        self.t
    }
}

impl View for Vector3 {
    type V = Tuple4;

    closed spec fn view(&self) -> Tuple4 {
        self.t
    }
}

impl Point3 {
    #[verifier::type_invariant]
    spec fn well_formed(&self) -> bool {
        is_point(self.t)
    }

    /// The point at three coordinates.
    pub fn new(x: Scalar, y: Scalar, z: Scalar) -> (p: Point3)
        ensures
            p@ == point_tuple(x, y, z),
            is_point(p@),
    {
        Point3 { t: Tuple4 { x, y, z, w: Scalar::one() } }
    }

    pub fn x(&self) -> (x: Scalar)
        ensures
            x == self@.x,
    {
        self.t.x
    }

    pub fn y(&self) -> (y: Scalar)
        ensures
            y == self@.y,
    {
        self.t.y
    }

    pub fn z(&self) -> (z: Scalar)
        ensures
            z == self@.z,
    {
        self.t.z
    }
}

impl vstd::std_specs::ops::AddSpecImpl<Vector3> for Point3 {
    open spec fn obeys_add_spec() -> bool {
        true
    }

    open spec fn add_req(self, rhs: Vector3) -> bool {
        true
    }

    closed spec fn add_spec(self, rhs: Vector3) -> Point3 {
        Point3 { t: tuple_sum(self.t, rhs.t) }
    }
}

impl core::ops::Add<Vector3> for Point3 {
    type Output = Point3;

    /// The point that a vector leads to from a point.
    fn add(self, rhs: Vector3) -> (r: Point3)
        ensures
            r@ == tuple_sum(self@, rhs@),
            is_point(r@),
    {
        proof {
            use_type_invariant(&self);
            use_type_invariant(&rhs);
            lemma_kinds(self.t.w@, rhs.t.w@, rhs.t.w@);
            lemma_sum(self.t.w, rhs.t.w);
            lemma_difference(self.t.w, rhs.t.w);
        }
        Point3 { t: self.t + rhs.t }
    }
}

impl vstd::std_specs::ops::SubSpecImpl<Point3> for Point3 {
    open spec fn obeys_sub_spec() -> bool {
        true
    }

    open spec fn sub_req(self, rhs: Point3) -> bool {
        true
    }

    closed spec fn sub_spec(self, rhs: Point3) -> Vector3 {
        Vector3 { t: tuple_difference(self.t, rhs.t) }
    }
}

impl core::ops::Sub<Point3> for Point3 {
    type Output = Vector3;

    /// The vector that leads from the second point to the first.
    fn sub(self, rhs: Point3) -> (r: Vector3)
        ensures
            r@ == tuple_difference(self@, rhs@),
            is_vector(r@),
    {
        proof {
            use_type_invariant(&self);
            use_type_invariant(&rhs);
            lemma_kinds(self.t.w@, rhs.t.w@, rhs.t.w@);
            lemma_sum(self.t.w, rhs.t.w);
            lemma_difference(self.t.w, rhs.t.w);
        }
        Vector3 { t: self.t - rhs.t }
    }
}

impl vstd::std_specs::ops::SubSpecImpl<Vector3> for Point3 {
    open spec fn obeys_sub_spec() -> bool {
        true
    }

    open spec fn sub_req(self, rhs: Vector3) -> bool {
        true
    }

    closed spec fn sub_spec(self, rhs: Vector3) -> Point3 {
        Point3 { t: tuple_difference(self.t, rhs.t) }
    }
}

impl core::ops::Sub<Vector3> for Point3 {
    type Output = Point3;

    /// The point that a vector leads from to a point.
    fn sub(self, rhs: Vector3) -> (r: Point3)
        ensures
            r@ == tuple_difference(self@, rhs@),
            is_point(r@),
    {
        proof {
            use_type_invariant(&self);
            use_type_invariant(&rhs);
            lemma_kinds(self.t.w@, rhs.t.w@, rhs.t.w@);
            lemma_sum(self.t.w, rhs.t.w);
            lemma_difference(self.t.w, rhs.t.w);
        }
        Point3 { t: self.t - rhs.t }
    }
}

impl vstd::std_specs::cmp::PartialEqSpecImpl for Point3 {
    open spec fn obeys_eq_spec() -> bool {
        true
    }

    closed spec fn eq_spec(&self, other: &Point3) -> bool {
        tuples_close(self.t, other.t)
    }
}

impl PartialEq for Point3 {
    /// Whether two points are equal within the tolerance, part by part.
    fn eq(&self, other: &Point3) -> (r: bool)
        ensures
            r == tuples_close(self@, other@),
    {
        self.t == other.t
    }
}

/// The length of a tuple: the square root of the sum of the squares of its
/// four parts, each step rounded.
pub open spec fn length(t: Tuple4) -> Scalar {
    root(
        sum(
            sum(sum(product(t.x, t.x), product(t.y, t.y)), product(t.z, t.z)),
            product(t.w, t.w),
        ),
    )
}

/// The sum of the products of the parts of two tuples, each step rounded.
pub open spec fn dot_product(a: Tuple4, b: Tuple4) -> Scalar {
    sum(sum(sum(product(a.x, b.x), product(a.y, b.y)), product(a.z, b.z)), product(a.w, b.w))
}

/// The cross product of the first three parts of two tuples, each step
/// rounded, as a vector.
pub open spec fn cross_product(a: Tuple4, b: Tuple4) -> Tuple4 {
    vector_tuple(
        difference(product(a.y, b.z), product(a.z, b.y)),
        difference(product(a.z, b.x), product(a.x, b.z)),
        difference(product(a.x, b.y), product(a.y, b.x)),
    )
}

impl Vector3 {
    #[verifier::type_invariant]
    spec fn well_formed(&self) -> bool {
        is_vector(self.t)
    }

    /// The vector of three coordinates.
    pub fn new(x: Scalar, y: Scalar, z: Scalar) -> (v: Vector3)
        ensures
            v@ == vector_tuple(x, y, z),
            is_vector(v@),
    {
        Vector3 { t: Tuple4 { x, y, z, w: Scalar::zero() } }
    }

    pub fn x(&self) -> (x: Scalar)
        ensures
            x == self@.x,
    {
        self.t.x
    }

    pub fn y(&self) -> (y: Scalar)
        ensures
            y == self@.y,
    {
        self.t.y
    }

    pub fn z(&self) -> (z: Scalar)
        ensures
            z == self@.z,
    {
        self.t.z
    }

    /// The length of the vector. It is never negative; it is a NaN where
    /// a part of the vector is one.
    pub fn mag(&self) -> (m: Scalar)
        ensures
            m == length(self@),
            unsigned(m@),
    {
        let t = self.t;
        let xx = t.x * t.x;
        let yy = t.y * t.y;
        let zz = t.z * t.z;
        let ww = t.w * t.w;
        assert(unsigned(xx@) && unsigned(yy@) && unsigned(zz@) && unsigned(ww@));
        let xy = xx + yy;
        assert(unsigned(xy@));
        let xyz = xy + zz;
        assert(unsigned(xyz@));
        let all = xyz + ww;
        assert(unsigned(all@));
        all.sqrt()
    }

    /// The vector divided by its length. Where the length is zero the
    /// parts are infinities or NaNs.
    pub fn norm(self) -> (r: Vector3)
        ensures
            r@ == tuple_divided(self@, length(self@)),
            is_vector(r@),
    {
        let mv = self.mag();
        proof {
            use_type_invariant(&self);
            lemma_kinds(self.t.w@, self.t.w@, mv@);
        }
        Vector3 {
            t: Tuple4 {
                x: self.t.x / mv,
                y: self.t.y / mv,
                z: self.t.z / mv,
                w: self.t.w / mv,
            },
        }
    }

    /// The dot product of two vectors.
    pub fn dot(&self, rhs: &Vector3) -> (d: Scalar)
        ensures
            d == dot_product(self@, rhs@),
    {
        let a = self.t;
        let b = rhs.t;
        a.x * b.x + a.y * b.y + a.z * b.z + a.w * b.w
    }

    /// The cross product of two vectors.
    pub fn cross(&self, rhs: &Vector3) -> (r: Vector3)
        ensures
            r@ == cross_product(self@, rhs@),
            is_vector(r@),
    {
        Vector3::new(
            self.y() * rhs.z() - self.z() * rhs.y(),
            self.z() * rhs.x() - self.x() * rhs.z(),
            self.x() * rhs.y() - self.y() * rhs.x(),
        )
    }
}

impl vstd::std_specs::ops::AddSpecImpl for Vector3 {
    open spec fn obeys_add_spec() -> bool {
        true
    }

    open spec fn add_req(self, rhs: Vector3) -> bool {
        true
    }

    closed spec fn add_spec(self, rhs: Vector3) -> Vector3 {
        Vector3 { t: tuple_sum(self.t, rhs.t) }
    }
}

impl core::ops::Add for Vector3 {
    type Output = Vector3;

    fn add(self, rhs: Vector3) -> (r: Vector3)
        ensures
            r@ == tuple_sum(self@, rhs@),
            is_vector(r@),
    {
        proof {
            use_type_invariant(&self);
            use_type_invariant(&rhs);
            lemma_kinds(self.t.w@, rhs.t.w@, rhs.t.w@);
            lemma_sum(self.t.w, rhs.t.w);
            lemma_difference(self.t.w, rhs.t.w);
        }
        Vector3 { t: self.t + rhs.t }
    }
}

impl vstd::std_specs::ops::SubSpecImpl for Vector3 {
    open spec fn obeys_sub_spec() -> bool {
        true
    }

    open spec fn sub_req(self, rhs: Vector3) -> bool {
        true
    }

    closed spec fn sub_spec(self, rhs: Vector3) -> Vector3 {
        Vector3 { t: tuple_difference(self.t, rhs.t) }
    }
}

impl core::ops::Sub for Vector3 {
    type Output = Vector3;

    fn sub(self, rhs: Vector3) -> (r: Vector3)
        ensures
            r@ == tuple_difference(self@, rhs@),
            is_vector(r@),
    {
        proof {
            use_type_invariant(&self);
            use_type_invariant(&rhs);
            lemma_kinds(self.t.w@, rhs.t.w@, rhs.t.w@);
            lemma_sum(self.t.w, rhs.t.w);
            lemma_difference(self.t.w, rhs.t.w);
        }
        Vector3 { t: self.t - rhs.t }
    }
}

impl vstd::std_specs::ops::NegSpecImpl for Vector3 {
    open spec fn obeys_neg_spec() -> bool {
        true
    }

    open spec fn neg_req(self) -> bool {
        true
    }

    closed spec fn neg_spec(self) -> Vector3 {
        Vector3 { t: tuple_negated(self.t) }
    }
}

impl core::ops::Neg for Vector3 {
    type Output = Vector3;

    fn neg(self) -> (r: Vector3)
        ensures
            r@ == tuple_negated(self@),
            is_vector(r@),
    {
        proof {
            use_type_invariant(&self);
            lemma_kinds(self.t.w@, self.t.w@, self.t.w@);
            lemma_negated(self.t.w);
        }
        Vector3 { t: core::ops::Neg::neg(self.t) }
    }
}

impl vstd::std_specs::ops::MulSpecImpl<Scalar> for Vector3 {
    open spec fn obeys_mul_spec() -> bool {
        true
    }

    open spec fn mul_req(self, rhs: Scalar) -> bool {
        true
    }

    closed spec fn mul_spec(self, rhs: Scalar) -> Vector3 {
        Vector3 { t: tuple_scaled(self.t, rhs) }
    }
}

impl core::ops::Mul<Scalar> for Vector3 {
    type Output = Vector3;

    fn mul(self, rhs: Scalar) -> (r: Vector3)
        ensures
            r@ == tuple_scaled(self@, rhs),
            is_vector(r@),
    {
        proof {
            use_type_invariant(&self);
            lemma_kinds(self.t.w@, self.t.w@, rhs@);
            lemma_product(self.t.w, rhs);
            lemma_quotient(self.t.w, rhs);
        }
        Vector3 { t: self.t * rhs }
    }
}

impl vstd::std_specs::ops::DivSpecImpl<Scalar> for Vector3 {
    open spec fn obeys_div_spec() -> bool {
        true
    }

    open spec fn div_req(self, rhs: Scalar) -> bool {
        true
    }

    closed spec fn div_spec(self, rhs: Scalar) -> Vector3 {
        Vector3 { t: tuple_divided(self.t, rhs) }
    }
}

impl core::ops::Div<Scalar> for Vector3 {
    type Output = Vector3;

    /// Dividing by zero gives infinities and NaNs.
    fn div(self, rhs: Scalar) -> (r: Vector3)
        ensures
            r@ == tuple_divided(self@, rhs),
            is_vector(r@),
    {
        proof {
            use_type_invariant(&self);
            lemma_kinds(self.t.w@, self.t.w@, rhs@);
            lemma_product(self.t.w, rhs);
            lemma_quotient(self.t.w, rhs);
        }
        Vector3 { t: self.t / rhs }
    }
}

impl vstd::std_specs::cmp::PartialEqSpecImpl for Vector3 {
    open spec fn obeys_eq_spec() -> bool {
        true
    }

    closed spec fn eq_spec(&self, other: &Vector3) -> bool {
        tuples_close(self.t, other.t)
    }
}

impl PartialEq for Vector3 {
    /// Whether two vectors are equal within the tolerance, part by part.
    fn eq(&self, other: &Vector3) -> (r: bool)
        ensures
            r == tuples_close(self@, other@),
    {
        self.t == other.t
    }
}

} // verus!
