use vstd::prelude::*;

verus! {

/// Capability interface for scalars with distinguished zero and one values
/// and runtime tests for them. The form validators need nothing more of a
/// scalar than this.
pub trait Scalar: Sized + Copy {
    /// The scalar standing for zero.
    spec fn zero_spec() -> Self;

    /// The scalar standing for one.
    spec fn one_spec() -> Self;

    fn zero() -> (r: Self)
        ensures
            r == Self::zero_spec(),
    ;

    fn one() -> (r: Self)
        ensures
            r == Self::one_spec(),
    ;

    fn is_zero(&self) -> (r: bool)
        ensures
            r == (*self == Self::zero_spec()),
    ;

    fn is_one(&self) -> (r: bool)
        ensures
            r == (*self == Self::one_spec()),
    ;
}

/// Capability interface for field-like scalars: the arithmetic that the
/// reducer and the solution classifier perform, together with the algebraic
/// laws that the elimination step relies on. Any exact scalar type
/// (rational, modular, ...) can implement it.
pub trait Field: Scalar {
    spec fn add_spec(a: Self, b: Self) -> Self;

    spec fn mul_spec(a: Self, b: Self) -> Self;

    spec fn neg_spec(a: Self) -> Self;

    spec fn div_spec(a: Self, b: Self) -> Self;

    fn add(self, other: Self) -> (r: Self)
        ensures
            r == Self::add_spec(self, other),
    ;

    fn mul(self, other: Self) -> (r: Self)
        ensures
            r == Self::mul_spec(self, other),
    ;

    fn neg(self) -> (r: Self)
        ensures
            r == Self::neg_spec(self),
    ;

    fn div(self, other: Self) -> (r: Self)
        requires
            other != Self::zero_spec(),
        ensures
            r == Self::div_spec(self, other),
    ;

    /// a + 0 == a.
    proof fn law_add_zero(a: Self)
        ensures
            Self::add_spec(a, Self::zero_spec()) == a,
    ;

    /// 0 * a == 0.
    proof fn law_mul_zero_left(a: Self)
        ensures
            Self::mul_spec(Self::zero_spec(), a) == Self::zero_spec(),
    ;

    /// a * 0 == 0.
    proof fn law_mul_zero_right(a: Self)
        ensures
            Self::mul_spec(a, Self::zero_spec()) == Self::zero_spec(),
    ;

    /// -0 == 0.
    proof fn law_neg_zero()
        ensures
            Self::neg_spec(Self::zero_spec()) == Self::zero_spec(),
    ;

    /// 0 / b == 0 for nonzero b.
    proof fn law_div_zero(b: Self)
        requires
            b != Self::zero_spec(),
        ensures
            Self::div_spec(Self::zero_spec(), b) == Self::zero_spec(),
    ;

    /// a + b * (-(a / b)) == 0 for nonzero b: the fact that makes one
    /// elimination step clear a pivot column entry.
    proof fn law_cancel(a: Self, b: Self)
        requires
            b != Self::zero_spec(),
        ensures
            Self::add_spec(a, Self::mul_spec(b, Self::neg_spec(Self::div_spec(a, b))))
                == Self::zero_spec(),
    ;

    /// 0 + a == a.
    proof fn law_zero_add(a: Self)
        ensures
            Self::add_spec(Self::zero_spec(), a) == a,
    ;

    /// a + b == b + a.
    proof fn law_add_comm(a: Self, b: Self)
        ensures
            Self::add_spec(a, b) == Self::add_spec(b, a),
    ;

    /// (a + b) + c == a + (b + c).
    proof fn law_add_assoc(a: Self, b: Self, c: Self)
        ensures
            Self::add_spec(Self::add_spec(a, b), c) == Self::add_spec(a, Self::add_spec(b, c)),
    ;

    /// a + (-a) == 0.
    proof fn law_add_neg(a: Self)
        ensures
            Self::add_spec(a, Self::neg_spec(a)) == Self::zero_spec(),
    ;

    /// a * 1 == a.
    proof fn law_mul_one(a: Self)
        ensures
            Self::mul_spec(a, Self::one_spec()) == a,
    ;

    /// b * (a / b) == a for nonzero b.
    proof fn law_mul_div(a: Self, b: Self)
        requires
            b != Self::zero_spec(),
        ensures
            Self::mul_spec(b, Self::div_spec(a, b)) == a,
    ;

    /// a * (-b) == -(a * b).
    proof fn law_mul_neg(a: Self, b: Self)
        ensures
            Self::mul_spec(a, Self::neg_spec(b)) == Self::neg_spec(Self::mul_spec(a, b)),
    ;

    /// a * (u + v) == a * u + a * v.
    proof fn law_distribute(a: Self, u: Self, v: Self)
        ensures
            Self::mul_spec(a, Self::add_spec(u, v)) == Self::add_spec(
                Self::mul_spec(a, u),
                Self::mul_spec(a, v),
            ),
    ;
}

impl Scalar for i64 {
    open spec fn zero_spec() -> i64 {
        0
    }

    open spec fn one_spec() -> i64 {
        1
    }

    fn zero() -> (r: i64) {
        0
    }

    fn one() -> (r: i64) {
        1
    }

    fn is_zero(&self) -> (r: bool) {
        *self == 0
    }

    fn is_one(&self) -> (r: bool) {
        *self == 1
    }
}

/// The field with two elements: zero and one, addition is exclusive or,
/// multiplication is conjunction. The one scalar type for which this
/// library itself proves the `Field` laws.
#[derive(Clone, Copy, PartialEq, Eq, Debug)]
pub struct Gf2 {
    pub bit: bool,
}

impl Scalar for Gf2 {
    open spec fn zero_spec() -> Gf2 {
        Gf2 { bit: false }
    }

    open spec fn one_spec() -> Gf2 {
        Gf2 { bit: true }
    }

    fn zero() -> (r: Gf2) {
        Gf2 { bit: false }
    }

    fn one() -> (r: Gf2) {
        Gf2 { bit: true }
    }

    fn is_zero(&self) -> (r: bool) {
        !self.bit
    }

    fn is_one(&self) -> (r: bool) {
        self.bit
    }
}

impl Field for Gf2 {
    open spec fn add_spec(a: Gf2, b: Gf2) -> Gf2 {
        Gf2 { bit: a.bit != b.bit }
    }

    open spec fn mul_spec(a: Gf2, b: Gf2) -> Gf2 {
        Gf2 { bit: a.bit && b.bit }
    }

    open spec fn neg_spec(a: Gf2) -> Gf2 {
        a
    }

    open spec fn div_spec(a: Gf2, b: Gf2) -> Gf2 {
        a
    }

    fn add(self, other: Gf2) -> (r: Gf2) {
        Gf2 { bit: self.bit != other.bit }
    }

    fn mul(self, other: Gf2) -> (r: Gf2) {
        Gf2 { bit: self.bit && other.bit }
    }

    fn neg(self) -> (r: Gf2) {
        self
    }

    fn div(self, other: Gf2) -> (r: Gf2) {
        self
    }

    proof fn law_add_zero(a: Gf2) {
        assert(Gf2 { bit: a.bit } == a);
    }

    proof fn law_mul_zero_left(a: Gf2) {
    }

    proof fn law_mul_zero_right(a: Gf2) {
    }

    proof fn law_neg_zero() {
    }

    proof fn law_div_zero(b: Gf2) {
    }

    proof fn law_cancel(a: Gf2, b: Gf2) {
        assert(Gf2 { bit: a.bit != a.bit } == Gf2 { bit: false });
    }

    proof fn law_zero_add(a: Gf2) {
        assert(Gf2 { bit: false != a.bit } == a);
    }

    proof fn law_add_comm(a: Gf2, b: Gf2) {
        assert(Gf2 { bit: a.bit != b.bit } == Gf2 { bit: b.bit != a.bit });
    }

    proof fn law_add_assoc(a: Gf2, b: Gf2, c: Gf2) {
        assert(Gf2 { bit: (a.bit != b.bit) != c.bit } == Gf2 { bit: a.bit != (b.bit != c.bit) });
    }

    proof fn law_add_neg(a: Gf2) {
        assert(Gf2 { bit: a.bit != a.bit } == Gf2 { bit: false });
    }

    proof fn law_mul_one(a: Gf2) {
        assert(Gf2 { bit: a.bit && true } == a);
    }

    proof fn law_mul_div(a: Gf2, b: Gf2) {
        assert(b.bit);
        assert(Gf2 { bit: b.bit && a.bit } == a);
    }

    proof fn law_mul_neg(a: Gf2, b: Gf2) {
    }

    proof fn law_distribute(a: Gf2, u: Gf2, v: Gf2) {
        assert(Gf2 { bit: a.bit && (u.bit != v.bit) } == Gf2 {
            bit: (a.bit && u.bit) != (a.bit && v.bit),
        });
    }
}

} // verus!
