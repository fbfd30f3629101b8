//! The difference algebra: a commutative semigroup with a zero test.
//!
//! The weights carried by updates are `i64` values added with wrap-around,
//! that is the integers modulo 2^64. Contracts speak of sums as mathematical
//! integers and compare them up to a multiple of 2^64.

use vstd::prelude::*;

verus! {

/// The number of distinct weights.
pub open spec fn modulus() -> int {
    0x1_0000_0000_0000_0000
}

/// Two integers that name the same weight.
pub open spec fn congruent(a: int, b: int) -> bool {
    (a - b) % modulus() == 0
}

/// The sum of two weights.
pub open spec fn plus(a: i64, b: i64) -> i64 {
    vstd::wrapping::i64_specs::wrapping_add(a, b)
}

/// A type whose values can be added up, with a test for the neutral element.
pub trait Semigroup: Sized {
    /// The sum of two values.
    spec fn sum(self, rhs: Self) -> Self;

    /// The neutral element.
    spec fn neutral() -> Self;

    /// Adds `rhs` into `self`.
    fn plus_equals(&mut self, rhs: &Self)
        ensures
            *final(self) == old(self).sum(*rhs),
    ;

    /// Is this the neutral element?
    fn is_zero(&self) -> (r: bool)
        ensures
            r == (*self == Self::neutral()),
    ;

    /// The neutral element.
    fn zero() -> (r: Self)
        ensures
            r == Self::neutral(),
    ;
}

impl Semigroup for i64 {
    open spec fn sum(self, rhs: i64) -> i64 {
        plus(self, rhs)
    }

    open spec fn neutral() -> i64 {
        0
    }

    fn plus_equals(&mut self, rhs: &i64) {
        *self = self.wrapping_add(*rhs);
    }

    fn is_zero(&self) -> (r: bool) {
        *self == 0
    }

    fn zero() -> (r: i64) {
        0
    }
}

/// Every integer is congruent to itself.
pub proof fn lemma_congruent_refl(a: int)
    ensures
        congruent(a, a),
{
}

/// Congruence is symmetric.
pub proof fn lemma_congruent_sym(a: int, b: int)
    requires
        congruent(a, b),
    ensures
        congruent(b, a),
{
}

/// Congruence is transitive.
pub proof fn lemma_congruent_trans(a: int, b: int, c: int)
    requires
        congruent(a, b),
        congruent(b, c),
    ensures
        congruent(a, c),
{
}

/// Congruent summands give congruent sums.
pub proof fn lemma_congruent_add(a: int, b: int, c: int, d: int)
    requires
        congruent(a, b),
        congruent(c, d),
    ensures
        congruent(a + c, b + d),
{
}

/// Congruent terms give congruent differences.
pub proof fn lemma_congruent_sub(a: int, b: int, c: int, d: int)
    requires
        congruent(a, b),
        congruent(c, d),
    ensures
        congruent(a - c, b - d),
{
}

/// Two weights that are congruent are equal.
pub proof fn lemma_congruent_weights(a: i64, b: i64)
    requires
        congruent(a as int, b as int),
    ensures
        a == b,
{
}

/// The wrapped sum of two weights names their mathematical sum.
pub proof fn lemma_plus_congruent(a: i64, b: i64)
    ensures
        congruent(plus(a, b) as int, a + b),
{
}

/// Addition of weights is commutative.
pub proof fn lemma_plus_commutative(a: i64, b: i64)
    ensures
        plus(a, b) == plus(b, a),
{
}

/// Addition of weights is associative.
pub proof fn lemma_plus_associative(a: i64, b: i64, c: i64)
    ensures
        plus(plus(a, b), c) == plus(a, plus(b, c)),
{
}

/// Zero is neutral for the addition of weights.
pub proof fn lemma_plus_zero(a: i64)
    ensures
        plus(a, 0) == a,
        plus(0, a) == a,
{
}

} // verus!
