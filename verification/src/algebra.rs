//! Algebraic abstractions: monoids, commutative monoids, groups and
//! abelian groups.
//!
//! Every container in this crate is generic over one of these traits.  An
//! implementor supplies the operator and identity twice, once at the
//! specification level (`spec_op`, `spec_e`) and once executably (`op`,
//! `e`), and must prove that the executable versions agree with the
//! specification and that the algebraic laws hold.

pub mod group;

use vstd::prelude::*;

verus! {

/// A monoid: a value type with an associative binary operator and a
/// two-sided identity element.
pub trait Monoid: Sized + Copy {
    /// The identity element, at the specification level.
    spec fn spec_e() -> Self;

    /// The binary operator, at the specification level.
    spec fn spec_op(a: Self, b: Self) -> Self;

    /// The operator is associative.
    proof fn lemma_assoc(a: Self, b: Self, c: Self)
        ensures
            Self::spec_op(Self::spec_op(a, b), c) == Self::spec_op(a, Self::spec_op(b, c)),
    ;

    /// The identity element is neutral on both sides.
    proof fn lemma_identity(a: Self)
        ensures
            Self::spec_op(Self::spec_e(), a) == a,
            Self::spec_op(a, Self::spec_e()) == a,
    ;

    /// The identity element.
    fn e() -> (r: Self)
        ensures
            r == Self::spec_e(),
    ;

    /// The binary operator.
    fn op(lhs: &Self, rhs: &Self) -> (r: Self)
        ensures
            r == Self::spec_op(*lhs, *rhs),
    ;
}

/// A commutative monoid: the operator additionally commutes.
pub trait ComMonoid: Monoid {
    /// The operator is commutative.
    proof fn lemma_comm(a: Self, b: Self)
        ensures
            Self::spec_op(a, b) == Self::spec_op(b, a),
    ;
}

/// A group: a monoid in which every value has a two-sided inverse.
pub trait Group: Monoid {
    /// The inverse, at the specification level.
    spec fn spec_inv(a: Self) -> Self;

    /// The inverse law.
    proof fn lemma_inv(a: Self)
        ensures
            Self::spec_op(Self::spec_inv(a), a) == Self::spec_e(),
            Self::spec_op(a, Self::spec_inv(a)) == Self::spec_e(),
    ;

    /// The inverse.
    fn inv(val: &Self) -> (r: Self)
        ensures
            r == Self::spec_inv(*val),
    ;

    /// Value equality.
    fn eq_val(lhs: &Self, rhs: &Self) -> (r: bool)
        ensures
            r == (lhs == rhs),
    ;
}

/// An abelian group: a group whose operator commutes.
pub trait Abelian: Group {
    /// The operator is commutative.
    proof fn lemma_abelian_comm(a: Self, b: Self)
        ensures
            Self::spec_op(a, b) == Self::spec_op(b, a),
    ;
}

} // verus!
