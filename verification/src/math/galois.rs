//! Finite fields.

use crate::math::abel::AbelianGroup;
use vstd::prelude::*;

pub mod binaryfield;
pub mod irreducible;
pub mod laws;
pub mod primefield;
pub mod squares;

verus! {

/// An element of a finite field.
///
/// The arithmetic of the field is stated over the numbers of its elements:
/// each element has the number `number()` in the field `structure()`, and
/// `add_in`, `sub_in`, `mul_in` and `inv_in` say what the operations do to
/// those numbers. Zero has the number zero and one the number one. The
/// elements of a field are numbered from zero up to its size.
pub trait FiniteField: AbelianGroup {
    /// Whether the structure `field` is a field: every element but zero
    /// has an inverse.
    spec fn is_field(field: nat) -> bool;

    /// The number of elements of `field`.
    spec fn size_of(field: nat) -> nat;

    /// The number of the sum of the elements with the numbers `a`, `b`.
    spec fn add_in(field: nat, a: nat, b: nat) -> nat;

    /// The number of the difference of the elements with the numbers `a`
    /// and `b`.
    spec fn sub_in(field: nat, a: nat, b: nat) -> nat;

    /// The number of the product of the elements with the numbers `a`, `b`.
    spec fn mul_in(field: nat, a: nat, b: nat) -> nat;

    /// The number of the inverse of the element with the number `a`, or
    /// `None` where it has none.
    spec fn inv_in(field: nat, a: nat) -> Option<nat>;

    /// The zero of the field that `self` belongs to.
    fn zero(&self) -> (r: Self)
        requires
            self.wf(),
        ensures
            r.wf(),
            r.structure() == self.structure(),
            r.number() == 0,
    ;

    /// An element of the field drawn at random.
    fn random(&self) -> (r: Self)
        requires
            self.wf(),
        ensures
            r.wf(),
            r.structure() == self.structure(),
    ;

    /// The characteristic of the field.
    fn char(&self) -> (r: Self::Uint)
        requires
            self.wf(),
    ;

    /// The sum of two elements of one field.
    fn plus(&self, other: &Self) -> (r: Self)
        requires
            self.wf(),
            other.wf(),
            self.structure() == other.structure(),
        ensures
            r.wf(),
            r.structure() == self.structure(),
            r.number() == Self::add_in(self.structure(), self.number(), other.number()),
    ;

    /// The difference of two elements of one field.
    fn minus(&self, other: &Self) -> (r: Self)
        requires
            self.wf(),
            other.wf(),
            self.structure() == other.structure(),
        ensures
            r.wf(),
            r.structure() == self.structure(),
            r.number() == Self::sub_in(self.structure(), self.number(), other.number()),
    ;

    /// The product of two elements of one field.
    fn times(&self, other: &Self) -> (r: Self)
        requires
            self.wf(),
            other.wf(),
            self.structure() == other.structure(),
        ensures
            r.wf(),
            r.structure() == self.structure(),
            r.number() == Self::mul_in(self.structure(), self.number(), other.number()),
    ;

    /// The inverse of the element, or `None` where it has none.
    fn reciprocal(&self) -> (r: Option<Self>)
        requires
            self.wf(),
        ensures
            r matches Some(i) ==> i.wf() && i.structure() == self.structure(),
            Self::is_field(self.structure()) ==> match r {
                Some(i) => Self::inv_in(self.structure(), self.number()) == Some(i.number()),
                None => Self::inv_in(self.structure(), self.number()).is_none(),
            },
    ;

    /// The element with the number `index` of the field that `self`
    /// belongs to, or `None` where the field has no such element.
    fn element(&self, index: u64) -> (r: Option<Self>)
        requires
            self.wf(),
        ensures
            r.is_some() <==> index < Self::size_of(self.structure()),
            r matches Some(x) ==> x.wf() && x.structure() == self.structure() && x.number()
                == index,
    ;

    /// The number of a valid element is below the size of its field.
    proof fn lemma_number_within(a: Self)
        requires
            a.wf(),
        ensures
            a.number() < Self::size_of(a.structure()),
    ;

    /// A valid element is determined by its field and its number.
    proof fn lemma_same_element(a: Self, b: Self)
        requires
            a.wf(),
            b.wf(),
            a.structure() == b.structure(),
            a.number() == b.number(),
        ensures
            a == b,
    ;

    /// A field has two elements or more.
    proof fn lemma_field_size(field: nat)
        requires
            Self::is_field(field),
        ensures
            Self::size_of(field) >= 2,
    ;

    /// The laws of a field, on the numbers of its elements.
    proof fn lemma_field_laws(field: nat, a: nat, b: nat, c: nat)
        requires
            Self::is_field(field),
            a < Self::size_of(field),
            b < Self::size_of(field),
            c < Self::size_of(field),
        ensures
            Self::add_in(field, a, b) < Self::size_of(field),
            Self::sub_in(field, a, b) < Self::size_of(field),
            Self::mul_in(field, a, b) < Self::size_of(field),
            Self::add_in(field, a, b) == Self::add_in(field, b, a),
            Self::add_in(field, Self::add_in(field, a, b), c) == Self::add_in(
                field,
                a,
                Self::add_in(field, b, c),
            ),
            Self::add_in(field, a, 0) == a,
            Self::add_in(field, Self::sub_in(field, a, b), b) == a,
            Self::mul_in(field, a, b) == Self::mul_in(field, b, a),
            Self::mul_in(field, Self::mul_in(field, a, b), c) == Self::mul_in(
                field,
                a,
                Self::mul_in(field, b, c),
            ),
            Self::mul_in(field, a, 1) == a,
            Self::mul_in(field, a, Self::add_in(field, b, c)) == Self::add_in(
                field,
                Self::mul_in(field, a, b),
                Self::mul_in(field, a, c),
            ),
            a != 0 ==> (Self::inv_in(field, a) matches Some(i) && i < Self::size_of(field)
                && Self::mul_in(field, a, i) == 1),
    ;

    /// In a field, the difference of two different elements has an
    /// inverse.
    proof fn lemma_difference_invertible(field: nat, a: nat, b: nat)
        requires
            Self::is_field(field),
            a < Self::size_of(field),
            b < Self::size_of(field),
            a != b,
        ensures
            Self::inv_in(field, Self::sub_in(field, a, b)).is_some(),
    ;
}

} // verus!
