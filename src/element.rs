use vstd::prelude::*;

verus! {

/// An element of a semigroup.
///
/// Elements are read through their view. Two elements can be multiplied when they are
/// `compatible`: both valid and of one shape (for transformations, of one degree).
/// Equality of elements is equality of their views, and `Hash` must agree with `==`, as
/// std asks of every `Hash` impl: equal elements hash alike.
pub trait SemigroupElement: Sized + View + vstd::std_specs::cmp::PartialEqSpec + Eq + core::hash::Hash {
    /// Whether a view describes an element at all.
    spec fn valid(v: Self::V) -> bool;

    /// Elements multiply only with elements of the same shape.
    spec fn shape(v: Self::V) -> nat;

    /// The product of two elements.
    spec fn product(a: Self::V, b: Self::V) -> Self::V;

    /// Whether an element is a two-sided identity for the elements of its shape.
    spec fn spec_is_id(a: Self::V) -> bool;

    /// The hash code of an element; any function of the view will do.
    spec fn spec_hash(a: Self::V) -> u64;

    /// `==` on elements compares their views.
    proof fn lemma_eq_is_view_eq()
        ensures
            Self::obeys_eq_spec(),
            forall|a: Self, b: Self| a.eq_spec(&b) <==> a@ == b@,
    ;

    /// Products stay valid and keep the shape.
    proof fn lemma_product_closed(a: Self::V, b: Self::V)
        requires
            Self::valid(a) && Self::valid(b) && Self::shape(a) == Self::shape(b),
        ensures
            Self::valid(Self::product(a, b)),
            Self::shape(Self::product(a, b)) == Self::shape(a),
    ;

    /// Multiplication is associative.
    proof fn lemma_associative(a: Self::V, b: Self::V, c: Self::V)
        requires
            Self::valid(a) && Self::valid(b) && Self::shape(a) == Self::shape(b),
            Self::valid(b) && Self::valid(c) && Self::shape(b) == Self::shape(c),
        ensures
            Self::product(Self::product(a, b), c) == Self::product(a, Self::product(b, c)),
    ;

    /// An identity is neutral on both sides.
    proof fn lemma_identity(e: Self::V, a: Self::V)
        requires
            Self::spec_is_id(e),
            Self::valid(e) && Self::valid(a) && Self::shape(e) == Self::shape(a),
        ensures
            Self::product(e, a) == a,
            Self::product(a, e) == a,
    ;

    /// Multiply two elements together, producing a new element.
    fn multiply(&self, other: &Self) -> (r: Self)
        requires
            Self::valid(self@),
            Self::valid(other@),
            Self::shape(self@) == Self::shape(other@),
        ensures
            r@ == Self::product(self@, other@),
    ;

    /// Whether this element is the identity of the monoid of its shape.
    fn is_id(&self) -> (r: bool)
        ensures
            r == Self::spec_is_id(self@),
    ;

    /// The hash code of this element.
    fn hash_code(&self) -> (r: u64)
        ensures
            r == Self::spec_hash(self@),
    ;

    /// A copy of this element.
    fn duplicate(&self) -> (r: Self)
        ensures
            r@ == self@,
    ;
}

/// Two elements that can be multiplied with each other.
pub open spec fn compatible<T: SemigroupElement>(a: T::V, b: T::V) -> bool {
    &&& T::valid(a)
    &&& T::valid(b)
    &&& T::shape(a) == T::shape(b)
}

/// All elements of `s` can be multiplied with each other.
pub open spec fn all_compatible<T: SemigroupElement>(s: Seq<T::V>) -> bool {
    forall|i: int, j: int|
        0 <= i < s.len() && 0 <= j < s.len() ==> compatible::<T>(#[trigger] s[i], #[trigger] s[j])
}

} // verus!
