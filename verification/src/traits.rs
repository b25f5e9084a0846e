//! The algebra that the segment tree variants are generic over.

use vstd::prelude::*;

verus! {

/// A set with an associative binary operation and an identity element.
///
/// ```text
/// (a · b) · c = a · (b · c)
/// e · a = a · e = a
/// ```
///
/// `op` and `id` are the mathematical operation and identity; `combine` and
/// `identity` compute them. The laws are proof obligations of every
/// implementation, so the engines may rely on them.
pub trait Monoid {
    type Set;

    /// Whether `a · b = b · a` for all elements. Engines may skip work when it
    /// holds; `false` is always a safe answer.
    const IS_COMMUTATIVE: bool;

    /// The identity element.
    spec fn id() -> Self::Set;

    /// The binary operation.
    spec fn op(lhs: Self::Set, rhs: Self::Set) -> Self::Set;

    /// Returns the identity element.
    fn identity() -> (e: Self::Set)
        ensures
            e == Self::id(),
    ;

    /// Combines two elements. The order of the arguments matters unless the
    /// operation is commutative.
    fn combine(lhs: &Self::Set, rhs: &Self::Set) -> (r: Self::Set)
        ensures
            r == Self::op(*lhs, *rhs),
    ;

    /// `(a · b) · c = a · (b · c)`
    proof fn lemma_associative(a: Self::Set, b: Self::Set, c: Self::Set)
        ensures
            Self::op(Self::op(a, b), c) == Self::op(a, Self::op(b, c)),
    ;

    /// `e · a = a · e = a`
    proof fn lemma_identity(a: Self::Set)
        ensures
            Self::op(Self::id(), a) == a,
            Self::op(a, Self::id()) == a,
    ;

    /// `a · b = b · a`, where the monoid declares itself commutative.
    proof fn lemma_commutative(a: Self::Set, b: Self::Set)
        ensures
            Self::IS_COMMUTATIVE ==> Self::op(a, b) == Self::op(b, a),
    ;
}

/// The number of positions of a segment, as the laws of an action speak of
/// it. An implementation outside verified code names the type by this alias.
pub type Size = nat;

/// A monoid of maps acting on a monoid of elements.
///
/// Writing `f * a` for `apply(f, a, n)` on a segment of `n` positions:
///
/// ```text
/// (f · g) * a = f * (g * a)
/// e * a = a
/// f * (a · b) = (f * a) · (f * b)      sizes add: |a · b| = |a| + |b|
/// ```
///
/// `f · g` is therefore "`g` first, then `f`".
pub trait MonoidAction {
    type Map: Monoid;

    type Set: Monoid;

    /// Whether `act` reads the segment size.
    const USE_SEGMENT_SIZE: bool;

    /// The segment sizes that `act` can represent in the element type.
    spec fn size_ok(size: nat) -> bool;

    /// The action on the aggregate of a segment of `size` positions.
    spec fn apply(
        mapping: <Self::Map as Monoid>::Set,
        element: <Self::Set as Monoid>::Set,
        size: nat,
    ) -> <Self::Set as Monoid>::Set;

    /// Acts on the aggregate of a segment. `size` is the number of positions
    /// in the segment; an action that does not read it accepts `None`.
    fn act(
        mapping: &<Self::Map as Monoid>::Set,
        element: &<Self::Set as Monoid>::Set,
        size: Option<usize>,
    ) -> (r: <Self::Set as Monoid>::Set)
        requires
            Self::USE_SEGMENT_SIZE ==> size is Some,
            size matches Some(n) ==> Self::size_ok(n as nat),
        ensures
            r == Self::apply(*mapping, *element, size_or_one(size)),
    ;

    /// Every size up to a representable one is representable.
    proof fn lemma_size_ok(size: nat, smaller: nat)
        requires
            Self::size_ok(size),
            smaller <= size,
        ensures
            Self::size_ok(smaller),
    ;

    /// An action that does not read the size gives the same result for all sizes.
    proof fn lemma_size_unused(
        mapping: <Self::Map as Monoid>::Set,
        element: <Self::Set as Monoid>::Set,
        size: nat,
        other: nat,
    )
        ensures
            !Self::USE_SEGMENT_SIZE ==> Self::apply(mapping, element, size) == Self::apply(
                mapping,
                element,
                other,
            ),
    ;

    /// `(f · g) * a = f * (g * a)`
    proof fn lemma_act_combine(
        f: <Self::Map as Monoid>::Set,
        g: <Self::Map as Monoid>::Set,
        element: <Self::Set as Monoid>::Set,
        size: nat,
    )
        ensures
            Self::apply(<Self::Map as Monoid>::op(f, g), element, size) == Self::apply(
                f,
                Self::apply(g, element, size),
                size,
            ),
    ;

    /// `e * a = a`
    proof fn lemma_act_identity(element: <Self::Set as Monoid>::Set, size: nat)
        ensures
            Self::apply(<Self::Map as Monoid>::id(), element, size) == element,
    ;

    /// `f * (a · b) = (f * a) · (f * b)`, the sizes of `a` and `b` adding up.
    proof fn lemma_act_distributes(
        mapping: <Self::Map as Monoid>::Set,
        a: <Self::Set as Monoid>::Set,
        size_a: nat,
        b: <Self::Set as Monoid>::Set,
        size_b: nat,
    )
        ensures
            Self::apply(mapping, <Self::Set as Monoid>::op(a, b), size_a + size_b)
                == <Self::Set as Monoid>::op(
                Self::apply(mapping, a, size_a),
                Self::apply(mapping, b, size_b),
            ),
    ;
}

/// The size that an action is applied with: the given one, or 1.
pub open spec fn size_or_one(size: Option<usize>) -> nat {
    match size {
        Some(n) => n as nat,
        None => 1,
    }
}

} // verus!
