//! Assignment, or another map.

use vstd::prelude::*;
use crate::traits::Monoid;

verus! {

/// The maps of a monoid `M` together with assignments: `Assign(Some(a))`
/// assigns `a`, `Assign(None)` does nothing and `Other(x)` is the map `x` of
/// `M`, which turns an assigned `a` into `x · a`.
///
/// `f · g` is `g` first, then `f`; the identity is `Assign(None)`.
pub enum AssignOr<M: Monoid> {
    Assign(Option<M::Set>),
    Other(M::Set),
}

impl<M: Monoid> Monoid for AssignOr<M> {
    type Set = AssignOr<M>;

    const IS_COMMUTATIVE: bool = false;

    open spec fn id() -> AssignOr<M> {
        AssignOr::Assign(None)
    }

    open spec fn op(lhs: AssignOr<M>, rhs: AssignOr<M>) -> AssignOr<M> {
        match lhs {
            AssignOr::Assign(Some(a)) => AssignOr::Assign(Some(a)),
            AssignOr::Assign(None) => rhs,
            AssignOr::Other(x) => match rhs {
                AssignOr::Assign(Some(b)) => AssignOr::Assign(Some(M::op(x, b))),
                AssignOr::Assign(None) => AssignOr::Other(x),
                AssignOr::Other(y) => AssignOr::Other(M::op(x, y)),
            },
        }
    }

    fn identity() -> (e: AssignOr<M>) {
        AssignOr::Assign(None)
    }

    fn combine(lhs: &AssignOr<M>, rhs: &AssignOr<M>) -> (r: AssignOr<M>) {
        let e = M::identity();
        match lhs {
            AssignOr::Assign(Some(a)) => {
                proof {
                    M::lemma_identity(*a);
                }
                AssignOr::Assign(Some(M::combine(a, &e)))
            },
            AssignOr::Assign(None) => match rhs {
                AssignOr::Assign(Some(b)) => {
                    proof {
                        M::lemma_identity(*b);
                    }
                    AssignOr::Assign(Some(M::combine(b, &e)))
                },
                AssignOr::Assign(None) => AssignOr::Assign(None),
                AssignOr::Other(y) => {
                    proof {
                        M::lemma_identity(*y);
                    }
                    AssignOr::Other(M::combine(y, &e))
                },
            },
            AssignOr::Other(x) => match rhs {
                AssignOr::Assign(Some(b)) => AssignOr::Assign(Some(M::combine(x, b))),
                AssignOr::Assign(None) => {
                    proof {
                        M::lemma_identity(*x);
                    }
                    AssignOr::Other(M::combine(x, &e))
                },
                AssignOr::Other(y) => AssignOr::Other(M::combine(x, y)),
            },
        }
    }

    proof fn lemma_associative(a: AssignOr<M>, b: AssignOr<M>, c: AssignOr<M>) {
        match (a, b, c) {
            (AssignOr::Other(x), AssignOr::Other(y), AssignOr::Assign(Some(z))) => {
                M::lemma_associative(x, y, z);
            },
            (AssignOr::Other(x), AssignOr::Other(y), AssignOr::Other(z)) => {
                M::lemma_associative(x, y, z);
            },
            _ => {},
        }
    }

    proof fn lemma_identity(a: AssignOr<M>) {
    }

    proof fn lemma_commutative(a: AssignOr<M>, b: AssignOr<M>) {
    }
}

} // verus!
