//! Assignment.

use vstd::prelude::*;
use std::marker::PhantomData;
use crate::traits::Monoid;

verus! {

/// The monoid of `=`: `Some(a)` assigns `a`, and of two assignments the
/// later one stands. `f · g` is `g` first, then `f`. Its identity is `None`,
/// which assigns nothing.
pub struct Assign<T>(PhantomData<T>);

impl<T: Copy> Monoid for Assign<T> {
    type Set = Option<T>;

    const IS_COMMUTATIVE: bool = false;

    open spec fn id() -> Option<T> {
        None
    }

    open spec fn op(lhs: Option<T>, rhs: Option<T>) -> Option<T> {
        match lhs {
            Some(_) => lhs,
            None => rhs,
        }
    }

    fn identity() -> (e: Option<T>) {
        None
    }

    fn combine(lhs: &Option<T>, rhs: &Option<T>) -> (r: Option<T>) {
        match lhs {
            Some(_) => *lhs,
            None => *rhs,
        }
    }

    proof fn lemma_associative(a: Option<T>, b: Option<T>, c: Option<T>) {
    }

    proof fn lemma_identity(a: Option<T>) {
    }

    proof fn lemma_commutative(a: Option<T>, b: Option<T>) {
    }
}

} // verus!
