//! Minimum.

use vstd::prelude::*;
use std::marker::PhantomData;
use crate::traits::Monoid;

verus! {

/// The monoid of `min` on `Option<T>`; its identity is `None`, which
/// stands for "no element".
pub struct Min<T>(PhantomData<T>);

impl Monoid for Min<usize> {
    type Set = Option<usize>;

    const IS_COMMUTATIVE: bool = true;

    open spec fn id() -> Option<usize> {
        None
    }

    open spec fn op(lhs: Option<usize>, rhs: Option<usize>) -> Option<usize> {
        match (lhs, rhs) {
            (None, _) => rhs,
            (_, None) => lhs,
            (Some(a), Some(b)) => Some(if a <= b {
                a
            } else {
                b
            }),
        }
    }

    fn identity() -> (e: Option<usize>) {
        None
    }

    fn combine(lhs: &Option<usize>, rhs: &Option<usize>) -> (r: Option<usize>) {
        match (lhs, rhs) {
            (None, _) => *rhs,
            (_, None) => *lhs,
            (Some(a), Some(b)) => Some(if *a <= *b {
                *a
            } else {
                *b
            }),
        }
    }

    proof fn lemma_associative(a: Option<usize>, b: Option<usize>, c: Option<usize>) {
    }

    proof fn lemma_identity(a: Option<usize>) {
    }

    proof fn lemma_commutative(a: Option<usize>, b: Option<usize>) {
    }
}

impl Monoid for Min<isize> {
    type Set = Option<isize>;

    const IS_COMMUTATIVE: bool = true;

    open spec fn id() -> Option<isize> {
        None
    }

    open spec fn op(lhs: Option<isize>, rhs: Option<isize>) -> Option<isize> {
        match (lhs, rhs) {
            (None, _) => rhs,
            (_, None) => lhs,
            (Some(a), Some(b)) => Some(if a <= b {
                a
            } else {
                b
            }),
        }
    }

    fn identity() -> (e: Option<isize>) {
        None
    }

    fn combine(lhs: &Option<isize>, rhs: &Option<isize>) -> (r: Option<isize>) {
        match (lhs, rhs) {
            (None, _) => *rhs,
            (_, None) => *lhs,
            (Some(a), Some(b)) => Some(if *a <= *b {
                *a
            } else {
                *b
            }),
        }
    }

    proof fn lemma_associative(a: Option<isize>, b: Option<isize>, c: Option<isize>) {
    }

    proof fn lemma_identity(a: Option<isize>) {
    }

    proof fn lemma_commutative(a: Option<isize>, b: Option<isize>) {
    }
}

impl Monoid for Min<u32> {
    type Set = Option<u32>;

    const IS_COMMUTATIVE: bool = true;

    open spec fn id() -> Option<u32> {
        None
    }

    open spec fn op(lhs: Option<u32>, rhs: Option<u32>) -> Option<u32> {
        match (lhs, rhs) {
            (None, _) => rhs,
            (_, None) => lhs,
            (Some(a), Some(b)) => Some(if a <= b {
                a
            } else {
                b
            }),
        }
    }

    fn identity() -> (e: Option<u32>) {
        None
    }

    fn combine(lhs: &Option<u32>, rhs: &Option<u32>) -> (r: Option<u32>) {
        match (lhs, rhs) {
            (None, _) => *rhs,
            (_, None) => *lhs,
            (Some(a), Some(b)) => Some(if *a <= *b {
                *a
            } else {
                *b
            }),
        }
    }

    proof fn lemma_associative(a: Option<u32>, b: Option<u32>, c: Option<u32>) {
    }

    proof fn lemma_identity(a: Option<u32>) {
    }

    proof fn lemma_commutative(a: Option<u32>, b: Option<u32>) {
    }
}

impl Monoid for Min<i32> {
    type Set = Option<i32>;

    const IS_COMMUTATIVE: bool = true;

    open spec fn id() -> Option<i32> {
        None
    }

    open spec fn op(lhs: Option<i32>, rhs: Option<i32>) -> Option<i32> {
        match (lhs, rhs) {
            (None, _) => rhs,
            (_, None) => lhs,
            (Some(a), Some(b)) => Some(if a <= b {
                a
            } else {
                b
            }),
        }
    }

    fn identity() -> (e: Option<i32>) {
        None
    }

    fn combine(lhs: &Option<i32>, rhs: &Option<i32>) -> (r: Option<i32>) {
        match (lhs, rhs) {
            (None, _) => *rhs,
            (_, None) => *lhs,
            (Some(a), Some(b)) => Some(if *a <= *b {
                *a
            } else {
                *b
            }),
        }
    }

    proof fn lemma_associative(a: Option<i32>, b: Option<i32>, c: Option<i32>) {
    }

    proof fn lemma_identity(a: Option<i32>) {
    }

    proof fn lemma_commutative(a: Option<i32>, b: Option<i32>) {
    }
}

impl Monoid for Min<u64> {
    type Set = Option<u64>;

    const IS_COMMUTATIVE: bool = true;

    open spec fn id() -> Option<u64> {
        None
    }

    open spec fn op(lhs: Option<u64>, rhs: Option<u64>) -> Option<u64> {
        match (lhs, rhs) {
            (None, _) => rhs,
            (_, None) => lhs,
            (Some(a), Some(b)) => Some(if a <= b {
                a
            } else {
                b
            }),
        }
    }

    fn identity() -> (e: Option<u64>) {
        None
    }

    fn combine(lhs: &Option<u64>, rhs: &Option<u64>) -> (r: Option<u64>) {
        match (lhs, rhs) {
            (None, _) => *rhs,
            (_, None) => *lhs,
            (Some(a), Some(b)) => Some(if *a <= *b {
                *a
            } else {
                *b
            }),
        }
    }

    proof fn lemma_associative(a: Option<u64>, b: Option<u64>, c: Option<u64>) {
    }

    proof fn lemma_identity(a: Option<u64>) {
    }

    proof fn lemma_commutative(a: Option<u64>, b: Option<u64>) {
    }
}

impl Monoid for Min<i64> {
    type Set = Option<i64>;

    const IS_COMMUTATIVE: bool = true;

    open spec fn id() -> Option<i64> {
        None
    }

    open spec fn op(lhs: Option<i64>, rhs: Option<i64>) -> Option<i64> {
        match (lhs, rhs) {
            (None, _) => rhs,
            (_, None) => lhs,
            (Some(a), Some(b)) => Some(if a <= b {
                a
            } else {
                b
            }),
        }
    }

    fn identity() -> (e: Option<i64>) {
        None
    }

    fn combine(lhs: &Option<i64>, rhs: &Option<i64>) -> (r: Option<i64>) {
        match (lhs, rhs) {
            (None, _) => *rhs,
            (_, None) => *lhs,
            (Some(a), Some(b)) => Some(if *a <= *b {
                *a
            } else {
                *b
            }),
        }
    }

    proof fn lemma_associative(a: Option<i64>, b: Option<i64>, c: Option<i64>) {
    }

    proof fn lemma_identity(a: Option<i64>) {
    }

    proof fn lemma_commutative(a: Option<i64>, b: Option<i64>) {
    }
}

} // verus!
