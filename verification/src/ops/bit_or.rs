//! Bitwise or.

use vstd::prelude::*;
use std::marker::PhantomData;
use crate::traits::Monoid;

verus! {

/// The monoid of `|`; its identity is `0`.
pub struct BitOr<T>(PhantomData<T>);

impl Monoid for BitOr<u32> {
    type Set = u32;

    const IS_COMMUTATIVE: bool = true;

    open spec fn id() -> u32 {
        0u32
    }

    open spec fn op(lhs: u32, rhs: u32) -> u32 {
        lhs | rhs
    }

    fn identity() -> (e: u32) {
        0u32
    }

    fn combine(lhs: &u32, rhs: &u32) -> (r: u32) {
        *lhs | *rhs
    }

    proof fn lemma_associative(a: u32, b: u32, c: u32) {
        assert((a | b) | c == a | (b | c)) by (bit_vector);
    }

    proof fn lemma_identity(a: u32) {
        assert(0u32 | a == a) by (bit_vector);
        assert(a | 0u32 == a) by (bit_vector);
    }

    proof fn lemma_commutative(a: u32, b: u32) {
        assert(a | b == b | a) by (bit_vector);
    }
}

impl Monoid for BitOr<u64> {
    type Set = u64;

    const IS_COMMUTATIVE: bool = true;

    open spec fn id() -> u64 {
        0u64
    }

    open spec fn op(lhs: u64, rhs: u64) -> u64 {
        lhs | rhs
    }

    fn identity() -> (e: u64) {
        0u64
    }

    fn combine(lhs: &u64, rhs: &u64) -> (r: u64) {
        *lhs | *rhs
    }

    proof fn lemma_associative(a: u64, b: u64, c: u64) {
        assert((a | b) | c == a | (b | c)) by (bit_vector);
    }

    proof fn lemma_identity(a: u64) {
        assert(0u64 | a == a) by (bit_vector);
        assert(a | 0u64 == a) by (bit_vector);
    }

    proof fn lemma_commutative(a: u64, b: u64) {
        assert(a | b == b | a) by (bit_vector);
    }
}

} // verus!
