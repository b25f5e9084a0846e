//! Multiplication.

use vstd::prelude::*;
use std::marker::PhantomData;
use crate::traits::Monoid;
use crate::ring::lemma_wrap_mul_associative;
use crate::ring::{lemma_wrapping_i32, lemma_wrapping_i64, lemma_wrapping_u32, lemma_wrapping_u64};

verus! {

/// The monoid of `*`, wrapping around at the bounds of the type; its
/// identity is `1`.
pub struct Mul<T>(PhantomData<T>);

impl Monoid for Mul<i32> {
    type Set = i32;

    const IS_COMMUTATIVE: bool = true;

    open spec fn id() -> i32 {
        1
    }

    open spec fn op(lhs: i32, rhs: i32) -> i32 {
        lhs.wrapping_mul(rhs)
    }

    fn identity() -> (e: i32) {
        1
    }

    fn combine(lhs: &i32, rhs: &i32) -> (r: i32) {
        lhs.wrapping_mul(*rhs)
    }

    proof fn lemma_associative(a: i32, b: i32, c: i32) {
        lemma_wrapping_i32(a, b);
        lemma_wrapping_i32(b, c);
        lemma_wrapping_i32(a.wrapping_mul(b), c);
        lemma_wrapping_i32(a, b.wrapping_mul(c));
        lemma_wrap_mul_associative(a as int, b as int, c as int, i32::MIN as int, 0x1_0000_0000);
    }

    proof fn lemma_identity(a: i32) {
        lemma_wrapping_i32(1, a);
        lemma_wrapping_i32(a, 1);
        assert(1 * a == a && a * 1 == a);
    }

    proof fn lemma_commutative(a: i32, b: i32) {
        lemma_wrapping_i32(a, b);
        lemma_wrapping_i32(b, a);
        assert(a * b == b * a) by (nonlinear_arith);
    }
}

impl Monoid for Mul<i64> {
    type Set = i64;

    const IS_COMMUTATIVE: bool = true;

    open spec fn id() -> i64 {
        1
    }

    open spec fn op(lhs: i64, rhs: i64) -> i64 {
        lhs.wrapping_mul(rhs)
    }

    fn identity() -> (e: i64) {
        1
    }

    fn combine(lhs: &i64, rhs: &i64) -> (r: i64) {
        lhs.wrapping_mul(*rhs)
    }

    proof fn lemma_associative(a: i64, b: i64, c: i64) {
        lemma_wrapping_i64(a, b);
        lemma_wrapping_i64(b, c);
        lemma_wrapping_i64(a.wrapping_mul(b), c);
        lemma_wrapping_i64(a, b.wrapping_mul(c));
        lemma_wrap_mul_associative(a as int, b as int, c as int, i64::MIN as int, 0x1_0000_0000_0000_0000);
    }

    proof fn lemma_identity(a: i64) {
        lemma_wrapping_i64(1, a);
        lemma_wrapping_i64(a, 1);
        assert(1 * a == a && a * 1 == a);
    }

    proof fn lemma_commutative(a: i64, b: i64) {
        lemma_wrapping_i64(a, b);
        lemma_wrapping_i64(b, a);
        assert(a * b == b * a) by (nonlinear_arith);
    }
}

impl Monoid for Mul<u32> {
    type Set = u32;

    const IS_COMMUTATIVE: bool = true;

    open spec fn id() -> u32 {
        1
    }

    open spec fn op(lhs: u32, rhs: u32) -> u32 {
        lhs.wrapping_mul(rhs)
    }

    fn identity() -> (e: u32) {
        1
    }

    fn combine(lhs: &u32, rhs: &u32) -> (r: u32) {
        lhs.wrapping_mul(*rhs)
    }

    proof fn lemma_associative(a: u32, b: u32, c: u32) {
        lemma_wrapping_u32(a, b);
        lemma_wrapping_u32(b, c);
        lemma_wrapping_u32(a.wrapping_mul(b), c);
        lemma_wrapping_u32(a, b.wrapping_mul(c));
        lemma_wrap_mul_associative(a as int, b as int, c as int, u32::MIN as int, 0x1_0000_0000);
    }

    proof fn lemma_identity(a: u32) {
        lemma_wrapping_u32(1, a);
        lemma_wrapping_u32(a, 1);
        assert(1 * a == a && a * 1 == a);
    }

    proof fn lemma_commutative(a: u32, b: u32) {
        lemma_wrapping_u32(a, b);
        lemma_wrapping_u32(b, a);
        assert(a * b == b * a) by (nonlinear_arith);
    }
}

impl Monoid for Mul<u64> {
    type Set = u64;

    const IS_COMMUTATIVE: bool = true;

    open spec fn id() -> u64 {
        1
    }

    open spec fn op(lhs: u64, rhs: u64) -> u64 {
        lhs.wrapping_mul(rhs)
    }

    fn identity() -> (e: u64) {
        1
    }

    fn combine(lhs: &u64, rhs: &u64) -> (r: u64) {
        lhs.wrapping_mul(*rhs)
    }

    proof fn lemma_associative(a: u64, b: u64, c: u64) {
        lemma_wrapping_u64(a, b);
        lemma_wrapping_u64(b, c);
        lemma_wrapping_u64(a.wrapping_mul(b), c);
        lemma_wrapping_u64(a, b.wrapping_mul(c));
        lemma_wrap_mul_associative(a as int, b as int, c as int, u64::MIN as int, 0x1_0000_0000_0000_0000);
    }

    proof fn lemma_identity(a: u64) {
        lemma_wrapping_u64(1, a);
        lemma_wrapping_u64(a, 1);
        assert(1 * a == a && a * 1 == a);
    }

    proof fn lemma_commutative(a: u64, b: u64) {
        lemma_wrapping_u64(a, b);
        lemma_wrapping_u64(b, a);
        assert(a * b == b * a) by (nonlinear_arith);
    }
}

} // verus!
