//! Addition.

use vstd::prelude::*;
use std::marker::PhantomData;
use crate::traits::Monoid;

verus! {

/// The monoid of `+`, wrapping around at the bounds of the type; its
/// identity is `0`.
pub struct Add<T>(PhantomData<T>);

impl Monoid for Add<usize> {
    type Set = usize;

    const IS_COMMUTATIVE: bool = true;

    open spec fn id() -> usize {
        0
    }

    open spec fn op(lhs: usize, rhs: usize) -> usize {
        lhs.wrapping_add(rhs)
    }

    fn identity() -> (e: usize) {
        0
    }

    fn combine(lhs: &usize, rhs: &usize) -> (r: usize) {
        lhs.wrapping_add(*rhs)
    }

    proof fn lemma_associative(a: usize, b: usize, c: usize) {
    }

    proof fn lemma_identity(a: usize) {
    }

    proof fn lemma_commutative(a: usize, b: usize) {
    }
}

impl Monoid for Add<isize> {
    type Set = isize;

    const IS_COMMUTATIVE: bool = true;

    open spec fn id() -> isize {
        0
    }

    open spec fn op(lhs: isize, rhs: isize) -> isize {
        lhs.wrapping_add(rhs)
    }

    fn identity() -> (e: isize) {
        0
    }

    fn combine(lhs: &isize, rhs: &isize) -> (r: isize) {
        lhs.wrapping_add(*rhs)
    }

    proof fn lemma_associative(a: isize, b: isize, c: isize) {
    }

    proof fn lemma_identity(a: isize) {
    }

    proof fn lemma_commutative(a: isize, b: isize) {
    }
}

impl Monoid for Add<u32> {
    type Set = u32;

    const IS_COMMUTATIVE: bool = true;

    open spec fn id() -> u32 {
        0
    }

    open spec fn op(lhs: u32, rhs: u32) -> u32 {
        lhs.wrapping_add(rhs)
    }

    fn identity() -> (e: u32) {
        0
    }

    fn combine(lhs: &u32, rhs: &u32) -> (r: u32) {
        lhs.wrapping_add(*rhs)
    }

    proof fn lemma_associative(a: u32, b: u32, c: u32) {
    }

    proof fn lemma_identity(a: u32) {
    }

    proof fn lemma_commutative(a: u32, b: u32) {
    }
}

impl Monoid for Add<i32> {
    type Set = i32;

    const IS_COMMUTATIVE: bool = true;

    open spec fn id() -> i32 {
        0
    }

    open spec fn op(lhs: i32, rhs: i32) -> i32 {
        lhs.wrapping_add(rhs)
    }

    fn identity() -> (e: i32) {
        0
    }

    fn combine(lhs: &i32, rhs: &i32) -> (r: i32) {
        lhs.wrapping_add(*rhs)
    }

    proof fn lemma_associative(a: i32, b: i32, c: i32) {
    }

    proof fn lemma_identity(a: i32) {
    }

    proof fn lemma_commutative(a: i32, b: i32) {
    }
}

impl Monoid for Add<u64> {
    type Set = u64;

    const IS_COMMUTATIVE: bool = true;

    open spec fn id() -> u64 {
        0
    }

    open spec fn op(lhs: u64, rhs: u64) -> u64 {
        lhs.wrapping_add(rhs)
    }

    fn identity() -> (e: u64) {
        0
    }

    fn combine(lhs: &u64, rhs: &u64) -> (r: u64) {
        lhs.wrapping_add(*rhs)
    }

    proof fn lemma_associative(a: u64, b: u64, c: u64) {
    }

    proof fn lemma_identity(a: u64) {
    }

    proof fn lemma_commutative(a: u64, b: u64) {
    }
}

impl Monoid for Add<i64> {
    type Set = i64;

    const IS_COMMUTATIVE: bool = true;

    open spec fn id() -> i64 {
        0
    }

    open spec fn op(lhs: i64, rhs: i64) -> i64 {
        lhs.wrapping_add(rhs)
    }

    fn identity() -> (e: i64) {
        0
    }

    fn combine(lhs: &i64, rhs: &i64) -> (r: i64) {
        lhs.wrapping_add(*rhs)
    }

    proof fn lemma_associative(a: i64, b: i64, c: i64) {
    }

    proof fn lemma_identity(a: i64) {
    }

    proof fn lemma_commutative(a: i64, b: i64) {
    }
}

} // verus!
