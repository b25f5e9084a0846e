//! Affine maps.

use vstd::prelude::*;
use std::marker::PhantomData;
use crate::traits::Monoid;
use crate::ring::lemma_affine_associative;
use crate::ring::{lemma_wrapping_i32, lemma_wrapping_i64, lemma_wrapping_u32, lemma_wrapping_u64};

verus! {

/// The monoid of the affine maps `x -> a * x + b`, written `[a, b]`, under
/// composition: `f · g` is `g` first, then `f`. The arithmetic wraps around
/// at the bounds of the type. Its identity is `[1, 0]`.
pub struct Affine<T>(PhantomData<T>);

impl Monoid for Affine<i32> {
    type Set = [i32; 2];

    const IS_COMMUTATIVE: bool = false;

    open spec fn id() -> [i32; 2] {
        [1, 0]
    }

    open spec fn op(lhs: [i32; 2], rhs: [i32; 2]) -> [i32; 2] {
        [lhs[0].wrapping_mul(rhs[0]), lhs[0].wrapping_mul(rhs[1]).wrapping_add(lhs[1])]
    }

    fn identity() -> (e: [i32; 2]) {
        [1, 0]
    }

    fn combine(lhs: &[i32; 2], rhs: &[i32; 2]) -> (r: [i32; 2]) {
        [lhs[0].wrapping_mul(rhs[0]), lhs[0].wrapping_mul(rhs[1]).wrapping_add(lhs[1])]
    }

    proof fn lemma_associative(a: [i32; 2], b: [i32; 2], c: [i32; 2]) {
        let lo = i32::MIN as int;
        let range = 0x1_0000_0000int;
        let ab = Self::op(a, b);
        let bc = Self::op(b, c);
        lemma_wrapping_i32(a[0], b[0]);
        lemma_wrapping_i32(a[0], b[1]);
        lemma_wrapping_i32(a[0].wrapping_mul(b[1]), a[1]);
        lemma_wrapping_i32(b[0], c[0]);
        lemma_wrapping_i32(b[0], c[1]);
        lemma_wrapping_i32(b[0].wrapping_mul(c[1]), b[1]);
        lemma_wrapping_i32(ab[0], c[0]);
        lemma_wrapping_i32(ab[0], c[1]);
        lemma_wrapping_i32(ab[0].wrapping_mul(c[1]), ab[1]);
        lemma_wrapping_i32(a[0], bc[0]);
        lemma_wrapping_i32(a[0], bc[1]);
        lemma_wrapping_i32(a[0].wrapping_mul(bc[1]), a[1]);
        lemma_affine_associative(
            a[0] as int,
            a[1] as int,
            b[0] as int,
            b[1] as int,
            c[0] as int,
            c[1] as int,
            lo,
            range,
        );
        assert(Self::op(ab, c)@ =~= Self::op(a, bc)@);
    }

    proof fn lemma_identity(a: [i32; 2]) {
        let e = Self::id();
        lemma_wrapping_i32(1, a[0]);
        lemma_wrapping_i32(1, a[1]);
        lemma_wrapping_i32((1 as i32).wrapping_mul(a[1]), 0);
        lemma_wrapping_i32(a[0], 1);
        lemma_wrapping_i32(a[0], 0);
        lemma_wrapping_i32(a[0].wrapping_mul(0), a[1]);
        assert(1 * a[0] == a[0] && 1 * a[1] == a[1] && a[0] * 1 == a[0] && a[0] * 0 == 0);
        let left = Self::op(e, a);
        let right = Self::op(a, e);
        assert(left[0] == a[0] && left[1] == a[1]);
        assert(right[0] == a[0] && right[1] == a[1]);
        assert(left@ =~= a@);
        assert(right@ =~= a@);
        assert(left == a);
        assert(right == a);
    }

    proof fn lemma_commutative(a: [i32; 2], b: [i32; 2]) {
    }
}

impl Monoid for Affine<i64> {
    type Set = [i64; 2];

    const IS_COMMUTATIVE: bool = false;

    open spec fn id() -> [i64; 2] {
        [1, 0]
    }

    open spec fn op(lhs: [i64; 2], rhs: [i64; 2]) -> [i64; 2] {
        [lhs[0].wrapping_mul(rhs[0]), lhs[0].wrapping_mul(rhs[1]).wrapping_add(lhs[1])]
    }

    fn identity() -> (e: [i64; 2]) {
        [1, 0]
    }

    fn combine(lhs: &[i64; 2], rhs: &[i64; 2]) -> (r: [i64; 2]) {
        [lhs[0].wrapping_mul(rhs[0]), lhs[0].wrapping_mul(rhs[1]).wrapping_add(lhs[1])]
    }

    proof fn lemma_associative(a: [i64; 2], b: [i64; 2], c: [i64; 2]) {
        let lo = i64::MIN as int;
        let range = 0x1_0000_0000_0000_0000int;
        let ab = Self::op(a, b);
        let bc = Self::op(b, c);
        lemma_wrapping_i64(a[0], b[0]);
        lemma_wrapping_i64(a[0], b[1]);
        lemma_wrapping_i64(a[0].wrapping_mul(b[1]), a[1]);
        lemma_wrapping_i64(b[0], c[0]);
        lemma_wrapping_i64(b[0], c[1]);
        lemma_wrapping_i64(b[0].wrapping_mul(c[1]), b[1]);
        lemma_wrapping_i64(ab[0], c[0]);
        lemma_wrapping_i64(ab[0], c[1]);
        lemma_wrapping_i64(ab[0].wrapping_mul(c[1]), ab[1]);
        lemma_wrapping_i64(a[0], bc[0]);
        lemma_wrapping_i64(a[0], bc[1]);
        lemma_wrapping_i64(a[0].wrapping_mul(bc[1]), a[1]);
        lemma_affine_associative(
            a[0] as int,
            a[1] as int,
            b[0] as int,
            b[1] as int,
            c[0] as int,
            c[1] as int,
            lo,
            range,
        );
        assert(Self::op(ab, c)@ =~= Self::op(a, bc)@);
    }

    proof fn lemma_identity(a: [i64; 2]) {
        let e = Self::id();
        lemma_wrapping_i64(1, a[0]);
        lemma_wrapping_i64(1, a[1]);
        lemma_wrapping_i64((1 as i64).wrapping_mul(a[1]), 0);
        lemma_wrapping_i64(a[0], 1);
        lemma_wrapping_i64(a[0], 0);
        lemma_wrapping_i64(a[0].wrapping_mul(0), a[1]);
        assert(1 * a[0] == a[0] && 1 * a[1] == a[1] && a[0] * 1 == a[0] && a[0] * 0 == 0);
        let left = Self::op(e, a);
        let right = Self::op(a, e);
        assert(left[0] == a[0] && left[1] == a[1]);
        assert(right[0] == a[0] && right[1] == a[1]);
        assert(left@ =~= a@);
        assert(right@ =~= a@);
        assert(left == a);
        assert(right == a);
    }

    proof fn lemma_commutative(a: [i64; 2], b: [i64; 2]) {
    }
}

impl Monoid for Affine<u32> {
    type Set = [u32; 2];

    const IS_COMMUTATIVE: bool = false;

    open spec fn id() -> [u32; 2] {
        [1, 0]
    }

    open spec fn op(lhs: [u32; 2], rhs: [u32; 2]) -> [u32; 2] {
        [lhs[0].wrapping_mul(rhs[0]), lhs[0].wrapping_mul(rhs[1]).wrapping_add(lhs[1])]
    }

    fn identity() -> (e: [u32; 2]) {
        [1, 0]
    }

    fn combine(lhs: &[u32; 2], rhs: &[u32; 2]) -> (r: [u32; 2]) {
        [lhs[0].wrapping_mul(rhs[0]), lhs[0].wrapping_mul(rhs[1]).wrapping_add(lhs[1])]
    }

    proof fn lemma_associative(a: [u32; 2], b: [u32; 2], c: [u32; 2]) {
        let lo = u32::MIN as int;
        let range = 0x1_0000_0000int;
        let ab = Self::op(a, b);
        let bc = Self::op(b, c);
        lemma_wrapping_u32(a[0], b[0]);
        lemma_wrapping_u32(a[0], b[1]);
        lemma_wrapping_u32(a[0].wrapping_mul(b[1]), a[1]);
        lemma_wrapping_u32(b[0], c[0]);
        lemma_wrapping_u32(b[0], c[1]);
        lemma_wrapping_u32(b[0].wrapping_mul(c[1]), b[1]);
        lemma_wrapping_u32(ab[0], c[0]);
        lemma_wrapping_u32(ab[0], c[1]);
        lemma_wrapping_u32(ab[0].wrapping_mul(c[1]), ab[1]);
        lemma_wrapping_u32(a[0], bc[0]);
        lemma_wrapping_u32(a[0], bc[1]);
        lemma_wrapping_u32(a[0].wrapping_mul(bc[1]), a[1]);
        lemma_affine_associative(
            a[0] as int,
            a[1] as int,
            b[0] as int,
            b[1] as int,
            c[0] as int,
            c[1] as int,
            lo,
            range,
        );
        assert(Self::op(ab, c)@ =~= Self::op(a, bc)@);
    }

    proof fn lemma_identity(a: [u32; 2]) {
        let e = Self::id();
        lemma_wrapping_u32(1, a[0]);
        lemma_wrapping_u32(1, a[1]);
        lemma_wrapping_u32((1 as u32).wrapping_mul(a[1]), 0);
        lemma_wrapping_u32(a[0], 1);
        lemma_wrapping_u32(a[0], 0);
        lemma_wrapping_u32(a[0].wrapping_mul(0), a[1]);
        assert(1 * a[0] == a[0] && 1 * a[1] == a[1] && a[0] * 1 == a[0] && a[0] * 0 == 0);
        let left = Self::op(e, a);
        let right = Self::op(a, e);
        assert(left[0] == a[0] && left[1] == a[1]);
        assert(right[0] == a[0] && right[1] == a[1]);
        assert(left@ =~= a@);
        assert(right@ =~= a@);
        assert(left == a);
        assert(right == a);
    }

    proof fn lemma_commutative(a: [u32; 2], b: [u32; 2]) {
    }
}

impl Monoid for Affine<u64> {
    type Set = [u64; 2];

    const IS_COMMUTATIVE: bool = false;

    open spec fn id() -> [u64; 2] {
        [1, 0]
    }

    open spec fn op(lhs: [u64; 2], rhs: [u64; 2]) -> [u64; 2] {
        [lhs[0].wrapping_mul(rhs[0]), lhs[0].wrapping_mul(rhs[1]).wrapping_add(lhs[1])]
    }

    fn identity() -> (e: [u64; 2]) {
        [1, 0]
    }

    fn combine(lhs: &[u64; 2], rhs: &[u64; 2]) -> (r: [u64; 2]) {
        [lhs[0].wrapping_mul(rhs[0]), lhs[0].wrapping_mul(rhs[1]).wrapping_add(lhs[1])]
    }

    proof fn lemma_associative(a: [u64; 2], b: [u64; 2], c: [u64; 2]) {
        let lo = u64::MIN as int;
        let range = 0x1_0000_0000_0000_0000int;
        let ab = Self::op(a, b);
        let bc = Self::op(b, c);
        lemma_wrapping_u64(a[0], b[0]);
        lemma_wrapping_u64(a[0], b[1]);
        lemma_wrapping_u64(a[0].wrapping_mul(b[1]), a[1]);
        lemma_wrapping_u64(b[0], c[0]);
        lemma_wrapping_u64(b[0], c[1]);
        lemma_wrapping_u64(b[0].wrapping_mul(c[1]), b[1]);
        lemma_wrapping_u64(ab[0], c[0]);
        lemma_wrapping_u64(ab[0], c[1]);
        lemma_wrapping_u64(ab[0].wrapping_mul(c[1]), ab[1]);
        lemma_wrapping_u64(a[0], bc[0]);
        lemma_wrapping_u64(a[0], bc[1]);
        lemma_wrapping_u64(a[0].wrapping_mul(bc[1]), a[1]);
        lemma_affine_associative(
            a[0] as int,
            a[1] as int,
            b[0] as int,
            b[1] as int,
            c[0] as int,
            c[1] as int,
            lo,
            range,
        );
        assert(Self::op(ab, c)@ =~= Self::op(a, bc)@);
    }

    proof fn lemma_identity(a: [u64; 2]) {
        let e = Self::id();
        lemma_wrapping_u64(1, a[0]);
        lemma_wrapping_u64(1, a[1]);
        lemma_wrapping_u64((1 as u64).wrapping_mul(a[1]), 0);
        lemma_wrapping_u64(a[0], 1);
        lemma_wrapping_u64(a[0], 0);
        lemma_wrapping_u64(a[0].wrapping_mul(0), a[1]);
        assert(1 * a[0] == a[0] && 1 * a[1] == a[1] && a[0] * 1 == a[0] && a[0] * 0 == 0);
        let left = Self::op(e, a);
        let right = Self::op(a, e);
        assert(left[0] == a[0] && left[1] == a[1]);
        assert(right[0] == a[0] && right[1] == a[1]);
        assert(left@ =~= a@);
        assert(right@ =~= a@);
        assert(left == a);
        assert(right == a);
    }

    proof fn lemma_commutative(a: [u64; 2], b: [u64; 2]) {
    }
}

} // verus!
