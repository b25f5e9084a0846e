//! Predefined monoid actions.
//!
//! Use [`AssignSegmentTree`](crate::assign::AssignSegmentTree) for range
//! assignments.

use vstd::prelude::*;
use std::marker::PhantomData;
use crate::traits::MonoidAction;
use crate::ops::{Add, Affine, Mul};
use crate::ring::{
    scaled, shifted, mapped, lemma_wrap, lemma_wrap_small, lemma_shifted, lemma_mapped,
    lemma_wrap_mul_associative, lemma_scaled_distributes, lemma_shifted_combine,
    lemma_shifted_distributes, lemma_mapped_combine, lemma_mapped_distributes,
};
use crate::ring::{lemma_wrapping_i32, lemma_wrapping_i64, lemma_wrapping_u32, lemma_wrapping_u64};

verus! {

/// **Range sum query, range add update**: the map `f` adds `f` to every
/// element, and so `f * size` to the sum of a segment.
pub struct AddQueryAddUpdate<T>(PhantomData<T>);

/// **Range sum query, range affine update**: the map `[a, b]` replaces
/// every element `x` by `a * x + b`, and so the sum `s` of a segment by
/// `a * s + size * b`.
pub struct AddQueryAffineUpdate<T>(PhantomData<T>);

/// **Range sum query, range multiply update**: the map `f` multiplies every
/// element, and so the sum of a segment, by `f`.
pub struct AddQueryMulUpdate<T>(PhantomData<T>);

/// Converts a segment size to `i32` with `num_traits::FromPrimitive::from_usize`,
/// which gives `None` exactly where `i32` cannot represent the size.
#[verifier::external_body]
fn size_as_i32(size: usize) -> (converted: Option<i32>)
    ensures
        converted == (if size <= i32::MAX {
            Some(size as i32)
        } else {
            None
        }),
{
    <i32 as num_traits::FromPrimitive>::from_usize(size)
}

impl MonoidAction for AddQueryAddUpdate<i32> {
    type Map = Add<i32>;

    type Set = Add<i32>;

    const USE_SEGMENT_SIZE: bool = true;

    open spec fn size_ok(size: nat) -> bool {
        size <= i32::MAX
    }

    open spec fn apply(mapping: i32, element: i32, size: nat) -> i32 {
        shifted(mapping as int, element as int, size as int, i32::MIN as int, 0x1_0000_0000) as i32
    }

    fn act(mapping: &i32, element: &i32, size: Option<usize>) -> (r: i32) {
        let size = size_as_i32(size.unwrap()).unwrap();
        proof {
            lemma_wrapping_i32(*mapping, size);
            lemma_wrapping_i32(mapping.wrapping_mul(size), *element);
        }
        mapping.wrapping_mul(size).wrapping_add(*element)
    }

    proof fn lemma_size_ok(size: nat, smaller: nat) {
    }

    proof fn lemma_size_unused(mapping: i32, element: i32, size: nat, other: nat) {
    }

    proof fn lemma_act_combine(f: i32, g: i32, element: i32, size: nat) {
        let lo = i32::MIN as int;
        let range = 0x1_0000_0000int;
        lemma_wrapping_i32(f, g);
        lemma_shifted(g as int, element as int, size as int, lo, range);
        lemma_wrap(g * size + element, lo, range);
        lemma_shifted_combine(f as int, g as int, element as int, size as int, lo, range);
    }

    proof fn lemma_act_identity(element: i32, size: nat) {
        let lo = i32::MIN as int;
        let range = 0x1_0000_0000int;
        lemma_shifted(0, element as int, size as int, lo, range);
        assert(0 * (size as int) == 0);
        lemma_wrap_small(element as int, lo, range);
    }

    proof fn lemma_act_distributes(mapping: i32, a: i32, size_a: nat, b: i32, size_b: nat) {
        let lo = i32::MIN as int;
        let range = 0x1_0000_0000int;
        lemma_wrapping_i32(a, b);
        lemma_shifted(mapping as int, a as int, size_a as int, lo, range);
        lemma_shifted(mapping as int, b as int, size_b as int, lo, range);
        lemma_wrap(mapping * size_a + a, lo, range);
        lemma_wrap(mapping * size_b + b, lo, range);
        lemma_wrapping_i32(Self::apply(mapping, a, size_a), Self::apply(mapping, b, size_b));
        lemma_shifted_distributes(
            mapping as int,
            a as int,
            size_a as int,
            b as int,
            size_b as int,
            lo,
            range,
        );
    }
}

impl MonoidAction for AddQueryAffineUpdate<i32> {
    type Map = Affine<i32>;

    type Set = Add<i32>;

    const USE_SEGMENT_SIZE: bool = true;

    open spec fn size_ok(size: nat) -> bool {
        size <= i32::MAX
    }

    open spec fn apply(mapping: [i32; 2], element: i32, size: nat) -> i32 {
        mapped(
            mapping[0] as int,
            mapping[1] as int,
            element as int,
            size as int,
            i32::MIN as int,
            0x1_0000_0000,
        ) as i32
    }

    fn act(mapping: &[i32; 2], element: &i32, size: Option<usize>) -> (r: i32) {
        let size = size_as_i32(size.unwrap()).unwrap();
        proof {
            lemma_wrapping_i32(mapping[0], *element);
            lemma_wrapping_i32(size, mapping[1]);
            lemma_wrapping_i32(mapping[0].wrapping_mul(*element), size.wrapping_mul(mapping[1]));
        }
        mapping[0].wrapping_mul(*element).wrapping_add(size.wrapping_mul(mapping[1]))
    }

    proof fn lemma_size_ok(size: nat, smaller: nat) {
    }

    proof fn lemma_size_unused(mapping: [i32; 2], element: i32, size: nat, other: nat) {
    }

    proof fn lemma_act_combine(f: [i32; 2], g: [i32; 2], element: i32, size: nat) {
        let lo = i32::MIN as int;
        let range = 0x1_0000_0000int;
        lemma_wrapping_i32(f[0], g[0]);
        lemma_wrapping_i32(f[0], g[1]);
        lemma_wrapping_i32(f[0].wrapping_mul(g[1]), f[1]);
        lemma_mapped(g[0] as int, g[1] as int, element as int, size as int, lo, range);
        lemma_wrap(g[0] * element + size * g[1], lo, range);
        lemma_mapped_combine(
            f[0] as int,
            f[1] as int,
            g[0] as int,
            g[1] as int,
            element as int,
            size as int,
            lo,
            range,
        );
    }

    proof fn lemma_act_identity(element: i32, size: nat) {
        let lo = i32::MIN as int;
        let range = 0x1_0000_0000int;
        lemma_mapped(1, 0, element as int, size as int, lo, range);
        assert(1 * (element as int) == element && (size as int) * 0 == 0);
        lemma_wrap_small(element as int, lo, range);
    }

    proof fn lemma_act_distributes(mapping: [i32; 2], a: i32, size_a: nat, b: i32, size_b: nat) {
        let lo = i32::MIN as int;
        let range = 0x1_0000_0000int;
        lemma_wrapping_i32(a, b);
        lemma_mapped(mapping[0] as int, mapping[1] as int, a as int, size_a as int, lo, range);
        lemma_mapped(mapping[0] as int, mapping[1] as int, b as int, size_b as int, lo, range);
        lemma_wrap(mapping[0] * a + size_a * mapping[1], lo, range);
        lemma_wrap(mapping[0] * b + size_b * mapping[1], lo, range);
        lemma_wrapping_i32(Self::apply(mapping, a, size_a), Self::apply(mapping, b, size_b));
        lemma_mapped_distributes(
            mapping[0] as int,
            mapping[1] as int,
            a as int,
            size_a as int,
            b as int,
            size_b as int,
            lo,
            range,
        );
    }
}

impl MonoidAction for AddQueryMulUpdate<i32> {
    type Map = Mul<i32>;

    type Set = Add<i32>;

    const USE_SEGMENT_SIZE: bool = false;

    open spec fn size_ok(size: nat) -> bool {
        true
    }

    open spec fn apply(mapping: i32, element: i32, size: nat) -> i32 {
        scaled(mapping as int, element as int, i32::MIN as int, 0x1_0000_0000) as i32
    }

    fn act(mapping: &i32, element: &i32, size: Option<usize>) -> (r: i32) {
        proof {
            lemma_wrapping_i32(*mapping, *element);
        }
        mapping.wrapping_mul(*element)
    }

    proof fn lemma_size_ok(size: nat, smaller: nat) {
    }

    proof fn lemma_size_unused(mapping: i32, element: i32, size: nat, other: nat) {
    }

    proof fn lemma_act_combine(f: i32, g: i32, element: i32, size: nat) {
        let lo = i32::MIN as int;
        let range = 0x1_0000_0000int;
        lemma_wrapping_i32(f, g);
        lemma_wrap(g * element, lo, range);
        lemma_wrap_mul_associative(f as int, g as int, element as int, lo, range);
    }

    proof fn lemma_act_identity(element: i32, size: nat) {
        let lo = i32::MIN as int;
        let range = 0x1_0000_0000int;
        assert(1 * (element as int) == element);
        lemma_wrap_small(element as int, lo, range);
    }

    proof fn lemma_act_distributes(mapping: i32, a: i32, size_a: nat, b: i32, size_b: nat) {
        let lo = i32::MIN as int;
        let range = 0x1_0000_0000int;
        lemma_wrapping_i32(a, b);
        lemma_wrap(mapping * a, lo, range);
        lemma_wrap(mapping * b, lo, range);
        lemma_wrapping_i32(Self::apply(mapping, a, size_a), Self::apply(mapping, b, size_b));
        lemma_scaled_distributes(mapping as int, a as int, b as int, lo, range);
    }
}

/// Converts a segment size to `i64` with `num_traits::FromPrimitive::from_usize`,
/// which gives `None` exactly where `i64` cannot represent the size.
#[verifier::external_body]
fn size_as_i64(size: usize) -> (converted: Option<i64>)
    ensures
        converted == (if size <= i64::MAX {
            Some(size as i64)
        } else {
            None
        }),
{
    <i64 as num_traits::FromPrimitive>::from_usize(size)
}

impl MonoidAction for AddQueryAddUpdate<i64> {
    type Map = Add<i64>;

    type Set = Add<i64>;

    const USE_SEGMENT_SIZE: bool = true;

    open spec fn size_ok(size: nat) -> bool {
        size <= i64::MAX
    }

    open spec fn apply(mapping: i64, element: i64, size: nat) -> i64 {
        shifted(mapping as int, element as int, size as int, i64::MIN as int, 0x1_0000_0000_0000_0000) as i64
    }

    fn act(mapping: &i64, element: &i64, size: Option<usize>) -> (r: i64) {
        let size = size_as_i64(size.unwrap()).unwrap();
        proof {
            lemma_wrapping_i64(*mapping, size);
            lemma_wrapping_i64(mapping.wrapping_mul(size), *element);
        }
        mapping.wrapping_mul(size).wrapping_add(*element)
    }

    proof fn lemma_size_ok(size: nat, smaller: nat) {
    }

    proof fn lemma_size_unused(mapping: i64, element: i64, size: nat, other: nat) {
    }

    proof fn lemma_act_combine(f: i64, g: i64, element: i64, size: nat) {
        let lo = i64::MIN as int;
        let range = 0x1_0000_0000_0000_0000int;
        lemma_wrapping_i64(f, g);
        lemma_shifted(g as int, element as int, size as int, lo, range);
        lemma_wrap(g * size + element, lo, range);
        lemma_shifted_combine(f as int, g as int, element as int, size as int, lo, range);
    }

    proof fn lemma_act_identity(element: i64, size: nat) {
        let lo = i64::MIN as int;
        let range = 0x1_0000_0000_0000_0000int;
        lemma_shifted(0, element as int, size as int, lo, range);
        assert(0 * (size as int) == 0);
        lemma_wrap_small(element as int, lo, range);
    }

    proof fn lemma_act_distributes(mapping: i64, a: i64, size_a: nat, b: i64, size_b: nat) {
        let lo = i64::MIN as int;
        let range = 0x1_0000_0000_0000_0000int;
        lemma_wrapping_i64(a, b);
        lemma_shifted(mapping as int, a as int, size_a as int, lo, range);
        lemma_shifted(mapping as int, b as int, size_b as int, lo, range);
        lemma_wrap(mapping * size_a + a, lo, range);
        lemma_wrap(mapping * size_b + b, lo, range);
        lemma_wrapping_i64(Self::apply(mapping, a, size_a), Self::apply(mapping, b, size_b));
        lemma_shifted_distributes(
            mapping as int,
            a as int,
            size_a as int,
            b as int,
            size_b as int,
            lo,
            range,
        );
    }
}

impl MonoidAction for AddQueryAffineUpdate<i64> {
    type Map = Affine<i64>;

    type Set = Add<i64>;

    const USE_SEGMENT_SIZE: bool = true;

    open spec fn size_ok(size: nat) -> bool {
        size <= i64::MAX
    }

    open spec fn apply(mapping: [i64; 2], element: i64, size: nat) -> i64 {
        mapped(
            mapping[0] as int,
            mapping[1] as int,
            element as int,
            size as int,
            i64::MIN as int,
            0x1_0000_0000_0000_0000,
        ) as i64
    }

    fn act(mapping: &[i64; 2], element: &i64, size: Option<usize>) -> (r: i64) {
        let size = size_as_i64(size.unwrap()).unwrap();
        proof {
            lemma_wrapping_i64(mapping[0], *element);
            lemma_wrapping_i64(size, mapping[1]);
            lemma_wrapping_i64(mapping[0].wrapping_mul(*element), size.wrapping_mul(mapping[1]));
        }
        mapping[0].wrapping_mul(*element).wrapping_add(size.wrapping_mul(mapping[1]))
    }

    proof fn lemma_size_ok(size: nat, smaller: nat) {
    }

    proof fn lemma_size_unused(mapping: [i64; 2], element: i64, size: nat, other: nat) {
    }

    proof fn lemma_act_combine(f: [i64; 2], g: [i64; 2], element: i64, size: nat) {
        let lo = i64::MIN as int;
        let range = 0x1_0000_0000_0000_0000int;
        lemma_wrapping_i64(f[0], g[0]);
        lemma_wrapping_i64(f[0], g[1]);
        lemma_wrapping_i64(f[0].wrapping_mul(g[1]), f[1]);
        lemma_mapped(g[0] as int, g[1] as int, element as int, size as int, lo, range);
        lemma_wrap(g[0] * element + size * g[1], lo, range);
        lemma_mapped_combine(
            f[0] as int,
            f[1] as int,
            g[0] as int,
            g[1] as int,
            element as int,
            size as int,
            lo,
            range,
        );
    }

    proof fn lemma_act_identity(element: i64, size: nat) {
        let lo = i64::MIN as int;
        let range = 0x1_0000_0000_0000_0000int;
        lemma_mapped(1, 0, element as int, size as int, lo, range);
        assert(1 * (element as int) == element && (size as int) * 0 == 0);
        lemma_wrap_small(element as int, lo, range);
    }

    proof fn lemma_act_distributes(mapping: [i64; 2], a: i64, size_a: nat, b: i64, size_b: nat) {
        let lo = i64::MIN as int;
        let range = 0x1_0000_0000_0000_0000int;
        lemma_wrapping_i64(a, b);
        lemma_mapped(mapping[0] as int, mapping[1] as int, a as int, size_a as int, lo, range);
        lemma_mapped(mapping[0] as int, mapping[1] as int, b as int, size_b as int, lo, range);
        lemma_wrap(mapping[0] * a + size_a * mapping[1], lo, range);
        lemma_wrap(mapping[0] * b + size_b * mapping[1], lo, range);
        lemma_wrapping_i64(Self::apply(mapping, a, size_a), Self::apply(mapping, b, size_b));
        lemma_mapped_distributes(
            mapping[0] as int,
            mapping[1] as int,
            a as int,
            size_a as int,
            b as int,
            size_b as int,
            lo,
            range,
        );
    }
}

impl MonoidAction for AddQueryMulUpdate<i64> {
    type Map = Mul<i64>;

    type Set = Add<i64>;

    const USE_SEGMENT_SIZE: bool = false;

    open spec fn size_ok(size: nat) -> bool {
        true
    }

    open spec fn apply(mapping: i64, element: i64, size: nat) -> i64 {
        scaled(mapping as int, element as int, i64::MIN as int, 0x1_0000_0000_0000_0000) as i64
    }

    fn act(mapping: &i64, element: &i64, size: Option<usize>) -> (r: i64) {
        proof {
            lemma_wrapping_i64(*mapping, *element);
        }
        mapping.wrapping_mul(*element)
    }

    proof fn lemma_size_ok(size: nat, smaller: nat) {
    }

    proof fn lemma_size_unused(mapping: i64, element: i64, size: nat, other: nat) {
    }

    proof fn lemma_act_combine(f: i64, g: i64, element: i64, size: nat) {
        let lo = i64::MIN as int;
        let range = 0x1_0000_0000_0000_0000int;
        lemma_wrapping_i64(f, g);
        lemma_wrap(g * element, lo, range);
        lemma_wrap_mul_associative(f as int, g as int, element as int, lo, range);
    }

    proof fn lemma_act_identity(element: i64, size: nat) {
        let lo = i64::MIN as int;
        let range = 0x1_0000_0000_0000_0000int;
        assert(1 * (element as int) == element);
        lemma_wrap_small(element as int, lo, range);
    }

    proof fn lemma_act_distributes(mapping: i64, a: i64, size_a: nat, b: i64, size_b: nat) {
        let lo = i64::MIN as int;
        let range = 0x1_0000_0000_0000_0000int;
        lemma_wrapping_i64(a, b);
        lemma_wrap(mapping * a, lo, range);
        lemma_wrap(mapping * b, lo, range);
        lemma_wrapping_i64(Self::apply(mapping, a, size_a), Self::apply(mapping, b, size_b));
        lemma_scaled_distributes(mapping as int, a as int, b as int, lo, range);
    }
}

/// Converts a segment size to `u32` with `num_traits::FromPrimitive::from_usize`,
/// which gives `None` exactly where `u32` cannot represent the size.
#[verifier::external_body]
fn size_as_u32(size: usize) -> (converted: Option<u32>)
    ensures
        converted == (if size <= u32::MAX {
            Some(size as u32)
        } else {
            None
        }),
{
    <u32 as num_traits::FromPrimitive>::from_usize(size)
}

impl MonoidAction for AddQueryAddUpdate<u32> {
    type Map = Add<u32>;

    type Set = Add<u32>;

    const USE_SEGMENT_SIZE: bool = true;

    open spec fn size_ok(size: nat) -> bool {
        size <= u32::MAX
    }

    open spec fn apply(mapping: u32, element: u32, size: nat) -> u32 {
        shifted(mapping as int, element as int, size as int, u32::MIN as int, 0x1_0000_0000) as u32
    }

    fn act(mapping: &u32, element: &u32, size: Option<usize>) -> (r: u32) {
        let size = size_as_u32(size.unwrap()).unwrap();
        proof {
            lemma_wrapping_u32(*mapping, size);
            lemma_wrapping_u32(mapping.wrapping_mul(size), *element);
        }
        mapping.wrapping_mul(size).wrapping_add(*element)
    }

    proof fn lemma_size_ok(size: nat, smaller: nat) {
    }

    proof fn lemma_size_unused(mapping: u32, element: u32, size: nat, other: nat) {
    }

    proof fn lemma_act_combine(f: u32, g: u32, element: u32, size: nat) {
        let lo = u32::MIN as int;
        let range = 0x1_0000_0000int;
        lemma_wrapping_u32(f, g);
        lemma_shifted(g as int, element as int, size as int, lo, range);
        lemma_wrap(g * size + element, lo, range);
        lemma_shifted_combine(f as int, g as int, element as int, size as int, lo, range);
    }

    proof fn lemma_act_identity(element: u32, size: nat) {
        let lo = u32::MIN as int;
        let range = 0x1_0000_0000int;
        lemma_shifted(0, element as int, size as int, lo, range);
        assert(0 * (size as int) == 0);
        lemma_wrap_small(element as int, lo, range);
    }

    proof fn lemma_act_distributes(mapping: u32, a: u32, size_a: nat, b: u32, size_b: nat) {
        let lo = u32::MIN as int;
        let range = 0x1_0000_0000int;
        lemma_wrapping_u32(a, b);
        lemma_shifted(mapping as int, a as int, size_a as int, lo, range);
        lemma_shifted(mapping as int, b as int, size_b as int, lo, range);
        lemma_wrap(mapping * size_a + a, lo, range);
        lemma_wrap(mapping * size_b + b, lo, range);
        lemma_wrapping_u32(Self::apply(mapping, a, size_a), Self::apply(mapping, b, size_b));
        lemma_shifted_distributes(
            mapping as int,
            a as int,
            size_a as int,
            b as int,
            size_b as int,
            lo,
            range,
        );
    }
}

impl MonoidAction for AddQueryAffineUpdate<u32> {
    type Map = Affine<u32>;

    type Set = Add<u32>;

    const USE_SEGMENT_SIZE: bool = true;

    open spec fn size_ok(size: nat) -> bool {
        size <= u32::MAX
    }

    open spec fn apply(mapping: [u32; 2], element: u32, size: nat) -> u32 {
        mapped(
            mapping[0] as int,
            mapping[1] as int,
            element as int,
            size as int,
            u32::MIN as int,
            0x1_0000_0000,
        ) as u32
    }

    fn act(mapping: &[u32; 2], element: &u32, size: Option<usize>) -> (r: u32) {
        let size = size_as_u32(size.unwrap()).unwrap();
        proof {
            lemma_wrapping_u32(mapping[0], *element);
            lemma_wrapping_u32(size, mapping[1]);
            lemma_wrapping_u32(mapping[0].wrapping_mul(*element), size.wrapping_mul(mapping[1]));
        }
        mapping[0].wrapping_mul(*element).wrapping_add(size.wrapping_mul(mapping[1]))
    }

    proof fn lemma_size_ok(size: nat, smaller: nat) {
    }

    proof fn lemma_size_unused(mapping: [u32; 2], element: u32, size: nat, other: nat) {
    }

    proof fn lemma_act_combine(f: [u32; 2], g: [u32; 2], element: u32, size: nat) {
        let lo = u32::MIN as int;
        let range = 0x1_0000_0000int;
        lemma_wrapping_u32(f[0], g[0]);
        lemma_wrapping_u32(f[0], g[1]);
        lemma_wrapping_u32(f[0].wrapping_mul(g[1]), f[1]);
        lemma_mapped(g[0] as int, g[1] as int, element as int, size as int, lo, range);
        lemma_wrap(g[0] * element + size * g[1], lo, range);
        lemma_mapped_combine(
            f[0] as int,
            f[1] as int,
            g[0] as int,
            g[1] as int,
            element as int,
            size as int,
            lo,
            range,
        );
    }

    proof fn lemma_act_identity(element: u32, size: nat) {
        let lo = u32::MIN as int;
        let range = 0x1_0000_0000int;
        lemma_mapped(1, 0, element as int, size as int, lo, range);
        assert(1 * (element as int) == element && (size as int) * 0 == 0);
        lemma_wrap_small(element as int, lo, range);
    }

    proof fn lemma_act_distributes(mapping: [u32; 2], a: u32, size_a: nat, b: u32, size_b: nat) {
        let lo = u32::MIN as int;
        let range = 0x1_0000_0000int;
        lemma_wrapping_u32(a, b);
        lemma_mapped(mapping[0] as int, mapping[1] as int, a as int, size_a as int, lo, range);
        lemma_mapped(mapping[0] as int, mapping[1] as int, b as int, size_b as int, lo, range);
        lemma_wrap(mapping[0] * a + size_a * mapping[1], lo, range);
        lemma_wrap(mapping[0] * b + size_b * mapping[1], lo, range);
        lemma_wrapping_u32(Self::apply(mapping, a, size_a), Self::apply(mapping, b, size_b));
        lemma_mapped_distributes(
            mapping[0] as int,
            mapping[1] as int,
            a as int,
            size_a as int,
            b as int,
            size_b as int,
            lo,
            range,
        );
    }
}

impl MonoidAction for AddQueryMulUpdate<u32> {
    type Map = Mul<u32>;

    type Set = Add<u32>;

    const USE_SEGMENT_SIZE: bool = false;

    open spec fn size_ok(size: nat) -> bool {
        true
    }

    open spec fn apply(mapping: u32, element: u32, size: nat) -> u32 {
        scaled(mapping as int, element as int, u32::MIN as int, 0x1_0000_0000) as u32
    }

    fn act(mapping: &u32, element: &u32, size: Option<usize>) -> (r: u32) {
        proof {
            lemma_wrapping_u32(*mapping, *element);
        }
        mapping.wrapping_mul(*element)
    }

    proof fn lemma_size_ok(size: nat, smaller: nat) {
    }

    proof fn lemma_size_unused(mapping: u32, element: u32, size: nat, other: nat) {
    }

    proof fn lemma_act_combine(f: u32, g: u32, element: u32, size: nat) {
        let lo = u32::MIN as int;
        let range = 0x1_0000_0000int;
        lemma_wrapping_u32(f, g);
        lemma_wrap(g * element, lo, range);
        lemma_wrap_mul_associative(f as int, g as int, element as int, lo, range);
    }

    proof fn lemma_act_identity(element: u32, size: nat) {
        let lo = u32::MIN as int;
        let range = 0x1_0000_0000int;
        assert(1 * (element as int) == element);
        lemma_wrap_small(element as int, lo, range);
    }

    proof fn lemma_act_distributes(mapping: u32, a: u32, size_a: nat, b: u32, size_b: nat) {
        let lo = u32::MIN as int;
        let range = 0x1_0000_0000int;
        lemma_wrapping_u32(a, b);
        lemma_wrap(mapping * a, lo, range);
        lemma_wrap(mapping * b, lo, range);
        lemma_wrapping_u32(Self::apply(mapping, a, size_a), Self::apply(mapping, b, size_b));
        lemma_scaled_distributes(mapping as int, a as int, b as int, lo, range);
    }
}

/// Converts a segment size to `u64` with `num_traits::FromPrimitive::from_usize`,
/// which gives `None` exactly where `u64` cannot represent the size.
#[verifier::external_body]
fn size_as_u64(size: usize) -> (converted: Option<u64>)
    ensures
        converted == (if size <= u64::MAX {
            Some(size as u64)
        } else {
            None
        }),
{
    <u64 as num_traits::FromPrimitive>::from_usize(size)
}

impl MonoidAction for AddQueryAddUpdate<u64> {
    type Map = Add<u64>;

    type Set = Add<u64>;

    const USE_SEGMENT_SIZE: bool = true;

    open spec fn size_ok(size: nat) -> bool {
        size <= u64::MAX
    }

    open spec fn apply(mapping: u64, element: u64, size: nat) -> u64 {
        shifted(mapping as int, element as int, size as int, u64::MIN as int, 0x1_0000_0000_0000_0000) as u64
    }

    fn act(mapping: &u64, element: &u64, size: Option<usize>) -> (r: u64) {
        let size = size_as_u64(size.unwrap()).unwrap();
        proof {
            lemma_wrapping_u64(*mapping, size);
            lemma_wrapping_u64(mapping.wrapping_mul(size), *element);
        }
        mapping.wrapping_mul(size).wrapping_add(*element)
    }

    proof fn lemma_size_ok(size: nat, smaller: nat) {
    }

    proof fn lemma_size_unused(mapping: u64, element: u64, size: nat, other: nat) {
    }

    proof fn lemma_act_combine(f: u64, g: u64, element: u64, size: nat) {
        let lo = u64::MIN as int;
        let range = 0x1_0000_0000_0000_0000int;
        lemma_wrapping_u64(f, g);
        lemma_shifted(g as int, element as int, size as int, lo, range);
        lemma_wrap(g * size + element, lo, range);
        lemma_shifted_combine(f as int, g as int, element as int, size as int, lo, range);
    }

    proof fn lemma_act_identity(element: u64, size: nat) {
        let lo = u64::MIN as int;
        let range = 0x1_0000_0000_0000_0000int;
        lemma_shifted(0, element as int, size as int, lo, range);
        assert(0 * (size as int) == 0);
        lemma_wrap_small(element as int, lo, range);
    }

    proof fn lemma_act_distributes(mapping: u64, a: u64, size_a: nat, b: u64, size_b: nat) {
        let lo = u64::MIN as int;
        let range = 0x1_0000_0000_0000_0000int;
        lemma_wrapping_u64(a, b);
        lemma_shifted(mapping as int, a as int, size_a as int, lo, range);
        lemma_shifted(mapping as int, b as int, size_b as int, lo, range);
        lemma_wrap(mapping * size_a + a, lo, range);
        lemma_wrap(mapping * size_b + b, lo, range);
        lemma_wrapping_u64(Self::apply(mapping, a, size_a), Self::apply(mapping, b, size_b));
        lemma_shifted_distributes(
            mapping as int,
            a as int,
            size_a as int,
            b as int,
            size_b as int,
            lo,
            range,
        );
    }
}

impl MonoidAction for AddQueryAffineUpdate<u64> {
    type Map = Affine<u64>;

    type Set = Add<u64>;

    const USE_SEGMENT_SIZE: bool = true;

    open spec fn size_ok(size: nat) -> bool {
        size <= u64::MAX
    }

    open spec fn apply(mapping: [u64; 2], element: u64, size: nat) -> u64 {
        mapped(
            mapping[0] as int,
            mapping[1] as int,
            element as int,
            size as int,
            u64::MIN as int,
            0x1_0000_0000_0000_0000,
        ) as u64
    }

    fn act(mapping: &[u64; 2], element: &u64, size: Option<usize>) -> (r: u64) {
        let size = size_as_u64(size.unwrap()).unwrap();
        proof {
            lemma_wrapping_u64(mapping[0], *element);
            lemma_wrapping_u64(size, mapping[1]);
            lemma_wrapping_u64(mapping[0].wrapping_mul(*element), size.wrapping_mul(mapping[1]));
        }
        mapping[0].wrapping_mul(*element).wrapping_add(size.wrapping_mul(mapping[1]))
    }

    proof fn lemma_size_ok(size: nat, smaller: nat) {
    }

    proof fn lemma_size_unused(mapping: [u64; 2], element: u64, size: nat, other: nat) {
    }

    proof fn lemma_act_combine(f: [u64; 2], g: [u64; 2], element: u64, size: nat) {
        let lo = u64::MIN as int;
        let range = 0x1_0000_0000_0000_0000int;
        lemma_wrapping_u64(f[0], g[0]);
        lemma_wrapping_u64(f[0], g[1]);
        lemma_wrapping_u64(f[0].wrapping_mul(g[1]), f[1]);
        lemma_mapped(g[0] as int, g[1] as int, element as int, size as int, lo, range);
        lemma_wrap(g[0] * element + size * g[1], lo, range);
        lemma_mapped_combine(
            f[0] as int,
            f[1] as int,
            g[0] as int,
            g[1] as int,
            element as int,
            size as int,
            lo,
            range,
        );
    }

    proof fn lemma_act_identity(element: u64, size: nat) {
        let lo = u64::MIN as int;
        let range = 0x1_0000_0000_0000_0000int;
        lemma_mapped(1, 0, element as int, size as int, lo, range);
        assert(1 * (element as int) == element && (size as int) * 0 == 0);
        lemma_wrap_small(element as int, lo, range);
    }

    proof fn lemma_act_distributes(mapping: [u64; 2], a: u64, size_a: nat, b: u64, size_b: nat) {
        let lo = u64::MIN as int;
        let range = 0x1_0000_0000_0000_0000int;
        lemma_wrapping_u64(a, b);
        lemma_mapped(mapping[0] as int, mapping[1] as int, a as int, size_a as int, lo, range);
        lemma_mapped(mapping[0] as int, mapping[1] as int, b as int, size_b as int, lo, range);
        lemma_wrap(mapping[0] * a + size_a * mapping[1], lo, range);
        lemma_wrap(mapping[0] * b + size_b * mapping[1], lo, range);
        lemma_wrapping_u64(Self::apply(mapping, a, size_a), Self::apply(mapping, b, size_b));
        lemma_mapped_distributes(
            mapping[0] as int,
            mapping[1] as int,
            a as int,
            size_a as int,
            b as int,
            size_b as int,
            lo,
            range,
        );
    }
}

impl MonoidAction for AddQueryMulUpdate<u64> {
    type Map = Mul<u64>;

    type Set = Add<u64>;

    const USE_SEGMENT_SIZE: bool = false;

    open spec fn size_ok(size: nat) -> bool {
        true
    }

    open spec fn apply(mapping: u64, element: u64, size: nat) -> u64 {
        scaled(mapping as int, element as int, u64::MIN as int, 0x1_0000_0000_0000_0000) as u64
    }

    fn act(mapping: &u64, element: &u64, size: Option<usize>) -> (r: u64) {
        proof {
            lemma_wrapping_u64(*mapping, *element);
        }
        mapping.wrapping_mul(*element)
    }

    proof fn lemma_size_ok(size: nat, smaller: nat) {
    }

    proof fn lemma_size_unused(mapping: u64, element: u64, size: nat, other: nat) {
    }

    proof fn lemma_act_combine(f: u64, g: u64, element: u64, size: nat) {
        let lo = u64::MIN as int;
        let range = 0x1_0000_0000_0000_0000int;
        lemma_wrapping_u64(f, g);
        lemma_wrap(g * element, lo, range);
        lemma_wrap_mul_associative(f as int, g as int, element as int, lo, range);
    }

    proof fn lemma_act_identity(element: u64, size: nat) {
        let lo = u64::MIN as int;
        let range = 0x1_0000_0000_0000_0000int;
        assert(1 * (element as int) == element);
        lemma_wrap_small(element as int, lo, range);
    }

    proof fn lemma_act_distributes(mapping: u64, a: u64, size_a: nat, b: u64, size_b: nat) {
        let lo = u64::MIN as int;
        let range = 0x1_0000_0000_0000_0000int;
        lemma_wrapping_u64(a, b);
        lemma_wrap(mapping * a, lo, range);
        lemma_wrap(mapping * b, lo, range);
        lemma_wrapping_u64(Self::apply(mapping, a, size_a), Self::apply(mapping, b, size_b));
        lemma_scaled_distributes(mapping as int, a as int, b as int, lo, range);
    }
}

} // verus!
