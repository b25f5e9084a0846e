//! Arithmetic that wraps around at the bounds of an integer type.
//!
//! `wrap(x, lo, range)` is the value of `lo .. lo + range` that differs from
//! `x` by a multiple of `range`. Sums and products may be wrapped at any
//! point of a computation without changing its wrapped result, which is
//! what makes the wrapping operations of the integer types a ring.

use vstd::prelude::*;
use vstd::arithmetic::div_mod::{
    lemma_add_mod_noop, lemma_mul_mod_noop_general, lemma_mod_bound, lemma_small_mod,
    lemma_sub_mod_noop, lemma_mod_twice,
};

verus! {

/// The value of `lo .. lo + range` that differs from `x` by a multiple of
/// `range`.
pub open spec fn wrap(x: int, lo: int, range: int) -> int {
    lo + (x - lo) % range
}

/// Two integers differ by a multiple of `range`.
pub open spec fn congruent(x: int, y: int, range: int) -> bool {
    x % range == y % range
}

/// A wrapped value lies in `lo .. lo + range` and is congruent to what was
/// wrapped.
pub proof fn lemma_wrap(x: int, lo: int, range: int)
    requires
        range > 0,
    ensures
        lo <= wrap(x, lo, range) < lo + range,
        congruent(wrap(x, lo, range), x, range),
{
    lemma_mod_bound(x - lo, range);
    // (lo + (x - lo) % range) % range == (lo + (x - lo)) % range
    lemma_add_mod_noop(lo, (x - lo) % range, range);
    lemma_add_mod_noop(lo, x - lo, range);
    lemma_mod_twice(x - lo, range);
}

/// Congruent integers wrap to the same value.
pub proof fn lemma_wrap_congruent(x: int, y: int, lo: int, range: int)
    requires
        range > 0,
        congruent(x, y, range),
    ensures
        wrap(x, lo, range) == wrap(y, lo, range),
{
    lemma_sub_mod_noop(x, lo, range);
    lemma_sub_mod_noop(y, lo, range);
}

/// A value of `lo .. lo + range` wraps to itself.
pub proof fn lemma_wrap_small(x: int, lo: int, range: int)
    requires
        lo <= x < lo + range,
    ensures
        wrap(x, lo, range) == x,
{
    lemma_small_mod((x - lo) as nat, range as nat);
}

/// Sums and products of congruent integers are congruent.
pub proof fn lemma_congruent_ops(x: int, x2: int, y: int, y2: int, range: int)
    requires
        range > 0,
        congruent(x, x2, range),
        congruent(y, y2, range),
    ensures
        congruent(x + y, x2 + y2, range),
        congruent(x * y, x2 * y2, range),
{
    lemma_add_mod_noop(x, y, range);
    lemma_add_mod_noop(x2, y2, range);
    lemma_mul_mod_noop_general(x, y, range);
    lemma_mul_mod_noop_general(x2, y2, range);
}

/// Wrapping the summands first does not change a wrapped sum.
pub proof fn lemma_wrap_add(x: int, y: int, lo: int, range: int)
    requires
        range > 0,
    ensures
        wrap(wrap(x, lo, range) + wrap(y, lo, range), lo, range) == wrap(x + y, lo, range),
        wrap(wrap(x, lo, range) + y, lo, range) == wrap(x + y, lo, range),
        wrap(x + wrap(y, lo, range), lo, range) == wrap(x + y, lo, range),
{
    lemma_wrap(x, lo, range);
    lemma_wrap(y, lo, range);
    lemma_congruent_ops(wrap(x, lo, range), x, wrap(y, lo, range), y, range);
    lemma_congruent_ops(wrap(x, lo, range), x, y, y, range);
    lemma_congruent_ops(x, x, wrap(y, lo, range), y, range);
    lemma_wrap_congruent(wrap(x, lo, range) + wrap(y, lo, range), x + y, lo, range);
    lemma_wrap_congruent(wrap(x, lo, range) + y, x + y, lo, range);
    lemma_wrap_congruent(x + wrap(y, lo, range), x + y, lo, range);
}

/// Wrapping the factors first does not change a wrapped product.
pub proof fn lemma_wrap_mul(x: int, y: int, lo: int, range: int)
    requires
        range > 0,
    ensures
        wrap(wrap(x, lo, range) * wrap(y, lo, range), lo, range) == wrap(x * y, lo, range),
        wrap(wrap(x, lo, range) * y, lo, range) == wrap(x * y, lo, range),
        wrap(x * wrap(y, lo, range), lo, range) == wrap(x * y, lo, range),
{
    lemma_wrap(x, lo, range);
    lemma_wrap(y, lo, range);
    lemma_congruent_ops(wrap(x, lo, range), x, wrap(y, lo, range), y, range);
    lemma_congruent_ops(wrap(x, lo, range), x, y, y, range);
    lemma_congruent_ops(x, x, wrap(y, lo, range), y, range);
    lemma_wrap_congruent(wrap(x, lo, range) * wrap(y, lo, range), x * y, lo, range);
    lemma_wrap_congruent(wrap(x, lo, range) * y, x * y, lo, range);
    lemma_wrap_congruent(x * wrap(y, lo, range), x * y, lo, range);
}

/// `W(W(a * b) * c) = W(a * W(b * c))`
pub proof fn lemma_wrap_mul_associative(a: int, b: int, c: int, lo: int, range: int)
    requires
        range > 0,
    ensures
        wrap(wrap(a * b, lo, range) * c, lo, range) == wrap(a * wrap(b * c, lo, range), lo, range),
{
    lemma_wrap_mul(a * b, c, lo, range);
    lemma_wrap_mul(a, b * c, lo, range);
    assert((a * b) * c == a * (b * c)) by (nonlinear_arith);
}

/// The slope of the composition of two affine maps, `x -> f0 * x + f1` after
/// `x -> g0 * x + g1`.
pub open spec fn slope(f0: int, g0: int, lo: int, range: int) -> int {
    wrap(f0 * g0, lo, range)
}

/// The offset of the composition of two affine maps.
pub open spec fn offset(f0: int, f1: int, g1: int, lo: int, range: int) -> int {
    wrap(wrap(f0 * g1, lo, range) + f1, lo, range)
}

/// The offset of a composition, wrapped once.
pub proof fn lemma_offset(f0: int, f1: int, g1: int, lo: int, range: int)
    requires
        range > 0,
    ensures
        offset(f0, f1, g1, lo, range) == wrap(f0 * g1 + f1, lo, range),
{
    lemma_wrap_add(f0 * g1, f1, lo, range);
}

/// The composition of affine maps is associative.
pub proof fn lemma_affine_associative(
    f0: int,
    f1: int,
    g0: int,
    g1: int,
    h0: int,
    h1: int,
    lo: int,
    range: int,
)
    requires
        range > 0,
    ensures
        slope(slope(f0, g0, lo, range), h0, lo, range) == slope(f0, slope(g0, h0, lo, range), lo, range),
        offset(slope(f0, g0, lo, range), offset(f0, f1, g1, lo, range), h1, lo, range) == offset(
            f0,
            f1,
            offset(g0, g1, h1, lo, range),
            lo,
            range,
        ),
{
    lemma_wrap_mul_associative(f0, g0, h0, lo, range);
    let fg0 = slope(f0, g0, lo, range);
    let fg1 = offset(f0, f1, g1, lo, range);
    let gh1 = offset(g0, g1, h1, lo, range);
    // left: W(fg0 * h1 + fg1) = W(f0 g0 h1 + f0 g1 + f1)
    lemma_offset(fg0, fg1, h1, lo, range);
    lemma_offset(f0, f1, g1, lo, range);
    lemma_wrap_mul(f0 * g0, h1, lo, range);
    lemma_wrap_add(fg0 * h1, fg1, lo, range);
    lemma_wrap_add((f0 * g0) * h1, f0 * g1 + f1, lo, range);
    // right: W(f0 * gh1 + f1) = W(f0 (g0 h1 + g1) + f1)
    lemma_offset(f0, f1, gh1, lo, range);
    lemma_offset(g0, g1, h1, lo, range);
    lemma_wrap_mul(f0, g0 * h1 + g1, lo, range);
    lemma_wrap_add(f0 * gh1, f1, lo, range);
    lemma_wrap_add(f0 * (g0 * h1 + g1), f1, lo, range);
    assert((f0 * g0) * h1 + (f0 * g1 + f1) == f0 * (g0 * h1 + g1) + f1) by (nonlinear_arith);
}

/// `x -> f * x` on a sum of `size` summands (the size is not read).
pub open spec fn scaled(f: int, v: int, lo: int, range: int) -> int {
    wrap(f * v, lo, range)
}

/// Scaling distributes over wrapped sums.
pub proof fn lemma_scaled_distributes(f: int, a: int, b: int, lo: int, range: int)
    requires
        range > 0,
    ensures
        scaled(f, wrap(a + b, lo, range), lo, range) == wrap(
            scaled(f, a, lo, range) + scaled(f, b, lo, range),
            lo,
            range,
        ),
{
    lemma_wrap_mul(f, a + b, lo, range);
    lemma_wrap_add(f * a, f * b, lo, range);
    assert(f * (a + b) == f * a + f * b) by (nonlinear_arith);
}

/// `x -> x + f` on each of `size` summands of `v`.
pub open spec fn shifted(f: int, v: int, size: int, lo: int, range: int) -> int {
    wrap(wrap(f * size, lo, range) + v, lo, range)
}

/// A shift, wrapped once.
pub proof fn lemma_shifted(f: int, v: int, size: int, lo: int, range: int)
    requires
        range > 0,
    ensures
        shifted(f, v, size, lo, range) == wrap(f * size + v, lo, range),
{
    lemma_wrap_add(f * size, v, lo, range);
}

/// Shifting by a sum is shifting twice.
pub proof fn lemma_shifted_combine(f: int, g: int, v: int, size: int, lo: int, range: int)
    requires
        range > 0,
    ensures
        shifted(wrap(f + g, lo, range), v, size, lo, range) == shifted(
            f,
            shifted(g, v, size, lo, range),
            size,
            lo,
            range,
        ),
{
    lemma_shifted(wrap(f + g, lo, range), v, size, lo, range);
    lemma_wrap_mul(f + g, size, lo, range);
    lemma_wrap_add(wrap(f + g, lo, range) * size, v, lo, range);
    lemma_wrap_add((f + g) * size, v, lo, range);
    lemma_shifted(g, v, size, lo, range);
    lemma_shifted(f, shifted(g, v, size, lo, range), size, lo, range);
    lemma_wrap_add(f * size, g * size + v, lo, range);
    assert((f + g) * size + v == f * size + (g * size + v)) by (nonlinear_arith);
}

/// Shifting distributes over wrapped sums, the sizes adding up.
pub proof fn lemma_shifted_distributes(
    f: int,
    a: int,
    size_a: int,
    b: int,
    size_b: int,
    lo: int,
    range: int,
)
    requires
        range > 0,
    ensures
        shifted(f, wrap(a + b, lo, range), size_a + size_b, lo, range) == wrap(
            shifted(f, a, size_a, lo, range) + shifted(f, b, size_b, lo, range),
            lo,
            range,
        ),
{
    lemma_shifted(f, wrap(a + b, lo, range), size_a + size_b, lo, range);
    lemma_wrap_add(f * (size_a + size_b), a + b, lo, range);
    lemma_shifted(f, a, size_a, lo, range);
    lemma_shifted(f, b, size_b, lo, range);
    lemma_wrap_add(f * size_a + a, f * size_b + b, lo, range);
    assert(f * (size_a + size_b) + (a + b) == (f * size_a + a) + (f * size_b + b))
        by (nonlinear_arith);
}

/// `x -> f0 * x + f1` on each of `size` summands of `v`.
pub open spec fn mapped(f0: int, f1: int, v: int, size: int, lo: int, range: int) -> int {
    wrap(wrap(f0 * v, lo, range) + wrap(size * f1, lo, range), lo, range)
}

/// An affine map of a sum, wrapped once.
pub proof fn lemma_mapped(f0: int, f1: int, v: int, size: int, lo: int, range: int)
    requires
        range > 0,
    ensures
        mapped(f0, f1, v, size, lo, range) == wrap(f0 * v + size * f1, lo, range),
{
    lemma_wrap_add(f0 * v, size * f1, lo, range);
}

/// Mapping by a composition is mapping twice.
pub proof fn lemma_mapped_combine(
    f0: int,
    f1: int,
    g0: int,
    g1: int,
    v: int,
    size: int,
    lo: int,
    range: int,
)
    requires
        range > 0,
    ensures
        mapped(slope(f0, g0, lo, range), offset(f0, f1, g1, lo, range), v, size, lo, range)
            == mapped(f0, f1, mapped(g0, g1, v, size, lo, range), size, lo, range),
{
    let fg0 = slope(f0, g0, lo, range);
    let fg1 = offset(f0, f1, g1, lo, range);
    let inner = mapped(g0, g1, v, size, lo, range);
    lemma_mapped(fg0, fg1, v, size, lo, range);
    lemma_offset(f0, f1, g1, lo, range);
    lemma_wrap_mul(f0 * g0, v, lo, range);
    lemma_wrap_mul(size, f0 * g1 + f1, lo, range);
    lemma_wrap_add(fg0 * v, size * fg1, lo, range);
    lemma_wrap_add((f0 * g0) * v, size * (f0 * g1 + f1), lo, range);
    lemma_mapped(g0, g1, v, size, lo, range);
    lemma_mapped(f0, f1, inner, size, lo, range);
    lemma_wrap_mul(f0, g0 * v + size * g1, lo, range);
    lemma_wrap_add(f0 * inner, size * f1, lo, range);
    lemma_wrap_add(f0 * (g0 * v + size * g1), size * f1, lo, range);
    assert((f0 * g0) * v + size * (f0 * g1 + f1) == f0 * (g0 * v + size * g1) + size * f1)
        by (nonlinear_arith);
}

/// Mapping distributes over wrapped sums, the sizes adding up.
pub proof fn lemma_mapped_distributes(
    f0: int,
    f1: int,
    a: int,
    size_a: int,
    b: int,
    size_b: int,
    lo: int,
    range: int,
)
    requires
        range > 0,
    ensures
        mapped(f0, f1, wrap(a + b, lo, range), size_a + size_b, lo, range) == wrap(
            mapped(f0, f1, a, size_a, lo, range) + mapped(f0, f1, b, size_b, lo, range),
            lo,
            range,
        ),
{
    lemma_mapped(f0, f1, wrap(a + b, lo, range), size_a + size_b, lo, range);
    lemma_wrap_mul(f0, a + b, lo, range);
    lemma_wrap_add(f0 * wrap(a + b, lo, range), (size_a + size_b) * f1, lo, range);
    lemma_wrap_add(f0 * (a + b), (size_a + size_b) * f1, lo, range);
    lemma_mapped(f0, f1, a, size_a, lo, range);
    lemma_mapped(f0, f1, b, size_b, lo, range);
    lemma_wrap_add(f0 * a + size_a * f1, f0 * b + size_b * f1, lo, range);
    assert(f0 * (a + b) + (size_a + size_b) * f1 == (f0 * a + size_a * f1) + (f0 * b + size_b
        * f1)) by (nonlinear_arith);
}

/// The wrapping operations of `i32` are the operations on integers, wrapped.
pub proof fn lemma_wrapping_i32(a: i32, b: i32)
    ensures
        a.wrapping_add(b) == wrap(a + b, i32::MIN as int, 0x1_0000_0000),
        a.wrapping_mul(b) == wrap(a * b, i32::MIN as int, 0x1_0000_0000),
        wrap(a as int, i32::MIN as int, 0x1_0000_0000) == a,
{
    let lo = i32::MIN as int;
    let range = 0x1_0000_0000int;
    lemma_wrap(a * b, lo, range);
    lemma_wrap(a + b, lo, range);
    lemma_wrap_small(a as int, lo, range);
    lemma_mod_bound(a * b, range);
    if a + b - lo >= range {
        vstd::arithmetic::div_mod::lemma_mod_sub_multiples_vanish(a + b, range);
        assert(-range + (a + b) == a + b - range);
        lemma_wrap_congruent(a + b, a + b - range, lo, range);
        lemma_wrap_small(a + b - range, lo, range);
    } else if a + b < lo {
        vstd::arithmetic::div_mod::lemma_mod_add_multiples_vanish(a + b, range);
        assert(range + (a + b) == a + b + range);
        lemma_wrap_congruent(a + b, a + b + range, lo, range);
        lemma_wrap_small(a + b + range, lo, range);
    } else {
        lemma_wrap_small(a + b, lo, range);
    }
    let m = (a * b) % range;
    lemma_mod_twice(a * b, range);
    if m + lo >= 0 && lo < 0 {
        vstd::arithmetic::div_mod::lemma_mod_sub_multiples_vanish(m, range);
        assert(-range + m == m - range);
        lemma_wrap_congruent(a * b, m - range, lo, range);
        lemma_wrap_small(m - range, lo, range);
    } else {
        lemma_wrap_congruent(a * b, m, lo, range);
        lemma_wrap_small(m, lo, range);
    }
}

/// The wrapping operations of `i64` are the operations on integers, wrapped.
pub proof fn lemma_wrapping_i64(a: i64, b: i64)
    ensures
        a.wrapping_add(b) == wrap(a + b, i64::MIN as int, 0x1_0000_0000_0000_0000),
        a.wrapping_mul(b) == wrap(a * b, i64::MIN as int, 0x1_0000_0000_0000_0000),
        wrap(a as int, i64::MIN as int, 0x1_0000_0000_0000_0000) == a,
{
    let lo = i64::MIN as int;
    let range = 0x1_0000_0000_0000_0000int;
    lemma_wrap(a * b, lo, range);
    lemma_wrap(a + b, lo, range);
    lemma_wrap_small(a as int, lo, range);
    lemma_mod_bound(a * b, range);
    if a + b - lo >= range {
        vstd::arithmetic::div_mod::lemma_mod_sub_multiples_vanish(a + b, range);
        assert(-range + (a + b) == a + b - range);
        lemma_wrap_congruent(a + b, a + b - range, lo, range);
        lemma_wrap_small(a + b - range, lo, range);
    } else if a + b < lo {
        vstd::arithmetic::div_mod::lemma_mod_add_multiples_vanish(a + b, range);
        assert(range + (a + b) == a + b + range);
        lemma_wrap_congruent(a + b, a + b + range, lo, range);
        lemma_wrap_small(a + b + range, lo, range);
    } else {
        lemma_wrap_small(a + b, lo, range);
    }
    let m = (a * b) % range;
    lemma_mod_twice(a * b, range);
    if m + lo >= 0 && lo < 0 {
        vstd::arithmetic::div_mod::lemma_mod_sub_multiples_vanish(m, range);
        assert(-range + m == m - range);
        lemma_wrap_congruent(a * b, m - range, lo, range);
        lemma_wrap_small(m - range, lo, range);
    } else {
        lemma_wrap_congruent(a * b, m, lo, range);
        lemma_wrap_small(m, lo, range);
    }
}

/// The wrapping operations of `u32` are the operations on integers, wrapped.
pub proof fn lemma_wrapping_u32(a: u32, b: u32)
    ensures
        a.wrapping_add(b) == wrap(a + b, u32::MIN as int, 0x1_0000_0000),
        a.wrapping_mul(b) == wrap(a * b, u32::MIN as int, 0x1_0000_0000),
        wrap(a as int, u32::MIN as int, 0x1_0000_0000) == a,
{
    let lo = u32::MIN as int;
    let range = 0x1_0000_0000int;
    lemma_wrap(a * b, lo, range);
    lemma_wrap(a + b, lo, range);
    lemma_wrap_small(a as int, lo, range);
    lemma_mod_bound(a * b, range);
    if a + b - lo >= range {
        vstd::arithmetic::div_mod::lemma_mod_sub_multiples_vanish(a + b, range);
        assert(-range + (a + b) == a + b - range);
        lemma_wrap_congruent(a + b, a + b - range, lo, range);
        lemma_wrap_small(a + b - range, lo, range);
    } else if a + b < lo {
        vstd::arithmetic::div_mod::lemma_mod_add_multiples_vanish(a + b, range);
        assert(range + (a + b) == a + b + range);
        lemma_wrap_congruent(a + b, a + b + range, lo, range);
        lemma_wrap_small(a + b + range, lo, range);
    } else {
        lemma_wrap_small(a + b, lo, range);
    }
    let m = (a * b) % range;
    lemma_mod_twice(a * b, range);
    if m + lo >= 0 && lo < 0 {
        vstd::arithmetic::div_mod::lemma_mod_sub_multiples_vanish(m, range);
        assert(-range + m == m - range);
        lemma_wrap_congruent(a * b, m - range, lo, range);
        lemma_wrap_small(m - range, lo, range);
    } else {
        lemma_wrap_congruent(a * b, m, lo, range);
        lemma_wrap_small(m, lo, range);
    }
}

/// The wrapping operations of `u64` are the operations on integers, wrapped.
pub proof fn lemma_wrapping_u64(a: u64, b: u64)
    ensures
        a.wrapping_add(b) == wrap(a + b, u64::MIN as int, 0x1_0000_0000_0000_0000),
        a.wrapping_mul(b) == wrap(a * b, u64::MIN as int, 0x1_0000_0000_0000_0000),
        wrap(a as int, u64::MIN as int, 0x1_0000_0000_0000_0000) == a,
{
    let lo = u64::MIN as int;
    let range = 0x1_0000_0000_0000_0000int;
    lemma_wrap(a * b, lo, range);
    lemma_wrap(a + b, lo, range);
    lemma_wrap_small(a as int, lo, range);
    lemma_mod_bound(a * b, range);
    if a + b - lo >= range {
        vstd::arithmetic::div_mod::lemma_mod_sub_multiples_vanish(a + b, range);
        assert(-range + (a + b) == a + b - range);
        lemma_wrap_congruent(a + b, a + b - range, lo, range);
        lemma_wrap_small(a + b - range, lo, range);
    } else if a + b < lo {
        vstd::arithmetic::div_mod::lemma_mod_add_multiples_vanish(a + b, range);
        assert(range + (a + b) == a + b + range);
        lemma_wrap_congruent(a + b, a + b + range, lo, range);
        lemma_wrap_small(a + b + range, lo, range);
    } else {
        lemma_wrap_small(a + b, lo, range);
    }
    let m = (a * b) % range;
    lemma_mod_twice(a * b, range);
    if m + lo >= 0 && lo < 0 {
        vstd::arithmetic::div_mod::lemma_mod_sub_multiples_vanish(m, range);
        assert(-range + m == m - range);
        lemma_wrap_congruent(a * b, m - range, lo, range);
        lemma_wrap_small(m - range, lo, range);
    } else {
        lemma_wrap_congruent(a * b, m, lo, range);
        lemma_wrap_small(m, lo, range);
    }
}

} // verus!
