//! Greatest common divisor.

use vstd::prelude::*;
use std::marker::PhantomData;
use vstd::arithmetic::div_mod::{
    lemma_fundamental_div_mod, lemma_mod_bound, lemma_small_mod, lemma_mul_mod_noop_general,
    lemma_add_mod_noop, lemma_mod_multiples_basic,
};
use crate::traits::Monoid;

verus! {

/// `d` divides `n`. Only `0` is divided by `0`.
pub open spec fn divides(d: nat, n: nat) -> bool {
    if d == 0 {
        n == 0
    } else {
        n % d == 0
    }
}

/// `g` is the greatest common divisor of `a` and `b`: it divides both, and
/// every number that divides both divides `g`.
pub open spec fn is_gcd(a: nat, b: nat, g: nat) -> bool {
    &&& divides(g, a)
    &&& divides(g, b)
    &&& forall|d: nat| divides(d, a) && divides(d, b) ==> #[trigger] divides(d, g)
}

/// The greatest common divisor of `a` and `b`; that of `0` and `0` is `0`.
pub open spec fn gcd(a: nat, b: nat) -> nat
    decreases b,
{
    if b == 0 {
        a
    } else {
        gcd(b, a % b)
    }
}

/// A divisor of `n` has a multiple that is `n`.
pub proof fn lemma_divides_multiple(d: nat, n: nat)
    requires
        divides(d, n),
    ensures
        n == d * (if d == 0 {
            0
        } else {
            n / d
        }),
{
    if d != 0 {
        lemma_fundamental_div_mod(n as int, d as int);
    }
}

/// Every number divides its multiples.
pub proof fn lemma_multiple_divides(d: nat, k: nat)
    ensures
        divides(d, d * k),
{
    if d != 0 {
        lemma_mod_multiples_basic(k as int, d as int);
        assert(k * d == d * k) by (nonlinear_arith);
    } else {
        assert(0 * k == 0);
    }
}

/// A divisor of a divisor is a divisor.
pub proof fn lemma_divides_transitive(a: nat, b: nat, c: nat)
    requires
        divides(a, b),
        divides(b, c),
    ensures
        divides(a, c),
{
    lemma_divides_multiple(a, b);
    lemma_divides_multiple(b, c);
    let j = if a == 0 {
        0
    } else {
        b / a
    };
    let k = if b == 0 {
        0
    } else {
        c / b
    };
    assert(c == a * (j * k)) by (nonlinear_arith)
        requires
            b == a * j,
            c == b * k,
    ;
    lemma_multiple_divides(a, j * k);
}

/// Two numbers that divide each other are the same.
pub proof fn lemma_divides_antisymmetric(a: nat, b: nat)
    requires
        divides(a, b),
        divides(b, a),
    ensures
        a == b,
{
    lemma_divides_multiple(a, b);
    lemma_divides_multiple(b, a);
    if a != 0 && b != 0 {
        let j = b / a;
        let k = a / b;
        assert(j >= 1 && k >= 1) by (nonlinear_arith)
            requires
                b == a * j,
                a == b * k,
                a > 0,
                b > 0,
        ;
        assert(a == b) by (nonlinear_arith)
            requires
                b == a * j,
                a == b * k,
                j >= 1,
                k >= 1,
                a > 0,
                b > 0,
        ;
    }
}

/// A number that divides `b` divides `a` where it divides the remainder of
/// `a` by `b`, and the other way round.
pub proof fn lemma_divides_remainder(d: nat, a: nat, b: nat)
    requires
        b > 0,
        divides(d, b),
    ensures
        divides(d, a) <==> divides(d, a % b),
{
    lemma_fundamental_div_mod(a as int, b as int);
    lemma_mod_bound(a as int, b as int);
    if d != 0 {
        let q = (a / b) as int;
        let r = (a % b) as int;
        let bi = b as int;
        let di = d as int;
        lemma_mul_mod_noop_general(bi, q, di);
        assert(0 * q == 0);
        lemma_small_mod(0, d);
        assert((bi * q) % di == 0);
        lemma_add_mod_noop(bi * q, r, di);
        vstd::arithmetic::div_mod::lemma_mod_twice(r, di);
        assert((a as int) % di == r % di);
    }
}

/// What `gcd` computes is the greatest common divisor.
pub proof fn lemma_gcd_is_gcd(a: nat, b: nat)
    ensures
        is_gcd(a, b, gcd(a, b)),
    decreases b,
{
    if b == 0 {
        if a != 0 {
            lemma_mod_multiples_basic(1, a as int);
            lemma_small_mod(0, a);
        }
        assert(divides(a, a)) by {
            lemma_multiple_divides(a, 1);
            assert(a * 1 == a);
        }
    } else {
        lemma_mod_bound(a as int, b as int);
        lemma_gcd_is_gcd(b, a % b);
        let g = gcd(a, b);
        lemma_divides_remainder(g, a, b);
        assert forall|d: nat| divides(d, a) && divides(d, b) implies #[trigger] divides(d, g) by {
            lemma_divides_remainder(d, a, b);
        }
    }
}

/// There is only one greatest common divisor.
pub proof fn lemma_gcd_unique(a: nat, b: nat, g: nat)
    requires
        is_gcd(a, b, g),
    ensures
        g == gcd(a, b),
{
    lemma_gcd_is_gcd(a, b);
    lemma_divides_antisymmetric(g, gcd(a, b));
}

/// `gcd(gcd(a, b), c) = gcd(a, gcd(b, c))`
pub proof fn lemma_gcd_associative(a: nat, b: nat, c: nat)
    ensures
        gcd(gcd(a, b), c) == gcd(a, gcd(b, c)),
{
    let ab = gcd(a, b);
    let bc = gcd(b, c);
    let left = gcd(ab, c);
    let right = gcd(a, bc);
    lemma_gcd_is_gcd(a, b);
    lemma_gcd_is_gcd(b, c);
    lemma_gcd_is_gcd(ab, c);
    lemma_gcd_is_gcd(a, bc);
    // left divides a, b and c, so it divides bc, so it divides right
    lemma_divides_transitive(left, ab, a);
    lemma_divides_transitive(left, ab, b);
    assert(divides(left, bc));
    assert(divides(left, right));
    lemma_divides_transitive(right, bc, b);
    lemma_divides_transitive(right, bc, c);
    assert(divides(right, ab));
    assert(divides(right, left));
    lemma_divides_antisymmetric(left, right);
}

/// `gcd(a, b) = gcd(b, a)`
pub proof fn lemma_gcd_commutative(a: nat, b: nat)
    ensures
        gcd(a, b) == gcd(b, a),
{
    lemma_gcd_is_gcd(b, a);
    lemma_gcd_unique(a, b, gcd(b, a));
}

/// `gcd(0, a) = gcd(a, 0) = a`
pub proof fn lemma_gcd_zero(a: nat)
    ensures
        gcd(0, a) == a,
        gcd(a, 0) == a,
{
    lemma_gcd_commutative(0, a);
}

/// The greatest common divisor of two numbers is not greater than either,
/// unless that one is `0`.
pub proof fn lemma_gcd_bound(a: nat, b: nat)
    ensures
        a > 0 ==> gcd(a, b) <= a,
        b > 0 ==> gcd(a, b) <= b,
        a == 0 && b == 0 ==> gcd(a, b) == 0,
{
    lemma_gcd_is_gcd(a, b);
    let g = gcd(a, b);
    lemma_divides_multiple(g, a);
    lemma_divides_multiple(g, b);
    if a > 0 {
        let k = a / g;
        assert(g <= a) by (nonlinear_arith)
            requires
                a == g * k,
                a > 0,
        ;
    }
    if b > 0 {
        let k = b / g;
        assert(g <= b) by (nonlinear_arith)
            requires
                b == g * k,
                b > 0,
        ;
    }
}

/// The monoid of `gcd`; its identity is `0`.
pub struct GCD<T>(PhantomData<T>);

/// Calls `num_integer::Integer::gcd`, which returns the greatest common
/// divisor of its two arguments: a number that divides both and that every
/// number dividing both divides.
#[verifier::external_body]
pub(crate) fn gcd_u32(a: u32, b: u32) -> (g: u32)
    ensures
        is_gcd(a as nat, b as nat, g as nat),
{
    num_integer::Integer::gcd(&a, &b)
}

impl Monoid for GCD<u32> {
    type Set = u32;

    const IS_COMMUTATIVE: bool = true;

    open spec fn id() -> u32 {
        0
    }

    open spec fn op(lhs: u32, rhs: u32) -> u32 {
        gcd(lhs as nat, rhs as nat) as u32
    }

    fn identity() -> (e: u32) {
        0
    }

    fn combine(lhs: &u32, rhs: &u32) -> (r: u32) {
        let g = gcd_u32(*lhs, *rhs);
        proof {
            lemma_gcd_unique(*lhs as nat, *rhs as nat, g as nat);
        }
        g
    }

    proof fn lemma_associative(a: u32, b: u32, c: u32) {
        lemma_gcd_bound(a as nat, b as nat);
        lemma_gcd_bound(b as nat, c as nat);
        lemma_gcd_associative(a as nat, b as nat, c as nat);
    }

    proof fn lemma_identity(a: u32) {
        lemma_gcd_zero(a as nat);
    }

    proof fn lemma_commutative(a: u32, b: u32) {
        lemma_gcd_commutative(a as nat, b as nat);
    }
}

/// Calls `num_integer::Integer::gcd`, which returns the greatest common
/// divisor of its two arguments: a number that divides both and that every
/// number dividing both divides.
#[verifier::external_body]
pub(crate) fn gcd_u64(a: u64, b: u64) -> (g: u64)
    ensures
        is_gcd(a as nat, b as nat, g as nat),
{
    num_integer::Integer::gcd(&a, &b)
}

impl Monoid for GCD<u64> {
    type Set = u64;

    const IS_COMMUTATIVE: bool = true;

    open spec fn id() -> u64 {
        0
    }

    open spec fn op(lhs: u64, rhs: u64) -> u64 {
        gcd(lhs as nat, rhs as nat) as u64
    }

    fn identity() -> (e: u64) {
        0
    }

    fn combine(lhs: &u64, rhs: &u64) -> (r: u64) {
        let g = gcd_u64(*lhs, *rhs);
        proof {
            lemma_gcd_unique(*lhs as nat, *rhs as nat, g as nat);
        }
        g
    }

    proof fn lemma_associative(a: u64, b: u64, c: u64) {
        lemma_gcd_bound(a as nat, b as nat);
        lemma_gcd_bound(b as nat, c as nat);
        lemma_gcd_associative(a as nat, b as nat, c as nat);
    }

    proof fn lemma_identity(a: u64) {
        lemma_gcd_zero(a as nat);
    }

    proof fn lemma_commutative(a: u64, b: u64) {
        lemma_gcd_commutative(a as nat, b as nat);
    }
}

/// Calls `num_integer::Integer::gcd`, which returns the greatest common
/// divisor of its two arguments: a number that divides both and that every
/// number dividing both divides.
#[verifier::external_body]
pub(crate) fn gcd_usize(a: usize, b: usize) -> (g: usize)
    ensures
        is_gcd(a as nat, b as nat, g as nat),
{
    num_integer::Integer::gcd(&a, &b)
}

impl Monoid for GCD<usize> {
    type Set = usize;

    const IS_COMMUTATIVE: bool = true;

    open spec fn id() -> usize {
        0
    }

    open spec fn op(lhs: usize, rhs: usize) -> usize {
        gcd(lhs as nat, rhs as nat) as usize
    }

    fn identity() -> (e: usize) {
        0
    }

    fn combine(lhs: &usize, rhs: &usize) -> (r: usize) {
        let g = gcd_usize(*lhs, *rhs);
        proof {
            lemma_gcd_unique(*lhs as nat, *rhs as nat, g as nat);
        }
        g
    }

    proof fn lemma_associative(a: usize, b: usize, c: usize) {
        lemma_gcd_bound(a as nat, b as nat);
        lemma_gcd_bound(b as nat, c as nat);
        lemma_gcd_associative(a as nat, b as nat, c as nat);
    }

    proof fn lemma_identity(a: usize) {
        lemma_gcd_zero(a as nat);
    }

    proof fn lemma_commutative(a: usize, b: usize) {
        lemma_gcd_commutative(a as nat, b as nat);
    }
}

} // verus!
