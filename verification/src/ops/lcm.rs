//! Least common multiple.

use vstd::prelude::*;
use std::marker::PhantomData;
use vstd::arithmetic::div_mod::{lemma_truncate_middle, lemma_mod_bound};
use crate::traits::Monoid;
use crate::ops::gcd::{
    divides, gcd, lemma_gcd_is_gcd, lemma_gcd_commutative, lemma_divides_multiple,
    lemma_multiple_divides, lemma_divides_transitive, lemma_divides_antisymmetric, gcd_u32,
    gcd_u64, gcd_usize,
};

verus! {

/// `l` is the least common multiple of `a` and `b`: both divide it, and it
/// divides every number that both divide.
pub open spec fn is_lcm(a: nat, b: nat, l: nat) -> bool {
    &&& divides(a, l)
    &&& divides(b, l)
    &&& forall|m: nat| divides(a, m) && divides(b, m) ==> #[trigger] divides(l, m)
}

/// The least common multiple of `a` and `b`; `0` where one of them is `0`.
pub open spec fn lcm(a: nat, b: nat) -> nat {
    if a == 0 || b == 0 {
        0
    } else {
        a * (b / gcd(a, b))
    }
}

/// `gcd(k * x, k * y) = k * gcd(x, y)`
pub proof fn lemma_gcd_scale(k: nat, x: nat, y: nat)
    ensures
        gcd(k * x, k * y) == k * gcd(x, y),
    decreases y,
{
    if k == 0 {
        assert(0 * x == 0 && 0 * y == 0 && 0 * gcd(x, y) == 0);
    } else if y == 0 {
        assert(k * 0 == 0);
    } else {
        lemma_truncate_middle(x as int, k as int, y as int);
        lemma_mod_bound(x as int, y as int);
        lemma_gcd_scale(k, y, x % y);
        assert(k * y > 0) by (nonlinear_arith)
            requires
                k > 0,
                y > 0,
        ;
        assert((k * x) % (k * y) == k * (x % y));
    }
}

/// A number that divides a product and has no divisor in common with one
/// factor divides the other factor.
pub proof fn lemma_coprime_divides(d: nat, x: nat, s: nat)
    requires
        gcd(x, d) == 1,
        divides(d, x * s),
    ensures
        divides(d, s),
{
    // gcd(s * x, s * d) = s, and d divides both
    lemma_gcd_scale(s, x, d);
    lemma_gcd_is_gcd(s * x, s * d);
    assert(s * x == x * s) by (nonlinear_arith);
    assert(s * d == d * s) by (nonlinear_arith);
    lemma_multiple_divides(d, s);
    assert(s * 1 == s);
    assert(divides(d, gcd(s * x, s * d)));
}

/// What `lcm` computes is the least common multiple.
pub proof fn lemma_lcm_is_lcm(a: nat, b: nat)
    ensures
        is_lcm(a, b, lcm(a, b)),
{
    let l = lcm(a, b);
    if a == 0 || b == 0 {
        assert forall|m: nat| divides(a, m) && divides(b, m) implies #[trigger] divides(l, m) by {}
        if a != 0 {
            vstd::arithmetic::div_mod::lemma_small_mod(0, a);
        }
        if b != 0 {
            vstd::arithmetic::div_mod::lemma_small_mod(0, b);
        }
    } else {
        let g = gcd(a, b);
        lemma_gcd_is_gcd(a, b);
        lemma_divides_multiple(g, a);
        lemma_divides_multiple(g, b);
        assert(g != 0);
        let x = a / g;
        let y = b / g;
        assert(a == g * x && b == g * y);
        assert(x > 0 && y > 0) by (nonlinear_arith)
            requires
                a == g * x,
                b == g * y,
                a > 0,
                b > 0,
        ;
        // x and y have no divisor in common
        lemma_gcd_scale(g, x, y);
        assert(gcd(x, y) == 1) by (nonlinear_arith)
            requires
                g == g * gcd(x, y),
                g > 0,
        ;
        lemma_gcd_commutative(x, y);
        assert(l == a * y);
        assert(l == b * x) by (nonlinear_arith)
            requires
                l == a * y,
                a == g * x,
                b == g * y,
        ;
        lemma_multiple_divides(a, y);
        lemma_multiple_divides(b, x);
        assert forall|m: nat| divides(a, m) && divides(b, m) implies #[trigger] divides(l, m) by {
            lemma_divides_multiple(a, m);
            lemma_divides_multiple(b, m);
            let s = m / a;
            let t = m / b;
            // g x s = g y t, so y divides x s, so y divides s
            assert(x * s == y * t) by (nonlinear_arith)
                requires
                    m == a * s,
                    m == b * t,
                    a == g * x,
                    b == g * y,
                    g > 0,
            ;
            lemma_multiple_divides(y, t);
            lemma_coprime_divides(y, x, s);
            lemma_divides_multiple(y, s);
            let u = s / y;
            assert(m == l * u) by (nonlinear_arith)
                requires
                    m == a * s,
                    s == y * u,
                    l == a * y,
            ;
            lemma_multiple_divides(l, u);
        }
    }
}

/// There is only one least common multiple.
pub proof fn lemma_lcm_unique(a: nat, b: nat, l: nat)
    requires
        is_lcm(a, b, l),
    ensures
        l == lcm(a, b),
{
    lemma_lcm_is_lcm(a, b);
    lemma_divides_antisymmetric(l, lcm(a, b));
}

/// `lcm(lcm(a, b), c) = lcm(a, lcm(b, c))`
pub proof fn lemma_lcm_associative(a: nat, b: nat, c: nat)
    ensures
        lcm(lcm(a, b), c) == lcm(a, lcm(b, c)),
{
    let ab = lcm(a, b);
    let bc = lcm(b, c);
    let left = lcm(ab, c);
    let right = lcm(a, bc);
    lemma_lcm_is_lcm(a, b);
    lemma_lcm_is_lcm(b, c);
    lemma_lcm_is_lcm(ab, c);
    lemma_lcm_is_lcm(a, bc);
    // a, b and c divide right, so ab divides right, so left divides right
    lemma_divides_transitive(b, bc, right);
    lemma_divides_transitive(c, bc, right);
    assert(divides(ab, right));
    assert(divides(left, right));
    lemma_divides_transitive(a, ab, left);
    lemma_divides_transitive(b, ab, left);
    assert(divides(bc, left));
    assert(divides(right, left));
    lemma_divides_antisymmetric(left, right);
}

/// `lcm(a, b) = lcm(b, a)`
pub proof fn lemma_lcm_commutative(a: nat, b: nat)
    ensures
        lcm(a, b) == lcm(b, a),
{
    lemma_lcm_is_lcm(b, a);
    lemma_lcm_unique(a, b, lcm(b, a));
}

/// `lcm(1, a) = lcm(a, 1) = a`
pub proof fn lemma_lcm_one(a: nat)
    ensures
        lcm(1, a) == a,
        lcm(a, 1) == a,
{
    lemma_lcm_commutative(1, a);
    lemma_lcm_is_lcm(a, 1);
    lemma_multiple_divides(a, 1);
    assert(a * 1 == a);
    lemma_multiple_divides(1, a);
    assert(1 * a == a);
    assert(divides(lcm(a, 1), a));
    lemma_divides_antisymmetric(lcm(a, 1), a);
}

/// The least common multiple of two positive numbers is not less than
/// either; that with `0` is `0`.
pub proof fn lemma_lcm_bound(a: nat, b: nat)
    ensures
        a > 0 && b > 0 ==> lcm(a, b) >= a && lcm(a, b) >= b,
        a == 0 || b == 0 ==> lcm(a, b) == 0,
{
    if a > 0 && b > 0 {
        lemma_lcm_is_lcm(a, b);
        let l = lcm(a, b);
        let g = gcd(a, b);
        lemma_gcd_is_gcd(a, b);
        lemma_divides_multiple(g, b);
        let y = b / g;
        assert(y > 0) by (nonlinear_arith)
            requires
                b == g * y,
                b > 0,
        ;
        assert(l > 0) by (nonlinear_arith)
            requires
                l == a * y,
                a > 0,
                y > 0,
        ;
        lemma_divides_multiple(a, l);
        lemma_divides_multiple(b, l);
        let s = l / a;
        let t = l / b;
        assert(l >= a) by (nonlinear_arith)
            requires
                l == a * s,
                l > 0,
        ;
        assert(l >= b) by (nonlinear_arith)
            requires
                l == b * t,
                l > 0,
        ;
    }
}

/// The least common multiple where it is at most `max`, and `0` elsewhere.
pub open spec fn capped_lcm(a: nat, b: nat, max: nat) -> nat {
    if lcm(a, b) <= max {
        lcm(a, b)
    } else {
        0
    }
}

/// `capped_lcm` is associative: a least common multiple that is too large
/// stays too large whatever it is combined with, and `0` stays `0`.
pub proof fn lemma_capped_lcm_associative(a: nat, b: nat, c: nat, max: nat)
    ensures
        capped_lcm(capped_lcm(a, b, max), c, max) == capped_lcm(a, capped_lcm(b, c, max), max),
{
    let ab = lcm(a, b);
    let bc = lcm(b, c);
    lemma_lcm_associative(a, b, c);
    lemma_lcm_bound(a, b);
    lemma_lcm_bound(b, c);
    lemma_lcm_bound(ab, c);
    lemma_lcm_bound(a, bc);
    lemma_lcm_bound(0, c);
    lemma_lcm_bound(a, 0);
}

/// The monoid of `lcm`; its identity is `1`. A least common multiple that
/// the type cannot hold counts as `0`, which every further combination
/// leaves `0`.
pub struct LCM<T>(PhantomData<T>);

/// Calls `num_integer::Integer::lcm`, which multiplies the first argument by
/// the quotient of the second and their greatest common divisor, and so
/// returns their least common multiple where that product fits the type.
#[verifier::external_body]
fn lcm_u32(a: u32, b: u32) -> (l: u32)
    requires
        lcm(a as nat, b as nat) <= u32::MAX,
    ensures
        is_lcm(a as nat, b as nat, l as nat),
{
    num_integer::Integer::lcm(&a, &b)
}

impl Monoid for LCM<u32> {
    type Set = u32;

    const IS_COMMUTATIVE: bool = true;

    open spec fn id() -> u32 {
        1
    }

    open spec fn op(lhs: u32, rhs: u32) -> u32 {
        capped_lcm(lhs as nat, rhs as nat, u32::MAX as nat) as u32
    }

    fn identity() -> (e: u32) {
        1
    }

    fn combine(lhs: &u32, rhs: &u32) -> (r: u32) {
        let fits = if *lhs == 0 || *rhs == 0 {
            true
        } else {
            let g = gcd_u32(*lhs, *rhs);
            proof {
                crate::ops::gcd::lemma_gcd_unique(*lhs as nat, *rhs as nat, g as nat);
                lemma_divides_multiple(g as nat, *lhs as nat);
            }
            lhs.checked_mul(*rhs / g).is_some()
        };
        if fits {
            let l = lcm_u32(*lhs, *rhs);
            proof {
                lemma_lcm_unique(*lhs as nat, *rhs as nat, l as nat);
            }
            l
        } else {
            0
        }
    }

    proof fn lemma_associative(a: u32, b: u32, c: u32) {
        lemma_capped_lcm_associative(a as nat, b as nat, c as nat, u32::MAX as nat);
    }

    proof fn lemma_identity(a: u32) {
        lemma_lcm_one(a as nat);
    }

    proof fn lemma_commutative(a: u32, b: u32) {
        lemma_lcm_commutative(a as nat, b as nat);
    }
}

/// Calls `num_integer::Integer::lcm`, which multiplies the first argument by
/// the quotient of the second and their greatest common divisor, and so
/// returns their least common multiple where that product fits the type.
#[verifier::external_body]
fn lcm_u64(a: u64, b: u64) -> (l: u64)
    requires
        lcm(a as nat, b as nat) <= u64::MAX,
    ensures
        is_lcm(a as nat, b as nat, l as nat),
{
    num_integer::Integer::lcm(&a, &b)
}

impl Monoid for LCM<u64> {
    type Set = u64;

    const IS_COMMUTATIVE: bool = true;

    open spec fn id() -> u64 {
        1
    }

    open spec fn op(lhs: u64, rhs: u64) -> u64 {
        capped_lcm(lhs as nat, rhs as nat, u64::MAX as nat) as u64
    }

    fn identity() -> (e: u64) {
        1
    }

    fn combine(lhs: &u64, rhs: &u64) -> (r: u64) {
        let fits = if *lhs == 0 || *rhs == 0 {
            true
        } else {
            let g = gcd_u64(*lhs, *rhs);
            proof {
                crate::ops::gcd::lemma_gcd_unique(*lhs as nat, *rhs as nat, g as nat);
                lemma_divides_multiple(g as nat, *lhs as nat);
            }
            lhs.checked_mul(*rhs / g).is_some()
        };
        if fits {
            let l = lcm_u64(*lhs, *rhs);
            proof {
                lemma_lcm_unique(*lhs as nat, *rhs as nat, l as nat);
            }
            l
        } else {
            0
        }
    }

    proof fn lemma_associative(a: u64, b: u64, c: u64) {
        lemma_capped_lcm_associative(a as nat, b as nat, c as nat, u64::MAX as nat);
    }

    proof fn lemma_identity(a: u64) {
        lemma_lcm_one(a as nat);
    }

    proof fn lemma_commutative(a: u64, b: u64) {
        lemma_lcm_commutative(a as nat, b as nat);
    }
}

/// Calls `num_integer::Integer::lcm`, which multiplies the first argument by
/// the quotient of the second and their greatest common divisor, and so
/// returns their least common multiple where that product fits the type.
#[verifier::external_body]
fn lcm_usize(a: usize, b: usize) -> (l: usize)
    requires
        lcm(a as nat, b as nat) <= usize::MAX,
    ensures
        is_lcm(a as nat, b as nat, l as nat),
{
    num_integer::Integer::lcm(&a, &b)
}

impl Monoid for LCM<usize> {
    type Set = usize;

    const IS_COMMUTATIVE: bool = true;

    open spec fn id() -> usize {
        1
    }

    open spec fn op(lhs: usize, rhs: usize) -> usize {
        capped_lcm(lhs as nat, rhs as nat, usize::MAX as nat) as usize
    }

    fn identity() -> (e: usize) {
        1
    }

    fn combine(lhs: &usize, rhs: &usize) -> (r: usize) {
        let fits = if *lhs == 0 || *rhs == 0 {
            true
        } else {
            let g = gcd_usize(*lhs, *rhs);
            proof {
                crate::ops::gcd::lemma_gcd_unique(*lhs as nat, *rhs as nat, g as nat);
                lemma_divides_multiple(g as nat, *lhs as nat);
            }
            lhs.checked_mul(*rhs / g).is_some()
        };
        if fits {
            let l = lcm_usize(*lhs, *rhs);
            proof {
                lemma_lcm_unique(*lhs as nat, *rhs as nat, l as nat);
            }
            l
        } else {
            0
        }
    }

    proof fn lemma_associative(a: usize, b: usize, c: usize) {
        lemma_capped_lcm_associative(a as nat, b as nat, c as nat, usize::MAX as nat);
    }

    proof fn lemma_identity(a: usize) {
        lemma_lcm_one(a as nat);
    }

    proof fn lemma_commutative(a: usize, b: usize) {
        lemma_lcm_commutative(a as nat, b as nat);
    }
}

} // verus!
