//! Index arithmetic of the implicit binary tree.
//!
//! Node `1` is the root and node `i` has the children `2i` and `2i + 1`. The
//! node `i` seen from `d` levels below covers the indices
//! `i * 2^d .. (i + 1) * 2^d`.

use vstd::prelude::*;
use vstd::arithmetic::power2::{pow2, lemma_pow2_pos, lemma_pow2_unfold, lemma_pow2_adds};
use vstd::bits::lemma_usize_shr_is_div;

verus! {

/// The ancestor of node `i` that lies `d` levels above it (0 above the root).
pub(crate) open spec fn ancestor(i: int, d: nat) -> int {
    i / (pow2(d) as int)
}

/// `x` is a node of the subtree rooted at `top`.
pub(crate) open spec fn below(top: int, x: int) -> bool {
    exists|d: nat| #[trigger] ancestor(x, d) == top
}

pub(crate) proof fn lemma_pow2_values()
    ensures
        pow2(0) == 1,
        pow2(1) == 2,
{
    vstd::arithmetic::power2::lemma2_to64();
}

/// `2^a` divides `2^b` for `a <= b`.
pub(crate) proof fn lemma_pow2_split(a: nat, b: nat)
    requires
        a <= b,
    ensures
        pow2(b) == pow2(a) * pow2((b - a) as nat),
        pow2(a) <= pow2(b),
        pow2((b - a) as nat) >= 1,
{
    lemma_pow2_adds(a, (b - a) as nat);
    lemma_pow2_pos(a);
    lemma_pow2_pos((b - a) as nat);
    assert(pow2(a) <= pow2(a) * pow2((b - a) as nat)) by (nonlinear_arith)
        requires
            pow2(a) > 0,
            pow2((b - a) as nat) >= 1,
    ;
}

/// Going up `d` levels and then `e` more is going up `d + e` levels.
pub(crate) proof fn lemma_ancestor_adds(i: int, d: nat, e: nat)
    requires
        i >= 0,
    ensures
        ancestor(ancestor(i, d), e) == ancestor(i, d + e),
{
    lemma_pow2_adds(d, e);
    lemma_pow2_pos(d);
    lemma_pow2_pos(e);
    vstd::arithmetic::div_mod::lemma_div_denominator(i, pow2(d) as int, pow2(e) as int);
}

/// The parent of a node is `i / 2`.
pub(crate) proof fn lemma_ancestor_one(i: int)
    ensures
        ancestor(i, 0) == i,
        ancestor(i, 1) == i / 2,
{
    lemma_pow2_values();
}

/// `ancestor(x, d) == i` says that `x` lies in `i * 2^d .. (i + 1) * 2^d`.
pub(crate) proof fn lemma_ancestor_range(x: int, d: nat, i: int)
    requires
        x >= 0,
    ensures
        ancestor(x, d) == i <==> i * pow2(d) <= x < (i + 1) * pow2(d),
{
    lemma_pow2_pos(d);
    let p = pow2(d) as int;
    vstd::arithmetic::div_mod::lemma_fundamental_div_mod(x, p);
    vstd::arithmetic::div_mod::lemma_mod_bound(x, p);
    let q = x / p;
    assert(x == p * q + x % p);
    if q == i {
        assert(i * p <= x < (i + 1) * p) by (nonlinear_arith)
            requires
                x == p * i + x % p,
                0 <= x % p < p,
        ;
    }
    if i * p <= x < (i + 1) * p {
        assert(q == i) by (nonlinear_arith)
            requires
                x == p * q + x % p,
                0 <= x % p < p,
                i * p <= x < (i + 1) * p,
                p > 0,
        ;
    }
}

/// The ancestors of a node have smaller indices, and none is below it.
pub(crate) proof fn lemma_ancestor_smaller(x: int, top: int)
    requires
        0 <= x < top,
    ensures
        !below(top, x),
        forall|d: nat| #[trigger] ancestor(x, d) <= x,
{
    assert forall|d: nat| #[trigger] ancestor(x, d) <= x by {
        lemma_pow2_pos(d);
        vstd::arithmetic::div_mod::lemma_div_is_ordered_by_denominator(x, 1, pow2(d) as int);
    }
}

/// No ancestor of a node has a negative index.
pub(crate) proof fn lemma_ancestor_nonneg(x: int, d: nat)
    requires
        0 <= x,
    ensures
        0 <= ancestor(x, d),
{
    lemma_pow2_pos(d);
    vstd::arithmetic::div_mod::lemma_div_pos_is_pos(x, pow2(d) as int);
}

/// A strict ancestor of a node has a smaller index.
pub(crate) proof fn lemma_ancestor_strict(x: int, d: nat)
    requires
        1 <= x,
        1 <= d,
    ensures
        0 <= ancestor(x, d) < x,
{
    lemma_ancestor_adds(x, 1, (d - 1) as nat);
    lemma_ancestor_one(x);
    lemma_ancestor_smaller(x / 2, x);
    lemma_pow2_pos(d);
    vstd::arithmetic::div_mod::lemma_div_pos_is_pos(x, pow2(d) as int);
}

/// A node is below `top` where it is `top` itself or its parent is below `top`.
pub(crate) proof fn lemma_below_step(top: int, x: int)
    requires
        1 <= x,
        1 <= top,
    ensures
        below(top, x) <==> (x == top || below(top, x / 2)),
{
    lemma_ancestor_one(x);
    if below(top, x) {
        let d = choose|d: nat| #[trigger] ancestor(x, d) == top;
        if d > 0 {
            lemma_ancestor_adds(x, 1, (d - 1) as nat);
            assert(ancestor(x / 2, (d - 1) as nat) == top);
        }
    }
    if below(top, x / 2) {
        let d = choose|d: nat| #[trigger] ancestor(x / 2, d) == top;
        lemma_ancestor_adds(x, 1, d);
        assert(ancestor(x, d + 1) == top);
    }
    if x == top {
        assert(ancestor(x, 0) == top);
    }
}

/// The nodes below a child of a node are below the node.
pub(crate) proof fn lemma_below_child(top: int, child: int, x: int)
    requires
        1 <= top,
        child == 2 * top || child == 2 * top + 1,
        0 <= x,
        below(child, x),
    ensures
        below(top, x),
{
    let d = choose|d: nat| #[trigger] ancestor(x, d) == child;
    lemma_ancestor_adds(x, d, 1);
    lemma_ancestor_one(child);
    assert(ancestor(x, d + 1) == top);
}

/// Among the nodes `n..2n`, those below a node that spans
/// `i * 2^h .. (i + 1) * 2^h` within them are the nodes of that span.
pub(crate) proof fn lemma_below_leaf(i: int, h: nat, n: int, q: int)
    requires
        1 <= n <= i * pow2(h),
        (i + 1) * pow2(h) <= 2 * n,
        n <= q < 2 * n,
    ensures
        below(i, q) <==> i * pow2(h) <= q < (i + 1) * pow2(h),
{
    lemma_pow2_pos(h);
    lemma_ancestor_range(q, h, i);
    if below(i, q) {
        let d = choose|d: nat| #[trigger] ancestor(q, d) == i;
        lemma_ancestor_range(q, d, i);
        lemma_pow2_pos(d);
        if d < h {
            lemma_pow2_split(d + 1, h);
            lemma_pow2_unfold(d + 1);
            let p = pow2(d) as int;
            let e = pow2((h - d - 1) as nat) as int;
            assert(2 * ((i + 1) * p) <= (i + 1) * ((2 * p) * e)) by (nonlinear_arith)
                requires
                    i + 1 >= 1,
                    p > 0,
                    e >= 1,
            ;
            assert(false);
        } else if d > h {
            lemma_pow2_split(h + 1, d);
            lemma_pow2_unfold(h + 1);
            let p = pow2(h) as int;
            let e = pow2((d - h - 1) as nat) as int;
            assert(i >= 1) by (nonlinear_arith)
                requires
                    1 <= i * p,
                    p > 0,
            ;
            assert(2 * (i * p) <= i * ((2 * p) * e)) by (nonlinear_arith)
                requires
                    i >= 1,
                    p > 0,
                    e >= 1,
            ;
            assert(false);
        }
    }
    if i * pow2(h) <= q < (i + 1) * pow2(h) {
        assert(ancestor(q, h) == i);
    }
}

/// Where the odd node `x` is followed by `m * 2^k` with `m` odd, the nodes
/// above `m` are nodes above `x`.
pub(crate) proof fn lemma_next_left(x: int, m: int, k: nat, e: nat)
    requires
        1 <= x,
        x % 2 == 1,
        m % 2 == 1,
        x + 1 == m * pow2(k),
        1 <= e,
    ensures
        ancestor(m, e) == ancestor(x, k + e),
        k >= 1,
{
    lemma_pow2_pos(k);
    let p = pow2(k) as int;
    if k == 0 {
        lemma_pow2_values();
        assert(m * 1 == m);
        assert(false);
    }
    assert((m - 1) * p <= x < (m - 1 + 1) * p) by (nonlinear_arith)
        requires
            x + 1 == m * p,
            p >= 1,
    ;
    lemma_ancestor_range(x, k, m - 1);
    lemma_ancestor_adds(x, k, e);
    lemma_ancestor_adds(m - 1, 1, (e - 1) as nat);
    lemma_ancestor_adds(m, 1, (e - 1) as nat);
    lemma_ancestor_one(m);
    lemma_ancestor_one(m - 1);
}

/// Where the odd node `x >= 3` is preceded by `m * 2^k` with `m` odd, the
/// nodes above `m` are nodes above `x`, and so are the nodes above `x - 1`.
pub(crate) proof fn lemma_next_right(x: int, m: int, k: nat, e: nat)
    requires
        3 <= x,
        x % 2 == 1,
        m % 2 == 1,
        x - 1 == m * pow2(k),
        1 <= e,
    ensures
        ancestor(m, e) == ancestor(x, k + e),
        ancestor(x - 1, e) == ancestor(x, e),
        k >= 1,
{
    lemma_pow2_pos(k);
    let p = pow2(k) as int;
    if k == 0 {
        lemma_pow2_values();
        assert(m * 1 == m);
        assert(false);
    }
    lemma_pow2_unfold(k);
    assert(m * p <= x < (m + 1) * p) by (nonlinear_arith)
        requires
            x - 1 == m * p,
            p >= 2,
    ;
    lemma_ancestor_range(x, k, m);
    lemma_ancestor_adds(x, k, e);
    lemma_ancestor_adds(x - 1, 1, (e - 1) as nat);
    lemma_ancestor_adds(x, 1, (e - 1) as nat);
    lemma_ancestor_one(x);
    lemma_ancestor_one(x - 1);
}

/// An odd node and the sibling before it have the same nodes above them.
pub(crate) proof fn lemma_sibling_ancestors(x: int, e: nat)
    requires
        1 <= x,
        x % 2 == 1,
        1 <= e,
    ensures
        ancestor(x - 1, e) == ancestor(x, e),
{
    lemma_ancestor_adds(x - 1, 1, (e - 1) as nat);
    lemma_ancestor_adds(x, 1, (e - 1) as nat);
    lemma_ancestor_one(x);
    lemma_ancestor_one(x - 1);
}

/// The nodes between a node and the root are not the node `0`.
pub(crate) proof fn lemma_ancestor_positive(x: int, d: nat, h: nat)
    requires
        0 <= x,
        d <= h,
        ancestor(x, h) == 1,
    ensures
        ancestor(x, d) >= 1,
{
    lemma_ancestor_adds(x, d, (h - d) as nat);
    lemma_ancestor_nonneg(x, d);
    if ancestor(x, d) == 0 {
        lemma_pow2_pos((h - d) as nat);
        assert(0int / (pow2((h - d) as nat) as int) == 0);
    }
}

/// Above the root there is only the node `0`.
pub(crate) proof fn lemma_ancestor_beyond(x: int, d: nat, h: nat)
    requires
        0 <= x,
        d > h,
        ancestor(x, h) == 1,
    ensures
        ancestor(x, d) == 0,
{
    lemma_ancestor_adds(x, h, (d - h) as nat);
    lemma_ancestor_strict(1, (d - h) as nat);
}

/// A product `m * 2^a` with `m` odd determines `m` and `a`.
pub(crate) proof fn lemma_odd_unique(m1: int, a: nat, m2: int, b: nat)
    requires
        m1 % 2 == 1,
        m2 % 2 == 1,
        m1 * pow2(a) == m2 * pow2(b),
    ensures
        m1 == m2,
        a == b,
    decreases a + b,
{
    lemma_pow2_pos(a);
    lemma_pow2_pos(b);
    if a == 0 && b == 0 {
        lemma_pow2_values();
    } else if a == 0 {
        lemma_pow2_values();
        lemma_pow2_unfold(b);
        let p = pow2((b - 1) as nat) as int;
        assert(m1 == 2 * (m2 * p)) by (nonlinear_arith)
            requires
                m1 * 1 == m2 * (2 * p),
        ;
        assert(false);
    } else if b == 0 {
        lemma_pow2_values();
        lemma_pow2_unfold(a);
        let p = pow2((a - 1) as nat) as int;
        assert(m2 == 2 * (m1 * p)) by (nonlinear_arith)
            requires
                m2 * 1 == m1 * (2 * p),
        ;
        assert(false);
    } else {
        lemma_pow2_unfold(a);
        lemma_pow2_unfold(b);
        let p = pow2((a - 1) as nat) as int;
        let q = pow2((b - 1) as nat) as int;
        assert(m1 * p == m2 * q) by (nonlinear_arith)
            requires
                m1 * (2 * p) == m2 * (2 * q),
        ;
        lemma_odd_unique(m1, (a - 1) as nat, m2, (b - 1) as nat);
    }
}

/// With the left cursor at node `l` of level `a` and the right cursor at node
/// `r` of level `b`, and the span between them not empty: where `l >= r`, the
/// node `l` lies wholly inside the span.
pub(crate) proof fn lemma_take_left(l: int, a: nat, r: int, b: nat)
    requires
        1 <= r <= l,
        l * pow2(a) < r * pow2(b),
    ensures
        (l + 1) * pow2(a) <= r * pow2(b),
{
    lemma_pow2_pos(a);
    lemma_pow2_pos(b);
    if b <= a {
        lemma_pow2_split(b, a);
        assert(r * pow2(b) <= l * pow2(a)) by (nonlinear_arith)
            requires
                1 <= r <= l,
                0 < pow2(b) <= pow2(a),
        ;
    } else {
        lemma_pow2_split(a, b);
        let p = pow2(a) as int;
        let q = pow2((b - a) as nat) as int;
        let rq = r * q;
        assert(r * (p * q) == rq * p) by (nonlinear_arith)
            requires
                rq == r * q,
        ;
        assert(l < rq) by (nonlinear_arith)
            requires
                l * p < rq * p,
                p > 0,
        ;
        assert((l + 1) * p <= rq * p) by (nonlinear_arith)
            requires
                l + 1 <= rq,
                p > 0,
        ;
    }
}

/// In the same setting: where `l < r`, the node `r - 1` lies wholly inside
/// the span.
pub(crate) proof fn lemma_take_right(l: int, a: nat, r: int, b: nat)
    requires
        1 <= l < r,
        l * pow2(a) < r * pow2(b),
    ensures
        l * pow2(a) <= (r - 1) * pow2(b),
{
    lemma_pow2_pos(a);
    lemma_pow2_pos(b);
    if a <= b {
        lemma_pow2_split(a, b);
        assert(l * pow2(a) <= (r - 1) * pow2(b)) by (nonlinear_arith)
            requires
                1 <= l <= r - 1,
                0 < pow2(a) <= pow2(b),
        ;
    } else {
        lemma_pow2_split(b, a);
        let p = pow2(b) as int;
        let q = pow2((a - b) as nat) as int;
        let lq = l * q;
        assert(l * (p * q) == lq * p) by (nonlinear_arith)
            requires
                lq == l * q,
        ;
        assert(lq < r) by (nonlinear_arith)
            requires
                lq * p < r * p,
                p > 0,
        ;
        assert(lq * p <= (r - 1) * p) by (nonlinear_arith)
            requires
                lq <= r - 1,
                p > 0,
        ;
    }
}

/// Once a cursor has moved, the two cursors name the same node only where
/// the span between them is empty.
pub(crate) proof fn lemma_cursors_meet(l: int, a: nat, r: int, b: nat, n: int)
    requires
        l % 2 == 1,
        r % 2 == 1,
        l == r,
        1 <= n <= l * pow2(a) <= r * pow2(b) <= 2 * n,
        n < l * pow2(a) || r * pow2(b) < 2 * n,
    ensures
        l * pow2(a) == r * pow2(b),
{
    lemma_pow2_pos(a);
    lemma_pow2_pos(b);
    assert(l >= 1) by (nonlinear_arith)
        requires
            1 <= l * pow2(a),
            pow2(a) > 0,
    ;
    if a < b {
        lemma_pow2_split(a, b);
        lemma_pow2_split(a + 1, b);
        lemma_pow2_unfold(a + 1);
        let p = pow2(a) as int;
        let q = pow2((b - a - 1) as nat) as int;
        assert(2 * (l * p) <= l * ((2 * p) * q)) by (nonlinear_arith)
            requires
                l >= 1,
                p > 0,
                q >= 1,
        ;
        assert(false);
    } else if b < a {
        lemma_pow2_split(b, a);
        lemma_pow2_strictly_less(b, a);
        assert(l * pow2(b) < l * pow2(a)) by (nonlinear_arith)
            requires
                l >= 1,
                pow2(b) < pow2(a),
        ;
        assert(false);
    }
}

pub(crate) proof fn lemma_pow2_strictly_less(a: nat, b: nat)
    requires
        a < b,
    ensures
        pow2(a) < pow2(b),
{
    vstd::arithmetic::power2::lemma_pow2_strictly_increases(a, b);
}

/// Removes the trailing zero bits of `x`: returns the odd `m`, the width
/// `w = 2^k` and the count `k` with `x == m * 2^k`.
pub(crate) fn strip_width(x: usize) -> (r: (usize, usize, Ghost<nat>))
    requires
        x > 0,
    ensures
        r.0 % 2 == 1,
        x == r.0 * pow2(r.2@),
        r.1 == pow2(r.2@),
{
    let mut m: usize = x;
    let mut w: usize = 1;
    let ghost k: nat = 0;
    proof {
        lemma_pow2_values();
    }
    while m % 2 == 0
        invariant
            m > 0,
            x == m * pow2(k),
            w == pow2(k),
        decreases m,
    {
        proof {
            lemma_pow2_unfold(k + 1);
            assert(m * pow2(k) == (m / 2) * (2 * pow2(k))) by (nonlinear_arith)
                requires
                    m % 2 == 0,
            ;
            assert(2 * pow2(k) <= m * pow2(k)) by (nonlinear_arith)
                requires
                    m >= 2,
            ;
            k = k + 1;
        }
        m = m / 2;
        w = 2 * w;
    }
    (m, w, Ghost(k))
}

/// A power of two that fits in `usize` has an exponent below `usize::BITS`.
pub(crate) proof fn lemma_level_bound(a: nat, x: int)
    requires
        pow2(a) <= x <= usize::MAX,
    ensures
        a < usize::BITS,
{
    if a >= usize::BITS {
        lemma_pow2_split(usize::BITS as nat, a);
        vstd::arithmetic::power2::lemma2_to64();
        vstd::arithmetic::power2::lemma2_to64_rest();
        assert(false);
    }
}

/// The exponent of a power of two is at most that of any greater one.
pub(crate) proof fn lemma_pow2_le(a: nat, b: nat)
    requires
        pow2(a) < pow2(b),
    ensures
        a < b,
{
    if a >= b {
        lemma_pow2_split(b, a);
    }
}

/// Removes the trailing zero bits of `x`: returns the odd `m` and the
/// count `k` with `x == m * 2^k`.
pub(crate) fn strip_level(x: usize) -> (r: (usize, usize))
    requires
        x > 0,
    ensures
        r.0 % 2 == 1,
        x == r.0 * pow2(r.1 as nat),
        r.1 < usize::BITS,
{
    let mut m: usize = x;
    let mut k: usize = 0;
    proof {
        lemma_pow2_values();
    }
    while m % 2 == 0
        invariant
            m > 0,
            x == m * pow2(k as nat),
            k < usize::BITS,
        decreases m,
    {
        proof {
            lemma_pow2_unfold((k + 1) as nat);
            assert(m * pow2(k as nat) == (m / 2) * (2 * pow2(k as nat))) by (nonlinear_arith)
                requires
                    m % 2 == 0,
            ;
            assert(2 * pow2(k as nat) <= m * pow2(k as nat)) by (nonlinear_arith)
                requires
                    m >= 2,
            ;
            if k + 1 >= usize::BITS {
                lemma_pow2_split((k + 1) as nat, usize::BITS as nat);
                vstd::arithmetic::power2::lemma2_to64();
                vstd::arithmetic::power2::lemma2_to64_rest();
                assert(false);
            }
        }
        m = m / 2;
        k = k + 1;
    }
    (m, k)
}

/// Removes the trailing zero bits of `x`: returns the odd `m` and the
/// count `k` with `x == m * 2^k`.
pub(crate) fn strip(x: usize) -> (r: (usize, Ghost<nat>))
    requires
        x > 0,
    ensures
        r.0 % 2 == 1,
        x == r.0 * pow2(r.1@),
{
    let (m, _, k) = strip_width(x);
    (m, k)
}

/// The number of strict ancestors of node `i`: the `h` with
/// `2^h <= i < 2^(h + 1)`.
pub(crate) fn height(i: usize) -> (h: usize)
    requires
        i > 0,
    ensures
        pow2(h as nat) <= i < 2 * pow2(h as nat),
        h < usize::BITS,
        ancestor(i as int, h as nat) == 1,
{
    let mut h: usize = 0;
    let mut top: usize = i;
    proof {
        lemma_pow2_values();
        lemma_ancestor_one(i as int);
    }
    while top > 1
        invariant
            top >= 1,
            top == ancestor(i as int, h as nat),
            top * pow2(h as nat) <= i,
            h < usize::BITS,
            usize::BITS == 32 || usize::BITS == 64,
        decreases top,
    {
        proof {
            lemma_ancestor_adds(i as int, h as nat, 1);
            lemma_ancestor_one(top as int);
            lemma_pow2_unfold((h + 1) as nat);
            assert((top / 2) * (2 * pow2(h as nat)) <= top * pow2(h as nat)) by (nonlinear_arith)
                requires
                    top >= 0,
            ;
            // 2 * 2^h <= top * 2^h <= i <= usize::MAX bounds h
            assert(2 * pow2(h as nat) <= i) by (nonlinear_arith)
                requires
                    top >= 2,
                    top * pow2(h as nat) <= i,
            ;
            if h + 1 >= usize::BITS {
                lemma_pow2_split(h as nat, (usize::BITS - 1) as nat) ;
                vstd::arithmetic::power2::lemma2_to64();
                vstd::arithmetic::power2::lemma2_to64_rest();
                lemma_pow2_unfold(usize::BITS as nat);
                assert(false);
            }
        }
        top = top / 2;
        h = h + 1;
    }
    proof {
        lemma_ancestor_range(i as int, h as nat, 1);
        assert(1 * pow2(h as nat) == pow2(h as nat));
        assert((1 + 1) * pow2(h as nat) == 2 * pow2(h as nat));
    }
    h
}

/// The ancestor of node `i` that lies `d` levels above it.
pub(crate) fn ancestor_of(i: usize, d: usize) -> (r: usize)
    requires
        d < usize::BITS,
    ensures
        r == ancestor(i as int, d as nat),
{
    proof {
        lemma_usize_shr_is_div(i, d);
    }
    i >> d
}

} // verus!
