//! Range assignment, range query.

use vstd::prelude::*;
use vstd::arithmetic::power2::{pow2, lemma_pow2_pos, lemma_pow2_unfold, lemma_pow2_adds};
use crate::traits::Monoid;
use crate::algebra::{fold, lemma_fold_one, lemma_fold_split};
use crate::normal::range_fold;
use crate::lazy::on_chain;
use crate::utility::{RangeArg, convert_range, span_start, span_end, within};
use crate::bits::{
    strip_level, lemma_level_bound, lemma_pow2_le, ancestor, below, strip, height, ancestor_of,
    lemma_ancestor_adds, lemma_ancestor_one, lemma_take_left, lemma_take_right, lemma_cursors_meet,
    lemma_odd_unique, lemma_pow2_values, lemma_below_step, lemma_below_leaf,
    lemma_ancestor_smaller, lemma_ancestor_nonneg, lemma_next_left, lemma_next_right,
    lemma_sibling_ancestors, lemma_ancestor_positive, lemma_ancestor_beyond, lemma_ancestor_strict,
    lemma_ancestor_range, lemma_below_child,
};

verus! {

/// The pointer of a node to which nothing is assigned.
pub(crate) const NULL_MAP_PTR: usize = usize::MAX;

/// `element` combined with itself until there are `2^doublings` of it.
pub open spec fn doubled<Query: Monoid>(element: Query::Set, doublings: nat) -> Query::Set
    decreases doublings,
{
    if doublings == 0 {
        element
    } else {
        let half = doubled::<Query>(element, (doublings - 1) as nat);
        Query::op(half, half)
    }
}

/// The fold of `2^h` copies of an element is the element doubled `h` times.
pub proof fn lemma_fold_doubled<Query: Monoid>(s: Seq<Query::Set>, element: Query::Set, h: nat)
    requires
        s.len() == pow2(h),
        forall|i: int| 0 <= i < s.len() ==> s[i] == element,
    ensures
        fold::<Query>(s) == doubled::<Query>(element, h),
    decreases h,
{
    if h == 0 {
        lemma_pow2_values();
        lemma_fold_one::<Query>(s);
    } else {
        lemma_pow2_unfold(h);
        let half = pow2((h - 1) as nat) as int;
        lemma_fold_split::<Query>(s, 0, half, 2 * half);
        assert(s.subrange(0, 2 * half) =~= s);
        lemma_fold_doubled::<Query>(s.subrange(0, half), element, (h - 1) as nat);
        lemma_fold_doubled::<Query>(s.subrange(half, 2 * half), element, (h - 1) as nat);
    }
}

/// The sequence `elements` with `value` at every position of `l..r`.
pub open spec fn assigned<Query: Monoid>(
    elements: Seq<Query::Set>,
    l: int,
    r: int,
    value: Query::Set,
) -> Seq<Query::Set> {
    Seq::new(
        elements.len(),
        |p: int|
            if l <= p < r {
                value
            } else {
                elements[p]
            },
    )
}

/// `element` combined with itself until there are `count` of it: the
/// identity element for none.
pub open spec fn repeated<Query: Monoid>(element: Query::Set, count: nat) -> Query::Set
    decreases count,
{
    if count == 0 {
        Query::id()
    } else {
        Query::op(repeated::<Query>(element, (count - 1) as nat), element)
    }
}

/// After `value` has been assigned to the range `l..r`, the query for any
/// range `i..j` within it gives `value` combined with itself as often as the
/// range `i..j` is long.
pub proof fn lemma_query_of_assigned<Query: Monoid>(
    elements: Seq<Query::Set>,
    l: int,
    r: int,
    value: Query::Set,
    i: int,
    j: int,
)
    requires
        0 <= l <= i <= j <= r <= elements.len(),
    ensures
        range_fold::<Query>(assigned::<Query>(elements, l, r, value), i, j) == repeated::<Query>(
            value,
            (j - i) as nat,
        ),
    decreases j - i,
{
    let after = assigned::<Query>(elements, l, r, value);
    if i < j {
        lemma_query_of_assigned::<Query>(elements, l, r, value, i, j - 1);
        let span = after.subrange(i, j);
        assert(span.drop_last() =~= after.subrange(i, j - 1));
        assert(span.last() == value);
        assert(fold::<Query>(span) == Query::op(fold::<Query>(span.drop_last()), span.last()));
        if i == j - 1 {
            assert(after.subrange(i, j - 1).len() == 0);
            assert(fold::<Query>(after.subrange(i, j - 1)) == Query::id());
        }
    }
}

/// Combining `2^h` copies of an element is doubling it `h` times.
pub proof fn lemma_repeated_doubled<Query: Monoid>(element: Query::Set, h: nat)
    ensures
        repeated::<Query>(element, pow2(h)) == doubled::<Query>(element, h),
{
    let s = Seq::new(pow2(h), |i: int| element);
    lemma_fold_doubled::<Query>(s, element, h);
    lemma_fold_repeated::<Query>(s, element);
}

/// The fold of copies of an element is the element combined with itself as
/// often as there are copies.
pub proof fn lemma_fold_repeated<Query: Monoid>(s: Seq<Query::Set>, element: Query::Set)
    requires
        forall|i: int| 0 <= i < s.len() ==> s[i] == element,
    ensures
        fold::<Query>(s) == repeated::<Query>(element, s.len()),
    decreases s.len(),
{
    if s.len() > 0 {
        lemma_fold_repeated::<Query>(s.drop_last(), element);
    }
}

/// The number of levels between node `i` and the elements, among `n`
/// elements.
pub(crate) open spec fn level(n: int, i: int) -> nat
    decreases 2 * n - i,
{
    if i < 1 || i >= n {
        0
    } else {
        1 + level(n, 2 * i)
    }
}

/// A node that spans `i * 2^h .. (i + 1) * 2^h` among the elements is `h`
/// levels above them.
pub(crate) proof fn lemma_level_span(n: int, i: int, h: nat)
    requires
        1 <= n <= i * pow2(h),
        i * pow2(h) < 2 * n,
    ensures
        level(n, i) == h,
        h > 0 ==> 1 <= i < n,
        h == 0 ==> n <= i,
    decreases h,
{
    lemma_pow2_pos(h);
    assert(i >= 1) by (nonlinear_arith)
        requires
            1 <= i * pow2(h),
            pow2(h) > 0,
    ;
    if h == 0 {
        lemma_pow2_values();
        assert(i * 1 == i);
    } else {
        lemma_pow2_unfold(h);
        let p = pow2((h - 1) as nat) as int;
        assert(i * (2 * p) == (2 * i) * p) by (nonlinear_arith);
        assert(2 * i <= (2 * i) * p) by (nonlinear_arith)
            requires
                p >= 1,
                i >= 0,
        ;
        lemma_level_span(n, 2 * i, (h - 1) as nat);
    }
}

/// The entry of the pool that is assigned to node `i` from above, if the
/// topmost node above it with an assignment has one.
pub(crate) open spec fn pending(ptrs: Seq<usize>, i: int) -> Option<int>
    decreases i,
{
    if i <= 1 {
        None
    } else {
        match pending(ptrs, i / 2) {
            Some(k) => Some(k - 1),
            None => if ptrs[i / 2] != NULL_MAP_PTR {
                Some(ptrs[i / 2] - 1)
            } else {
                None
            },
        }
    }
}

/// The nodes above node `x`, from `from` levels up, have no assignment.
pub(crate) open spec fn unassigned_above(ptrs: Seq<usize>, x: int, from: nat) -> bool {
    forall|d: nat|
        d >= from && 1 <= #[trigger] ancestor(x, d) < ptrs.len() ==> ptrs[ancestor(x, d)]
            == NULL_MAP_PTR
}

/// Nothing is assigned from above to a node without assignments above it.
pub(crate) proof fn lemma_pending_none(ptrs: Seq<usize>, x: int, from: nat)
    requires
        0 <= x,
        1 <= from,
        ancestor(x, from) < ptrs.len(),
        unassigned_above(ptrs, x, from),
    ensures
        pending(ptrs, ancestor(x, (from - 1) as nat)) is None,
    decreases ancestor(x, from),
{
    let y = ancestor(x, (from - 1) as nat);
    lemma_ancestor_nonneg(x, (from - 1) as nat);
    lemma_ancestor_nonneg(x, from);
    lemma_ancestor_adds(x, (from - 1) as nat, 1);
    lemma_ancestor_one(y);
    if y > 1 {
        assert(ancestor(x, from) == y / 2);
        lemma_ancestor_adds(x, from, 1);
        lemma_ancestor_one(y / 2);
        lemma_ancestor_smaller(y / 2 / 2, ptrs.len() as int);
        assert(unassigned_above(ptrs, x, from + 1));
        assert(ancestor(x, from) >= 1);
        lemma_pending_none(ptrs, x, from + 1);
    }
}

/// The entry that is assigned from above to a node `d` levels below a node
/// that has the topmost assignment.
pub(crate) proof fn lemma_pending_below(ptrs: Seq<usize>, x: int, q: int, d: nat)
    requires
        1 <= x < ptrs.len(),
        pending(ptrs, x) is None,
        ptrs[x] != NULL_MAP_PTR,
        ancestor(q, d) == x,
        0 <= q,
        1 <= d,
    ensures
        pending(ptrs, q) == Some(ptrs[x] - d),
    decreases d,
{
    lemma_ancestor_adds(q, 1, (d - 1) as nat);
    lemma_ancestor_one(q);
    lemma_ancestor_smaller(q / 2, q + 1);
    if q <= 1 {
        lemma_ancestor_smaller(q / 2, 1);
        assert(false);
    }
    if d == 1 {
        lemma_ancestor_one(q / 2);
    } else {
        lemma_pending_below(ptrs, x, q / 2, (d - 1) as nat);
    }
}

/// A change of the pointer of node `x` changes what is assigned from above
/// only for nodes below `x`.
pub(crate) proof fn lemma_pending_frame(ptrs: Seq<usize>, x: int, ptr: usize, j: int)
    requires
        1 <= x < ptrs.len(),
        0 <= j,
        j / 2 < ptrs.len(),
        !below(x, j / 2) || j <= 1,
    ensures
        pending(ptrs.update(x, ptr), j) == pending(ptrs, j),
    decreases j,
{
    let after = ptrs.update(x, ptr);
    if j > 1 {
        lemma_below_step(x, j / 2);
        assert(j / 2 != x);
        assert(!below(x, j / 2 / 2));
        lemma_pending_frame(ptrs, x, ptr, j / 2);
        assert(after[j / 2] == ptrs[j / 2]);
        assert(pending(after, j) == match pending(after, j / 2) {
            Some(k) => Some(k - 1),
            None => if after[j / 2] != NULL_MAP_PTR {
                Some(after[j / 2] - 1)
            } else {
                None
            },
        });
    }
}

/// The entries `k - h ..= k` of the pool are successive doublings.
pub(crate) open spec fn doubling<Query: Monoid>(pool: Seq<Query::Set>, k: int, h: nat) -> bool {
    &&& h <= k < pool.len()
    &&& forall|j: int| k - h < j <= k ==> #[trigger] pool[j] == Query::op(pool[j - 1], pool[j - 1])
}

/// Node `i` spans a run of the elements.
pub(crate) open spec fn spans(n: int, i: int) -> bool {
    &&& n <= i * pow2(level(n, i))
    &&& (i + 1) * pow2(level(n, i)) <= 2 * n
}

/// The children of an inner node that spans a run of the elements span the
/// halves of it, one level below.
pub(crate) proof fn lemma_spans_children(n: int, i: int)
    requires
        1 <= i < n,
        spans(n, i),
    ensures
        level(n, i) >= 1,
        spans(n, 2 * i),
        spans(n, 2 * i + 1),
        level(n, 2 * i) == level(n, i) - 1,
        level(n, 2 * i + 1) == level(n, i) - 1,
{
    let h = level(n, i);
    lemma_pow2_unfold(h);
    let p = pow2((h - 1) as nat) as int;
    lemma_pow2_pos((h - 1) as nat);
    assert(i * (2 * p) == (2 * i) * p) by (nonlinear_arith);
    assert((i + 1) * (2 * p) == (2 * i + 2) * p) by (nonlinear_arith);
    assert((2 * i + 1) * p == (2 * i) * p + p) by (nonlinear_arith);
    assert((2 * i + 2) * p == (2 * i) * p + 2 * p) by (nonlinear_arith);
    lemma_level_span(n, 2 * i, (h - 1) as nat);
    lemma_level_span(n, 2 * i + 1, (h - 1) as nat);
}

/// An inner node with an assignment spans a run of the elements and holds
/// the entry of the pool it points to, which ends a run of doublings as long
/// as the node is high.
pub(crate) open spec fn assigned_ok<Query: Monoid>(
    data: Seq<Query::Set>,
    ptrs: Seq<usize>,
    pool: Seq<Query::Set>,
    i: int,
) -> bool {
    ptrs[i] != NULL_MAP_PTR ==> {
        &&& spans(ptrs.len() as int, i)
        &&& doubling::<Query>(pool, ptrs[i] as int, level(ptrs.len() as int, i))
        &&& data[i] == pool[ptrs[i] as int]
    }
}

/// Every inner node with an assignment is as `assigned_ok` says.
pub(crate) open spec fn all_assigned_ok<Query: Monoid>(
    data: Seq<Query::Set>,
    ptrs: Seq<usize>,
    pool: Seq<Query::Set>,
) -> bool {
    forall|i: int| 1 <= i < ptrs.len() ==> #[trigger] assigned_ok::<Query>(data, ptrs, pool, i)
}

/// An inner node without an assignment holds the combination of its
/// children.
pub(crate) open spec fn combined_ok<Query: Monoid>(data: Seq<Query::Set>, ptrs: Seq<usize>, i: int) -> bool {
    ptrs[i] == NULL_MAP_PTR ==> data[i] == Query::op(data[2 * i], data[2 * i + 1])
}

/// Every inner node without an assignment holds the combination of its
/// children, but for the nodes on the two chains.
pub(crate) open spec fn combined_off<Query: Monoid>(
    data: Seq<Query::Set>,
    ptrs: Seq<usize>,
    c1: int,
    from1: nat,
    c2: int,
    from2: nat,
) -> bool {
    forall|j: int|
        1 <= j < ptrs.len() && !on_chain(c1, from1, j) && !on_chain(c2, from2, j)
            ==> #[trigger] combined_ok::<Query>(data, ptrs, j)
}

/// What is assigned to a node from above ends a run of doublings as long as
/// the node is high.
pub(crate) proof fn lemma_pending_valid<Query: Monoid>(
    data: Seq<Query::Set>,
    ptrs: Seq<usize>,
    pool: Seq<Query::Set>,
    j: int,
)
    requires
        all_assigned_ok::<Query>(data, ptrs, pool),
        0 <= j < 2 * ptrs.len(),
    ensures
        pending(ptrs, j) matches Some(m) ==> spans(ptrs.len() as int, j) && doubling::<Query>(
            pool,
            m,
            level(ptrs.len() as int, j),
        ),
    decreases j,
{
    let n = ptrs.len() as int;
    if j > 1 {
        lemma_pending_valid::<Query>(data, ptrs, pool, j / 2);
        if pending(ptrs, j / 2) is Some || ptrs[j / 2] != NULL_MAP_PTR {
            assert(assigned_ok::<Query>(data, ptrs, pool, j / 2));
            lemma_spans_children(n, j / 2);
            let k = match pending(ptrs, j / 2) {
                Some(k) => k,
                None => ptrs[j / 2] as int,
            };
            assert(doubling::<Query>(pool, k, level(n, j / 2)));
            assert(doubling::<Query>(pool, k - 1, level(n, j)));
        }
    }
}

/// The element that stands at node `q` of the second half: what is assigned
/// to it from above, or else its stored value.
pub(crate) open spec fn element<Query: Monoid>(
    data: Seq<Query::Set>,
    ptrs: Seq<usize>,
    pool: Seq<Query::Set>,
    q: int,
) -> Query::Set {
    match pending(ptrs, q) {
        Some(k) => pool[k],
        None => data[q],
    }
}

/// The elements that the arrays represent.
pub(crate) open spec fn elements<Query: Monoid>(
    data: Seq<Query::Set>,
    ptrs: Seq<usize>,
    pool: Seq<Query::Set>,
) -> Seq<Query::Set> {
    Seq::new(ptrs.len(), |p: int| element::<Query>(data, ptrs, pool, ptrs.len() + p))
}

/// A node that spans `i * 2^h .. (i + 1) * 2^h` among the elements stands
/// for the fold of these elements.
pub(crate) proof fn lemma_node_is_fold<Query: Monoid>(
    data: Seq<Query::Set>,
    ptrs: Seq<usize>,
    pool: Seq<Query::Set>,
    i: int,
    h: nat,
)
    requires
        data.len() == 2 * ptrs.len(),
        all_assigned_ok::<Query>(data, ptrs, pool),
        combined_off::<Query>(data, ptrs, 0, 0, 0, 0),
        ptrs.len() <= i * pow2(h),
        (i + 1) * pow2(h) <= data.len(),
    ensures
        1 <= i < data.len(),
        element::<Query>(data, ptrs, pool, i) == fold::<Query>(
            elements::<Query>(data, ptrs, pool).subrange(
                i * pow2(h) - ptrs.len(),
                (i + 1) * pow2(h) - ptrs.len(),
            ),
        ),
    decreases h,
{
    let n = ptrs.len() as int;
    let view = elements::<Query>(data, ptrs, pool);
    lemma_pow2_pos(h);
    if n == 0 {
        assert(i + 1 <= 0) by (nonlinear_arith)
            requires
                (i + 1) * pow2(h) <= 0,
                pow2(h) > 0,
        ;
        assert(i * pow2(h) < 0) by (nonlinear_arith)
            requires
                i < 0,
                pow2(h) > 0,
        ;
        assert(false);
    }
    assert((i + 1) * pow2(h) == i * pow2(h) + pow2(h)) by (nonlinear_arith);
    lemma_level_span(n, i, h);
    assert(i + 1 <= (i + 1) * pow2(h)) by (nonlinear_arith)
        requires
            i + 1 >= 0,
            pow2(h) >= 1,
    ;
    if h == 0 {
        lemma_pow2_values();
        assert(i * 1 == i);
        lemma_fold_one::<Query>(view.subrange(i - n, i + 1 - n));
    } else {
        lemma_pow2_unfold(h);
        let p = pow2((h - 1) as nat) as int;
        assert(i * (2 * p) == (2 * i) * p) by (nonlinear_arith);
        assert((i + 1) * (2 * p) == (2 * i + 2) * p) by (nonlinear_arith);
        assert((2 * i + 1) * p == (2 * i) * p + p) by (nonlinear_arith);
        assert((2 * i + 2) * p == (2 * i) * p + 2 * p) by (nonlinear_arith);
        lemma_node_is_fold::<Query>(data, ptrs, pool, 2 * i, (h - 1) as nat);
        lemma_node_is_fold::<Query>(data, ptrs, pool, 2 * i + 1, (h - 1) as nat);
        lemma_fold_split::<Query>(view, (2 * i) * p - n, (2 * i + 1) * p - n, (2 * i + 2) * p - n);
        lemma_pending_valid::<Query>(data, ptrs, pool, i);
        assert(assigned_ok::<Query>(data, ptrs, pool, i));
        assert(!on_chain(0, 0, i)) by {
            if on_chain(0, 0, i) {
                let e = choose|e: nat| e >= 0 && #[trigger] ancestor(0, e) == i;
                lemma_ancestor_smaller(0, 1);
            }
        }
        assert(combined_ok::<Query>(data, ptrs, i));
        assert((2 * i) / 2 == i && (2 * i + 1) / 2 == i);
        assert(pending(ptrs, 2 * i) == pending(ptrs, 2 * i + 1));
        match pending(ptrs, i) {
            Some(k) => {
                assert(pool[k] == Query::op(pool[k - 1], pool[k - 1]));
            },
            None => {
                if ptrs[i] != NULL_MAP_PTR {
                    let k = ptrs[i] as int;
                    assert(pool[k] == Query::op(pool[k - 1], pool[k - 1]));
                }
            },
        }
    }
}

/// The values after the entry `k` of the pool has been assigned to node `x`.
pub(crate) open spec fn assigned_data<Query: Monoid>(
    data: Seq<Query::Set>,
    pool: Seq<Query::Set>,
    x: int,
    k: int,
) -> Seq<Query::Set> {
    data.update(x, pool[k])
}

/// The pointers after the entry `k` of the pool has been assigned to node
/// `x`.
pub(crate) open spec fn assigned_ptrs(ptrs: Seq<usize>, x: int, k: usize) -> Seq<usize> {
    if x < ptrs.len() {
        ptrs.update(x, k)
    } else {
        ptrs
    }
}

/// The effect on the elements of assigning the entry `k` to a node `x` that
/// is `h` levels high and has no assignment above it: the elements below
/// `x` become the entry `k - h`.
pub(crate) proof fn lemma_assigned_element<Query: Monoid>(
    data: Seq<Query::Set>,
    ptrs: Seq<usize>,
    pool: Seq<Query::Set>,
    x: int,
    h: nat,
    k: usize,
    q: int,
)
    requires
        data.len() == 2 * ptrs.len(),
        1 <= ptrs.len() <= x * pow2(h),
        (x + 1) * pow2(h) <= data.len(),
        ptrs.len() <= q < data.len(),
        unassigned_above(ptrs, x, 1),
        k != NULL_MAP_PTR,
    ensures
        element::<Query>(assigned_data::<Query>(data, pool, x, k as int), assigned_ptrs(ptrs, x, k), pool, q)
            == if x * pow2(h) <= q < (x + 1) * pow2(h) {
            pool[k - h]
        } else {
            element::<Query>(data, ptrs, pool, q)
        },
{
    let n = ptrs.len() as int;
    let after = assigned_ptrs(ptrs, x, k);
    lemma_pow2_pos(h);
    assert((x + 1) * pow2(h) == x * pow2(h) + pow2(h)) by (nonlinear_arith);
    lemma_level_span(n, x, h);
    lemma_below_leaf(x, h, n, q);
    lemma_ancestor_range(q, h, x);
    lemma_ancestor_one(x);
    if x >= 1 {
        lemma_ancestor_nonneg(x, 1);
        if x / 2 < n {
            lemma_pending_none(ptrs, x, 1);
            lemma_ancestor_one(x);
            assert(ancestor(x, 0) == x);
        }
    }
    if h == 0 {
        lemma_pow2_values();
        assert(x * 1 == x);
    } else {
        lemma_below_step(x, q);
        lemma_ancestor_smaller(x / 2, x);
        lemma_pending_frame(ptrs, x, k, x);
        if below(x, q) {
            lemma_pending_below(after, x, q, h);
        } else {
            lemma_pending_frame(ptrs, x, k, q);
        }
    }
}

/// The values after node `i` has handed its assignment down.
pub(crate) open spec fn propagated_data<Query: Monoid>(
    data: Seq<Query::Set>,
    ptrs: Seq<usize>,
    pool: Seq<Query::Set>,
    i: int,
) -> Seq<Query::Set> {
    if ptrs[i] != NULL_MAP_PTR {
        data.update(2 * i, pool[ptrs[i] - 1]).update(2 * i + 1, pool[ptrs[i] - 1])
    } else {
        data
    }
}

/// The pointers after node `i` has handed its assignment down.
pub(crate) open spec fn propagated_ptrs(ptrs: Seq<usize>, i: int) -> Seq<usize> {
    if ptrs[i] != NULL_MAP_PTR {
        assigned_ptrs(
            assigned_ptrs(ptrs.update(i, NULL_MAP_PTR), 2 * i, (ptrs[i] - 1) as usize),
            2 * i + 1,
            (ptrs[i] - 1) as usize,
        )
    } else {
        ptrs
    }
}

/// Handing an assignment down changes nothing of what is assigned from
/// above to a node that is not below the node that hands down.
proof fn lemma_propagated_pending(ptrs: Seq<usize>, i: int, j: int)
    requires
        1 <= i < ptrs.len(),
        0 <= j,
        j / 2 < ptrs.len(),
        !below(i, j / 2) || j <= 1,
    ensures
        pending(propagated_ptrs(ptrs, i), j) == pending(ptrs, j),
{
    if ptrs[i] != NULL_MAP_PTR && j > 1 {
        let k = (ptrs[i] - 1) as usize;
        let p0 = ptrs.update(i, NULL_MAP_PTR);
        let p1 = assigned_ptrs(p0, 2 * i, k);
        lemma_pending_frame(ptrs, i, NULL_MAP_PTR, j);
        if below(2 * i, j / 2) {
            lemma_below_child(i, 2 * i, j / 2);
        }
        if below(2 * i + 1, j / 2) {
            lemma_below_child(i, 2 * i + 1, j / 2);
        }
        if 2 * i < ptrs.len() {
            lemma_pending_frame(p0, 2 * i, k, j);
        }
        if 2 * i + 1 < ptrs.len() {
            lemma_pending_frame(p1, 2 * i + 1, k, j);
        }
    }
}

/// Handing an assignment down changes no element.
pub(crate) proof fn lemma_propagated_element<Query: Monoid>(
    data: Seq<Query::Set>,
    ptrs: Seq<usize>,
    pool: Seq<Query::Set>,
    i: int,
    q: int,
)
    requires
        data.len() == 2 * ptrs.len(),
        1 <= i < ptrs.len(),
        ptrs.len() <= q < data.len(),
        all_assigned_ok::<Query>(data, ptrs, pool),
        unassigned_above(ptrs, i, 1),
    ensures
        element::<Query>(
            propagated_data::<Query>(data, ptrs, pool, i),
            propagated_ptrs(ptrs, i),
            pool,
            q,
        ) == element::<Query>(data, ptrs, pool, q),
{
    let n = ptrs.len() as int;
    if ptrs[i] != NULL_MAP_PTR {
        let k = ptrs[i] as int;
        let after = propagated_ptrs(ptrs, i);
        let h = level(n, i);
        assert(assigned_ok::<Query>(data, ptrs, pool, i));
        lemma_spans_children(n, i);
        lemma_pow2_pos(h);
        assert((i + 1) * pow2(h) == i * pow2(h) + pow2(h)) by (nonlinear_arith);
        lemma_below_leaf(i, h, n, q);
        lemma_below_step(i, q);
        lemma_ancestor_one(i);
        lemma_ancestor_nonneg(i, 1);
        lemma_pending_none(ptrs, i, 1);
        assert(ancestor(i, 0) == i);
        assert(pending(ptrs, i) is None);
        lemma_ancestor_smaller(i / 2, i);
        lemma_propagated_pending(ptrs, i, i);
        assert(pending(after, i) is None);
        if below(i, q) {
            lemma_ancestor_range(q, h, i);
            lemma_pending_below(ptrs, i, q, h);
            if h == 1 {
                lemma_ancestor_one(q);
                assert(q / 2 == i);
                assert(after[i] == NULL_MAP_PTR);
                assert(pending(after, q) is None);
            } else {
                let c = q / pow2((h - 1) as nat) as int;
                lemma_ancestor_adds(q, (h - 1) as nat, 1);
                lemma_ancestor_one(c);
                assert(ancestor(q, (h - 1) as nat) == c);
                assert(c / 2 == i);
                assert(c == 2 * i || c == 2 * i + 1);
                assert(level(n, c) == h - 1);
                assert(c < n) by {
                    if c >= n {
                        assert(level(n, c) == 0);
                    }
                }
                assert(after[c] == (k - 1) as usize);
                assert(pending(after, c) is None);
                lemma_pending_below(after, c, q, (h - 1) as nat);
            }
        } else {
            lemma_propagated_pending(ptrs, i, q);
            lemma_below_step(i, 2 * i);
            lemma_below_step(i, 2 * i + 1);
            assert(ancestor(i, 0) == i);
            assert(below(i, i));
        }
    }
}

/// Handing an assignment down keeps every assignment sound.
pub(crate) proof fn lemma_propagated_assigned<Query: Monoid>(
    data: Seq<Query::Set>,
    ptrs: Seq<usize>,
    pool: Seq<Query::Set>,
    i: int,
    j: int,
)
    requires
        data.len() == 2 * ptrs.len(),
        1 <= i < ptrs.len(),
        1 <= j < ptrs.len(),
        all_assigned_ok::<Query>(data, ptrs, pool),
    ensures
        assigned_ok::<Query>(
            propagated_data::<Query>(data, ptrs, pool, i),
            propagated_ptrs(ptrs, i),
            pool,
            j,
        ),
{
    let n = ptrs.len() as int;
    assert(assigned_ok::<Query>(data, ptrs, pool, j));
    if ptrs[i] != NULL_MAP_PTR {
        let k = ptrs[i] as int;
        assert(assigned_ok::<Query>(data, ptrs, pool, i));
        lemma_spans_children(n, i);
        if j == 2 * i || j == 2 * i + 1 {
            assert(doubling::<Query>(pool, k - 1, level(n, j)));
        }
    }
}

/// Handing an assignment down leaves the node itself the combination of its
/// children, and every other node without an assignment what it was.
pub(crate) proof fn lemma_propagated_combined<Query: Monoid>(
    data: Seq<Query::Set>,
    ptrs: Seq<usize>,
    pool: Seq<Query::Set>,
    i: int,
    j: int,
)
    requires
        data.len() == 2 * ptrs.len(),
        1 <= i < ptrs.len(),
        1 <= j < ptrs.len(),
        all_assigned_ok::<Query>(data, ptrs, pool),
        combined_ok::<Query>(data, ptrs, j),
    ensures
        combined_ok::<Query>(
            propagated_data::<Query>(data, ptrs, pool, i),
            propagated_ptrs(ptrs, i),
            j,
        ),
{
    let n = ptrs.len() as int;
    if ptrs[i] != NULL_MAP_PTR {
        let k = ptrs[i] as int;
        assert(assigned_ok::<Query>(data, ptrs, pool, i));
        lemma_spans_children(n, i);
        if j == i {
            assert(pool[k] == Query::op(pool[k - 1], pool[k - 1]));
        }
    }
}

/// Handing an assignment down keeps the nodes above any node unassigned.
pub(crate) proof fn lemma_propagated_unassigned(ptrs: Seq<usize>, i: int, x: int, from: nat)
    requires
        1 <= i < ptrs.len(),
        0 <= x,
        unassigned_above(ptrs, x, from),
    ensures
        unassigned_above(propagated_ptrs(ptrs, i), x, from),
{
    let after = propagated_ptrs(ptrs, i);
    assert forall|d: nat| d >= from && 1 <= #[trigger] ancestor(x, d) < after.len() implies after[ancestor(
        x,
        d,
    )] == NULL_MAP_PTR by {
        let y = ancestor(x, d);
        if y == 2 * i || y == 2 * i + 1 {
            lemma_ancestor_adds(x, d, 1);
            lemma_ancestor_one(y);
            assert(ancestor(x, d + 1) == i);
            assert(ptrs[i] == NULL_MAP_PTR);
        }
    }
}

/// A data structure that supports **range query, range assign** operations.
///
/// It represents the sequence `self@` of its elements. An assignment
/// replaces every element of a range by one value.
///
/// The elements live in the second half of an array of twice their number,
/// node `i` being the parent of the nodes `2i` and `2i + 1`. A node to which
/// a value is assigned points to the entry of a pool that holds the value
/// doubled once for each level between the node and the elements, so that
/// the node itself holds what the combination of the elements below it will
/// be; its children are assigned the entry before, and so on.
pub struct AssignSegmentTree<Query: Monoid> {
    data: Vec<Query::Set>,
    /// one pointer into `lazy_map` for each node of the first half, or
    /// `NULL_MAP_PTR`
    lazy_ptr: Vec<usize>,
    /// `[f, f^2, f^4, ..., g, g^2, g^4, ..., h, ...]`
    lazy_map: Vec<Query::Set>,
}

impl<Query: Monoid> View for AssignSegmentTree<Query> {
    type V = Seq<Query::Set>;

    /// The elements, in order, with all assignments applied.
    closed spec fn view(&self) -> Seq<Query::Set> {
        elements::<Query>(self.data@, self.lazy_ptr@, self.lazy_map@)
    }
}

impl<Query: Monoid> AssignSegmentTree<Query> {
    /// The arrays have matching lengths and every assignment is sound.
    pub closed spec fn structure(&self) -> bool {
        &&& self.data.len() == 2 * self.lazy_ptr.len()
        &&& all_assigned_ok::<Query>(self.data@, self.lazy_ptr@, self.lazy_map@)
    }

    /// The structure is sound, and every inner node without an assignment
    /// holds the combination of its children.
    pub closed spec fn wf(&self) -> bool {
        &&& self.structure()
        &&& combined_off::<Query>(self.data@, self.lazy_ptr@, 0, 0, 0, 0)
    }

    /// Returns the number of elements.
    ///
    /// # Time complexity
    ///
    /// *O*(1)
    pub fn len(&self) -> (n: usize)
        requires
            self.wf(),
        ensures
            n == self@.len(),
    {
        self.lazy_ptr.len()
    }

    fn inner_index(&self, i: usize) -> (r: usize)
        requires
            self.structure(),
            i <= self.lazy_ptr.len(),
        ensures
            r == self.lazy_ptr.len() + i,
    {
        self.lazy_ptr.len() + i
    }

    /// Assigns the entry `map_ptr` of the pool to node `i`.
    fn push_map(&mut self, i: usize, map_ptr: usize)
        requires
            old(self).data.len() == 2 * old(self).lazy_ptr.len(),
            1 <= i < old(self).data.len(),
            map_ptr < old(self).lazy_map.len(),
        ensures
            final(self).lazy_map@ == old(self).lazy_map@,
            final(self).data@ == assigned_data::<Query>(
                old(self).data@,
                old(self).lazy_map@,
                i as int,
                map_ptr as int,
            ),
            final(self).lazy_ptr@ == assigned_ptrs(old(self).lazy_ptr@, i as int, map_ptr),
    {
        proof {
            Query::lemma_identity(self.lazy_map@[map_ptr as int]);
        }
        let copy = Query::combine(&self.lazy_map[map_ptr], &Query::identity());
        self.data[i] = copy;
        if i < self.lazy_ptr.len() {
            self.lazy_ptr[i] = map_ptr;
        }
    }

    /// Hands the assignment of node `i` down to its two children.
    fn propagate_at(&mut self, i: usize)
        requires
            old(self).structure(),
            1 <= i < old(self).lazy_ptr.len(),
        ensures
            final(self).lazy_map@ == old(self).lazy_map@,
            final(self).data@ == propagated_data::<Query>(
                old(self).data@,
                old(self).lazy_ptr@,
                old(self).lazy_map@,
                i as int,
            ),
            final(self).lazy_ptr@ == propagated_ptrs(old(self).lazy_ptr@, i as int),
            final(self).structure(),
    {
        let ghost data0 = self.data@;
        let ghost ptrs0 = self.lazy_ptr@;
        let ghost pool = self.lazy_map@;
        let map_ptr = self.lazy_ptr[i];
        if map_ptr != NULL_MAP_PTR {
            proof {
                assert(assigned_ok::<Query>(data0, ptrs0, pool, i as int));
                lemma_spans_children(ptrs0.len() as int, i as int);
            }
            self.lazy_ptr[i] = NULL_MAP_PTR;
            self.push_map(2 * i, map_ptr - 1);
            self.push_map(2 * i + 1, map_ptr - 1);
            proof {
                assert(self.data@ =~= propagated_data::<Query>(data0, ptrs0, pool, i as int));
                assert(self.lazy_ptr@ =~= propagated_ptrs(ptrs0, i as int));
            }
        }
        proof {
            assert forall|j: int| 1 <= j < ptrs0.len() implies #[trigger] assigned_ok::<Query>(
                self.data@,
                self.lazy_ptr@,
                self.lazy_map@,
                j,
            ) by {
                lemma_propagated_assigned::<Query>(data0, ptrs0, pool, i as int, j);
            }
        }
    }

    /// Recombines node `i` from its children, where nothing is assigned to
    /// it.
    fn recalculate_at(&mut self, i: usize)
        requires
            old(self).structure(),
            1 <= i < old(self).lazy_ptr.len(),
        ensures
            final(self).structure(),
            final(self).lazy_map@ == old(self).lazy_map@,
            final(self).lazy_ptr@ == old(self).lazy_ptr@,
            final(self).data@ == (if old(self).lazy_ptr@[i as int] == NULL_MAP_PTR {
                old(self).data@.update(
                    i as int,
                    Query::op(old(self).data@[2 * i], old(self).data@[2 * i + 1]),
                )
            } else {
                old(self).data@
            }),
    {
        let ghost data0 = self.data@;
        if self.lazy_ptr[i] == NULL_MAP_PTR {
            let combined = Query::combine(&self.data[2 * i], &self.data[2 * i + 1]);
            self.data[i] = combined;
            proof {
                assert forall|j: int| 1 <= j < self.lazy_ptr.len() implies #[trigger] assigned_ok::<
                    Query,
                >(self.data@, self.lazy_ptr@, self.lazy_map@, j) by {
                    assert(assigned_ok::<Query>(data0, self.lazy_ptr@, self.lazy_map@, j));
                }
            }
        }
    }

    /// Hands down the assignments of all nodes above node `x`, from the
    /// root on.
    fn propagate_above(&mut self, x: usize)
        requires
            old(self).wf(),
            1 <= x,
            x as int / 2 < old(self).lazy_ptr.len(),
        ensures
            final(self).wf(),
            final(self)@ == old(self)@,
            final(self).lazy_ptr.len() == old(self).lazy_ptr.len(),
            final(self).lazy_map@ == old(self).lazy_map@,
            unassigned_above(final(self).lazy_ptr@, x as int, 1),
            forall|y: int|
                0 <= y && #[trigger] unassigned_above(old(self).lazy_ptr@, y, 1) ==> unassigned_above(
                    final(self).lazy_ptr@,
                    y,
                    1,
                ),
    {
        let h = height(x);
        let mut d = h;
        let ghost n = self.lazy_ptr.len() as int;
        proof {
            assert forall|e: nat|
                e >= h + 1 && 1 <= #[trigger] ancestor(x as int, e)
                    < self.lazy_ptr@.len() implies self.lazy_ptr@[ancestor(x as int, e)]
                == NULL_MAP_PTR by {
                lemma_ancestor_beyond(x as int, e, h as nat);
            }
        }
        while d >= 1
            invariant
                d <= h < usize::BITS,
                ancestor(x as int, h as nat) == 1,
                1 <= x,
                x as int / 2 < n,
                n == self.lazy_ptr.len(),
                self.wf(),
                self@ == old(self)@,
                self.lazy_map@ == old(self).lazy_map@,
                unassigned_above(self.lazy_ptr@, x as int, (d + 1) as nat),
                forall|y: int|
                    0 <= y && #[trigger] unassigned_above(old(self).lazy_ptr@, y, 1)
                        ==> unassigned_above(self.lazy_ptr@, y, 1),
            decreases d,
        {
            let i = ancestor_of(x, d);
            let ghost data0 = self.data@;
            let ghost ptrs0 = self.lazy_ptr@;
            let ghost pool = self.lazy_map@;
            proof {
                lemma_ancestor_positive(x as int, d as nat, h as nat);
                lemma_ancestor_adds(x as int, 1, (d - 1) as nat);
                lemma_ancestor_one(x as int);
                lemma_ancestor_smaller(x as int / 2, x as int);
                assert forall|e: nat|
                    e >= 1 && 1 <= #[trigger] ancestor(i as int, e) < ptrs0.len() implies ptrs0[ancestor(
                    i as int,
                    e,
                )] == NULL_MAP_PTR by {
                    lemma_ancestor_adds(x as int, d as nat, e);
                    assert(ancestor(x as int, (d + e) as nat) == ancestor(i as int, e));
                }
            }
            self.propagate_at(i);
            proof {
                assert forall|j: int|
                    1 <= j < n && !on_chain(0, 0, j) implies #[trigger] combined_ok::<Query>(
                    self.data@,
                    self.lazy_ptr@,
                    j,
                ) by {
                    assert(combined_ok::<Query>(data0, ptrs0, j));
                    lemma_propagated_combined::<Query>(data0, ptrs0, pool, i as int, j);
                }
                assert forall|p: int| 0 <= p < n implies self@[p] == old(self)@[p] by {
                    lemma_propagated_element::<Query>(data0, ptrs0, pool, i as int, n + p);
                }
                assert(self@ =~= old(self)@);
                lemma_propagated_unassigned(ptrs0, i as int, x as int, (d + 1) as nat);
                assert forall|e: nat|
                    e >= d && 1 <= #[trigger] ancestor(x as int, e)
                        < self.lazy_ptr@.len() implies self.lazy_ptr@[ancestor(x as int, e)]
                    == NULL_MAP_PTR by {
                    if e > d {
                        assert(unassigned_above(self.lazy_ptr@, x as int, (d + 1) as nat));
                    }
                }
                assert forall|y: int|
                    0 <= y && #[trigger] unassigned_above(
                        old(self).lazy_ptr@,
                        y,
                        1,
                    ) implies unassigned_above(self.lazy_ptr@, y, 1) by {
                    lemma_propagated_unassigned(ptrs0, i as int, y, 1);
                }
            }
            d -= 1;
        }
    }

    /// Recombines all nodes above node `c`, bottom-up. The nodes above `c2`
    /// may be out of date before, and stay as they are.
    fn recalculate_above(&mut self, c: usize, Ghost(c2): Ghost<int>, Ghost(from2): Ghost<nat>)
        requires
            old(self).structure(),
            1 <= c,
            c as int / 2 < old(self).lazy_ptr.len(),
            combined_off::<Query>(old(self).data@, old(self).lazy_ptr@, c as int, 1, c2, from2),
        ensures
            final(self).structure(),
            final(self).lazy_ptr@ == old(self).lazy_ptr@,
            final(self).lazy_map@ == old(self).lazy_map@,
            final(self)@ == old(self)@,
            combined_off::<Query>(final(self).data@, final(self).lazy_ptr@, 0, 0, c2, from2),
    {
        let h = height(c);
        let mut d: usize = 1;
        let ghost n = self.lazy_ptr.len() as int;
        while d <= h
            invariant
                1 <= d <= h + 1,
                h < usize::BITS,
                ancestor(c as int, h as nat) == 1,
                1 <= c,
                c as int / 2 < n,
                n == self.lazy_ptr.len(),
                self.structure(),
                self.lazy_ptr@ == old(self).lazy_ptr@,
                self.lazy_map@ == old(self).lazy_map@,
                self@ == old(self)@,
                combined_off::<Query>(self.data@, self.lazy_ptr@, c as int, d as nat, c2, from2),
            decreases h + 1 - d,
        {
            let y = ancestor_of(c, d);
            let ghost data0 = self.data@;
            proof {
                lemma_ancestor_positive(c as int, d as nat, h as nat);
                lemma_ancestor_adds(c as int, 1, (d - 1) as nat);
                lemma_ancestor_one(c as int);
                lemma_ancestor_smaller(c as int / 2, c as int);
            }
            self.recalculate_at(y);
            proof {
                assert forall|j: int|
                    1 <= j < n && !on_chain(c as int, (d + 1) as nat, j) && !on_chain(
                        c2,
                        from2,
                        j,
                    ) implies #[trigger] combined_ok::<Query>(self.data@, self.lazy_ptr@, j) by {
                    if j != y {
                        if on_chain(c as int, d as nat, j) {
                            let e = choose|e: nat| e >= d && #[trigger] ancestor(c as int, e) == j;
                            assert(e >= d + 1);
                        }
                        assert(combined_ok::<Query>(data0, self.lazy_ptr@, j));
                        if j == y as int / 2 {
                            lemma_ancestor_adds(c as int, d as nat, 1);
                            lemma_ancestor_one(y as int);
                            assert(ancestor(c as int, (d + 1) as nat) == j);
                        }
                    }
                }
                assert forall|p: int| 0 <= p < n implies self@[p] == old(self)@[p] by {}
                assert(self@ =~= old(self)@);
            }
            d += 1;
        }
        proof {
            assert forall|j: int|
                1 <= j < n && !on_chain(0, 0, j) && !on_chain(c2, from2, j) implies #[trigger] combined_ok::<
                Query,
            >(self.data@, self.lazy_ptr@, j) by {
                if on_chain(c as int, (h + 1) as nat, j) {
                    let e = choose|e: nat| e >= h + 1 && #[trigger] ancestor(c as int, e) == j;
                    lemma_ancestor_beyond(c as int, e, h as nat);
                }
            }
        }
    }

    /// Hands down the assignments of all nodes, from the root on, so that
    /// every element stands in its own node.
    fn propagate_all(&mut self)
        requires
            old(self).structure(),
        ensures
            final(self).structure(),
            old(self).wf() ==> final(self).wf(),
            final(self)@ == old(self)@,
            final(self).lazy_ptr.len() == old(self).lazy_ptr.len(),
            forall|j: int| 1 <= j < final(self).lazy_ptr.len() ==> final(self).lazy_ptr@[j] == NULL_MAP_PTR,
            final(self).data@.subrange(
                final(self).lazy_ptr.len() as int,
                final(self).data.len() as int,
            ) == final(self)@,
    {
        let n = self.lazy_ptr.len();
        let mut i: usize = 1;
        while i < n
            invariant
                1 <= i,
                self.structure(),
                old(self).wf() ==> self.wf(),
                self.lazy_ptr.len() == n,
                self@ == old(self)@,
                forall|j: int| 1 <= j < i && j < n ==> self.lazy_ptr@[j] == NULL_MAP_PTR,
            decreases n - i,
        {
            let ghost data0 = self.data@;
            let ghost ptrs0 = self.lazy_ptr@;
            let ghost pool = self.lazy_map@;
            proof {
                assert forall|e: nat|
                    e >= 1 && 1 <= #[trigger] ancestor(i as int, e) < ptrs0.len() implies ptrs0[ancestor(
                    i as int,
                    e,
                )] == NULL_MAP_PTR by {
                    lemma_ancestor_strict(i as int, e);
                }
            }
            self.propagate_at(i);
            proof {
                if old(self).wf() {
                    assert forall|j: int|
                        1 <= j < n && !on_chain(0, 0, j) implies #[trigger] combined_ok::<Query>(
                        self.data@,
                        self.lazy_ptr@,
                        j,
                    ) by {
                        assert(combined_ok::<Query>(data0, ptrs0, j));
                        lemma_propagated_combined::<Query>(data0, ptrs0, pool, i as int, j);
                    }
                }
                assert forall|p: int| 0 <= p < n implies self@[p] == old(self)@[p] by {
                    lemma_propagated_element::<Query>(data0, ptrs0, pool, i as int, n + p);
                }
                assert(self@ =~= old(self)@);
            }
            i += 1;
        }
        proof {
            assert forall|p: int| 0 <= p < n implies self.data@[n + p] == self@[p] by {
                let q = n + p;
                lemma_ancestor_one(q);
                assert forall|d: nat|
                    d >= 1 && 1 <= #[trigger] ancestor(q, d)
                        < self.lazy_ptr@.len() implies self.lazy_ptr@[ancestor(q, d)]
                    == NULL_MAP_PTR by {}
                lemma_pending_none(self.lazy_ptr@, q, 1);
                assert(ancestor(q, 0) == q);
            }
            assert(self.data@.subrange(n as int, 2 * n) =~= self@);
        }
    }

    /// Recombines every node from its children, bottom-up.
    fn recalculate_all(&mut self)
        requires
            old(self).structure(),
        ensures
            final(self).wf(),
            final(self)@ == old(self)@,
            final(self).lazy_ptr@ == old(self).lazy_ptr@,
            final(self).lazy_map@ == old(self).lazy_map@,
            final(self).data@.subrange(
                final(self).lazy_ptr.len() as int,
                final(self).data.len() as int,
            ) == old(self).data@.subrange(
                old(self).lazy_ptr.len() as int,
                old(self).data.len() as int,
            ),
    {
        let n = self.lazy_ptr.len();
        let mut i: usize = n;
        while i > 1
            invariant
                i <= n,
                n >= 1 ==> i >= 1,
                n == self.lazy_ptr.len(),
                self.structure(),
                self@ == old(self)@,
                self.lazy_ptr@ == old(self).lazy_ptr@,
                self.lazy_map@ == old(self).lazy_map@,
                self.data@.subrange(n as int, 2 * n) == old(self).data@.subrange(n as int, 2 * n),
                forall|j: int| i <= j < n ==> #[trigger] combined_ok::<Query>(self.data@, self.lazy_ptr@, j),
            decreases i,
        {
            i -= 1;
            let ghost data0 = self.data@;
            self.recalculate_at(i);
            proof {
                assert(self.data@.subrange(n as int, 2 * n) =~= data0.subrange(n as int, 2 * n));
                assert forall|j: int| i <= j < n implies #[trigger] combined_ok::<Query>(
                    self.data@,
                    self.lazy_ptr@,
                    j,
                ) by {
                    if j > i {
                        assert(combined_ok::<Query>(data0, self.lazy_ptr@, j));
                    }
                }
                assert forall|p: int| 0 <= p < n implies self@[p] == old(self)@[p] by {}
                assert(self@ =~= old(self)@);
            }
        }
    }

    /// Returns an iterator over the elements, in order. The assignments are
    /// handed down first.
    ///
    /// # Time complexity
    ///
    /// *O*(*N*)
    pub fn iter(&mut self) -> (elements: std::slice::Iter<'_, Query::Set>)
        requires
            old(self).wf(),
        ensures
            vstd::std_specs::slice::into_iter_elts(elements) == old(self)@,
            final(self).wf(),
            final(self)@ == old(self)@,
    {
        self.propagate_all();
        let n = self.lazy_ptr.len();
        let leaves = vstd::slice::slice_subrange(self.data.as_slice(), n, 2 * n);
        leaves.iter()
    }

    /// Creates a new instance initialized with `n` identity elements.
    ///
    /// # Time complexity
    ///
    /// *O*(*N*)
    pub fn new(n: usize) -> (tree: Self)
        requires
            2 * n <= usize::MAX,
        ensures
            tree.wf(),
            tree@.len() == n,
            forall|i: int| 0 <= i < n ==> tree@[i] == Query::id(),
    {
        let mut values: Vec<Query::Set> = Vec::new();
        let mut k: usize = 0;
        while k < n
            invariant
                k <= n,
                values.len() == k,
                forall|i: int| 0 <= i < k ==> values[i] == Query::id(),
            decreases n - k,
        {
            values.push(Query::identity());
            k += 1;
        }
        Self::from(values)
    }

    /// Creates an instance that holds `values`.
    ///
    /// # Time complexity
    ///
    /// *O*(*N*)
    pub fn from(values: Vec<Query::Set>) -> (tree: Self)
        requires
            2 * values.len() <= usize::MAX,
        ensures
            tree.wf(),
            tree@ == values@,
    {
        let n = values.len();
        let ghost given = values@;
        let mut data: Vec<Query::Set> = Vec::new();
        let mut lazy_ptr: Vec<usize> = Vec::new();
        let mut k: usize = 0;
        while k < n
            invariant
                k <= n,
                data.len() == k,
                lazy_ptr.len() == k,
                forall|i: int| 0 <= i < k ==> lazy_ptr[i] == NULL_MAP_PTR,
            decreases n - k,
        {
            data.push(Query::identity());
            lazy_ptr.push(NULL_MAP_PTR);
            k += 1;
        }
        let mut values = values;
        data.append(&mut values);
        let mut tree = AssignSegmentTree { data, lazy_ptr, lazy_map: Vec::new() };
        proof {
            assert forall|p: int| 0 <= p < n implies tree@[p] == given[p] by {
                let q = n + p;
                lemma_ancestor_one(q);
                assert(unassigned_above(tree.lazy_ptr@, q, 1));
                lemma_pending_none(tree.lazy_ptr@, q, 1);
                assert(ancestor(q, 0) == q);
            }
            assert(tree@ =~= given);
        }
        tree.recalculate_all();
        tree
    }

    /// Answers the query for the given range: the combination of its
    /// elements in order, the identity element where it is empty.
    ///
    /// # Time complexity
    ///
    /// *O*(log *N*)
    pub fn range_query<R: RangeArg<usize>>(&mut self, range: R) -> (combined: Query::Set)
        requires
            old(self).wf(),
            within(range, old(self)@.len() as usize),
        ensures
            final(self).wf(),
            final(self)@ == old(self)@,
            combined == range_fold::<Query>(
                old(self)@,
                span_start(range.lower(), 0),
                span_end(range.upper(), old(self)@.len() as usize),
            ),
    {
        let n = self.lazy_ptr.len();
        let span = convert_range(range, 0..n);
        if span.start >= span.end {
            return Query::identity();
        }
        let ghost lo0 = (n + span.start) as int;
        let ghost hi0 = (n + span.end) as int;
        let (mut l, Ghost(a0)) = strip(n + span.start);
        let (mut r, Ghost(b0)) = strip(n + span.end);
        let ghost mut a = a0;
        let ghost mut b = b0;
        proof {
            lemma_pow2_pos(a);
            lemma_pow2_pos(b);
            assert(l <= l * pow2(a)) by (nonlinear_arith)
                requires
                    pow2(a) >= 1,
                    l >= 0,
            ;
            assert(r <= r * pow2(b)) by (nonlinear_arith)
                requires
                    pow2(b) >= 1,
                    r >= 0,
            ;
        }
        self.propagate_above(l);
        self.propagate_above(r);
        let ghost view = self@;
        let mut acc_l = Query::identity();
        let mut acc_r = Query::identity();
        proof {
            Query::lemma_identity(fold::<Query>(view.subrange(lo0 - n, hi0 - n)));
        }
        loop
            invariant_except_break
                l * pow2(a) < r * pow2(b),
                Query::op(
                    Query::op(acc_l, fold::<Query>(view.subrange(l * pow2(a) - n, r * pow2(b) - n))),
                    acc_r,
                ) == fold::<Query>(view.subrange(lo0 - n, hi0 - n)),
            invariant
                self.wf(),
                view == self@,
                self.lazy_ptr.len() == n,
                l % 2 == 1,
                r % 2 == 1,
                1 <= n <= lo0 <= l * pow2(a) <= r * pow2(b) <= hi0 <= 2 * n,
                unassigned_above(self.lazy_ptr@, l as int, 1),
                unassigned_above(self.lazy_ptr@, r as int, 1),
            ensures
                Query::op(acc_l, acc_r) == fold::<Query>(view.subrange(lo0 - n, hi0 - n)),
            decreases r * pow2(b) - l * pow2(a),
        {
            let ghost lo = l * pow2(a);
            let ghost hi = r * pow2(b);
            proof {
                lemma_pow2_pos(a);
                lemma_pow2_pos(b);
            }
            if l >= r {
                proof {
                    lemma_take_left(l as int, a, r as int, b);
                    assert((l + 1) * pow2(a) == lo + pow2(a)) by (nonlinear_arith)
                        requires
                            lo == l * pow2(a),
                    ;
                    lemma_node_is_fold::<Query>(
                        self.data@,
                        self.lazy_ptr@,
                        self.lazy_map@,
                        l as int,
                        a,
                    );
                    lemma_ancestor_one(l as int);
                    lemma_level_span(n as int, l as int, a);
                    lemma_pending_none(self.lazy_ptr@, l as int, 1);
                    assert(ancestor(l as int, 0) == l);
                    lemma_fold_split::<Query>(view, lo - n, lo + pow2(a) - n, hi - n);
                    Query::lemma_associative(
                        acc_l,
                        self.data@[l as int],
                        fold::<Query>(view.subrange(lo + pow2(a) - n, hi - n)),
                    );
                }
                acc_l = Query::combine(&acc_l, &self.data[l]);
                let (m, Ghost(k)) = strip(l + 1);
                proof {
                    assert forall|e: nat|
                        e >= 1 && 1 <= #[trigger] ancestor(m as int, e)
                            < self.lazy_ptr@.len() implies self.lazy_ptr@[ancestor(m as int, e)]
                        == NULL_MAP_PTR by {
                        lemma_next_left(l as int, m as int, k, e);
                        assert(self.lazy_ptr@[ancestor(l as int, k + e)] == NULL_MAP_PTR);
                    }
                    lemma_pow2_adds(k, a);
                    assert(m * pow2(k + a) == (l + 1) * pow2(a)) by (nonlinear_arith)
                        requires
                            l + 1 == m * pow2(k),
                            pow2(k + a) == pow2(k) * pow2(a),
                    ;
                    a = k + a;
                }
                l = m;
            } else {
                proof {
                    lemma_take_right(l as int, a, r as int, b);
                    assert((r - 1) * pow2(b) == hi - pow2(b)) by (nonlinear_arith)
                        requires
                            hi == r * pow2(b),
                    ;
                    assert((r - 1 + 1) * pow2(b) == hi);
                    lemma_node_is_fold::<Query>(
                        self.data@,
                        self.lazy_ptr@,
                        self.lazy_map@,
                        r - 1,
                        b,
                    );
                    lemma_ancestor_one(r - 1);
                    assert forall|e: nat|
                        e >= 1 && 1 <= #[trigger] ancestor(r - 1, e)
                            < self.lazy_ptr@.len() implies self.lazy_ptr@[ancestor(r - 1, e)]
                        == NULL_MAP_PTR by {
                        lemma_sibling_ancestors(r as int, e);
                        assert(self.lazy_ptr@[ancestor(r as int, e)] == NULL_MAP_PTR);
                    }
                    lemma_level_span(n as int, r - 1, b);
                    lemma_pending_none(self.lazy_ptr@, r - 1, 1);
                    assert(ancestor(r - 1, 0) == r - 1);
                    lemma_fold_split::<Query>(view, lo - n, hi - pow2(b) - n, hi - n);
                    let mid = fold::<Query>(view.subrange(lo - n, hi - pow2(b) - n));
                    Query::lemma_associative(mid, self.data@[r - 1], acc_r);
                    Query::lemma_associative(acc_l, mid, self.data@[r - 1]);
                    Query::lemma_associative(Query::op(acc_l, mid), self.data@[r - 1], acc_r);
                }
                acc_r = Query::combine(&self.data[r - 1], &acc_r);
                let (m, Ghost(k)) = strip(r - 1);
                proof {
                    assert forall|e: nat|
                        e >= 1 && 1 <= #[trigger] ancestor(m as int, e)
                            < self.lazy_ptr@.len() implies self.lazy_ptr@[ancestor(m as int, e)]
                        == NULL_MAP_PTR by {
                        lemma_next_right(r as int, m as int, k, e);
                        assert(self.lazy_ptr@[ancestor(r as int, k + e)] == NULL_MAP_PTR);
                    }
                    lemma_pow2_adds(k, b);
                    assert(m * pow2(k + b) == (r - 1) * pow2(b)) by (nonlinear_arith)
                        requires
                            r - 1 == m * pow2(k),
                            pow2(k + b) == pow2(k) * pow2(b),
                    ;
                    b = k + b;
                }
                r = m;
            }
            if l == r {
                proof {
                    lemma_cursors_meet(l as int, a, r as int, b, n as int);
                    assert(view.subrange(l * pow2(a) - n, r * pow2(b) - n) =~= Seq::empty());
                    Query::lemma_identity(acc_l);
                }
                break ;
            }
            proof {
                if l * pow2(a) == r * pow2(b) {
                    lemma_odd_unique(l as int, a, r as int, b);
                }
            }
        }
        Query::combine(&acc_l, &acc_r)
    }

    /// Appends `element` and its doublings up to `2^levels` to the pool.
    /// Returns the entry of `element`.
    fn push_powers(&mut self, element: Query::Set, levels: usize) -> (base: usize)
        requires
            old(self).structure(),
        ensures
            final(self).structure(),
            final(self).data@ == old(self).data@,
            final(self).lazy_ptr@ == old(self).lazy_ptr@,
            final(self)@ == old(self)@,
            base == old(self).lazy_map.len(),
            final(self).lazy_map.len() == base + levels + 1,
            final(self).lazy_map@[base as int] == element,
            forall|h: nat| h <= levels ==> #[trigger] doubling::<Query>(final(self).lazy_map@, base + h, h),
    {
        let ghost pool0 = self.lazy_map@;
        let base = self.lazy_map.len();
        self.lazy_map.push(element);
        let mut j: usize = 0;
        while j < levels
            invariant
                j <= levels,
                base == pool0.len(),
                self.lazy_map.len() == base + j + 1,
                self.lazy_map@.subrange(0, base as int) == pool0,
                self.lazy_map@[base as int] == element,
                self.data@ == old(self).data@,
                self.lazy_ptr@ == old(self).lazy_ptr@,
                forall|t: int|
                    base < t <= base + j ==> #[trigger] self.lazy_map@[t] == Query::op(
                        self.lazy_map@[t - 1],
                        self.lazy_map@[t - 1],
                    ),
            decreases levels - j,
        {
            let ghost before = self.lazy_map@;
            let next = Query::combine(&self.lazy_map[base + j], &self.lazy_map[base + j]);
            self.lazy_map.push(next);
            proof {
                assert(self.lazy_map@.subrange(0, base as int) =~= before.subrange(0, base as int));
                assert forall|t: int| base < t <= base + j + 1 implies #[trigger] self.lazy_map@[t]
                    == Query::op(self.lazy_map@[t - 1], self.lazy_map@[t - 1]) by {
                    if t <= base + j {
                        assert(before[t] == Query::op(before[t - 1], before[t - 1]));
                    }
                }
            }
            j += 1;
        }
        proof {
            let pool = self.lazy_map@;
            let data = self.data@;
            let ptrs = self.lazy_ptr@;
            let n = ptrs.len() as int;
            assert forall|t: int| 0 <= t < base implies pool[t] == pool0[t] by {
                assert(pool.subrange(0, base as int)[t] == pool0[t]);
            }
            assert forall|i: int| 1 <= i < n implies #[trigger] assigned_ok::<Query>(
                data,
                ptrs,
                pool,
                i,
            ) by {
                assert(assigned_ok::<Query>(data, ptrs, pool0, i));
                if ptrs[i] != NULL_MAP_PTR {
                    let k = ptrs[i] as int;
                    let h = level(n, i);
                    assert forall|t: int| k - h < t <= k implies #[trigger] pool[t] == Query::op(
                        pool[t - 1],
                        pool[t - 1],
                    ) by {
                        assert(pool0[t] == Query::op(pool0[t - 1], pool0[t - 1]));
                    }
                }
            }
            assert forall|p: int| 0 <= p < n implies self@[p] == old(self)@[p] by {
                lemma_pending_valid::<Query>(data, ptrs, pool0, n + p);
            }
            assert(self@ =~= old(self)@);
            assert forall|h: nat| h <= levels implies #[trigger] doubling::<Query>(
                pool,
                base + h,
                h,
            ) by {}
        }
        base
    }

    /// Assigns `element` to every position of the range.
    ///
    /// # Time complexity
    ///
    /// *O*(log *N*), amortized
    pub fn range_assign<R: RangeArg<usize>>(&mut self, range: R, element: Query::Set)
        requires
            old(self).wf(),
            within(range, old(self)@.len() as usize),
        ensures
            final(self).wf(),
            final(self)@ == assigned::<Query>(
                old(self)@,
                span_start(range.lower(), 0),
                span_end(range.upper(), old(self)@.len() as usize),
                element,
            ),
    {
        let n = self.lazy_ptr.len();
        let span = convert_range(range, 0..n);
        if span.start >= span.end {
            proof {
                assert(self@ =~= assigned::<Query>(
                    self@,
                    span.start as int,
                    span.end as int,
                    element,
                ));
            }
            return ;
        }
        let ghost lo0 = (n + span.start) as int;
        let ghost hi0 = (n + span.end) as int;
        let (l0, a0) = strip_level(n + span.start);
        let (r0, b0) = strip_level(n + span.end);
        let mut l = l0;
        let mut r = r0;
        let mut a = a0;
        let mut b = b0;
        // how far the cursors' chains are above those of `l0` and `r0`
        let ghost mut kl: nat = 0;
        let ghost mut kr: nat = 0;
        proof {
            lemma_pow2_pos(a as nat);
            lemma_pow2_pos(b as nat);
            assert(l <= l * pow2(a as nat)) by (nonlinear_arith)
                requires
                    pow2(a as nat) >= 1,
                    l >= 0,
            ;
            assert(r <= r * pow2(b as nat)) by (nonlinear_arith)
                requires
                    pow2(b as nat) >= 1,
                    r >= 0,
            ;
        }
        self.propagate_above(l);
        self.propagate_above(r);
        let levels = height(n);
        let base = self.push_powers(element, levels);
        assert(self.lazy_map.len() == base + levels + 1);
        let ghost base_view = self@;
        let ghost pool = self.lazy_map@;
        proof {
            assert forall|j: int|
                1 <= j < n && !on_chain(l0 as int, 1, j) && !on_chain(
                    r0 as int,
                    1,
                    j,
                ) implies #[trigger] combined_ok::<Query>(self.data@, self.lazy_ptr@, j) by {
                if on_chain(0, 0, j) {
                    let e = choose|e: nat| e >= 0 && #[trigger] ancestor(0, e) == j;
                    lemma_ancestor_smaller(0, 1);
                }
            }
        }
        loop
            invariant_except_break
                l * pow2(a as nat) < r * pow2(b as nat),
            invariant
                self.structure(),
                self.lazy_ptr.len() == n,
                self.lazy_map@ == pool,
                pool.len() == base + levels + 1,
                base + levels + 1 <= usize::MAX,
                pool[base as int] == element,
                forall|h: nat| h <= levels ==> #[trigger] doubling::<Query>(pool, base + h, h),
                pow2(levels as nat) <= n < 2 * pow2(levels as nat),
                a < usize::BITS,
                b < usize::BITS,
                levels < usize::BITS,
                l % 2 == 1,
                r % 2 == 1,
                1 <= l0,
                1 <= r0,
                1 <= n <= lo0 <= l * pow2(a as nat) <= r * pow2(b as nat) <= hi0 <= 2 * n,
                base_view.len() == n,
                forall|e: nat| e >= 1 ==> #[trigger] ancestor(l as int, e) == ancestor(l0 as int, kl + e),
                forall|e: nat| e >= 1 ==> #[trigger] ancestor(r as int, e) == ancestor(r0 as int, kr + e),
                combined_off::<Query>(self.data@, self.lazy_ptr@, l0 as int, 1, r0 as int, 1),
                unassigned_above(self.lazy_ptr@, l as int, 1),
                unassigned_above(self.lazy_ptr@, r as int, 1),
                forall|q: int|
                    n <= q < 2 * n ==> #[trigger] self::element::<Query>(
                        self.data@,
                        self.lazy_ptr@,
                        pool,
                        q,
                    ) == if lo0 <= q < l * pow2(a as nat) || r * pow2(b as nat) <= q < hi0 {
                        element
                    } else {
                        base_view[q - n]
                    },
            ensures
                l * pow2(a as nat) == r * pow2(b as nat),
            decreases r * pow2(b as nat) - l * pow2(a as nat),
        {
            let ghost lo = l * pow2(a as nat);
            let ghost hi = r * pow2(b as nat);
            let ghost data0 = self.data@;
            let ghost ptrs0 = self.lazy_ptr@;
            proof {
                lemma_pow2_pos(a as nat);
                lemma_pow2_pos(b as nat);
                lemma_pow2_unfold((levels + 1) as nat);
                assert(l <= l * pow2(a as nat)) by (nonlinear_arith)
                    requires
                        pow2(a as nat) >= 1,
                        l >= 0,
                ;
                assert(r <= r * pow2(b as nat)) by (nonlinear_arith)
                    requires
                        pow2(b as nat) >= 1,
                        r >= 0,
                ;
            }
            if l >= r {
                proof {
                    lemma_take_left(l as int, a as nat, r as int, b as nat);
                    assert((l + 1) * pow2(a as nat) == lo + pow2(a as nat)) by (nonlinear_arith)
                        requires
                            lo == l * pow2(a as nat),
                    ;
                    // the node is not higher than the pool has doublings
                    lemma_pow2_le(a as nat, (levels + 1) as nat);
                    assert(doubling::<Query>(pool, base + a as nat, a as nat));
                }
                self.push_map(l, base + a);
                let (m, k) = strip_level(l + 1);
                proof {
                    assert forall|q: int| n <= q < 2 * n implies #[trigger] self::element::<Query>(
                        self.data@,
                        self.lazy_ptr@,
                        pool,
                        q,
                    ) == if lo0 <= q < lo + pow2(a as nat) || hi <= q < hi0 {
                        element
                    } else {
                        base_view[q - n]
                    } by {
                        lemma_assigned_element::<Query>(
                            data0,
                            ptrs0,
                            pool,
                            l as int,
                            a as nat,
                            (base + a) as usize,
                            q,
                        );
                    }
                    lemma_level_span(n as int, l as int, a as nat);
                    assert forall|j: int| 1 <= j < n implies #[trigger] assigned_ok::<Query>(
                        self.data@,
                        self.lazy_ptr@,
                        pool,
                        j,
                    ) by {
                        assert(assigned_ok::<Query>(data0, ptrs0, pool, j));
                    }
                    lemma_ancestor_one(l as int);
                    assert(ancestor(l as int, 1) == ancestor(l0 as int, kl + 1));
                    assert forall|j: int|
                        1 <= j < n && !on_chain(l0 as int, 1, j) && !on_chain(
                            r0 as int,
                            1,
                            j,
                        ) implies #[trigger] combined_ok::<Query>(self.data@, self.lazy_ptr@, j) by {
                        assert(combined_ok::<Query>(data0, ptrs0, j));
                    }
                    assert forall|e: nat| e >= 1 implies #[trigger] ancestor(m as int, e) == ancestor(
                        l0 as int,
                        kl + k as nat + e,
                    ) by {
                        lemma_next_left(l as int, m as int, k as nat, e);
                        assert(ancestor(l as int, k as nat + e) == ancestor(
                            l0 as int,
                            kl + (k as nat + e),
                        ));
                    }
                    assert forall|e: nat|
                        e >= 1 && 1 <= #[trigger] ancestor(m as int, e)
                            < self.lazy_ptr@.len() implies self.lazy_ptr@[ancestor(m as int, e)]
                        == NULL_MAP_PTR by {
                        lemma_next_left(l as int, m as int, k as nat, e);
                        lemma_ancestor_strict(l as int, k as nat + e);
                        assert(ptrs0[ancestor(l as int, k as nat + e)] == NULL_MAP_PTR);
                    }
                    assert forall|e: nat|
                        e >= 1 && 1 <= #[trigger] ancestor(r as int, e)
                            < self.lazy_ptr@.len() implies self.lazy_ptr@[ancestor(r as int, e)]
                        == NULL_MAP_PTR by {
                        lemma_ancestor_strict(r as int, e);
                        assert(ptrs0[ancestor(r as int, e)] == NULL_MAP_PTR);
                    }
                    lemma_pow2_adds(k as nat, a as nat);
                    assert(m * pow2(k as nat + a as nat) == (l + 1) * pow2(a as nat))
                        by (nonlinear_arith)
                        requires
                            l + 1 == m * pow2(k as nat),
                            pow2(k as nat + a as nat) == pow2(k as nat) * pow2(a as nat),
                    ;
                    lemma_pow2_pos(k as nat + a as nat);
                    assert(pow2(k as nat + a as nat) <= m * pow2(k as nat + a as nat))
                        by (nonlinear_arith)
                        requires
                            m >= 1,
                    ;
                    lemma_level_bound(k as nat + a as nat, 2 * n);
                    kl = kl + k as nat;
                }
                a = k + a;
                l = m;
            } else {
                proof {
                    lemma_take_right(l as int, a as nat, r as int, b as nat);
                    assert((r - 1) * pow2(b as nat) == hi - pow2(b as nat)) by (nonlinear_arith)
                        requires
                            hi == r * pow2(b as nat),
                    ;
                    assert((r - 1 + 1) * pow2(b as nat) == hi);
                    assert forall|e: nat|
                        e >= 1 && 1 <= #[trigger] ancestor(r - 1, e) < ptrs0.len() implies ptrs0[ancestor(
                        r - 1,
                        e,
                    )] == NULL_MAP_PTR by {
                        lemma_sibling_ancestors(r as int, e);
                        assert(ptrs0[ancestor(r as int, e)] == NULL_MAP_PTR);
                    }
                    lemma_pow2_le(b as nat, (levels + 1) as nat);
                    assert(doubling::<Query>(pool, base + b as nat, b as nat));
                }
                self.push_map(r - 1, base + b);
                let (m, k) = strip_level(r - 1);
                proof {
                    assert forall|q: int| n <= q < 2 * n implies #[trigger] self::element::<Query>(
                        self.data@,
                        self.lazy_ptr@,
                        pool,
                        q,
                    ) == if lo0 <= q < lo || hi - pow2(b as nat) <= q < hi0 {
                        element
                    } else {
                        base_view[q - n]
                    } by {
                        lemma_assigned_element::<Query>(
                            data0,
                            ptrs0,
                            pool,
                            r - 1,
                            b as nat,
                            (base + b) as usize,
                            q,
                        );
                    }
                    lemma_level_span(n as int, r - 1, b as nat);
                    assert forall|j: int| 1 <= j < n implies #[trigger] assigned_ok::<Query>(
                        self.data@,
                        self.lazy_ptr@,
                        pool,
                        j,
                    ) by {
                        assert(assigned_ok::<Query>(data0, ptrs0, pool, j));
                    }
                    lemma_ancestor_one(r - 1);
                    lemma_sibling_ancestors(r as int, 1);
                    assert(ancestor(r as int, 1) == ancestor(r0 as int, kr + 1));
                    assert forall|j: int|
                        1 <= j < n && !on_chain(l0 as int, 1, j) && !on_chain(
                            r0 as int,
                            1,
                            j,
                        ) implies #[trigger] combined_ok::<Query>(self.data@, self.lazy_ptr@, j) by {
                        assert(combined_ok::<Query>(data0, ptrs0, j));
                    }
                    assert forall|e: nat| e >= 1 implies #[trigger] ancestor(m as int, e) == ancestor(
                        r0 as int,
                        kr + k as nat + e,
                    ) by {
                        lemma_next_right(r as int, m as int, k as nat, e);
                        assert(ancestor(r as int, k as nat + e) == ancestor(
                            r0 as int,
                            kr + (k as nat + e),
                        ));
                    }
                    assert forall|e: nat|
                        e >= 1 && 1 <= #[trigger] ancestor(m as int, e)
                            < self.lazy_ptr@.len() implies self.lazy_ptr@[ancestor(m as int, e)]
                        == NULL_MAP_PTR by {
                        lemma_next_right(r as int, m as int, k as nat, e);
                        lemma_sibling_ancestors(r as int, k as nat + e);
                        lemma_ancestor_strict(r - 1, k as nat + e);
                        assert(ptrs0[ancestor(r as int, k as nat + e)] == NULL_MAP_PTR);
                    }
                    assert forall|e: nat|
                        e >= 1 && 1 <= #[trigger] ancestor(l as int, e)
                            < self.lazy_ptr@.len() implies self.lazy_ptr@[ancestor(l as int, e)]
                        == NULL_MAP_PTR by {
                        lemma_ancestor_strict(l as int, e);
                        assert(ptrs0[ancestor(l as int, e)] == NULL_MAP_PTR);
                    }
                    lemma_pow2_adds(k as nat, b as nat);
                    assert(m * pow2(k as nat + b as nat) == (r - 1) * pow2(b as nat))
                        by (nonlinear_arith)
                        requires
                            r - 1 == m * pow2(k as nat),
                            pow2(k as nat + b as nat) == pow2(k as nat) * pow2(b as nat),
                    ;
                    lemma_pow2_pos(k as nat + b as nat);
                    assert(pow2(k as nat + b as nat) <= m * pow2(k as nat + b as nat))
                        by (nonlinear_arith)
                        requires
                            m >= 1,
                    ;
                    lemma_level_bound(k as nat + b as nat, 2 * n);
                    kr = kr + k as nat;
                }
                b = k + b;
                r = m;
            }
            if l == r {
                proof {
                    lemma_cursors_meet(l as int, a as nat, r as int, b as nat, n as int);
                }
                break ;
            }
            proof {
                if l * pow2(a as nat) == r * pow2(b as nat) {
                    lemma_odd_unique(l as int, a as nat, r as int, b as nat);
                }
            }
        }
        proof {
            assert forall|p: int| 0 <= p < old(self)@.len() implies #[trigger] self@[p] == if span_start(
                range.lower(),
                0,
            ) <= p < span_end(range.upper(), old(self)@.len() as usize) {
                element
            } else {
                old(self)@[p]
            } by {
                let q = n + p;
                assert(self::element::<Query>(self.data@, self.lazy_ptr@, pool, q) == if lo0 <= q < l * pow2(
                    a as nat,
                ) || r * pow2(b as nat) <= q < hi0 {
                    element
                } else {
                    base_view[q - n]
                });
            }
            lemma_pow2_pos(a0 as nat);
            lemma_pow2_pos(b0 as nat);
            assert(l0 <= l0 * pow2(a0 as nat)) by (nonlinear_arith)
                requires
                    pow2(a0 as nat) >= 1,
                    l0 >= 0,
            ;
            assert(r0 <= r0 * pow2(b0 as nat)) by (nonlinear_arith)
                requires
                    pow2(b0 as nat) >= 1,
                    r0 >= 0,
            ;
        }
        proof {
            assert(self@ =~= assigned::<Query>(
                old(self)@,
                span.start as int,
                span.end as int,
                element,
            ));
        }
        if self.lazy_map.len() < n {
            self.recalculate_above(l0, Ghost(r0 as int), Ghost(1));
            proof {
                assert forall|j: int|
                    1 <= j < n && !on_chain(r0 as int, 1, j) && !on_chain(0, 0, j) implies #[trigger] combined_ok::<
                    Query,
                >(self.data@, self.lazy_ptr@, j) by {}
            }
            self.recalculate_above(r0, Ghost(0), Ghost(0));
        } else {
            self.rebuild();
        }
    }

    /// Hands down every assignment, recombines every node and empties the
    /// pool.
    fn rebuild(&mut self)
        requires
            old(self).structure(),
        ensures
            final(self).wf(),
            final(self)@ == old(self)@,
            final(self).lazy_map.len() == 0,
    {
        let n = self.lazy_ptr.len();
        let ghost view = self@;
        self.propagate_all();
        self.recalculate_all();
        let ghost data = self.data@;
        let ghost ptrs = self.lazy_ptr@;
        self.lazy_map.clear();
        proof {
            assert forall|p: int| 0 <= p < n implies self@[p] == view[p] by {
                let q = n + p;
                lemma_ancestor_one(q);
                assert forall|d: nat|
                    d >= 1 && 1 <= #[trigger] ancestor(q, d) < ptrs.len() implies ptrs[ancestor(q, d)]
                    == NULL_MAP_PTR by {}
                lemma_pending_none(ptrs, q, 1);
                assert(ancestor(q, 0) == q);
            }
            assert(self@ =~= view);
        }
    }

    /// Assigns `element` to the `i`-th position.
    ///
    /// # Time complexity
    ///
    /// *O*(log *N*)
    pub fn point_assign(&mut self, i: usize, element: Query::Set)
        requires
            old(self).wf(),
            i < old(self)@.len(),
        ensures
            final(self).wf(),
            final(self)@ == old(self)@.update(i as int, element),
    {
        let ghost n = self.lazy_ptr.len() as int;
        let x = self.inner_index(i);
        self.propagate_above(x);
        let ghost data0 = self.data@;
        let ghost ptrs = self.lazy_ptr@;
        let ghost pool = self.lazy_map@;
        self.data[x] = element;
        proof {
            lemma_ancestor_one(x as int);
            lemma_pending_none(ptrs, x as int, 1);
            assert(ancestor(x as int, 0) == x);
            assert forall|j: int| 1 <= j < n implies #[trigger] assigned_ok::<Query>(
                self.data@,
                ptrs,
                pool,
                j,
            ) by {
                assert(assigned_ok::<Query>(data0, ptrs, pool, j));
            }
            assert forall|j: int|
                1 <= j < n && !on_chain(x as int, 1, j) && !on_chain(0, 0, j) implies #[trigger] combined_ok::<
                Query,
            >(self.data@, ptrs, j) by {
                assert(ancestor(x as int, 1) == x as int / 2);
                assert(!on_chain(0, 0, j)) by {
                    if on_chain(0, 0, j) {
                        let e = choose|e: nat| e >= 0 && #[trigger] ancestor(0, e) == j;
                        lemma_ancestor_smaller(0, 1);
                    }
                }
                assert(combined_ok::<Query>(data0, ptrs, j));
            }
            assert(self@ =~= old(self)@.update(i as int, element));
        }
        self.recalculate_above(x, Ghost(0), Ghost(0));
    }

    /// Returns the `i`-th element.
    ///
    /// # Time complexity
    ///
    /// *O*(log *N*)
    pub fn point_query(&mut self, i: usize) -> (element: &Query::Set)
        requires
            old(self).wf(),
            i < old(self)@.len(),
        ensures
            *element == old(self)@[i as int],
            final(self).wf(),
            final(self)@ == old(self)@,
    {
        let x = self.inner_index(i);
        self.propagate_above(x);
        proof {
            lemma_ancestor_one(x as int);
            lemma_pending_none(self.lazy_ptr@, x as int, 1);
            assert(ancestor(x as int, 0) == x);
            assert(self@[i as int] == self.data@[x as int]);
        }
        &self.data[x]
    }
}

} // verus!
