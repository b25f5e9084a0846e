//! Range update, range query.

use vstd::prelude::*;
use vstd::arithmetic::power2::{pow2, lemma_pow2_pos, lemma_pow2_unfold, lemma_pow2_adds};
use crate::traits::{Monoid, MonoidAction};
use crate::algebra::{fold, lemma_fold_one, lemma_fold_split};
use crate::normal::range_fold;
use crate::dual::{path, clean_above, lemma_clean_path, lemma_compose_path};
use crate::utility::{RangeArg, convert_range, span_start, span_end, within};
use crate::bits::{
    ancestor, below, strip, height, ancestor_of, lemma_ancestor_adds, lemma_ancestor_one,
    lemma_take_left, lemma_take_right, lemma_cursors_meet, lemma_odd_unique, lemma_pow2_values,
    lemma_below_step, lemma_below_leaf, lemma_ancestor_smaller, lemma_next_left, lemma_next_right,
    lemma_sibling_ancestors, lemma_ancestor_positive, lemma_ancestor_beyond, lemma_ancestor_strict,
};

verus! {

/// A data structure that supports **range query, range update** operations.
///
/// It represents the sequence `self@` of its elements. An update `f` of a
/// range replaces every element `a` of the range by `f * a`.
///
/// The elements live in the second half of an array of twice their number,
/// node `i` being the parent of the nodes `2i` and `2i + 1`. Each node of the
/// first half has a pending map: it is applied to the node's own value
/// already, and to nothing below it yet.
pub struct LazySegmentTree<Action: MonoidAction> {
    data: Vec<<Action::Set as Monoid>::Set>,
    lazy: Vec<<Action::Map as Monoid>::Set>,
    /// The number of elements below each node of the first half, where the
    /// action reads it.
    segment_size: Option<Vec<usize>>,
}

/// The number of elements below node `i`, among `n` elements.
pub(crate) open spec fn leaf_count(n: int, i: int) -> nat
    decreases 2 * n - i,
{
    if i < 1 || i >= 2 * n {
        0
    } else if i >= n {
        1
    } else {
        leaf_count(n, 2 * i) + leaf_count(n, 2 * i + 1)
    }
}

/// The sum of `leaf_count` over the nodes `a..b`.
pub(crate) open spec fn leaf_sum(n: int, a: int, b: int) -> nat
    decreases b - a,
{
    if a >= b {
        0
    } else {
        leaf_sum(n, a, b - 1) + leaf_count(n, b - 1)
    }
}

proof fn lemma_leaf_sum_split(n: int, a: int, m: int, b: int)
    requires
        a <= m <= b,
    ensures
        leaf_sum(n, a, b) == leaf_sum(n, a, m) + leaf_sum(n, m, b),
    decreases b - m,
{
    if m < b {
        lemma_leaf_sum_split(n, a, m, b - 1);
    }
}

proof fn lemma_leaf_sum_leaves(n: int, a: int, b: int)
    requires
        1 <= n <= a <= b <= 2 * n,
    ensures
        leaf_sum(n, a, b) == b - a,
    decreases b - a,
{
    if a < b {
        lemma_leaf_sum_leaves(n, a, b - 1);
    }
}

proof fn lemma_leaf_sum_children(n: int, a: int, b: int)
    requires
        1 <= a <= b <= n,
    ensures
        leaf_sum(n, a, b) == leaf_sum(n, 2 * a, 2 * b),
    decreases b - a,
{
    if a < b {
        lemma_leaf_sum_children(n, a, b - 1);
        // leaf_sum(2a, 2b) = leaf_sum(2a, 2b - 2) + count(2b - 2) + count(2b - 1)
        assert(leaf_sum(n, 2 * a, 2 * b) == leaf_sum(n, 2 * a, 2 * b - 1) + leaf_count(
            n,
            2 * b - 1,
        ));
        assert(leaf_sum(n, 2 * a, 2 * b - 1) == leaf_sum(n, 2 * a, 2 * b - 2) + leaf_count(
            n,
            2 * b - 2,
        ));
        assert(leaf_count(n, b - 1) == leaf_count(n, 2 * (b - 1)) + leaf_count(n, 2 * (b - 1) + 1));
    }
}

/// The nodes of one level together have at most `n` elements below them.
proof fn lemma_leaf_sum_bound(n: int, a: int, b: int)
    requires
        1 <= a <= b <= 2 * a,
        1 <= n,
    ensures
        leaf_sum(n, a, b) <= n,
    decreases 2 * n - a,
{
    if a >= 2 * n {
        lemma_leaf_sum_zero(n, a, b);
    } else if a >= n {
        if b <= 2 * n {
            lemma_leaf_sum_leaves(n, a, b);
        } else {
            lemma_leaf_sum_split(n, a, 2 * n, b);
            lemma_leaf_sum_leaves(n, a, 2 * n);
            lemma_leaf_sum_zero(n, 2 * n, b);
        }
    } else if b <= n {
        lemma_leaf_sum_children(n, a, b);
        lemma_leaf_sum_bound(n, 2 * a, 2 * b);
    } else {
        lemma_leaf_sum_split(n, a, n, b);
        lemma_leaf_sum_children(n, a, n);
        lemma_leaf_sum_leaves(n, n, b);
        lemma_leaf_sum_leaves(n, 2 * a, 2 * n);
    }
}

proof fn lemma_leaf_sum_zero(n: int, a: int, b: int)
    requires
        2 * n <= a <= b,
    ensures
        leaf_sum(n, a, b) == 0,
    decreases b - a,
{
    if a < b {
        lemma_leaf_sum_zero(n, a, b - 1);
    }
}

/// No node has more than `n` elements below it.
pub(crate) proof fn lemma_leaf_count_bound(n: int, i: int)
    requires
        1 <= n,
    ensures
        leaf_count(n, i) <= n,
{
    if 1 <= i {
        lemma_leaf_sum_bound(n, i, i + 1);
        assert(leaf_sum(n, i, i + 1) == leaf_sum(n, i, i) + leaf_count(n, i));
    }
}

/// A node that spans `i * 2^h .. (i + 1) * 2^h` among the elements has `2^h`
/// elements below it.
pub(crate) proof fn lemma_leaf_count_span(n: int, i: int, h: nat)
    requires
        1 <= n <= i * pow2(h),
        (i + 1) * pow2(h) <= 2 * n,
    ensures
        leaf_count(n, i) == pow2(h),
        1 <= i < 2 * n,
        h > 0 ==> i < n,
    decreases h,
{
    lemma_pow2_pos(h);
    assert(i >= 1) by (nonlinear_arith)
        requires
            1 <= i * pow2(h),
            pow2(h) > 0,
    ;
    assert(i + 1 <= (i + 1) * pow2(h)) by (nonlinear_arith)
        requires
            i + 1 >= 0,
            pow2(h) >= 1,
    ;
    if h == 0 {
        lemma_pow2_values();
        assert(i * 1 == i);
    } else {
        lemma_pow2_unfold(h);
        let p = pow2((h - 1) as nat) as int;
        assert(i * (2 * p) == (2 * i) * p) by (nonlinear_arith);
        assert((i + 1) * (2 * p) == (2 * i + 2) * p) by (nonlinear_arith);
        assert((2 * i + 1) * p == (2 * i) * p + p) by (nonlinear_arith);
        assert((2 * i + 2) * p == (2 * i) * p + 2 * p) by (nonlinear_arith);
        assert(2 * (i + 1) <= (2 * i + 2) * p) by (nonlinear_arith)
            requires
                p >= 1,
                i >= 0,
        ;
        lemma_leaf_count_span(n, 2 * i, (h - 1) as nat);
        lemma_leaf_count_span(n, 2 * i + 1, (h - 1) as nat);
    }
}

/// Node `j` is a node above node `c`, at least `from` levels up.
pub(crate) open spec fn on_chain(c: int, from: nat, j: int) -> bool {
    exists|e: nat| e >= from && #[trigger] ancestor(c, e) == j
}

/// Node `i` holds the combination of its children with its pending map
/// applied.
pub(crate) open spec fn node_applied<Action: MonoidAction>(
    data: Seq<<Action::Set as Monoid>::Set>,
    lazy: Seq<<Action::Map as Monoid>::Set>,
    i: int,
) -> bool {
    data[i] == Action::apply(
        lazy[i],
        <Action::Set as Monoid>::op(data[2 * i], data[2 * i + 1]),
        leaf_count(lazy.len() as int, i),
    )
}

/// Every node of the first half holds the combination of its children with
/// its pending map applied, but for the nodes on the two chains.
pub(crate) open spec fn applied_off<Action: MonoidAction>(
    data: Seq<<Action::Set as Monoid>::Set>,
    lazy: Seq<<Action::Map as Monoid>::Set>,
    c1: int,
    from1: nat,
    c2: int,
    from2: nat,
) -> bool {
    forall|j: int|
        1 <= j < lazy.len() && !on_chain(c1, from1, j) && !on_chain(c2, from2, j)
            ==> #[trigger] node_applied::<Action>(data, lazy, j)
}

/// The element that stands at node `q` of the second half: its stored value
/// with the pending maps of all nodes above it applied.
pub(crate) open spec fn element<Action: MonoidAction>(
    data: Seq<<Action::Set as Monoid>::Set>,
    lazy: Seq<<Action::Map as Monoid>::Set>,
    q: int,
) -> <Action::Set as Monoid>::Set {
    Action::apply(path::<Action::Map>(lazy, q / 2), data[q], 1)
}

/// The elements that the two arrays represent.
pub(crate) open spec fn elements<Action: MonoidAction>(
    data: Seq<<Action::Set as Monoid>::Set>,
    lazy: Seq<<Action::Map as Monoid>::Set>,
) -> Seq<<Action::Set as Monoid>::Set> {
    Seq::new(lazy.len(), |p: int| element::<Action>(data, lazy, lazy.len() + p))
}

/// The values after `f` has been pushed onto node `c`.
pub(crate) open spec fn pushed_data<Action: MonoidAction>(
    data: Seq<<Action::Set as Monoid>::Set>,
    n: int,
    c: int,
    f: <Action::Map as Monoid>::Set,
) -> Seq<<Action::Set as Monoid>::Set> {
    data.update(c, Action::apply(f, data[c], leaf_count(n, c)))
}

/// The pending maps after `f` has been pushed onto node `c`.
pub(crate) open spec fn pushed_lazy<Action: MonoidAction>(
    lazy: Seq<<Action::Map as Monoid>::Set>,
    c: int,
    f: <Action::Map as Monoid>::Set,
) -> Seq<<Action::Map as Monoid>::Set> {
    if c < lazy.len() {
        lazy.update(c, <Action::Map as Monoid>::op(f, lazy[c]))
    } else {
        lazy
    }
}

/// The values after node `i` has handed its pending map down.
pub(crate) open spec fn propagated_data<Action: MonoidAction>(
    data: Seq<<Action::Set as Monoid>::Set>,
    lazy: Seq<<Action::Map as Monoid>::Set>,
    i: int,
) -> Seq<<Action::Set as Monoid>::Set> {
    let n = lazy.len() as int;
    pushed_data::<Action>(pushed_data::<Action>(data, n, 2 * i, lazy[i]), n, 2 * i + 1, lazy[i])
}

/// The pending maps after node `i` has handed its own down.
pub(crate) open spec fn propagated_lazy<Action: MonoidAction>(
    lazy: Seq<<Action::Map as Monoid>::Set>,
    i: int,
) -> Seq<<Action::Map as Monoid>::Set> {
    pushed_lazy::<Action>(
        pushed_lazy::<Action>(lazy.update(i, <Action::Map as Monoid>::id()), 2 * i, lazy[i]),
        2 * i + 1,
        lazy[i],
    )
}

/// Handing a pending map down changes no path but the one that ends at the
/// node itself.
pub(crate) proof fn lemma_propagated_path<Action: MonoidAction>(
    lazy: Seq<<Action::Map as Monoid>::Set>,
    i: int,
    j: int,
)
    requires
        1 <= i < lazy.len(),
        0 <= j < lazy.len(),
    ensures
        j != i ==> path::<Action::Map>(propagated_lazy::<Action>(lazy, i), j) == path::<Action::Map>(
            lazy,
            j,
        ),
        j == i ==> path::<Action::Map>(propagated_lazy::<Action>(lazy, i), j) == path::<Action::Map>(
            lazy,
            i / 2,
        ),
    decreases j,
{
    let after = propagated_lazy::<Action>(lazy, i);
    if j >= 1 {
        lemma_propagated_path::<Action>(lazy, i, j / 2);
        assert(path::<Action::Map>(after, j) == <Action::Map as Monoid>::op(
            path::<Action::Map>(after, j / 2),
            after[j],
        ));
        assert(path::<Action::Map>(lazy, j) == <Action::Map as Monoid>::op(
            path::<Action::Map>(lazy, j / 2),
            lazy[j],
        ));
        if j == i {
            <Action::Map as Monoid>::lemma_identity(path::<Action::Map>(lazy, i / 2));
        } else if j == 2 * i || j == 2 * i + 1 {
            assert(path::<Action::Map>(lazy, i) == <Action::Map as Monoid>::op(
                path::<Action::Map>(lazy, i / 2),
                lazy[i],
            ));
            <Action::Map as Monoid>::lemma_associative(
                path::<Action::Map>(lazy, i / 2),
                lazy[i],
                lazy[j],
            );
        } else {
            assert(after[j] == lazy[j]);
        }
    }
}

/// Handing a pending map down keeps the nodes above any node clean.
pub(crate) proof fn lemma_propagated_clean<Action: MonoidAction>(
    lazy: Seq<<Action::Map as Monoid>::Set>,
    i: int,
    x: int,
    from: nat,
)
    requires
        1 <= i < lazy.len(),
        0 <= x,
        clean_above::<Action::Map>(lazy, x, from),
    ensures
        clean_above::<Action::Map>(propagated_lazy::<Action>(lazy, i), x, from),
{
    let after = propagated_lazy::<Action>(lazy, i);
    assert forall|d: nat| d >= from && 1 <= #[trigger] ancestor(x, d) < after.len() implies after[ancestor(
        x,
        d,
    )] == <Action::Map as Monoid>::id() by {
        let y = ancestor(x, d);
        if y == 2 * i || y == 2 * i + 1 {
            lemma_ancestor_adds(x, d, 1);
            lemma_ancestor_one(y);
            assert(ancestor(x, d + 1) == i);
            assert(lazy[i] == <Action::Map as Monoid>::id());
            <Action::Map as Monoid>::lemma_identity(lazy[y]);
        }
    }
}

/// Handing a pending map down changes no element.
pub(crate) proof fn lemma_propagated_element<Action: MonoidAction>(
    data: Seq<<Action::Set as Monoid>::Set>,
    lazy: Seq<<Action::Map as Monoid>::Set>,
    i: int,
    q: int,
)
    requires
        1 <= i < lazy.len(),
        data.len() == 2 * lazy.len(),
        lazy.len() <= q < data.len(),
    ensures
        element::<Action>(
            propagated_data::<Action>(data, lazy, i),
            propagated_lazy::<Action>(lazy, i),
            q,
        ) == element::<Action>(data, lazy, q),
{
    lemma_propagated_path::<Action>(lazy, i, q / 2);
    if q == 2 * i || q == 2 * i + 1 {
        assert(path::<Action::Map>(lazy, i) == <Action::Map as Monoid>::op(
            path::<Action::Map>(lazy, i / 2),
            lazy[i],
        ));
        Action::lemma_act_combine(path::<Action::Map>(lazy, i / 2), lazy[i], data[q], 1);
    }
}

/// Handing a pending map down keeps every node the combination of its
/// children with its pending map applied.
pub(crate) proof fn lemma_propagated_applied<Action: MonoidAction>(
    data: Seq<<Action::Set as Monoid>::Set>,
    lazy: Seq<<Action::Map as Monoid>::Set>,
    i: int,
    j: int,
)
    requires
        1 <= i < lazy.len(),
        data.len() == 2 * lazy.len(),
        1 <= j < lazy.len(),
        node_applied::<Action>(data, lazy, j),
    ensures
        node_applied::<Action>(
            propagated_data::<Action>(data, lazy, i),
            propagated_lazy::<Action>(lazy, i),
            j,
        ),
{
    let n = lazy.len() as int;
    let f = lazy[i];
    if j == i {
        Action::lemma_act_distributes(
            f,
            data[2 * i],
            leaf_count(n, 2 * i),
            data[2 * i + 1],
            leaf_count(n, 2 * i + 1),
        );
        Action::lemma_act_identity(data[i], leaf_count(n, i));
    } else if j == 2 * i || j == 2 * i + 1 {
        Action::lemma_act_combine(
            f,
            lazy[j],
            <Action::Set as Monoid>::op(data[2 * j], data[2 * j + 1]),
            leaf_count(n, j),
        );
    }
}

/// The effect on the elements of pushing `f` onto node `x`: the elements
/// below `x` get `f` applied, where the nodes above `x` are clean or the maps
/// commute.
pub(crate) proof fn lemma_pushed_element<Action: MonoidAction>(
    data: Seq<<Action::Set as Monoid>::Set>,
    lazy: Seq<<Action::Map as Monoid>::Set>,
    x: int,
    f: <Action::Map as Monoid>::Set,
    q: int,
)
    requires
        1 <= x < data.len(),
        data.len() == 2 * lazy.len(),
        lazy.len() <= q < data.len(),
        <Action::Map as Monoid>::IS_COMMUTATIVE || clean_above::<Action::Map>(lazy, x, 1),
    ensures
        element::<Action>(
            pushed_data::<Action>(data, lazy.len() as int, x, f),
            pushed_lazy::<Action>(lazy, x, f),
            q,
        ) == if below(x, q) {
            Action::apply(f, element::<Action>(data, lazy, q), 1)
        } else {
            element::<Action>(data, lazy, q)
        },
{
    let n = lazy.len() as int;
    let above = path::<Action::Map>(lazy, q / 2);
    lemma_below_step(x, q);
    if x < n {
        lemma_compose_path::<Action::Map>(lazy, x, f, q / 2);
        if below(x, q / 2) {
            Action::lemma_act_combine(f, above, data[q], 1);
        }
    } else if q == x {
        lemma_ancestor_smaller(q / 2, x);
        Action::lemma_act_combine(above, f, data[q], 1);
        Action::lemma_act_combine(f, above, data[q], 1);
        if <Action::Map as Monoid>::IS_COMMUTATIVE {
            <Action::Map as Monoid>::lemma_commutative(above, f);
        } else {
            lemma_ancestor_one(x);
            lemma_clean_path::<Action::Map>(lazy, x, 1);
            <Action::Map as Monoid>::lemma_identity(f);
        }
    } else {
        lemma_ancestor_smaller(q / 2, x);
    }
}

/// Pushing `f` onto node `x` keeps every node but the parent of `x` the
/// combination of its children with its pending map applied.
pub(crate) proof fn lemma_pushed_applied<Action: MonoidAction>(
    data: Seq<<Action::Set as Monoid>::Set>,
    lazy: Seq<<Action::Map as Monoid>::Set>,
    x: int,
    f: <Action::Map as Monoid>::Set,
    j: int,
)
    requires
        1 <= x < data.len(),
        data.len() == 2 * lazy.len(),
        1 <= j < lazy.len(),
        j != x / 2,
        node_applied::<Action>(data, lazy, j),
    ensures
        node_applied::<Action>(
            pushed_data::<Action>(data, lazy.len() as int, x, f),
            pushed_lazy::<Action>(lazy, x, f),
            j,
        ),
{
    let n = lazy.len() as int;
    if j == x {
        Action::lemma_act_combine(
            f,
            lazy[j],
            <Action::Set as Monoid>::op(data[2 * j], data[2 * j + 1]),
            leaf_count(n, j),
        );
    }
}

/// The values after node `y` has been recombined from its children.
pub(crate) open spec fn recombined<Action: MonoidAction>(
    data: Seq<<Action::Set as Monoid>::Set>,
    lazy: Seq<<Action::Map as Monoid>::Set>,
    y: int,
) -> Seq<<Action::Set as Monoid>::Set> {
    data.update(
        y,
        Action::apply(
            lazy[y],
            <Action::Set as Monoid>::op(data[2 * y], data[2 * y + 1]),
            leaf_count(lazy.len() as int, y),
        ),
    )
}

/// Where every node is the combination of its children with its pending map
/// applied, a node that spans `i * 2^h .. (i + 1) * 2^h` among the elements
/// holds, once the maps above it are applied, the fold of these elements.
pub(crate) proof fn lemma_node_is_fold<Action: MonoidAction>(
    data: Seq<<Action::Set as Monoid>::Set>,
    lazy: Seq<<Action::Map as Monoid>::Set>,
    i: int,
    h: nat,
)
    requires
        data.len() == 2 * lazy.len(),
        applied_off::<Action>(data, lazy, 0, 0, 0, 0),
        lazy.len() <= i * pow2(h),
        (i + 1) * pow2(h) <= data.len(),
    ensures
        1 <= i < data.len(),
        Action::apply(path::<Action::Map>(lazy, i / 2), data[i], pow2(h)) == fold::<Action::Set>(
            elements::<Action>(data, lazy).subrange(
                i * pow2(h) - lazy.len(),
                (i + 1) * pow2(h) - lazy.len(),
            ),
        ),
    decreases h,
{
    let n = lazy.len() as int;
    let view = elements::<Action>(data, lazy);
    lemma_pow2_pos(h);
    if n == 0 {
        assert(i + 1 <= 0) by (nonlinear_arith)
            requires
                (i + 1) * pow2(h) <= 0,
                pow2(h) > 0,
        ;
        assert(i * pow2(h) < 0) by (nonlinear_arith)
            requires
                i < 0,
                pow2(h) > 0,
        ;
        assert(false);
    }
    lemma_leaf_count_span(n, i, h);
    if h == 0 {
        lemma_pow2_values();
        assert(i * 1 == i);
        assert((i + 1) * 1 == i + 1);
        lemma_fold_one::<Action::Set>(view.subrange(i - n, i + 1 - n));
    } else {
        lemma_pow2_unfold(h);
        let p = pow2((h - 1) as nat) as int;
        assert(i * (2 * p) == (2 * i) * p) by (nonlinear_arith);
        assert((i + 1) * (2 * p) == (2 * i + 2) * p) by (nonlinear_arith);
        assert((2 * i + 1) * p == (2 * i) * p + p) by (nonlinear_arith);
        assert((2 * i + 2) * p == (2 * i) * p + 2 * p) by (nonlinear_arith);
        lemma_node_is_fold::<Action>(data, lazy, 2 * i, (h - 1) as nat);
        lemma_node_is_fold::<Action>(data, lazy, 2 * i + 1, (h - 1) as nat);
        lemma_fold_split::<Action::Set>(
            view,
            (2 * i) * p - n,
            (2 * i + 1) * p - n,
            (2 * i + 2) * p - n,
        );
        lemma_ancestor_smaller(i, i + 1);
        assert(!on_chain(0, 0, i)) by {
            if on_chain(0, 0, i) {
                let e = choose|e: nat| e >= 0 && #[trigger] ancestor(0, e) == i;
                lemma_ancestor_smaller(0, 1);
            }
        }
        assert(node_applied::<Action>(data, lazy, i));
        let above = path::<Action::Map>(lazy, i / 2);
        let both = <Action::Set as Monoid>::op(data[2 * i], data[2 * i + 1]);
        assert(path::<Action::Map>(lazy, i) == <Action::Map as Monoid>::op(above, lazy[i]));
        Action::lemma_act_combine(above, lazy[i], both, pow2(h));
        Action::lemma_act_distributes(
            path::<Action::Map>(lazy, i),
            data[2 * i],
            p as nat,
            data[2 * i + 1],
            p as nat,
        );
    }
}

/// The number of elements below each node of the first half, among `n`
/// elements; the entry of node `0` is 0.
fn segment_sizes(n: usize) -> (sizes: Vec<usize>)
    requires
        2 * n <= usize::MAX,
    ensures
        sizes.len() == n,
        forall|i: int| 1 <= i < n ==> #[trigger] sizes[i] == leaf_count(n as int, i),
{
    let mut sizes: Vec<usize> = Vec::new();
    let mut k: usize = 0;
    while k < n
        invariant
            k <= n,
            sizes.len() == k,
        decreases n - k,
    {
        sizes.push(0);
        k += 1;
    }
    let mut i: usize = n;
    while i > 1
        invariant
            2 * n <= usize::MAX,
            sizes.len() == n,
            i <= n,
            n >= 1 ==> i >= 1,
            forall|j: int| i <= j < n ==> #[trigger] sizes[j] == leaf_count(n as int, j),
        decreases i,
    {
        i -= 1;
        let ghost before = sizes@;
        proof {
            lemma_leaf_count_bound(n as int, i as int);
            assert(leaf_count(n as int, i as int) == leaf_count(n as int, 2 * i) + leaf_count(
                n as int,
                2 * i + 1,
            ));
            if 2 * i < n {
                assert(before[2 * i] == leaf_count(n as int, 2 * i));
            }
            if 2 * i + 1 < n {
                assert(before[2 * i + 1] == leaf_count(n as int, 2 * i + 1));
            }
        }
        let left: usize = if 2 * i < n {
            sizes[2 * i]
        } else {
            1
        };
        let right: usize = if 2 * i + 1 < n {
            sizes[2 * i + 1]
        } else {
            1
        };
        sizes[i] = left + right;
        proof {
            assert forall|j: int| i <= j < n implies #[trigger] sizes[j] == leaf_count(n as int, j) by {
                if j > i {
                    assert(before[j] == leaf_count(n as int, j));
                }
            }
        }
    }
    sizes
}

impl<Action: MonoidAction> View for LazySegmentTree<Action> {
    type V = Seq<<Action::Set as Monoid>::Set>;

    /// The elements, in order, with all pending maps applied.
    closed spec fn view(&self) -> Seq<<Action::Set as Monoid>::Set> {
        elements::<Action>(self.data@, self.lazy@)
    }
}

impl<Action: MonoidAction> LazySegmentTree<Action> {
    /// The arrays have matching lengths and the table of segment sizes is
    /// there and right where the action reads it.
    pub closed spec fn structure(&self) -> bool {
        &&& self.data.len() == 2 * self.lazy.len()
        &&& Action::size_ok(self.lazy.len() as nat)
        &&& Action::USE_SEGMENT_SIZE ==> self.segment_size is Some
        &&& match self.segment_size {
            Some(sizes) => {
                &&& sizes.len() == self.lazy.len()
                &&& forall|i: int|
                    1 <= i < sizes.len() ==> #[trigger] sizes[i] == leaf_count(
                        self.lazy.len() as int,
                        i,
                    )
            },
            None => true,
        }
    }

    /// The structure is sound, and every node of the first half holds the
    /// combination of its children with its pending map applied.
    pub closed spec fn wf(&self) -> bool {
        &&& self.structure()
        &&& applied_off::<Action>(self.data@, self.lazy@, 0, 0, 0, 0)
    }

    /// Returns the number of elements.
    ///
    /// # Time complexity
    ///
    /// *O*(1)
    pub fn len(&self) -> (n: usize)
        requires
            self.wf(),
        ensures
            n == self@.len(),
    {
        self.data.len() / 2
    }

    fn inner_index(&self, i: usize) -> (r: usize)
        requires
            self.structure(),
            i <= self.lazy.len(),
        ensures
            r == self.lazy.len() + i,
    {
        self.data.len() / 2 + i
    }

    /// The segment size to act with on node `i`.
    fn size_at(&self, i: usize) -> (size: Option<usize>)
        requires
            self.structure(),
            1 <= i < self.data.len(),
        ensures
            Action::USE_SEGMENT_SIZE ==> size is Some,
            size matches Some(s) ==> s == leaf_count(self.lazy.len() as int, i as int),
    {
        match &self.segment_size {
            Some(sizes) => {
                if i < sizes.len() {
                    Some(sizes[i])
                } else {
                    Some(1)
                }
            },
            None => None,
        }
    }

    /// Applies `update` to node `i` and composes it into the node's pending
    /// map.
    fn push_map(&mut self, i: usize, update: &<Action::Map as Monoid>::Set)
        requires
            old(self).structure(),
            1 <= i < old(self).data.len(),
        ensures
            final(self).structure(),
            final(self).lazy.len() == old(self).lazy.len(),
            final(self).data@ == pushed_data::<Action>(
                old(self).data@,
                old(self).lazy.len() as int,
                i as int,
                *update,
            ),
            final(self).lazy@ == pushed_lazy::<Action>(old(self).lazy@, i as int, *update),
    {
        let size = self.size_at(i);
        proof {
            let n = self.lazy.len() as int;
            lemma_leaf_count_bound(n, i as int);
            Action::lemma_size_ok(n as nat, leaf_count(n, i as int));
            if size is None {
                Action::lemma_size_unused(*update, self.data@[i as int], 1, leaf_count(n, i as int));
            }
        }
        let applied = Action::act(update, &self.data[i], size);
        self.data[i] = applied;
        if i < self.lazy.len() {
            let composed = <Action::Map as Monoid>::combine(update, &self.lazy[i]);
            self.lazy[i] = composed;
        }
    }

    /// Hands down the pending maps of all nodes above node `x`, from the
    /// root on.
    fn propagate_above(&mut self, x: usize)
        requires
            old(self).wf(),
            1 <= x,
            x as int / 2 < old(self).lazy.len(),
        ensures
            final(self).wf(),
            final(self)@ == old(self)@,
            final(self).lazy.len() == old(self).lazy.len(),
            clean_above::<Action::Map>(final(self).lazy@, x as int, 1),
            forall|y: int|
                0 <= y && #[trigger] clean_above::<Action::Map>(old(self).lazy@, y, 1)
                    ==> clean_above::<Action::Map>(final(self).lazy@, y, 1),
    {
        let h = height(x);
        let mut d = h;
        let ghost n = self.lazy.len() as int;
        proof {
            assert forall|e: nat|
                e >= h + 1 && 1 <= #[trigger] ancestor(x as int, e) < self.lazy@.len() implies self.lazy@[ancestor(
                x as int,
                e,
            )] == <Action::Map as Monoid>::id() by {
                lemma_ancestor_beyond(x as int, e, h as nat);
            }
        }
        while d >= 1
            invariant
                d <= h < usize::BITS,
                ancestor(x as int, h as nat) == 1,
                1 <= x,
                x as int / 2 < n,
                n == self.lazy.len(),
                self.wf(),
                self@ == old(self)@,
                clean_above::<Action::Map>(self.lazy@, x as int, (d + 1) as nat),
                forall|y: int|
                    0 <= y && #[trigger] clean_above::<Action::Map>(old(self).lazy@, y, 1)
                        ==> clean_above::<Action::Map>(self.lazy@, y, 1),
            decreases d,
        {
            let i = ancestor_of(x, d);
            let ghost data0 = self.data@;
            let ghost lazy0 = self.lazy@;
            proof {
                lemma_ancestor_positive(x as int, d as nat, h as nat);
                lemma_ancestor_adds(x as int, 1, (d - 1) as nat);
                lemma_ancestor_one(x as int);
                lemma_ancestor_smaller(x as int / 2, x as int);
            }
            self.propagate_at(i);
            proof {
                assert forall|j: int|
                    1 <= j < n && !on_chain(0, 0, j) implies #[trigger] node_applied::<Action>(
                    self.data@,
                    self.lazy@,
                    j,
                ) by {
                    assert(node_applied::<Action>(data0, lazy0, j));
                    lemma_propagated_applied::<Action>(data0, lazy0, i as int, j);
                }
                assert forall|p: int| 0 <= p < n implies self@[p] == old(self)@[p] by {
                    lemma_propagated_element::<Action>(data0, lazy0, i as int, n + p);
                }
                assert(self@ =~= old(self)@);
                lemma_propagated_clean::<Action>(lazy0, i as int, x as int, (d + 1) as nat);
                assert forall|e: nat|
                    e >= d && 1 <= #[trigger] ancestor(x as int, e)
                        < self.lazy@.len() implies self.lazy@[ancestor(x as int, e)]
                    == <Action::Map as Monoid>::id() by {
                    if e > d {
                        assert(clean_above::<Action::Map>(self.lazy@, x as int, (d + 1) as nat));
                    }
                }
                assert forall|y: int|
                    0 <= y && #[trigger] clean_above::<Action::Map>(
                        old(self).lazy@,
                        y,
                        1,
                    ) implies clean_above::<Action::Map>(self.lazy@, y, 1) by {
                    lemma_propagated_clean::<Action>(lazy0, i as int, y, 1);
                }
            }
            d -= 1;
        }
    }

    /// Recombines all nodes above node `c`, bottom-up. The nodes above `c2`
    /// may be out of date before, and stay as they are.
    fn recalculate_above(&mut self, c: usize, Ghost(c2): Ghost<int>, Ghost(from2): Ghost<nat>)
        requires
            old(self).structure(),
            1 <= c,
            c as int / 2 < old(self).lazy.len(),
            applied_off::<Action>(old(self).data@, old(self).lazy@, c as int, 1, c2, from2),
        ensures
            final(self).structure(),
            final(self).lazy@ == old(self).lazy@,
            final(self)@ == old(self)@,
            applied_off::<Action>(final(self).data@, final(self).lazy@, 0, 0, c2, from2),
    {
        let h = height(c);
        let mut d: usize = 1;
        let ghost n = self.lazy.len() as int;
        while d <= h
            invariant
                1 <= d <= h + 1,
                h < usize::BITS,
                ancestor(c as int, h as nat) == 1,
                1 <= c,
                c as int / 2 < n,
                n == self.lazy.len(),
                self.structure(),
                self.lazy@ == old(self).lazy@,
                self@ == old(self)@,
                applied_off::<Action>(self.data@, self.lazy@, c as int, d as nat, c2, from2),
            decreases h + 1 - d,
        {
            let y = ancestor_of(c, d);
            let ghost data0 = self.data@;
            proof {
                lemma_ancestor_positive(c as int, d as nat, h as nat);
                lemma_ancestor_adds(c as int, 1, (d - 1) as nat);
                lemma_ancestor_one(c as int);
                lemma_ancestor_smaller(c as int / 2, c as int);
            }
            self.recalculate_at(y);
            proof {
                assert forall|j: int|
                    1 <= j < n && !on_chain(c as int, (d + 1) as nat, j) && !on_chain(
                        c2,
                        from2,
                        j,
                    ) implies #[trigger] node_applied::<Action>(self.data@, self.lazy@, j) by {
                    if j != y {
                        if on_chain(c as int, d as nat, j) {
                            let e = choose|e: nat| e >= d && #[trigger] ancestor(c as int, e) == j;
                            assert(e >= d + 1);
                        }
                        assert(node_applied::<Action>(data0, self.lazy@, j));
                        if j == y as int / 2 {
                            lemma_ancestor_adds(c as int, d as nat, 1);
                            lemma_ancestor_one(y as int);
                            assert(ancestor(c as int, (d + 1) as nat) == j);
                        }
                    }
                }
                assert forall|p: int| 0 <= p < n implies self@[p] == old(self)@[p] by {}
                assert(self@ =~= old(self)@);
            }
            d += 1;
        }
        proof {
            assert forall|j: int|
                1 <= j < n && !on_chain(0, 0, j) && !on_chain(c2, from2, j) implies #[trigger] node_applied::<
                Action,
            >(self.data@, self.lazy@, j) by {
                if on_chain(c as int, (h + 1) as nat, j) {
                    let e = choose|e: nat| e >= h + 1 && #[trigger] ancestor(c as int, e) == j;
                    lemma_ancestor_beyond(c as int, e, h as nat);
                }
            }
        }
    }

    /// Updates the elements of the range: `a[i] <- update * a[i]`.
    ///
    /// # Time complexity
    ///
    /// *O*(log *N*)
    pub fn range_update<R: RangeArg<usize>>(&mut self, range: R,
        update: &<Action::Map as Monoid>::Set,
    )
        requires
            old(self).wf(),
            within(range, old(self)@.len() as usize),
        ensures
            final(self).wf(),
            final(self)@.len() == old(self)@.len(),
            forall|p: int|
                0 <= p < old(self)@.len() ==> #[trigger] final(self)@[p] == if span_start(range.lower(), 0)
                    <= p < span_end(range.upper(), old(self)@.len() as usize) {
                    Action::apply(*update, old(self)@[p], 1)
                } else {
                    old(self)@[p]
                },
    {
        let n = self.data.len() / 2;
        let span = convert_range(range, 0..n);
        if span.start >= span.end {
            return ;
        }
        let ghost lo0 = (n + span.start) as int;
        let ghost hi0 = (n + span.end) as int;
        let (l0, Ghost(a0)) = strip(n + span.start);
        let (r0, Ghost(b0)) = strip(n + span.end);
        let mut l = l0;
        let mut r = r0;
        let ghost mut a = a0;
        let ghost mut b = b0;
        // how far the cursors' chains are above those of `l0` and `r0`
        let ghost mut kl: nat = 0;
        let ghost mut kr: nat = 0;
        let commutative = <Action::Map as Monoid>::IS_COMMUTATIVE;
        proof {
            lemma_pow2_pos(a);
            lemma_pow2_pos(b);
            assert(l <= l * pow2(a)) by (nonlinear_arith)
                requires
                    pow2(a) >= 1,
                    l >= 0,
            ;
            assert(r <= r * pow2(b)) by (nonlinear_arith)
                requires
                    pow2(b) >= 1,
                    r >= 0,
            ;
        }
        if !commutative {
            self.propagate_above(l);
            self.propagate_above(r);
        }
        let ghost base_data = self.data@;
        let ghost base_lazy = self.lazy@;
        proof {
            assert forall|j: int|
                1 <= j < n && !on_chain(l0 as int, 1, j) && !on_chain(
                    r0 as int,
                    1,
                    j,
                ) implies #[trigger] node_applied::<Action>(self.data@, self.lazy@, j) by {
                if on_chain(0, 0, j) {
                    let e = choose|e: nat| e >= 0 && #[trigger] ancestor(0, e) == j;
                    lemma_ancestor_smaller(0, 1);
                }
            }
        }
        loop
            invariant_except_break
                l * pow2(a) < r * pow2(b),
            invariant
                self.structure(),
                self.lazy.len() == n,
                commutative == <Action::Map as Monoid>::IS_COMMUTATIVE,
                l % 2 == 1,
                r % 2 == 1,
                1 <= l0,
                1 <= r0,
                1 <= n <= lo0 <= l * pow2(a) <= r * pow2(b) <= hi0 <= 2 * n,
                base_data.len() == 2 * n,
                base_lazy.len() == n,
                forall|e: nat| e >= 1 ==> #[trigger] ancestor(l as int, e) == ancestor(l0 as int, kl + e),
                forall|e: nat| e >= 1 ==> #[trigger] ancestor(r as int, e) == ancestor(r0 as int, kr + e),
                applied_off::<Action>(self.data@, self.lazy@, l0 as int, 1, r0 as int, 1),
                !commutative ==> clean_above::<Action::Map>(self.lazy@, l as int, 1),
                !commutative ==> clean_above::<Action::Map>(self.lazy@, r as int, 1),
                forall|q: int|
                    n <= q < 2 * n ==> #[trigger] element::<Action>(self.data@, self.lazy@, q)
                        == if lo0 <= q < l * pow2(a) || r * pow2(b) <= q < hi0 {
                        Action::apply(*update, element::<Action>(base_data, base_lazy, q), 1)
                    } else {
                        element::<Action>(base_data, base_lazy, q)
                    },
            ensures
                l * pow2(a) == r * pow2(b),
            decreases r * pow2(b) - l * pow2(a),
        {
            let ghost lo = l * pow2(a);
            let ghost hi = r * pow2(b);
            let ghost data0 = self.data@;
            let ghost lazy0 = self.lazy@;
            proof {
                lemma_pow2_pos(a);
                lemma_pow2_pos(b);
                assert(l <= l * pow2(a)) by (nonlinear_arith)
                    requires
                        pow2(a) >= 1,
                        l >= 0,
                ;
                assert(r <= r * pow2(b)) by (nonlinear_arith)
                    requires
                        pow2(b) >= 1,
                        r >= 0,
                ;
            }
            if l >= r {
                proof {
                    lemma_take_left(l as int, a, r as int, b);
                    assert((l + 1) * pow2(a) == lo + pow2(a)) by (nonlinear_arith)
                        requires
                            lo == l * pow2(a),
                    ;
                }
                self.push_map(l, update);
                let (m, Ghost(k)) = strip(l + 1);
                proof {
                    assert forall|q: int| n <= q < 2 * n implies #[trigger] element::<Action>(
                        self.data@,
                        self.lazy@,
                        q,
                    ) == if lo0 <= q < lo + pow2(a) || hi <= q < hi0 {
                        Action::apply(*update, element::<Action>(base_data, base_lazy, q), 1)
                    } else {
                        element::<Action>(base_data, base_lazy, q)
                    } by {
                        lemma_pushed_element::<Action>(data0, lazy0, l as int, *update, q);
                        lemma_below_leaf(l as int, a, n as int, q);
                    }
                    lemma_ancestor_one(l as int);
                    assert(ancestor(l as int, 1) == ancestor(l0 as int, kl + 1));
                    assert forall|j: int|
                        1 <= j < n && !on_chain(l0 as int, 1, j) && !on_chain(
                            r0 as int,
                            1,
                            j,
                        ) implies #[trigger] node_applied::<Action>(self.data@, self.lazy@, j) by {
                        assert(node_applied::<Action>(data0, lazy0, j));
                        lemma_pushed_applied::<Action>(data0, lazy0, l as int, *update, j);
                    }
                    assert forall|e: nat| e >= 1 implies #[trigger] ancestor(m as int, e) == ancestor(
                        l0 as int,
                        kl + k + e,
                    ) by {
                        lemma_next_left(l as int, m as int, k, e);
                        assert(ancestor(l as int, k + e) == ancestor(l0 as int, kl + (k + e)));
                    }
                    if !commutative {
                        assert forall|e: nat|
                            e >= 1 && 1 <= #[trigger] ancestor(m as int, e)
                                < self.lazy@.len() implies self.lazy@[ancestor(m as int, e)]
                            == <Action::Map as Monoid>::id() by {
                            lemma_next_left(l as int, m as int, k, e);
                            lemma_ancestor_strict(l as int, k + e);
                            assert(lazy0[ancestor(l as int, k + e)] == <Action::Map as Monoid>::id());
                        }
                        assert forall|e: nat|
                            e >= 1 && 1 <= #[trigger] ancestor(r as int, e)
                                < self.lazy@.len() implies self.lazy@[ancestor(r as int, e)]
                            == <Action::Map as Monoid>::id() by {
                            lemma_ancestor_strict(r as int, e);
                            assert(lazy0[ancestor(r as int, e)] == <Action::Map as Monoid>::id());
                        }
                    }
                    lemma_pow2_adds(k, a);
                    assert(m * pow2(k + a) == (l + 1) * pow2(a)) by (nonlinear_arith)
                        requires
                            l + 1 == m * pow2(k),
                            pow2(k + a) == pow2(k) * pow2(a),
                    ;
                    a = k + a;
                    kl = kl + k;
                }
                l = m;
            } else {
                proof {
                    lemma_take_right(l as int, a, r as int, b);
                    assert((r - 1) * pow2(b) == hi - pow2(b)) by (nonlinear_arith)
                        requires
                            hi == r * pow2(b),
                    ;
                    assert((r - 1 + 1) * pow2(b) == hi);
                    if !commutative {
                        assert forall|e: nat|
                            e >= 1 && 1 <= #[trigger] ancestor(r - 1, e)
                                < lazy0.len() implies lazy0[ancestor(r - 1, e)]
                            == <Action::Map as Monoid>::id() by {
                            lemma_sibling_ancestors(r as int, e);
                            assert(lazy0[ancestor(r as int, e)] == <Action::Map as Monoid>::id());
                        }
                    }
                }
                self.push_map(r - 1, update);
                let (m, Ghost(k)) = strip(r - 1);
                proof {
                    assert forall|q: int| n <= q < 2 * n implies #[trigger] element::<Action>(
                        self.data@,
                        self.lazy@,
                        q,
                    ) == if lo0 <= q < lo || hi - pow2(b) <= q < hi0 {
                        Action::apply(*update, element::<Action>(base_data, base_lazy, q), 1)
                    } else {
                        element::<Action>(base_data, base_lazy, q)
                    } by {
                        lemma_pushed_element::<Action>(data0, lazy0, r - 1, *update, q);
                        lemma_below_leaf(r - 1, b, n as int, q);
                    }
                    lemma_ancestor_one(r - 1);
                    lemma_sibling_ancestors(r as int, 1);
                    assert(ancestor(r as int, 1) == ancestor(r0 as int, kr + 1));
                    assert forall|j: int|
                        1 <= j < n && !on_chain(l0 as int, 1, j) && !on_chain(
                            r0 as int,
                            1,
                            j,
                        ) implies #[trigger] node_applied::<Action>(self.data@, self.lazy@, j) by {
                        assert(node_applied::<Action>(data0, lazy0, j));
                        lemma_pushed_applied::<Action>(data0, lazy0, r - 1, *update, j);
                    }
                    assert forall|e: nat| e >= 1 implies #[trigger] ancestor(m as int, e) == ancestor(
                        r0 as int,
                        kr + k + e,
                    ) by {
                        lemma_next_right(r as int, m as int, k, e);
                        assert(ancestor(r as int, k + e) == ancestor(r0 as int, kr + (k + e)));
                    }
                    if !commutative {
                        assert forall|e: nat|
                            e >= 1 && 1 <= #[trigger] ancestor(m as int, e)
                                < self.lazy@.len() implies self.lazy@[ancestor(m as int, e)]
                            == <Action::Map as Monoid>::id() by {
                            lemma_next_right(r as int, m as int, k, e);
                            lemma_sibling_ancestors(r as int, k + e);
                            lemma_ancestor_strict(r - 1, k + e);
                            assert(lazy0[ancestor(r as int, k + e)] == <Action::Map as Monoid>::id());
                        }
                        assert forall|e: nat|
                            e >= 1 && 1 <= #[trigger] ancestor(l as int, e)
                                < self.lazy@.len() implies self.lazy@[ancestor(l as int, e)]
                            == <Action::Map as Monoid>::id() by {
                            lemma_ancestor_strict(l as int, e);
                            assert(lazy0[ancestor(l as int, e)] == <Action::Map as Monoid>::id());
                        }
                    }
                    lemma_pow2_adds(k, b);
                    assert(m * pow2(k + b) == (r - 1) * pow2(b)) by (nonlinear_arith)
                        requires
                            r - 1 == m * pow2(k),
                            pow2(k + b) == pow2(k) * pow2(b),
                    ;
                    b = k + b;
                    kr = kr + k;
                }
                r = m;
            }
            if l == r {
                proof {
                    lemma_cursors_meet(l as int, a, r as int, b, n as int);
                }
                break ;
            }
            proof {
                if l * pow2(a) == r * pow2(b) {
                    lemma_odd_unique(l as int, a, r as int, b);
                }
            }
        }
        proof {
            assert forall|p: int| 0 <= p < old(self)@.len() implies #[trigger] self@[p] == if span_start(
                range.lower(),
                0,
            ) <= p < span_end(range.upper(), old(self)@.len() as usize) {
                Action::apply(*update, old(self)@[p], 1)
            } else {
                old(self)@[p]
            } by {
                let q = n + p;
                assert(element::<Action>(self.data@, self.lazy@, q) == if lo0 <= q < l * pow2(a) || r
                    * pow2(b) <= q < hi0 {
                    Action::apply(*update, element::<Action>(base_data, base_lazy, q), 1)
                } else {
                    element::<Action>(base_data, base_lazy, q)
                });
                assert(element::<Action>(base_data, base_lazy, q) == old(self)@[p]);
            }
            lemma_pow2_pos(a0);
            lemma_pow2_pos(b0);
            assert(l0 <= l0 * pow2(a0)) by (nonlinear_arith)
                requires
                    pow2(a0) >= 1,
                    l0 >= 0,
            ;
            assert(r0 <= r0 * pow2(b0)) by (nonlinear_arith)
                requires
                    pow2(b0) >= 1,
                    r0 >= 0,
            ;
        }
        let ghost after = self@;
        self.recalculate_above(l0, Ghost(r0 as int), Ghost(1));
        proof {
            assert forall|j: int|
                1 <= j < n && !on_chain(r0 as int, 1, j) && !on_chain(0, 0, j) implies #[trigger] node_applied::<
                Action,
            >(self.data@, self.lazy@, j) by {}
        }
        self.recalculate_above(r0, Ghost(0), Ghost(0));
    }

    /// Answers the query for the given range: the combination of its
    /// elements in order, the identity element where it is empty.
    ///
    /// # Time complexity
    ///
    /// *O*(log *N*)
    pub fn range_query<R: RangeArg<usize>>(&mut self, range: R) -> (combined: <
        Action::Set as Monoid
    >::Set)
        requires
            old(self).wf(),
            within(range, old(self)@.len() as usize),
        ensures
            final(self).wf(),
            final(self)@ == old(self)@,
            combined == range_fold::<Action::Set>(
                old(self)@,
                span_start(range.lower(), 0),
                span_end(range.upper(), old(self)@.len() as usize),
            ),
    {
        let n = self.data.len() / 2;
        let span = convert_range(range, 0..n);
        if span.start >= span.end {
            return <Action::Set as Monoid>::identity();
        }
        let ghost lo0 = (n + span.start) as int;
        let ghost hi0 = (n + span.end) as int;
        let (mut l, Ghost(a0)) = strip(n + span.start);
        let (mut r, Ghost(b0)) = strip(n + span.end);
        let ghost mut a = a0;
        let ghost mut b = b0;
        proof {
            lemma_pow2_pos(a);
            lemma_pow2_pos(b);
            assert(l <= l * pow2(a)) by (nonlinear_arith)
                requires
                    pow2(a) >= 1,
                    l >= 0,
            ;
            assert(r <= r * pow2(b)) by (nonlinear_arith)
                requires
                    pow2(b) >= 1,
                    r >= 0,
            ;
        }
        self.propagate_above(l);
        self.propagate_above(r);
        let ghost view = self@;
        let mut acc_l = <Action::Set as Monoid>::identity();
        let mut acc_r = <Action::Set as Monoid>::identity();
        proof {
            <Action::Set as Monoid>::lemma_identity(
                fold::<Action::Set>(view.subrange(lo0 - n, hi0 - n)),
            );
        }
        loop
            invariant_except_break
                l * pow2(a) < r * pow2(b),
                <Action::Set as Monoid>::op(
                    <Action::Set as Monoid>::op(
                        acc_l,
                        fold::<Action::Set>(view.subrange(l * pow2(a) - n, r * pow2(b) - n)),
                    ),
                    acc_r,
                ) == fold::<Action::Set>(view.subrange(lo0 - n, hi0 - n)),
            invariant
                self.wf(),
                view == self@,
                self.lazy.len() == n,
                l % 2 == 1,
                r % 2 == 1,
                1 <= n <= lo0 <= l * pow2(a) <= r * pow2(b) <= hi0 <= 2 * n,
                clean_above::<Action::Map>(self.lazy@, l as int, 1),
                clean_above::<Action::Map>(self.lazy@, r as int, 1),
            ensures
                <Action::Set as Monoid>::op(acc_l, acc_r) == fold::<Action::Set>(
                    view.subrange(lo0 - n, hi0 - n),
                ),
            decreases r * pow2(b) - l * pow2(a),
        {
            let ghost lo = l * pow2(a);
            let ghost hi = r * pow2(b);
            proof {
                lemma_pow2_pos(a);
                lemma_pow2_pos(b);
            }
            if l >= r {
                proof {
                    lemma_take_left(l as int, a, r as int, b);
                    assert((l + 1) * pow2(a) == lo + pow2(a)) by (nonlinear_arith)
                        requires
                            lo == l * pow2(a),
                    ;
                    lemma_node_is_fold::<Action>(self.data@, self.lazy@, l as int, a);
                    lemma_ancestor_one(l as int);
                    lemma_clean_path::<Action::Map>(self.lazy@, l as int, 1);
                    Action::lemma_act_identity(self.data@[l as int], pow2(a));
                    lemma_fold_split::<Action::Set>(view, lo - n, lo + pow2(a) - n, hi - n);
                    <Action::Set as Monoid>::lemma_associative(
                        acc_l,
                        self.data@[l as int],
                        fold::<Action::Set>(view.subrange(lo + pow2(a) - n, hi - n)),
                    );
                }
                acc_l = <Action::Set as Monoid>::combine(&acc_l, &self.data[l]);
                let (m, Ghost(k)) = strip(l + 1);
                proof {
                    assert forall|e: nat|
                        e >= 1 && 1 <= #[trigger] ancestor(m as int, e)
                            < self.lazy@.len() implies self.lazy@[ancestor(m as int, e)]
                        == <Action::Map as Monoid>::id() by {
                        lemma_next_left(l as int, m as int, k, e);
                        assert(self.lazy@[ancestor(l as int, k + e)] == <Action::Map as Monoid>::id());
                    }
                    lemma_pow2_adds(k, a);
                    assert(m * pow2(k + a) == (l + 1) * pow2(a)) by (nonlinear_arith)
                        requires
                            l + 1 == m * pow2(k),
                            pow2(k + a) == pow2(k) * pow2(a),
                    ;
                    a = k + a;
                }
                l = m;
            } else {
                proof {
                    lemma_take_right(l as int, a, r as int, b);
                    assert((r - 1) * pow2(b) == hi - pow2(b)) by (nonlinear_arith)
                        requires
                            hi == r * pow2(b),
                    ;
                    assert((r - 1 + 1) * pow2(b) == hi);
                    lemma_node_is_fold::<Action>(self.data@, self.lazy@, r - 1, b);
                    lemma_ancestor_one(r - 1);
                    assert forall|e: nat|
                        e >= 1 && 1 <= #[trigger] ancestor(r - 1, e)
                            < self.lazy@.len() implies self.lazy@[ancestor(r - 1, e)]
                        == <Action::Map as Monoid>::id() by {
                        lemma_sibling_ancestors(r as int, e);
                        assert(self.lazy@[ancestor(r as int, e)] == <Action::Map as Monoid>::id());
                    }
                    lemma_clean_path::<Action::Map>(self.lazy@, r - 1, 1);
                    Action::lemma_act_identity(self.data@[r - 1], pow2(b));
                    lemma_fold_split::<Action::Set>(view, lo - n, hi - pow2(b) - n, hi - n);
                    let mid = fold::<Action::Set>(view.subrange(lo - n, hi - pow2(b) - n));
                    <Action::Set as Monoid>::lemma_associative(mid, self.data@[r - 1], acc_r);
                    <Action::Set as Monoid>::lemma_associative(acc_l, mid, self.data@[r - 1]);
                    <Action::Set as Monoid>::lemma_associative(
                        <Action::Set as Monoid>::op(acc_l, mid),
                        self.data@[r - 1],
                        acc_r,
                    );
                }
                acc_r = <Action::Set as Monoid>::combine(&self.data[r - 1], &acc_r);
                let (m, Ghost(k)) = strip(r - 1);
                proof {
                    assert forall|e: nat|
                        e >= 1 && 1 <= #[trigger] ancestor(m as int, e)
                            < self.lazy@.len() implies self.lazy@[ancestor(m as int, e)]
                        == <Action::Map as Monoid>::id() by {
                        lemma_next_right(r as int, m as int, k, e);
                        assert(self.lazy@[ancestor(r as int, k + e)] == <Action::Map as Monoid>::id());
                    }
                    lemma_pow2_adds(k, b);
                    assert(m * pow2(k + b) == (r - 1) * pow2(b)) by (nonlinear_arith)
                        requires
                            r - 1 == m * pow2(k),
                            pow2(k + b) == pow2(k) * pow2(b),
                    ;
                    b = k + b;
                }
                r = m;
            }
            if l == r {
                proof {
                    lemma_cursors_meet(l as int, a, r as int, b, n as int);
                    assert(view.subrange(l * pow2(a) - n, r * pow2(b) - n) =~= Seq::empty());
                    <Action::Set as Monoid>::lemma_identity(acc_l);
                }
                break ;
            }
            proof {
                if l * pow2(a) == r * pow2(b) {
                    lemma_odd_unique(l as int, a, r as int, b);
                }
            }
        }
        <Action::Set as Monoid>::combine(&acc_l, &acc_r)
    }

    /// Hands down the pending maps of all nodes, from the root on, so that
    /// every element stands in its own node.
    fn propagate_all(&mut self)
        requires
            old(self).wf(),
        ensures
            final(self).wf(),
            final(self)@ == old(self)@,
            final(self).data@.subrange(final(self).lazy.len() as int, final(self).data.len() as int)
                == final(self)@,
    {
        let n = self.lazy.len();
        let mut i: usize = 1;
        while i < n
            invariant
                1 <= i,
                self.wf(),
                self.lazy.len() == n,
                self@ == old(self)@,
                forall|j: int| 1 <= j < i && j < n ==> self.lazy@[j] == <Action::Map as Monoid>::id(),
            decreases n - i,
        {
            let ghost data0 = self.data@;
            let ghost lazy0 = self.lazy@;
            self.propagate_at(i);
            proof {
                assert forall|j: int|
                    1 <= j < n && !on_chain(0, 0, j) implies #[trigger] node_applied::<Action>(
                    self.data@,
                    self.lazy@,
                    j,
                ) by {
                    assert(node_applied::<Action>(data0, lazy0, j));
                    lemma_propagated_applied::<Action>(data0, lazy0, i as int, j);
                }
                assert forall|p: int| 0 <= p < n implies self@[p] == old(self)@[p] by {
                    lemma_propagated_element::<Action>(data0, lazy0, i as int, n + p);
                }
                assert(self@ =~= old(self)@);
                assert forall|j: int| 1 <= j < i + 1 && j < n implies self.lazy@[j]
                    == <Action::Map as Monoid>::id() by {
                    if j == 2 * i || j == 2 * i + 1 {
                        assert(lazy0[j / 2] == <Action::Map as Monoid>::id());
                        <Action::Map as Monoid>::lemma_identity(lazy0[j]);
                    }
                }
            }
            i += 1;
        }
        proof {
            assert forall|p: int| 0 <= p < n implies self.data@[n + p] == self@[p] by {
                let q = n + p;
                lemma_ancestor_one(q);
                assert forall|d: nat|
                    d >= 1 && 1 <= #[trigger] ancestor(q, d) < self.lazy@.len() implies self.lazy@[ancestor(
                    q,
                    d,
                )] == <Action::Map as Monoid>::id() by {}
                lemma_clean_path::<Action::Map>(self.lazy@, q, 1);
                Action::lemma_act_identity(self.data@[q], 1);
            }
            assert(self.data@.subrange(n as int, 2 * n) =~= self@);
        }
    }

    /// Returns an iterator over the elements, in order. The pending maps
    /// are handed down first.
    ///
    /// # Time complexity
    ///
    /// *O*(*N*)
    pub fn iter(&mut self) -> (elements: std::slice::Iter<'_, <Action::Set as Monoid>::Set>)
        requires
            old(self).wf(),
        ensures
            vstd::std_specs::slice::into_iter_elts(elements) == old(self)@,
            final(self).wf(),
            final(self)@ == old(self)@,
    {
        self.propagate_all();
        let n = self.data.len() / 2;
        let leaves = vstd::slice::slice_subrange(self.data.as_slice(), n, 2 * n);
        leaves.iter()
    }

    /// Creates a new instance initialized with `n` identity elements.
    ///
    /// # Time complexity
    ///
    /// *O*(*N*)
    pub fn new(n: usize) -> (tree: Self)
        requires
            2 * n <= usize::MAX,
            Action::size_ok(n as nat),
        ensures
            tree.wf(),
            tree@.len() == n,
            forall|i: int| 0 <= i < n ==> tree@[i] == <Action::Set as Monoid>::id(),
    {
        let mut values: Vec<<Action::Set as Monoid>::Set> = Vec::new();
        let mut k: usize = 0;
        while k < n
            invariant
                k <= n,
                values.len() == k,
                forall|i: int| 0 <= i < k ==> values[i] == <Action::Set as Monoid>::id(),
            decreases n - k,
        {
            values.push(<Action::Set as Monoid>::identity());
            k += 1;
        }
        Self::from(values)
    }

    /// Creates an instance that holds `values`.
    ///
    /// # Time complexity
    ///
    /// *O*(*N*)
    pub fn from(values: Vec<<Action::Set as Monoid>::Set>) -> (tree: Self)
        requires
            2 * values.len() <= usize::MAX,
            Action::size_ok(values.len() as nat),
        ensures
            tree.wf(),
            tree@ == values@,
    {
        let n = values.len();
        let ghost given = values@;
        let mut data: Vec<<Action::Set as Monoid>::Set> = Vec::new();
        let mut lazy: Vec<<Action::Map as Monoid>::Set> = Vec::new();
        let mut k: usize = 0;
        while k < n
            invariant
                k <= n,
                data.len() == k,
                lazy.len() == k,
                forall|i: int| 0 <= i < k ==> lazy[i] == <Action::Map as Monoid>::id(),
            decreases n - k,
        {
            data.push(<Action::Set as Monoid>::identity());
            lazy.push(<Action::Map as Monoid>::identity());
            k += 1;
        }
        let mut values = values;
        data.append(&mut values);
        let segment_size = if Action::USE_SEGMENT_SIZE {
            Some(segment_sizes(n))
        } else {
            None
        };
        // combines the children of every node, bottom-up
        let mut i: usize = n;
        while i > 1
            invariant
                data.len() == 2 * n,
                lazy.len() == n,
                i <= n,
                n >= 1 ==> i >= 1,
                forall|j: int| 0 <= j < n ==> lazy[j] == <Action::Map as Monoid>::id(),
                data@.subrange(n as int, 2 * n) == given,
                forall|j: int| i <= j < n ==> #[trigger] node_applied::<Action>(data@, lazy@, j),
            decreases i,
        {
            i -= 1;
            let ghost before = data@;
            let combined = <Action::Set as Monoid>::combine(&data[2 * i], &data[2 * i + 1]);
            data[i] = combined;
            proof {
                assert(data@.subrange(n as int, 2 * n) =~= before.subrange(n as int, 2 * n));
                assert forall|j: int| i <= j < n implies #[trigger] node_applied::<Action>(
                    data@,
                    lazy@,
                    j,
                ) by {
                    if j > i {
                        assert(node_applied::<Action>(before, lazy@, j));
                    } else {
                        Action::lemma_act_identity(combined, leaf_count(n as int, j));
                    }
                }
            }
        }
        let tree = LazySegmentTree { data, lazy, segment_size };
        proof {
            assert forall|p: int| 0 <= p < n implies tree@[p] == given[p] by {
                let q = n + p;
                lemma_ancestor_one(q);
                assert(clean_above::<Action::Map>(tree.lazy@, q, 1));
                lemma_clean_path::<Action::Map>(tree.lazy@, q, 1);
                Action::lemma_act_identity(tree.data@[q], 1);
                assert(tree.data@[q] == tree.data@.subrange(n as int, 2 * n)[p]);
            }
            assert(tree@ =~= given);
        }
        tree
    }

    /// Updates the `i`-th element: `a[i] <- update * a[i]`.
    ///
    /// # Time complexity
    ///
    /// *O*(log *N*)
    pub fn point_update(&mut self, i: usize, update: &<Action::Map as Monoid>::Set)
        requires
            old(self).wf(),
            i < old(self)@.len(),
        ensures
            final(self).wf(),
            final(self)@ == old(self)@.update(
                i as int,
                Action::apply(*update, old(self)@[i as int], 1),
            ),
    {
        let ghost n = self.lazy.len() as int;
        let x = self.inner_index(i);
        if !<Action::Map as Monoid>::IS_COMMUTATIVE {
            self.propagate_above(x);
        }
        let ghost data0 = self.data@;
        let ghost lazy0 = self.lazy@;
        self.push_map(x, update);
        proof {
            lemma_ancestor_one(x as int);
            assert forall|j: int|
                1 <= j < n && !on_chain(x as int, 1, j) && !on_chain(0, 0, j) implies #[trigger] node_applied::<
                Action,
            >(self.data@, self.lazy@, j) by {
                assert(ancestor(x as int, 1) == x as int / 2);
                assert(!on_chain(0, 0, j)) by {
                    if on_chain(0, 0, j) {
                        let e = choose|e: nat| e >= 0 && #[trigger] ancestor(0, e) == j;
                        lemma_ancestor_smaller(0, 1);
                    }
                }
                assert(node_applied::<Action>(data0, lazy0, j));
                lemma_pushed_applied::<Action>(data0, lazy0, x as int, *update, j);
            }
            assert forall|p: int| 0 <= p < n implies self@[p] == old(self)@.update(
                i as int,
                Action::apply(*update, old(self)@[i as int], 1),
            )[p] by {
                let q = n + p;
                lemma_pushed_element::<Action>(data0, lazy0, x as int, *update, q);
                lemma_pow2_values();
                assert(x * pow2(0) == x) by (nonlinear_arith)
                    requires
                        pow2(0) == 1,
                ;
                assert((x + 1) * pow2(0) == x + 1) by (nonlinear_arith)
                    requires
                        pow2(0) == 1,
                ;
                lemma_below_leaf(x as int, 0, n, q);
            }
            assert(self@ =~= old(self)@.update(
                i as int,
                Action::apply(*update, old(self)@[i as int], 1),
            ));
        }
        self.recalculate_above(x, Ghost(0), Ghost(0));
    }

    /// Returns the `i`-th element.
    ///
    /// # Time complexity
    ///
    /// *O*(log *N*)
    pub fn point_query(&mut self, i: usize) -> (element: &<Action::Set as Monoid>::Set)
        requires
            old(self).wf(),
            i < old(self)@.len(),
        ensures
            *element == old(self)@[i as int],
            final(self).wf(),
            final(self)@ == old(self)@,
    {
        let x = self.inner_index(i);
        self.propagate_above(x);
        proof {
            lemma_ancestor_one(x as int);
            lemma_clean_path::<Action::Map>(self.lazy@, x as int, 1);
            Action::lemma_act_identity(self.data@[x as int], 1);
            assert(self@[i as int] == self.data@[x as int]);
        }
        &self.data[x]
    }

    /// Hands the pending map of node `i` down to its two children.
    fn propagate_at(&mut self, i: usize)
        requires
            old(self).structure(),
            1 <= i < old(self).lazy.len(),
        ensures
            final(self).structure(),
            final(self).lazy.len() == old(self).lazy.len(),
            final(self).data@ == propagated_data::<Action>(
                old(self).data@,
                old(self).lazy@,
                i as int,
            ),
            final(self).lazy@ == propagated_lazy::<Action>(old(self).lazy@, i as int),
    {
        let mut mapping = <Action::Map as Monoid>::identity();
        core::mem::swap(&mut self.lazy[i], &mut mapping);
        self.push_map(2 * i, &mapping);
        self.push_map(2 * i + 1, &mapping);
    }

    /// Recombines node `i` from its children and applies its pending map.
    fn recalculate_at(&mut self, i: usize)
        requires
            old(self).structure(),
            1 <= i < old(self).lazy.len(),
        ensures
            final(self).structure(),
            final(self).lazy@ == old(self).lazy@,
            final(self).data@ == recombined::<Action>(old(self).data@, old(self).lazy@, i as int),
    {
        let size = self.size_at(i);
        let both = <Action::Set as Monoid>::combine(&self.data[2 * i], &self.data[2 * i + 1]);
        proof {
            let n = self.lazy.len() as int;
            lemma_leaf_count_bound(n, i as int);
            Action::lemma_size_ok(n as nat, leaf_count(n, i as int));
            if size is None {
                Action::lemma_size_unused(self.lazy@[i as int], both, 1, leaf_count(n, i as int));
            }
        }
        let applied = Action::act(&self.lazy[i], &both, size);
        self.data[i] = applied;
    }
}

} // verus!
