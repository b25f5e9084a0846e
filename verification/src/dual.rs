//! Range update, point query.

use vstd::prelude::*;
use vstd::arithmetic::power2::{pow2, lemma_pow2_pos, lemma_pow2_adds};
use crate::traits::Monoid;
use crate::utility::{RangeArg, convert_range, span_start, span_end, within};
use crate::bits::{
    ancestor, below, strip, height, ancestor_of, lemma_ancestor_adds, lemma_ancestor_one,
    lemma_take_left, lemma_take_right, lemma_cursors_meet, lemma_odd_unique, lemma_pow2_values,
    lemma_below_step, lemma_ancestor_nonneg, lemma_below_leaf, lemma_ancestor_smaller,
    lemma_next_left, lemma_next_right, lemma_sibling_ancestors, lemma_ancestor_positive,
    lemma_ancestor_beyond, lemma_ancestor_strict,
};

verus! {

/// A data structure that supports **point query, range update** operations.
///
/// It represents the sequence `self@` of its elements. An update `f` of a
/// range replaces every element `a` of the range by `f · a`.
///
/// The elements live in an array of twice their number, node `i` being the
/// parent of the nodes `2i` and `2i + 1`. An element is the product of the
/// nodes on the path from the root to its own node in the second half.
pub struct DualSegmentTree<Update: Monoid> {
    data: Vec<Update::Set>,
}

/// The product of the nodes on the path from the root down to node `i`.
pub(crate) open spec fn path<Update: Monoid>(data: Seq<Update::Set>, i: int) -> Update::Set
    decreases i,
{
    if i <= 0 {
        Update::id()
    } else {
        Update::op(path::<Update>(data, i / 2), data[i])
    }
}

/// The nodes above node `x`, from `from` levels up, hold the identity.
pub(crate) open spec fn clean_above<Update: Monoid>(data: Seq<Update::Set>, x: int, from: nat) -> bool {
    forall|d: nat|
        d >= from && 1 <= #[trigger] ancestor(x, d) < data.len() ==> data[ancestor(x, d)]
            == Update::id()
}

/// The array after node `i` has handed its value down to its two children.
pub(crate) open spec fn pushed_down<Update: Monoid>(data: Seq<Update::Set>, i: int) -> Seq<Update::Set> {
    data.update(i, Update::id()).update(2 * i, Update::op(data[i], data[2 * i])).update(
        2 * i + 1,
        Update::op(data[i], data[2 * i + 1]),
    )
}

/// Handing a value down changes no path but the one that ends at the node
/// itself.
pub(crate) proof fn lemma_pushed_down_path<Update: Monoid>(data: Seq<Update::Set>, i: int, j: int)
    requires
        1 <= i,
        2 * i + 1 < data.len(),
        0 <= j < data.len(),
    ensures
        j != i ==> path::<Update>(pushed_down::<Update>(data, i), j) == path::<Update>(data, j),
        j == i ==> path::<Update>(pushed_down::<Update>(data, i), j) == path::<Update>(data, i / 2),
    decreases j,
{
    let after = pushed_down::<Update>(data, i);
    if j >= 1 {
        lemma_pushed_down_path::<Update>(data, i, j / 2);
        assert(path::<Update>(after, j) == Update::op(path::<Update>(after, j / 2), after[j]));
        assert(path::<Update>(data, j) == Update::op(path::<Update>(data, j / 2), data[j]));
        if j == i {
            Update::lemma_identity(path::<Update>(data, i / 2));
        } else if j == 2 * i || j == 2 * i + 1 {
            assert(path::<Update>(data, i) == Update::op(path::<Update>(data, i / 2), data[i]));
            Update::lemma_associative(path::<Update>(data, i / 2), data[i], data[j]);
        } else {
            assert(after[j] == data[j]);
        }
    }
}

/// Handing a value down keeps the nodes above any node clean.
pub(crate) proof fn lemma_pushed_down_clean<Update: Monoid>(
    data: Seq<Update::Set>,
    i: int,
    x: int,
    from: nat,
)
    requires
        1 <= i,
        2 * i + 1 < data.len(),
        0 <= x,
        clean_above::<Update>(data, x, from),
    ensures
        clean_above::<Update>(pushed_down::<Update>(data, i), x, from),
{
    let after = pushed_down::<Update>(data, i);
    assert forall|d: nat| d >= from && 1 <= #[trigger] ancestor(x, d) < after.len() implies after[ancestor(
        x,
        d,
    )] == Update::id() by {
        let y = ancestor(x, d);
        if y == 2 * i || y == 2 * i + 1 {
            lemma_ancestor_adds(x, d, 1);
            lemma_ancestor_one(y);
            assert(ancestor(x, d + 1) == i);
            assert(data[i] == Update::id());
            Update::lemma_identity(data[y]);
        }
    }
}

/// The effect of composing `f` onto node `x`: the paths through `x` get `f`
/// in front, where the nodes above `x` are clean or the monoid is commutative.
pub(crate) proof fn lemma_compose_path<Update: Monoid>(
    data: Seq<Update::Set>,
    x: int,
    f: Update::Set,
    j: int,
)
    requires
        1 <= x < data.len(),
        0 <= j < data.len(),
        Update::IS_COMMUTATIVE || clean_above::<Update>(data, x, 1),
    ensures
        path::<Update>(data.update(x, Update::op(f, data[x])), j) == if below(x, j) {
            Update::op(f, path::<Update>(data, j))
        } else {
            path::<Update>(data, j)
        },
    decreases j,
{
    let after = data.update(x, Update::op(f, data[x]));
    if j <= 0 {
        lemma_ancestor_smaller(j, x);
    } else {
        lemma_below_step(x, j);
        lemma_compose_path::<Update>(data, x, f, j / 2);
        let above = path::<Update>(data, j / 2);
        if j == x {
            lemma_ancestor_smaller(j / 2, x);
            assert(!below(x, j / 2));
            if Update::IS_COMMUTATIVE {
                Update::lemma_associative(above, f, data[x]);
                Update::lemma_commutative(above, f);
                Update::lemma_associative(f, above, data[x]);
            } else {
                lemma_ancestor_one(x);
                lemma_clean_path::<Update>(data, x, 1);
                Update::lemma_identity(Update::op(f, data[x]));
                Update::lemma_identity(data[x]);
            }
        } else if below(x, j / 2) {
            Update::lemma_associative(f, above, data[j]);
        }
    }
}

/// The path down to a node whose ancestors-or-self are clean is the identity.
pub(crate) proof fn lemma_clean_path<Update: Monoid>(data: Seq<Update::Set>, x: int, from: nat)
    requires
        0 <= x,
        ancestor(x, from) < data.len(),
        clean_above::<Update>(data, x, from),
    ensures
        path::<Update>(data, ancestor(x, from)) == Update::id(),
    decreases ancestor(x, from),
{
    let y = ancestor(x, from);
    lemma_ancestor_nonneg(x, from);
    if y >= 1 {
        lemma_ancestor_adds(x, from, 1);
        lemma_ancestor_one(y);
        assert(clean_above::<Update>(data, x, from + 1));
        lemma_clean_path::<Update>(data, x, from + 1);
        Update::lemma_identity(Update::id());
    }
}

impl<Update: Monoid> View for DualSegmentTree<Update> {
    type V = Seq<Update::Set>;

    /// The elements, in order.
    closed spec fn view(&self) -> Seq<Update::Set> {
        Seq::new(
            (self.data.len() / 2) as nat,
            |p: int| path::<Update>(self.data@, self.data.len() / 2 + p),
        )
    }
}

impl<Update: Monoid> DualSegmentTree<Update> {
    /// The array has twice the length of the sequence.
    pub closed spec fn wf(&self) -> bool {
        self.data.len() % 2 == 0
    }

    /// Creates a new instance initialized with `n` identity elements.
    ///
    /// # Time complexity
    ///
    /// *O*(*N*)
    pub fn new(n: usize) -> (tree: Self)
        requires
            2 * n <= usize::MAX,
        ensures
            tree.wf(),
            tree@.len() == n,
            forall|i: int| 0 <= i < n ==> tree@[i] == Update::id(),
    {
        let mut data: Vec<Update::Set> = Vec::new();
        let mut k: usize = 0;
        while k < 2 * n
            invariant
                2 * n <= usize::MAX,
                k <= 2 * n,
                data.len() == k,
                forall|i: int| 0 <= i < k ==> data[i] == Update::id(),
            decreases 2 * n - k,
        {
            data.push(Update::identity());
            k += 1;
        }
        let tree = DualSegmentTree { data };
        proof {
            assert forall|i: int| 0 <= i < n implies tree@[i] == Update::id() by {
                lemma_ancestor_one(n + i);
                assert(clean_above::<Update>(tree.data@, n + i, 0));
                lemma_clean_path::<Update>(tree.data@, n + i, 0);
            }
        }
        tree
    }

    /// Creates an instance that holds `values`.
    ///
    /// # Time complexity
    ///
    /// *O*(*N*)
    pub fn from(values: Vec<Update::Set>) -> (tree: Self)
        requires
            2 * values.len() <= usize::MAX,
        ensures
            tree.wf(),
            tree@ == values@,
    {
        let n = values.len();
        let ghost elements = values@;
        let mut data: Vec<Update::Set> = Vec::new();
        let mut k: usize = 0;
        while k < n
            invariant
                k <= n,
                data.len() == k,
                forall|i: int| 0 <= i < k ==> data[i] == Update::id(),
            decreases n - k,
        {
            data.push(Update::identity());
            k += 1;
        }
        let mut values = values;
        data.append(&mut values);
        let tree = DualSegmentTree { data };
        proof {
            assert forall|i: int| 0 <= i < n implies tree@[i] == elements[i] by {
                let q = n + i;
                lemma_ancestor_one(q);
                assert forall|d: nat| d >= 1 && 1 <= #[trigger] ancestor(q, d) < tree.data@.len() implies tree.data@[ancestor(
                    q,
                    d,
                )] == Update::id() by {
                    lemma_ancestor_adds(q, 1, (d - 1) as nat);
                    lemma_ancestor_smaller(q / 2, n as int);
                }
                lemma_clean_path::<Update>(tree.data@, q, 1);
                Update::lemma_identity(elements[i]);
            }
            assert(tree@ =~= elements);
        }
        tree
    }

    /// Returns the number of elements.
    ///
    /// # Time complexity
    ///
    /// *O*(1)
    pub fn len(&self) -> (n: usize)
        requires
            self.wf(),
        ensures
            n == self@.len(),
    {
        self.data.len() / 2
    }

    fn inner_index(&self, i: usize) -> (r: usize)
        requires
            self.wf(),
            i <= self@.len(),
        ensures
            r == self@.len() + i,
    {
        self.data.len() / 2 + i
    }

    /// The array `data` has the length of this tree's and stands for the same
    /// elements.
    spec fn leaves_agree(&self, data: Seq<Update::Set>) -> bool {
        &&& data.len() == self.data.len()
        &&& forall|q: int|
            self.data.len() / 2 <= q < self.data.len() ==> path::<Update>(self.data@, q)
                == path::<Update>(data, q)
    }

    /// Hands down the values of all nodes above node `x`, from the root on.
    fn propagate_above(&mut self, x: usize)
        requires
            old(self).wf(),
            1 <= x,
            2 * (x as int / 2) + 1 < old(self).data.len(),
        ensures
            final(self).wf(),
            final(self).leaves_agree(old(self).data@),
            clean_above::<Update>(final(self).data@, x as int, 1),
            forall|y: int|
                0 <= y && #[trigger] clean_above::<Update>(old(self).data@, y, 1)
                    ==> clean_above::<Update>(final(self).data@, y, 1),
    {
        let h = height(x);
        let mut d = h;
        proof {
            assert forall|e: nat|
                e >= h + 1 && 1 <= #[trigger] ancestor(x as int, e) < self.data@.len() implies self.data@[ancestor(
                x as int,
                e,
            )] == Update::id() by {
                lemma_ancestor_beyond(x as int, e, h as nat);
            }
        }
        while d >= 1
            invariant
                d <= h < usize::BITS,
                ancestor(x as int, h as nat) == 1,
                1 <= x,
                2 * (x as int / 2) + 1 < self.data.len(),
                self.wf(),
                self.leaves_agree(old(self).data@),
                clean_above::<Update>(self.data@, x as int, (d + 1) as nat),
                forall|y: int|
                    0 <= y && #[trigger] clean_above::<Update>(old(self).data@, y, 1)
                        ==> clean_above::<Update>(self.data@, y, 1),
            decreases d,
        {
            let i = ancestor_of(x, d);
            let ghost before = self.data@;
            proof {
                lemma_ancestor_positive(x as int, d as nat, h as nat);
                lemma_ancestor_adds(x as int, 1, (d - 1) as nat);
                lemma_ancestor_one(x as int);
                lemma_ancestor_smaller(x as int / 2, x as int);
            }
            self.propagate_at(i);
            proof {
                assert forall|q: int|
                    self.data.len() / 2 <= q < self.data.len() implies path::<Update>(self.data@, q)
                    == path::<Update>(old(self).data@, q) by {
                    lemma_pushed_down_path::<Update>(before, i as int, q);
                }
                lemma_pushed_down_clean::<Update>(before, i as int, x as int, (d + 1) as nat);
                assert forall|e: nat|
                    e >= d && 1 <= #[trigger] ancestor(x as int, e) < self.data@.len() implies self.data@[ancestor(
                    x as int,
                    e,
                )] == Update::id() by {
                    if e > d {
                        assert(clean_above::<Update>(self.data@, x as int, (d + 1) as nat));
                    }
                }
                assert forall|y: int|
                    0 <= y && #[trigger] clean_above::<Update>(
                        old(self).data@,
                        y,
                        1,
                    ) implies clean_above::<Update>(self.data@, y, 1) by {
                    lemma_pushed_down_clean::<Update>(before, i as int, y, 1);
                }
            }
            d -= 1;
        }
    }

    /// Updates the elements of the range: `a[i] <- update · a[i]`.
    ///
    /// # Time complexity
    ///
    /// *O*(log *N*)
    pub fn range_update<R: RangeArg<usize>>(&mut self, range: R, update: &Update::Set)
        requires
            old(self).wf(),
            within(range, old(self)@.len() as usize),
        ensures
            final(self).wf(),
            final(self)@.len() == old(self)@.len(),
            forall|p: int|
                0 <= p < old(self)@.len() ==> #[trigger] final(self)@[p] == if span_start(range.lower(), 0)
                    <= p < span_end(range.upper(), old(self)@.len() as usize) {
                    Update::op(*update, old(self)@[p])
                } else {
                    old(self)@[p]
                },
    {
        let n = self.data.len() / 2;
        let span = convert_range(range, 0..n);
        if span.start >= span.end {
            return ;
        }
        let ghost lo0 = (n + span.start) as int;
        let ghost hi0 = (n + span.end) as int;
        let (mut l, Ghost(a0)) = strip(n + span.start);
        let (mut r, Ghost(b0)) = strip(n + span.end);
        let ghost mut a = a0;
        let ghost mut b = b0;
        let commutative = Update::IS_COMMUTATIVE;
        proof {
            lemma_pow2_pos(a);
            lemma_pow2_pos(b);
            assert(l <= l * pow2(a)) by (nonlinear_arith)
                requires
                    pow2(a) >= 1,
                    l >= 0,
            ;
            assert(r <= r * pow2(b)) by (nonlinear_arith)
                requires
                    pow2(b) >= 1,
                    r >= 0,
            ;
        }
        if !commutative {
            self.propagate_above(l);
            self.propagate_above(r);
        }
        let ghost base = self.data@;
        loop
            invariant_except_break
                l * pow2(a) < r * pow2(b),
            invariant
                self.wf(),
                self.data.len() == 2 * n,
                commutative == Update::IS_COMMUTATIVE,
                l % 2 == 1,
                r % 2 == 1,
                1 <= n <= lo0 <= l * pow2(a) <= r * pow2(b) <= hi0 <= 2 * n,
                base.len() == 2 * n,
                !commutative ==> clean_above::<Update>(self.data@, l as int, 1),
                !commutative ==> clean_above::<Update>(self.data@, r as int, 1),
                forall|q: int|
                    n <= q < 2 * n ==> #[trigger] path::<Update>(self.data@, q) == if lo0 <= q < l
                        * pow2(a) || r * pow2(b) <= q < hi0 {
                        Update::op(*update, path::<Update>(base, q))
                    } else {
                        path::<Update>(base, q)
                    },
            ensures
                l * pow2(a) == r * pow2(b),
            decreases r * pow2(b) - l * pow2(a),
        {
            let ghost lo = l * pow2(a);
            let ghost hi = r * pow2(b);
            let ghost before = self.data@;
            proof {
                lemma_pow2_pos(a);
                lemma_pow2_pos(b);
                assert(l <= l * pow2(a)) by (nonlinear_arith)
                    requires
                        pow2(a) >= 1,
                        l >= 0,
                ;
                assert(r <= r * pow2(b)) by (nonlinear_arith)
                    requires
                        pow2(b) >= 1,
                        r >= 0,
                ;
            }
            if l >= r {
                proof {
                    lemma_take_left(l as int, a, r as int, b);
                    assert((l + 1) * pow2(a) == lo + pow2(a)) by (nonlinear_arith)
                        requires
                            lo == l * pow2(a),
                    ;
                }
                let composed = Update::combine(update, &self.data[l]);
                self.data[l] = composed;
                let (m, Ghost(k)) = strip(l + 1);
                proof {
                    assert forall|q: int| n <= q < 2 * n implies #[trigger] path::<Update>(
                        self.data@,
                        q,
                    ) == if lo0 <= q < lo + pow2(a) || hi <= q < hi0 {
                        Update::op(*update, path::<Update>(base, q))
                    } else {
                        path::<Update>(base, q)
                    } by {
                        lemma_compose_path::<Update>(before, l as int, *update, q);
                        lemma_below_leaf(l as int, a, n as int, q);
                    }
                    if !commutative {
                        assert forall|e: nat|
                            e >= 1 && 1 <= #[trigger] ancestor(m as int, e)
                                < self.data@.len() implies self.data@[ancestor(m as int, e)]
                            == Update::id() by {
                            lemma_next_left(l as int, m as int, k, e);
                            lemma_ancestor_strict(l as int, k + e);
                            assert(before[ancestor(l as int, k + e)] == Update::id());
                        }
                        assert forall|e: nat|
                            e >= 1 && 1 <= #[trigger] ancestor(r as int, e)
                                < self.data@.len() implies self.data@[ancestor(r as int, e)]
                            == Update::id() by {
                            lemma_ancestor_strict(r as int, e);
                            assert(before[ancestor(r as int, e)] == Update::id());
                        }
                    }
                    lemma_pow2_adds(k, a);
                    assert(m * pow2(k + a) == (l + 1) * pow2(a)) by (nonlinear_arith)
                        requires
                            l + 1 == m * pow2(k),
                            pow2(k + a) == pow2(k) * pow2(a),
                    ;
                    a = k + a;
                }
                l = m;
            } else {
                proof {
                    lemma_take_right(l as int, a, r as int, b);
                    assert((r - 1) * pow2(b) == hi - pow2(b)) by (nonlinear_arith)
                        requires
                            hi == r * pow2(b),
                    ;
                    assert((r - 1 + 1) * pow2(b) == hi);
                    if !commutative {
                        assert forall|e: nat|
                            e >= 1 && 1 <= #[trigger] ancestor(r - 1, e)
                                < before.len() implies before[ancestor(r - 1, e)]
                            == Update::id() by {
                            lemma_sibling_ancestors(r as int, e);
                            assert(before[ancestor(r as int, e)] == Update::id());
                        }
                    }
                }
                let composed = Update::combine(update, &self.data[r - 1]);
                self.data[r - 1] = composed;
                let (m, Ghost(k)) = strip(r - 1);
                proof {
                    assert forall|q: int| n <= q < 2 * n implies #[trigger] path::<Update>(
                        self.data@,
                        q,
                    ) == if lo0 <= q < lo || hi - pow2(b) <= q < hi0 {
                        Update::op(*update, path::<Update>(base, q))
                    } else {
                        path::<Update>(base, q)
                    } by {
                        lemma_compose_path::<Update>(before, r - 1, *update, q);
                        lemma_below_leaf(r - 1, b, n as int, q);
                    }
                    if !commutative {
                        assert forall|e: nat|
                            e >= 1 && 1 <= #[trigger] ancestor(m as int, e)
                                < self.data@.len() implies self.data@[ancestor(m as int, e)]
                            == Update::id() by {
                            lemma_next_right(r as int, m as int, k, e);
                            lemma_sibling_ancestors(r as int, k + e);
                            lemma_ancestor_strict(r - 1, k + e);
                            assert(before[ancestor(r as int, k + e)] == Update::id());
                        }
                        assert forall|e: nat|
                            e >= 1 && 1 <= #[trigger] ancestor(l as int, e)
                                < self.data@.len() implies self.data@[ancestor(l as int, e)]
                            == Update::id() by {
                            lemma_ancestor_strict(l as int, e);
                            assert(before[ancestor(l as int, e)] == Update::id());
                        }
                    }
                    lemma_pow2_adds(k, b);
                    assert(m * pow2(k + b) == (r - 1) * pow2(b)) by (nonlinear_arith)
                        requires
                            r - 1 == m * pow2(k),
                            pow2(k + b) == pow2(k) * pow2(b),
                    ;
                    b = k + b;
                }
                r = m;
            }
            if l == r {
                proof {
                    lemma_cursors_meet(l as int, a, r as int, b, n as int);
                }
                break ;
            }
            proof {
                if l * pow2(a) == r * pow2(b) {
                    lemma_odd_unique(l as int, a, r as int, b);
                }
            }
        }
        proof {
            assert forall|p: int| 0 <= p < old(self)@.len() implies #[trigger] self@[p] == if span_start(
                range.lower(),
                0,
            ) <= p < span_end(range.upper(), old(self)@.len() as usize) {
                Update::op(*update, old(self)@[p])
            } else {
                old(self)@[p]
            } by {
                let q = n + p;
                assert(path::<Update>(self.data@, q) == if lo0 <= q < l * pow2(a) || r * pow2(b) <= q
                    < hi0 {
                    Update::op(*update, path::<Update>(base, q))
                } else {
                    path::<Update>(base, q)
                });
            }
        }
    }

    /// Updates the `i`-th element: `a[i] <- update · a[i]`.
    ///
    /// # Time complexity
    ///
    /// *O*(1) for a commutative monoid, *O*(log *N*) otherwise.
    pub fn point_update(&mut self, i: usize, update: &Update::Set)
        requires
            old(self).wf(),
            i < old(self)@.len(),
        ensures
            final(self).wf(),
            final(self)@ == old(self)@.update(i as int, Update::op(*update, old(self)@[i as int])),
    {
        let n = self.data.len() / 2;
        let x = self.inner_index(i);
        if !Update::IS_COMMUTATIVE {
            self.propagate_above(x);
        }
        let ghost before = self.data@;
        let composed = Update::combine(update, &self.data[x]);
        self.data[x] = composed;
        proof {
            assert forall|p: int| 0 <= p < n implies self@[p] == old(self)@.update(
                i as int,
                Update::op(*update, old(self)@[i as int]),
            )[p] by {
                let q = n + p;
                lemma_compose_path::<Update>(before, x as int, *update, q);
                lemma_pow2_values();
                assert(x * pow2(0) == x) by (nonlinear_arith)
                    requires
                        pow2(0) == 1,
                ;
                assert((x + 1) * pow2(0) == x + 1) by (nonlinear_arith)
                    requires
                        pow2(0) == 1,
                ;
                lemma_below_leaf(x as int, 0, n as int, q);
            }
            assert(self@ =~= old(self)@.update(
                i as int,
                Update::op(*update, old(self)@[i as int]),
            ));
        }
    }

    /// Returns the `i`-th element.
    ///
    /// # Time complexity
    ///
    /// *O*(log *N*)
    pub fn point_query(&self, i: usize) -> (element: Update::Set)
        requires
            self.wf(),
            i < self@.len(),
        ensures
            element == self@[i as int],
    {
        let leaf = self.inner_index(i);
        let mut j = leaf;
        let mut res = Update::identity();
        proof {
            Update::lemma_identity(path::<Update>(self.data@, leaf as int));
        }
        while j > 0
            invariant
                j <= leaf < self.data.len(),
                Update::op(path::<Update>(self.data@, j as int), res) == path::<Update>(
                    self.data@,
                    leaf as int,
                ),
            decreases j,
        {
            proof {
                Update::lemma_associative(
                    path::<Update>(self.data@, j as int / 2),
                    self.data@[j as int],
                    res,
                );
            }
            res = Update::combine(&self.data[j], &res);
            j = j / 2;
        }
        proof {
            Update::lemma_identity(res);
        }
        res
    }

    /// Returns what `f` makes of the `i`-th element.
    ///
    /// # Time complexity
    ///
    /// *O*(log *N*)
    pub fn point_query_with<F: FnOnce(Update::Set) -> T, T>(&self, i: usize, f: F) -> (r: T)
        requires
            self.wf(),
            i < self@.len(),
            call_requires(f, (self@[i as int],)),
        ensures
            call_ensures(f, (self@[i as int],), r),
    {
        f(self.point_query(i))
    }

    /// Hands down the values of all inner nodes, from the root on, so that
    /// every element stands in its own node.
    fn propagate_all(&mut self)
        requires
            old(self).wf(),
        ensures
            final(self).wf(),
            final(self)@ == old(self)@,
            final(self).data@.subrange(final(self).data.len() as int / 2, final(self).data.len() as int)
                == final(self)@,
    {
        let n = self.data.len() / 2;
        let mut i: usize = 1;
        while i < n
            invariant
                1 <= i,
                self.wf(),
                self.data.len() == 2 * n,
                self.leaves_agree(old(self).data@),
                forall|j: int| 1 <= j < i && j < n ==> self.data@[j] == Update::id(),
            decreases n - i,
        {
            let ghost before = self.data@;
            self.propagate_at(i);
            proof {
                assert forall|q: int|
                    self.data.len() / 2 <= q < self.data.len() implies path::<Update>(self.data@, q)
                    == path::<Update>(old(self).data@, q) by {
                    lemma_pushed_down_path::<Update>(before, i as int, q);
                }
                assert forall|j: int| 1 <= j < i + 1 && j < n implies self.data@[j]
                    == Update::id() by {
                    if j == 2 * i || j == 2 * i + 1 {
                        assert(before[j / 2] == Update::id());
                        Update::lemma_identity(before[j]);
                    }
                }
            }
            i += 1;
        }
        proof {
            assert forall|p: int| 0 <= p < n implies self.data@[n + p] == self@[p] by {
                let q = n + p;
                lemma_ancestor_one(q);
                assert forall|d: nat|
                    d >= 1 && 1 <= #[trigger] ancestor(q, d) < self.data@.len() implies self.data@[ancestor(
                    q,
                    d,
                )] == Update::id() by {
                    lemma_ancestor_adds(q, 1, (d - 1) as nat);
                    lemma_ancestor_smaller(q / 2, n as int);
                }
                lemma_clean_path::<Update>(self.data@, q, 1);
                Update::lemma_identity(self.data@[q]);
            }
            assert(self.data@.subrange(n as int, 2 * n) =~= self@);
            assert(self@ =~= old(self)@);
        }
    }

    /// Returns an iterator over the elements, in order. The pending updates
    /// are handed down first.
    ///
    /// # Time complexity
    ///
    /// *O*(*N*)
    pub fn iter(&mut self) -> (elements: std::slice::Iter<'_, Update::Set>)
        requires
            old(self).wf(),
        ensures
            vstd::std_specs::slice::into_iter_elts(elements) == old(self)@,
            final(self).wf(),
            final(self)@ == old(self)@,
    {
        self.propagate_all();
        let n = self.data.len() / 2;
        let leaves = vstd::slice::slice_subrange(self.data.as_slice(), n, 2 * n);
        leaves.iter()
    }

    /// Hands the value of node `i` down to its two children.
    fn propagate_at(&mut self, i: usize)
        requires
            1 <= i,
            2 * i + 1 < old(self).data.len(),
        ensures
            final(self).data@ == pushed_down::<Update>(old(self).data@, i as int),
    {
        let mut update = Update::identity();
        core::mem::swap(&mut self.data[i], &mut update);
        let left = Update::combine(&update, &self.data[2 * i]);
        self.data[2 * i] = left;
        let right = Update::combine(&update, &self.data[2 * i + 1]);
        self.data[2 * i + 1] = right;
        assert(self.data@ =~= pushed_down::<Update>(old(self).data@, i as int));
    }
}

} // verus!
