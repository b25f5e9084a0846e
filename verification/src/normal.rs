//! Point update, range query.

use vstd::prelude::*;
use vstd::arithmetic::power2::{pow2, lemma_pow2_pos, lemma_pow2_unfold, lemma_pow2_adds};
use crate::traits::Monoid;
use crate::utility::{RangeArg, convert_range, span_start, span_end, within};
use crate::algebra::{fold, lemma_fold_one, lemma_fold_split};
use crate::bits::{
    strip_width, strip, lemma_take_left, lemma_take_right, lemma_cursors_meet, lemma_odd_unique,
    lemma_pow2_values,
};

verus! {

/// A data structure that supports **range query, point update** operations.
///
/// It represents the sequence `self@` of its elements. The elements live in
/// the second half of an array of twice their number; the node `i` of the
/// first half holds the combination of the nodes `2i` and `2i + 1`.
pub struct SegmentTree<Query: Monoid> {
    /// - `data[0]`     : unused
    /// - `data[1..n]`  : the combined value of the two children
    /// - `data[n..2n]` : the elements
    data: Vec<Query::Set>,
    /// the number of elements, and the offset of the first of them in `data`
    len_or_offset: usize,
}

/// Node `i` holds the combination of its two children.
pub(crate) open spec fn node_combined<Query: Monoid>(data: Seq<Query::Set>, i: int) -> bool {
    data[i] == Query::op(data[2 * i], data[2 * i + 1])
}

/// Every node of the first half but `except` holds the combination of its
/// children.
pub(crate) open spec fn combined_but<Query: Monoid>(data: Seq<Query::Set>, except: int) -> bool {
    forall|i: int| 1 <= i < data.len() / 2 && i != except ==> #[trigger] node_combined::<Query>(data, i)
}

/// A node whose span `i * 2^h .. (i + 1) * 2^h` lies among the elements holds
/// the fold of that span.
pub(crate) proof fn lemma_node_is_fold<Query: Monoid>(data: Seq<Query::Set>, i: int, h: nat)
    requires
        data.len() % 2 == 0,
        combined_but::<Query>(data, 0),
        data.len() / 2 <= i * pow2(h),
        (i + 1) * pow2(h) <= data.len(),
    ensures
        0 < i < data.len(),
        data[i] == fold::<Query>(data.subrange(i * pow2(h), (i + 1) * pow2(h))),
    decreases h,
{
    let n = data.len() as int / 2;
    lemma_pow2_pos(h);
    if h == 0 {
        lemma_pow2_values();
        assert(i * 1 == i);
        assert((i + 1) * 1 == i + 1);
        if n == 0 {
            assert(false);
        }
        lemma_fold_one::<Query>(data.subrange(i, i + 1));
    } else {
        lemma_pow2_unfold(h);
        let p = pow2((h - 1) as nat) as int;
        assert(i * (2 * p) == (2 * i) * p) by (nonlinear_arith);
        assert((i + 1) * (2 * p) == (2 * i + 2) * p) by (nonlinear_arith);
        assert((2 * i + 1) * p == (2 * i) * p + p) by (nonlinear_arith);
        assert((2 * i + 2) * p == (2 * i) * p + 2 * p) by (nonlinear_arith);
        lemma_node_is_fold::<Query>(data, 2 * i, (h - 1) as nat);
        lemma_node_is_fold::<Query>(data, 2 * i + 1, (h - 1) as nat);
        assert(1 <= i < n);
        assert(node_combined::<Query>(data, i));
        lemma_fold_split::<Query>(data, (2 * i) * p, (2 * i + 1) * p, (2 * i + 2) * p);
    }
}

/// The combination of the elements `s[l..r]` in order; the identity element
/// where the span is empty.
pub open spec fn range_fold<Query: Monoid>(s: Seq<Query::Set>, l: int, r: int) -> Query::Set {
    if l < r {
        fold::<Query>(s.subrange(l, r))
    } else {
        Query::id()
    }
}

/// `pred` may return `b` when called with `element`.
pub open spec fn may_return<Query: Monoid, P: Fn(&Query::Set) -> bool>(
    pred: P,
    element: Query::Set,
    b: bool,
) -> bool {
    call_ensures(pred, (&element,), b)
}

impl<Query: Monoid> View for SegmentTree<Query> {
    type V = Seq<Query::Set>;

    /// The elements, in order.
    closed spec fn view(&self) -> Seq<Query::Set> {
        self.data@.subrange(self.len_or_offset as int, self.data.len() as int)
    }
}

impl<Query: Monoid> SegmentTree<Query> {
    /// The array has twice the length of the sequence, and every inner node
    /// holds the combination of its children.
    pub closed spec fn wf(&self) -> bool {
        &&& self.data.len() == 2 * self.len_or_offset
        &&& combined_but::<Query>(self.data@, 0)
    }

    /// Creates a new instance initialized with `n` identity elements.
    ///
    /// # Time complexity
    ///
    /// *O*(*N*)
    pub fn new(n: usize) -> (tree: Self)
        requires
            2 * n <= usize::MAX,
        ensures
            tree.wf(),
            tree@.len() == n,
            forall|i: int| 0 <= i < n ==> tree@[i] == Query::id(),
    {
        let mut data: Vec<Query::Set> = Vec::new();
        let mut k: usize = 0;
        while k < 2 * n
            invariant
                2 * n <= usize::MAX,
                k <= 2 * n,
                data.len() == k,
                forall|i: int| 0 <= i < k ==> data[i] == Query::id(),
            decreases 2 * n - k,
        {
            data.push(Query::identity());
            k += 1;
        }
        proof {
            Query::lemma_identity(Query::id());
            assert forall|i: int| 1 <= i < data.len() / 2 implies #[trigger] node_combined::<Query>(
                data@,
                i,
            ) by {}
        }
        SegmentTree { data, len_or_offset: n }
    }

    /// Creates an instance that holds `values`.
    ///
    /// # Time complexity
    ///
    /// *O*(*N*)
    pub fn from(values: Vec<Query::Set>) -> (tree: Self)
        requires
            2 * values.len() <= usize::MAX,
        ensures
            tree.wf(),
            tree@ == values@,
    {
        let n = values.len();
        let ghost elements = values@;
        let mut data: Vec<Query::Set> = Vec::new();
        let mut k: usize = 0;
        while k < n
            invariant
                k <= n,
                data.len() == k,
            decreases n - k,
        {
            data.push(Query::identity());
            k += 1;
        }
        let mut values = values;
        data.append(&mut values);
        let mut tree = SegmentTree { data, len_or_offset: n };
        assert(tree.data@.subrange(n as int, 2 * n) =~= elements);
        tree.build();
        tree
    }

    /// Calculates all inner nodes in bottom-to-top order.
    ///
    /// # Time complexity
    ///
    /// *Θ*(*N*)
    fn build(&mut self)
        requires
            old(self).data.len() == 2 * old(self).len_or_offset,
        ensures
            final(self).wf(),
            final(self)@ == old(self)@,
    {
        let n = self.len_or_offset;
        let mut i: usize = n;
        while i > 1
            invariant
                self.len_or_offset == n,
                self.data.len() == 2 * n,
                i <= n,
                n >= 1 ==> i >= 1,
                self.data@.subrange(n as int, 2 * n) == old(self).data@.subrange(n as int, 2 * n),
                forall|j: int| i <= j < n ==> #[trigger] node_combined::<Query>(self.data@, j),
            decreases i,
        {
            i -= 1;
            let ghost before = self.data@;
            let combined = Query::combine(&self.data[2 * i], &self.data[2 * i + 1]);
            self.data[i] = combined;
            proof {
                assert(self.data@.subrange(n as int, 2 * n) =~= before.subrange(n as int, 2 * n));
                assert forall|j: int| i <= j < n implies #[trigger] node_combined::<Query>(
                    self.data@,
                    j,
                ) by {
                    if j > i {
                        assert(node_combined::<Query>(before, j));
                    }
                }
            }
        }
    }

    /// Returns the number of elements.
    ///
    /// # Time complexity
    ///
    /// *O*(1)
    pub fn len(&self) -> (n: usize)
        requires
            self.wf(),
        ensures
            n == self@.len(),
    {
        self.len_or_offset
    }

    fn inner_index(&self, i: usize) -> (r: usize)
        requires
            self.wf(),
            i <= self@.len(),
        ensures
            r == self@.len() + i,
    {
        self.len_or_offset + i
    }

    /// Returns the `i`-th element.
    ///
    /// # Time complexity
    ///
    /// *O*(1)
    pub fn point_query(&self, i: usize) -> (element: &Query::Set)
        requires
            self.wf(),
            i < self@.len(),
        ensures
            *element == self@[i as int],
    {
        let i = self.inner_index(i);
        &self.data[i]
    }

    /// Answers the query for the given range: the combination of its
    /// elements in order, the identity element where it is empty.
    ///
    /// # Time complexity
    ///
    /// *O*(log *N*)
    pub fn range_query<R: RangeArg<usize>>(&self, range: R) -> (combined: Query::Set)
        requires
            self.wf(),
            within(range, self@.len() as usize),
        ensures
            combined == range_fold::<Query>(
                self@,
                span_start(range.lower(), 0),
                span_end(range.upper(), self@.len() as usize),
            ),
    {
        let n = self.len_or_offset;
        let span = convert_range(range, 0..n);
        if span.start >= span.end {
            return Query::identity();
        }
        let ghost lo0 = (n + span.start) as int;
        let ghost hi0 = (n + span.end) as int;
        let (mut l, Ghost(a0)) = strip(n + span.start);
        let (mut r, Ghost(b0)) = strip(n + span.end);
        let ghost mut a = a0;
        let ghost mut b = b0;
        let mut acc_l = Query::identity();
        let mut acc_r = Query::identity();
        proof {
            Query::lemma_identity(fold::<Query>(self.data@.subrange(lo0, hi0)));
            assert(self@.subrange(span.start as int, span.end as int) =~= self.data@.subrange(
                lo0,
                hi0,
            ));
        }
        loop
            invariant_except_break
                l * pow2(a) < r * pow2(b),
                Query::op(
                    Query::op(acc_l, fold::<Query>(self.data@.subrange(l * pow2(a), r * pow2(b)))),
                    acc_r,
                ) == fold::<Query>(self.data@.subrange(lo0, hi0)),
            invariant
                self.wf(),
                n == self.len_or_offset,
                l % 2 == 1,
                r % 2 == 1,
                1 <= n <= lo0 <= l * pow2(a) <= r * pow2(b) <= hi0 <= 2 * n,
            ensures
                Query::op(acc_l, acc_r) == fold::<Query>(self.data@.subrange(lo0, hi0)),
            decreases r * pow2(b) - l * pow2(a),
        {
            let ghost lo = l * pow2(a);
            let ghost hi = r * pow2(b);
            proof {
                lemma_pow2_pos(a);
                lemma_pow2_pos(b);
            }
            if l >= r {
                proof {
                    lemma_take_left(l as int, a, r as int, b);
                    assert((l + 1) * pow2(a) == lo + pow2(a)) by (nonlinear_arith)
                        requires
                            lo == l * pow2(a),
                    ;
                    lemma_node_is_fold::<Query>(self.data@, l as int, a);
                    lemma_fold_split::<Query>(self.data@, lo, lo + pow2(a), hi);
                    Query::lemma_associative(
                        acc_l,
                        self.data@[l as int],
                        fold::<Query>(self.data@.subrange(lo + pow2(a), hi)),
                    );
                }
                acc_l = Query::combine(&acc_l, &self.data[l]);
                let (m, Ghost(k)) = strip(l + 1);
                proof {
                    lemma_pow2_adds(k, a);
                    assert(m * pow2(k + a) == (l + 1) * pow2(a)) by (nonlinear_arith)
                        requires
                            l + 1 == m * pow2(k),
                            pow2(k + a) == pow2(k) * pow2(a),
                    ;
                    a = k + a;
                }
                l = m;
            } else {
                proof {
                    lemma_take_right(l as int, a, r as int, b);
                    assert((r - 1) * pow2(b) == hi - pow2(b)) by (nonlinear_arith)
                        requires
                            hi == r * pow2(b),
                    ;
                    assert((r - 1 + 1) * pow2(b) == hi);
                    lemma_node_is_fold::<Query>(self.data@, r - 1, b);
                    lemma_fold_split::<Query>(self.data@, lo, hi - pow2(b), hi);
                    Query::lemma_associative(
                        fold::<Query>(self.data@.subrange(lo, hi - pow2(b))),
                        self.data@[r - 1],
                        acc_r,
                    );
                    Query::lemma_associative(
                        acc_l,
                        fold::<Query>(self.data@.subrange(lo, hi - pow2(b))),
                        self.data@[r - 1],
                    );
                    Query::lemma_associative(
                        Query::op(acc_l, fold::<Query>(self.data@.subrange(lo, hi - pow2(b)))),
                        self.data@[r - 1],
                        acc_r,
                    );
                }
                acc_r = Query::combine(&self.data[r - 1], &acc_r);
                let (m, Ghost(k)) = strip(r - 1);
                proof {
                    lemma_pow2_adds(k, b);
                    assert(m * pow2(k + b) == (r - 1) * pow2(b)) by (nonlinear_arith)
                        requires
                            r - 1 == m * pow2(k),
                            pow2(k + b) == pow2(k) * pow2(b),
                    ;
                    b = k + b;
                }
                r = m;
            }
            if l == r {
                proof {
                    lemma_cursors_meet(l as int, a, r as int, b, n as int);
                    assert(self.data@.subrange(l * pow2(a), r * pow2(b)) =~= Seq::empty());
                    Query::lemma_identity(acc_l);
                }
                break ;
            }
            proof {
                if l * pow2(a) == r * pow2(b) {
                    lemma_odd_unique(l as int, a, r as int, b);
                }
            }
        }
        Query::combine(&acc_l, &acc_r)
    }

    /// The fold of a span of the elements is the fold of the same span of
    /// the array.
    proof fn lemma_view_fold(&self, j: int, k: int)
        requires
            self.wf(),
            0 <= j <= k <= self.len_or_offset,
        ensures
            range_fold::<Query>(self@, j, k) == fold::<Query>(
                self.data@.subrange(self.len_or_offset + j, self.len_or_offset + k),
            ),
    {
        let n = self.len_or_offset as int;
        assert(self@.subrange(j, k) =~= self.data@.subrange(n + j, n + k));
    }

    /// Returns the index `end` at which `pred` turns from `true` to `false`
    /// on the queries `start..i`:
    ///
    /// ```text
    /// pred(self.range_query(start..i)) == true   for i in start..=end
    /// pred(self.range_query(start..i)) == false  for i in end + 1..=N
    /// ```
    ///
    /// `pred` must hold of the identity element, and once it has failed for
    /// some `i` it must fail for every larger `i`.
    ///
    /// # Time complexity
    ///
    /// *O*(log *N*)
    pub fn partition_end<P: Fn(&Query::Set) -> bool>(&self, start: usize, pred: P) -> (end: usize)
        requires
            self.wf(),
            start <= self@.len(),
            forall|element: Query::Set| call_requires(pred, (&element,)),
            !may_return::<Query, P>(pred, Query::id(), false),
            forall|j: int, k: int|
                start <= j <= k <= self@.len() && #[trigger] may_return::<Query, P>(
                    pred,
                    range_fold::<Query>(self@, start as int, k),
                    true,
                ) ==> !#[trigger] may_return::<Query, P>(
                    pred,
                    range_fold::<Query>(self@, start as int, j),
                    false,
                ),
        ensures
            start <= end <= self@.len(),
            forall|j: int|
                start <= j <= end ==> !#[trigger] may_return::<Query, P>(
                    pred,
                    range_fold::<Query>(self@, start as int, j),
                    false,
                ),
            forall|k: int|
                end < k <= self@.len() ==> !#[trigger] may_return::<Query, P>(
                    pred,
                    range_fold::<Query>(self@, start as int, k),
                    true,
                ),
    {
        let n = self.len_or_offset;
        if start == n {
            return n;
        }
        let ghost s0 = start as int;
        let ghost base = n + s0;
        let mut start = start;
        let mut combined = Query::identity();
        // the first rejected prefix, if any
        let ghost mut ub: int = n + 1;
        let (mut i, mut segment_size, Ghost(a1)) = strip_width(n + start);
        let ghost mut a = a1;
        proof {
            assert(self.data@.subrange(base, base) =~= Seq::empty());
        }
        // Extends the prefix by the largest aligned segment while `pred` holds.
        while segment_size <= n - start
            invariant_except_break
                ub == n + 1,
            invariant
                self.wf(),
                n == self.len_or_offset,
                forall|element: Query::Set| call_requires(pred, (&element,)),
                0 <= s0 <= start <= n,
                base == n + s0,
                i % 2 == 1,
                i * pow2(a) == n + start,
                segment_size == pow2(a),
                combined == fold::<Query>(self.data@.subrange(base, n + start)),
                start == s0 || may_return::<Query, P>(pred, combined, true),
            ensures
                0 <= s0 <= start <= n,
                i % 2 == 1,
                i * pow2(a) == n + start,
                combined == fold::<Query>(self.data@.subrange(base, n + start)),
                start == s0 || may_return::<Query, P>(pred, combined, true),
                start < ub <= n + 1,
                ub <= n ==> ub == start + pow2(a) && may_return::<Query, P>(
                    pred,
                    range_fold::<Query>(self@, s0, ub),
                    false,
                ),
                ub == n + 1 ==> pow2(a) > n - start,
            decreases n - start,
        {
            proof {
                lemma_pow2_pos(a);
                assert((i + 1) * pow2(a) == n + start + segment_size) by (nonlinear_arith)
                    requires
                        i * pow2(a) == n + start,
                        segment_size == pow2(a),
                ;
                lemma_node_is_fold::<Query>(self.data@, i as int, a);
                lemma_fold_split::<Query>(self.data@, base, n + start, n + start + segment_size);
                self.lemma_view_fold(s0, start + segment_size);
            }
            let tmp = Query::combine(&combined, &self.data[i]);
            if !pred(&tmp) {
                proof {
                    ub = start + segment_size;
                }
                break ;
            }
            combined = tmp;
            start += segment_size;
            let (m, w, Ghost(k)) = strip_width(i + 1);
            proof {
                lemma_pow2_adds(k, a);
                lemma_pow2_pos(k + a);
                assert(m * pow2(k + a) == (i + 1) * pow2(a)) by (nonlinear_arith)
                    requires
                        i + 1 == m * pow2(k),
                        pow2(k + a) == pow2(k) * pow2(a),
                ;
                assert(pow2(k + a) <= m * pow2(k + a)) by (nonlinear_arith)
                    requires
                        m >= 1,
                ;
                a = k + a;
            }
            i = m;
            segment_size = w * segment_size;
        }

        if start == n {
            proof {
                self.lemma_view_fold(s0, n as int);
                assert(may_return::<Query, P>(pred, range_fold::<Query>(self@, s0, n as int), true));
            }
            return n;
        }
        // Restarts from the largest aligned segment at `start` that fits.

        let ghost i1 = i as int;
        let ghost a1 = a;
        i = n + start;
        segment_size = 1;
        let ghost mut h: nat = 0;
        proof {
            lemma_pow2_values();
        }
        while i % 2 == 0 && segment_size <= (n - start) / 2
            invariant
                start < n,
                i * pow2(h) == n + start,
                segment_size == pow2(h),
                1 <= segment_size <= n - start,
            ensures
                i * pow2(h) == n + start,
                segment_size == pow2(h),
                1 <= segment_size <= n - start,
                i % 2 == 1 || 2 * segment_size > n - start,
            decreases i,
        {
            proof {
                lemma_pow2_unfold(h + 1);
                assert((i / 2) * (2 * pow2(h)) == i * pow2(h)) by (nonlinear_arith)
                    requires
                        i % 2 == 0,
                ;
                h = h + 1;
            }
            i = i / 2;
            segment_size = 2 * segment_size;
        }
        proof {
            if i % 2 == 1 {
                lemma_odd_unique(i as int, h, i1, a1);
            }
            self.lemma_view_fold(s0, start as int);
            lemma_pow2_pos(h);
            assert(i <= i * pow2(h)) by (nonlinear_arith)
                requires
                    pow2(h) >= 1,
                    i >= 0,
            ;
        }
        // Descends into the first segment where `pred` fails.
        loop
            invariant_except_break
                i < 2 * n,
            invariant
                self.wf(),
                n == self.len_or_offset,
                forall|element: Query::Set| call_requires(pred, (&element,)),
                forall|j: int, k: int|
                    s0 <= j <= k <= self@.len() && #[trigger] may_return::<Query, P>(
                        pred,
                        range_fold::<Query>(self@, s0, k),
                        true,
                    ) ==> !#[trigger] may_return::<Query, P>(
                        pred,
                        range_fold::<Query>(self@, s0, j),
                        false,
                    ),
                self@.len() == n,
                base == n + s0,
                0 <= s0 <= start <= n,
                i * pow2(h) == n + start,
                segment_size == pow2(h),
                combined == fold::<Query>(self.data@.subrange(base, n + start)),
                combined == range_fold::<Query>(self@, s0, start as int),
                start == s0 || may_return::<Query, P>(pred, combined, true),
                start < ub <= n + 1,
                ub <= n ==> may_return::<Query, P>(pred, range_fold::<Query>(self@, s0, ub), false),
                ub <= start + 2 * segment_size,
            ensures
                ub == start + 1,
            decreases h,
        {
            proof {
                lemma_pow2_pos(h);
            }
            if segment_size <= n - start {
                proof {
                    assert((i + 1) * pow2(h) == n + start + segment_size) by (nonlinear_arith)
                        requires
                            i * pow2(h) == n + start,
                            segment_size == pow2(h),
                    ;
                    lemma_node_is_fold::<Query>(self.data@, i as int, h);
                    lemma_fold_split::<Query>(
                        self.data@,
                        base,
                        n + start,
                        n + start + segment_size,
                    );
                    self.lemma_view_fold(s0, start + segment_size);
                }
                let tmp = Query::combine(&combined, &self.data[i]);
                if pred(&tmp) {
                    proof {
                        let reached = start + segment_size;
                        assert(may_return::<Query, P>(
                            pred,
                            range_fold::<Query>(self@, s0, reached),
                            true,
                        ));
                        if ub <= reached {
                            assert(!may_return::<Query, P>(
                                pred,
                                range_fold::<Query>(self@, s0, ub),
                                false,
                            ));
                        }
                    }
                    combined = tmp;
                    i += 1;
                    start += segment_size;
                } else {
                    proof {
                        ub = start + segment_size;
                    }
                }
            }
            if i >= n {
                proof {
                    if h >= 1 {
                        lemma_pow2_unfold(h);
                        assert(i * pow2(h) >= 2 * i) by (nonlinear_arith)
                            requires
                                pow2(h) >= 2,
                                i >= 0,
                        ;
                    } else {
                        lemma_pow2_values();
                    }
                }
                break ;
            }
            proof {
                assert(i * pow2(h) == n + start);
                if h == 0 {
                    lemma_pow2_values();
                    assert(i * pow2(0) == i * 1);
                    assert(false);
                }
                lemma_pow2_unfold(h);
                assert((2 * i) * pow2((h - 1) as nat) == i * pow2(h)) by (nonlinear_arith)
                    requires
                        pow2(h) == 2 * pow2((h - 1) as nat),
                ;
                h = (h - 1) as nat;
            }
            i = 2 * i;
            segment_size = segment_size / 2;
        }
        proof {
            assert forall|j: int| s0 <= j <= start implies !#[trigger] may_return::<Query, P>(
                pred,
                range_fold::<Query>(self@, s0, j),
                false,
            ) by {
                if start != s0 {
                    assert(may_return::<Query, P>(
                        pred,
                        range_fold::<Query>(self@, s0, start as int),
                        true,
                    ));
                }
            }
            assert forall|k: int| start < k <= self@.len() implies !#[trigger] may_return::<Query, P>(
                pred,
                range_fold::<Query>(self@, s0, k),
                true,
            ) by {
                assert(may_return::<Query, P>(pred, range_fold::<Query>(self@, s0, ub), false));
            }
        }
        start
    }

    /// Returns the index `start` at which `pred` turns from `false` to `true`
    /// on the queries `i..end`:
    ///
    /// ```text
    /// pred(self.range_query(i..end)) == true   for i in start..=end
    /// pred(self.range_query(i..end)) == false  for i in 0..start
    /// ```
    ///
    /// `pred` must hold of the identity element, and once it has failed for
    /// some `i` it must fail for every smaller `i`.
    ///
    /// # Time complexity
    ///
    /// *O*(log *N*)
    pub fn partition_start<P: Fn(&Query::Set) -> bool>(&self, end: usize, pred: P) -> (start: usize)
        requires
            self.wf(),
            end <= self@.len(),
            forall|element: Query::Set| call_requires(pred, (&element,)),
            !may_return::<Query, P>(pred, Query::id(), false),
            forall|j: int, k: int|
                0 <= j <= k <= end && #[trigger] may_return::<Query, P>(
                    pred,
                    range_fold::<Query>(self@, j, end as int),
                    true,
                ) ==> !#[trigger] may_return::<Query, P>(
                    pred,
                    range_fold::<Query>(self@, k, end as int),
                    false,
                ),
        ensures
            start <= end,
            forall|j: int|
                start <= j <= end ==> !#[trigger] may_return::<Query, P>(
                    pred,
                    range_fold::<Query>(self@, j, end as int),
                    false,
                ),
            forall|k: int|
                0 <= k < start ==> !#[trigger] may_return::<Query, P>(
                    pred,
                    range_fold::<Query>(self@, k, end as int),
                    true,
                ),
    {
        let n = self.len_or_offset;
        if end == 0 {
            return 0;
        }
        let ghost e0 = end as int;
        let ghost top = n + e0;
        let mut end = end;
        let mut combined = Query::identity();
        // the last rejected suffix, if any
        let ghost mut lb: int = -1;
        let (mut i, mut segment_size, Ghost(a1)) = strip_width(n + end);
        let ghost mut a = a1;
        proof {
            assert(self.data@.subrange(top, top) =~= Seq::empty());
        }
        // Extends the suffix by the largest aligned segment while `pred` holds.
        while segment_size <= end
            invariant_except_break
                lb == -1,
            invariant
                self.wf(),
                n == self.len_or_offset,
                forall|element: Query::Set| call_requires(pred, (&element,)),
                0 <= end <= e0 <= n,
                top == n + e0,
                i % 2 == 1,
                i * pow2(a) == n + end,
                segment_size == pow2(a),
                combined == fold::<Query>(self.data@.subrange(n + end, top)),
                end == e0 || may_return::<Query, P>(pred, combined, true),
            ensures
                0 <= end <= e0 <= n,
                i % 2 == 1,
                i * pow2(a) == n + end,
                combined == fold::<Query>(self.data@.subrange(n + end, top)),
                end == e0 || may_return::<Query, P>(pred, combined, true),
                -1 <= lb < end,
                lb >= 0 ==> lb == end - pow2(a) && may_return::<Query, P>(
                    pred,
                    range_fold::<Query>(self@, lb, e0),
                    false,
                ),
                lb == -1 ==> pow2(a) > end,
            decreases end,
        {
            proof {
                lemma_pow2_pos(a);
                assert((i - 1) * pow2(a) == n + end - segment_size) by (nonlinear_arith)
                    requires
                        i * pow2(a) == n + end,
                        segment_size == pow2(a),
                ;
                assert((i - 1 + 1) * pow2(a) == n + end);
                lemma_node_is_fold::<Query>(self.data@, i - 1, a);
                lemma_fold_split::<Query>(self.data@, n + end - segment_size, n + end, top);
                self.lemma_view_fold(end - segment_size, e0);
            }
            let tmp = Query::combine(&self.data[i - 1], &combined);
            if !pred(&tmp) {
                proof {
                    lb = end - segment_size;
                }
                break ;
            }
            combined = tmp;
            end -= segment_size;
            let (m, w, Ghost(k)) = strip_width(i - 1);
            proof {
                lemma_pow2_adds(k, a);
                lemma_pow2_pos(k + a);
                assert(m * pow2(k + a) == (i - 1) * pow2(a)) by (nonlinear_arith)
                    requires
                        i - 1 == m * pow2(k),
                        pow2(k + a) == pow2(k) * pow2(a),
                ;
                assert(pow2(k + a) <= m * pow2(k + a)) by (nonlinear_arith)
                    requires
                        m >= 1,
                ;
                a = k + a;
            }
            i = m;
            segment_size = w * segment_size;
        }

        if end == 0 {
            proof {
                self.lemma_view_fold(0, e0);
                assert(may_return::<Query, P>(pred, range_fold::<Query>(self@, 0, e0), true));
            }
            return 0;
        }
        // Restarts from the largest aligned segment before `end` that fits.

        let ghost i1 = i as int;
        let ghost a1 = a;
        i = n + end;
        segment_size = 1;
        let ghost mut h: nat = 0;
        proof {
            lemma_pow2_values();
        }
        while i % 2 == 0 && segment_size <= end / 2
            invariant
                0 < end <= n,
                i * pow2(h) == n + end,
                segment_size == pow2(h),
                1 <= segment_size <= end,
            ensures
                i * pow2(h) == n + end,
                segment_size == pow2(h),
                1 <= segment_size <= end,
                i % 2 == 1 || 2 * segment_size > end,
            decreases i,
        {
            proof {
                lemma_pow2_unfold(h + 1);
                assert((i / 2) * (2 * pow2(h)) == i * pow2(h)) by (nonlinear_arith)
                    requires
                        i % 2 == 0,
                ;
                h = h + 1;
            }
            i = i / 2;
            segment_size = 2 * segment_size;
        }
        proof {
            if i % 2 == 1 {
                lemma_odd_unique(i as int, h, i1, a1);
            }
            self.lemma_view_fold(end as int, e0);
        }
        // Descends into the last segment where `pred` fails.
        loop
            invariant_except_break
                end - 2 * segment_size <= lb,
            invariant
                self.wf(),
                n == self.len_or_offset,
                forall|element: Query::Set| call_requires(pred, (&element,)),
                forall|j: int, k: int|
                    0 <= j <= k <= e0 && #[trigger] may_return::<Query, P>(
                        pred,
                        range_fold::<Query>(self@, j, e0),
                        true,
                    ) ==> !#[trigger] may_return::<Query, P>(
                        pred,
                        range_fold::<Query>(self@, k, e0),
                        false,
                    ),
                self@.len() == n,
                top == n + e0,
                0 <= end <= e0 <= n,
                i * pow2(h) == n + end,
                segment_size == pow2(h),
                combined == fold::<Query>(self.data@.subrange(n + end, top)),
                combined == range_fold::<Query>(self@, end as int, e0),
                end == e0 || may_return::<Query, P>(pred, combined, true),
                -1 <= lb < end,
                lb >= 0 ==> may_return::<Query, P>(pred, range_fold::<Query>(self@, lb, e0), false),
            ensures
                lb == end - 1,
            decreases h,
        {
            proof {
                lemma_pow2_pos(h);
            }
            if segment_size <= end {
                proof {
                    assert((i - 1) * pow2(h) == n + end - segment_size) by (nonlinear_arith)
                        requires
                            i * pow2(h) == n + end,
                            segment_size == pow2(h),
                    ;
                    assert((i - 1 + 1) * pow2(h) == n + end);
                    lemma_node_is_fold::<Query>(self.data@, i - 1, h);
                    lemma_fold_split::<Query>(self.data@, n + end - segment_size, n + end, top);
                    self.lemma_view_fold(end - segment_size, e0);
                }
                let tmp = Query::combine(&self.data[i - 1], &combined);
                if pred(&tmp) {
                    proof {
                        let reached = end - segment_size;
                        assert(may_return::<Query, P>(
                            pred,
                            range_fold::<Query>(self@, reached, e0),
                            true,
                        ));
                        if lb >= reached {
                            assert(!may_return::<Query, P>(
                                pred,
                                range_fold::<Query>(self@, lb, e0),
                                false,
                            ));
                        }
                    }
                    combined = tmp;
                    i -= 1;
                    end -= segment_size;
                } else {
                    proof {
                        lb = end - segment_size;
                    }
                }
            }
            if segment_size == 1 {
                break ;
            }
            proof {
                if h == 0 {
                    lemma_pow2_values();
                    assert(false);
                }
                lemma_pow2_unfold(h);
                assert((2 * i) * pow2((h - 1) as nat) == i * pow2(h)) by (nonlinear_arith)
                    requires
                        pow2(h) == 2 * pow2((h - 1) as nat),
                ;
                assert(2 * i <= i * pow2(h)) by (nonlinear_arith)
                    requires
                        pow2(h) >= 2,
                        i >= 0,
                ;
                h = (h - 1) as nat;
            }
            i = 2 * i;
            segment_size = segment_size / 2;
        }
        proof {
            assert forall|j: int| end <= j <= e0 implies !#[trigger] may_return::<Query, P>(
                pred,
                range_fold::<Query>(self@, j, e0),
                false,
            ) by {
                if end != e0 {
                    assert(may_return::<Query, P>(
                        pred,
                        range_fold::<Query>(self@, end as int, e0),
                        true,
                    ));
                }
            }
            assert forall|k: int| 0 <= k < end implies !#[trigger] may_return::<Query, P>(
                pred,
                range_fold::<Query>(self@, k, e0),
                true,
            ) by {
                assert(may_return::<Query, P>(pred, range_fold::<Query>(self@, lb, e0), false));
            }
        }
        end
    }

    /// Replaces the `i`-th element by what `f` makes of it.
    ///
    /// # Time complexity
    ///
    /// *O*(log *N*)
    pub fn point_update_with<F: FnOnce(&Query::Set) -> Query::Set>(&mut self, i: usize, f: F)
        requires
            old(self).wf(),
            i < old(self)@.len(),
            call_requires(f, (&old(self)@[i as int],)),
        ensures
            final(self).wf(),
            final(self)@.len() == old(self)@.len(),
            call_ensures(f, (&old(self)@[i as int],), final(self)@[i as int]),
            final(self)@ == old(self)@.update(i as int, final(self)@[i as int]),
    {
        let element = f(self.point_query(i));
        self.point_update(i, element);
    }

    /// Returns an iterator over the elements, in order.
    ///
    /// # Time complexity
    ///
    /// *O*(*N*)
    pub fn iter(&self) -> (elements: std::slice::Iter<'_, Query::Set>)
        requires
            self.wf(),
        ensures
            vstd::std_specs::slice::into_iter_elts(elements) == self@,
    {
        let n = self.len_or_offset;
        let leaves = vstd::slice::slice_subrange(self.data.as_slice(), n, 2 * n);
        leaves.iter()
    }

    /// Recombines every strict ancestor of node `i`, bottom-up.
    fn recombine_above(&mut self, i: usize)
        requires
            old(self).data.len() == 2 * old(self).len_or_offset,
            old(self).len_or_offset <= i < old(self).data.len(),
            combined_but::<Query>(old(self).data@, i as int / 2),
        ensures
            final(self).wf(),
            final(self)@ == old(self)@,
    {
        let n = self.len_or_offset;
        let mut i = i;
        while i > 1
            invariant
                self.len_or_offset == n,
                self.data.len() == 2 * n,
                1 <= i < 2 * n,
                self.data@.subrange(n as int, 2 * n) == old(self).data@.subrange(n as int, 2 * n),
                combined_but::<Query>(self.data@, i as int / 2),
            decreases i,
        {
            i = i / 2;
            let ghost before = self.data@;
            let combined = Query::combine(&self.data[2 * i], &self.data[2 * i + 1]);
            self.data[i] = combined;
            proof {
                assert(self.data@.subrange(n as int, 2 * n) =~= before.subrange(n as int, 2 * n));
                assert forall|j: int| 1 <= j < n && j != i as int / 2 implies #[trigger] node_combined::<
                    Query,
                >(self.data@, j) by {
                    if j != i {
                        assert(node_combined::<Query>(before, j));
                    }
                }
            }
        }
    }

    /// Replaces the `i`-th element.
    ///
    /// # Time complexity
    ///
    /// *O*(log *N*)
    pub fn point_update(&mut self, i: usize, element: Query::Set)
        requires
            old(self).wf(),
            i < old(self)@.len(),
        ensures
            final(self).wf(),
            final(self)@ == old(self)@.update(i as int, element),
    {
        let n = self.len_or_offset;
        let i = self.inner_index(i);
        let ghost before = self.data@;
        self.data[i] = element;
        proof {
            assert(self.data@.subrange(n as int, 2 * n) =~= before.subrange(n as int, 2 * n).update(
                i - n,
                element,
            ));
            assert forall|j: int| 1 <= j < n && j != i as int / 2 implies #[trigger] node_combined::<
                Query,
            >(self.data@, j) by {
                assert(node_combined::<Query>(before, j));
            }
        }
        self.recombine_above(i);
    }
}

} // verus!
