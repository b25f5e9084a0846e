//! Point update, range query, on a large or negative index domain.

use vstd::prelude::*;
use std::ops::Range;
use crate::traits::Monoid;
use crate::utility::{RangeArg, convert_signed_range, signed_span_start, signed_span_end, representable};
use crate::bits::height;

verus! {

/// The element at `position` of a sparse sequence: the identity element
/// where none has been written.
pub open spec fn at<Query: Monoid>(elements: Map<int, Query::Set>, position: int) -> Query::Set {
    if elements.contains_key(position) {
        elements[position]
    } else {
        Query::id()
    }
}

/// The combination of the elements at the positions `l..r`, in order; the
/// identity element where the span is empty.
pub open spec fn span_fold<Query: Monoid>(elements: Map<int, Query::Set>, l: int, r: int) -> Query::Set
    decreases r - l,
{
    if l >= r {
        Query::id()
    } else {
        Query::op(span_fold::<Query>(elements, l, r - 1), at::<Query>(elements, r - 1))
    }
}

/// `span_fold(l..r) = span_fold(l..m) · span_fold(m..r)`
pub proof fn lemma_span_fold_split<Query: Monoid>(
    elements: Map<int, Query::Set>,
    l: int,
    m: int,
    r: int,
)
    requires
        l <= m <= r,
    ensures
        span_fold::<Query>(elements, l, r) == Query::op(
            span_fold::<Query>(elements, l, m),
            span_fold::<Query>(elements, m, r),
        ),
    decreases r - m,
{
    if m == r {
        Query::lemma_identity(span_fold::<Query>(elements, l, m));
    } else {
        lemma_span_fold_split::<Query>(elements, l, m, r - 1);
        Query::lemma_associative(
            span_fold::<Query>(elements, l, m),
            span_fold::<Query>(elements, m, r - 1),
            at::<Query>(elements, r - 1),
        );
    }
}

/// The fold of a span without written positions is the identity element.
pub proof fn lemma_span_fold_empty<Query: Monoid>(elements: Map<int, Query::Set>, l: int, r: int)
    requires
        forall|k: int| l <= k < r ==> !elements.contains_key(k),
    ensures
        span_fold::<Query>(elements, l, r) == Query::id(),
    decreases r - l,
{
    if l < r {
        lemma_span_fold_empty::<Query>(elements, l, r - 1);
        Query::lemma_identity(Query::id());
    }
}

/// Two sparse sequences that agree on a span have the same fold there.
pub proof fn lemma_span_fold_agree<Query: Monoid>(
    first: Map<int, Query::Set>,
    second: Map<int, Query::Set>,
    l: int,
    r: int,
)
    requires
        forall|k: int| l <= k < r ==> at::<Query>(first, k) == at::<Query>(second, k),
    ensures
        span_fold::<Query>(first, l, r) == span_fold::<Query>(second, l, r),
    decreases r - l,
{
    if l < r {
        lemma_span_fold_agree::<Query>(first, second, l, r - 1);
    }
}

/// A span may be trimmed to any part of it that holds all its written
/// positions.
pub proof fn lemma_span_fold_trim<Query: Monoid>(
    elements: Map<int, Query::Set>,
    l: int,
    r: int,
    from: int,
    to: int,
)
    requires
        forall|k: int| l <= k < r && elements.contains_key(k) ==> from <= k < to,
    ensures
        span_fold::<Query>(elements, l, r) == span_fold::<Query>(
            elements,
            if l < from { from } else { l },
            if to < r { to } else { r },
        ),
{
    let a = if l < from { from } else { l };
    let b = if to < r { to } else { r };
    if l >= r {
        if a < b {
            assert(false);
        }
    } else if a >= b {
        lemma_span_fold_empty::<Query>(elements, l, r);
    } else {
        lemma_span_fold_split::<Query>(elements, l, a, r);
        lemma_span_fold_split::<Query>(elements, a, b, r);
        lemma_span_fold_empty::<Query>(elements, l, a);
        lemma_span_fold_empty::<Query>(elements, b, r);
        Query::lemma_identity(span_fold::<Query>(elements, a, r));
        Query::lemma_identity(span_fold::<Query>(elements, a, b));
    }
}

/// The fold over a span of a sequence made of `lower`, one element at
/// `position` and `upper`, where all of `lower` lies before and all of
/// `upper` after `position`.
pub(crate) proof fn lemma_span_fold_parts<Query: Monoid>(
    whole: Map<int, Query::Set>,
    lower: Map<int, Query::Set>,
    position: int,
    element: Query::Set,
    upper: Map<int, Query::Set>,
    l: int,
    r: int,
)
    requires
        whole == lower.union_prefer_right(upper).insert(position, element),
        forall|k: int| lower.contains_key(k) ==> k < position,
        forall|k: int| upper.contains_key(k) ==> position < k,
    ensures
        span_fold::<Query>(whole, l, r) == Query::op(
            Query::op(
                span_fold::<Query>(lower, l, r),
                if l <= position < r {
                    element
                } else {
                    Query::id()
                },
            ),
            span_fold::<Query>(upper, l, r),
        ),
{
    let low = span_fold::<Query>(lower, l, r);
    let up = span_fold::<Query>(upper, l, r);
    if l >= r {
        Query::lemma_identity(Query::id());
    } else if position < l {
        lemma_span_fold_agree::<Query>(whole, upper, l, r);
        lemma_span_fold_empty::<Query>(lower, l, r);
        Query::lemma_identity(Query::id());
        Query::lemma_identity(up);
    } else if position >= r {
        lemma_span_fold_agree::<Query>(whole, lower, l, r);
        lemma_span_fold_empty::<Query>(upper, l, r);
        Query::lemma_identity(low);
    } else {
        lemma_span_fold_split::<Query>(whole, l, position, r);
        lemma_span_fold_split::<Query>(whole, position, position + 1, r);
        lemma_span_fold_agree::<Query>(whole, lower, l, position);
        lemma_span_fold_agree::<Query>(whole, upper, position + 1, r);
        lemma_span_fold_trim::<Query>(lower, l, r, l, position);
        lemma_span_fold_trim::<Query>(upper, l, r, position + 1, r);
        assert(span_fold::<Query>(whole, position, position + 1) == Query::op(
            span_fold::<Query>(whole, position, position),
            at::<Query>(whole, position),
        ));
        Query::lemma_identity(element);
        Query::lemma_associative(low, element, up);
    }
}

/// The sparse sequence after the updates `updates`, each a position and the
/// element written to it, have been made one after the other.
pub open spec fn written<T>(elements: Map<int, T>, updates: Seq<(int, T)>) -> Map<int, T>
    decreases updates.len(),
{
    if updates.len() == 0 {
        elements
    } else {
        written(elements, updates.drop_last()).insert(updates.last().0, updates.last().1)
    }
}

/// No two of the updates write to the same position.
pub open spec fn distinct_positions<T>(updates: Seq<(int, T)>) -> bool {
    forall|i: int, j: int|
        0 <= i < updates.len() && 0 <= j < updates.len() && i != j ==> updates[i].0 != updates[j].0
}

/// After updates of distinct positions, each of these positions holds what
/// was written to it, and every other position what it held before.
pub proof fn lemma_written<T>(elements: Map<int, T>, updates: Seq<(int, T)>)
    requires
        distinct_positions(updates),
    ensures
        forall|i: int|
            0 <= i < updates.len() ==> written(elements, updates).contains_key(
                #[trigger] updates[i].0,
            ) && written(elements, updates)[updates[i].0] == updates[i].1,
        forall|k: int|
            (forall|i: int| 0 <= i < updates.len() ==> updates[i].0 != k) ==> (#[trigger] written(
                elements,
                updates,
            ).contains_key(k) <==> elements.contains_key(k)) && (elements.contains_key(k)
                ==> written(elements, updates)[k] == elements[k]),
    decreases updates.len(),
{
    if updates.len() > 0 {
        let before = updates.drop_last();
        assert forall|i: int, j: int|
            0 <= i < before.len() && 0 <= j < before.len() && i != j implies before[i].0
            != before[j].0 by {
            assert(before[i] == updates[i] && before[j] == updates[j]);
        }
        lemma_written(elements, before);
        let now = written(elements, updates);
        assert forall|i: int| 0 <= i < updates.len() implies now.contains_key(
            #[trigger] updates[i].0,
        ) && now[updates[i].0] == updates[i].1 by {
            if i < updates.len() - 1 {
                assert(before[i] == updates[i]);
            }
        }
        assert forall|k: int|
            (forall|i: int| 0 <= i < updates.len() ==> updates[i].0 != k) implies (#[trigger] now.contains_key(
            k,
        ) <==> elements.contains_key(k)) && (elements.contains_key(k) ==> now[k]
            == elements[k]) by {
            assert forall|i: int| 0 <= i < before.len() implies before[i].0 != k by {
                assert(before[i] == updates[i]);
            }
            assert(updates[updates.len() - 1].0 != k);
            let earlier = written(elements, before);
            assert(earlier.contains_key(k) <==> elements.contains_key(k));
            assert(now == earlier.insert(updates.last().0, updates.last().1));
            assert(updates.last().0 != k);
        }
    }
}

/// The same updates of distinct positions, made in any order, give the same
/// sparse sequence, and so the same answer to every range query.
pub proof fn lemma_update_order<Query: Monoid>(
    elements: Map<int, Query::Set>,
    first: Seq<(int, Query::Set)>,
    second: Seq<(int, Query::Set)>,
    l: int,
    r: int,
)
    requires
        distinct_positions(first),
        first.to_multiset() == second.to_multiset(),
    ensures
        written(elements, first) == written(elements, second),
        span_fold::<Query>(written(elements, first), l, r) == span_fold::<Query>(
            written(elements, second),
            l,
            r,
        ),
{
    first.to_multiset_ensures();
    second.to_multiset_ensures();
    // no update occurs twice, in either order
    assert(first.no_duplicates()) by {
        assert forall|i: int, j: int|
            0 <= i < first.len() && 0 <= j < first.len() && i != j implies first[i]
            != first[j] by {}
    }
    first.lemma_multiset_has_no_duplicates();
    second.lemma_multiset_has_no_duplicates_conv();
    assert forall|i: int, j: int|
        0 <= i < second.len() && 0 <= j < second.len() && i != j implies second[i].0
        != second[j].0 by {
        assert(second.contains(second[i]));
        assert(second.contains(second[j]));
        assert(second.to_multiset().count(second[i]) > 0);
        assert(second.to_multiset().count(second[j]) > 0);
        assert(first.to_multiset().count(second[i]) > 0);
        assert(first.to_multiset().count(second[j]) > 0);
        assert(first.contains(second[i]));
        assert(first.contains(second[j]));
        let a = choose|a: int| 0 <= a < first.len() && first[a] == second[i];
        let b = choose|b: int| 0 <= b < first.len() && first[b] == second[j];
        assert(second[i] != second[j]);
    }
    lemma_written(elements, first);
    lemma_written(elements, second);
    let one = written(elements, first);
    let two = written(elements, second);
    assert forall|k: int|
        one.contains_key(k) == two.contains_key(k) && (one.contains_key(k) ==> one[k]
            == two[k]) by {
        if exists|i: int| 0 <= i < first.len() && first[i].0 == k {
            let i = choose|i: int| 0 <= i < first.len() && first[i].0 == k;
            assert(first.contains(first[i]));
            assert(first.to_multiset().count(first[i]) > 0);
            assert(second.to_multiset().count(first[i]) > 0);
            assert(second.contains(first[i]));
            let j = choose|j: int| 0 <= j < second.len() && second[j] == first[i];
            assert(one[first[i].0] == first[i].1);
            assert(two[second[j].0] == second[j].1);
        } else {
            assert forall|j: int| 0 <= j < second.len() implies second[j].0 != k by {
                assert(second.contains(second[j]));
                assert(second.to_multiset().count(second[j]) > 0);
                assert(first.to_multiset().count(second[j]) > 0);
                assert(first.contains(second[j]));
                let i = choose|i: int| 0 <= i < first.len() && first[i] == second[j];
            }
        }
    }
    assert(one =~= two);
}

/// A slot of the arena: one written position with its element, the cached
/// combination of its subtree and the slots of its two children.
struct Node<T> {
    index: isize,
    element: T,
    /// `None` stands for `element`
    combined: Option<T>,
    left_ptr: Option<usize>,
    right_ptr: Option<usize>,
}

impl<T> Node<T> {
    fn new(index: isize, element: T) -> (node: Self)
        ensures
            node.index == index,
            node.element == element,
            node.combined is None,
            node.left_ptr is None,
            node.right_ptr is None,
    {
        Node { index, element, combined: None, left_ptr: None, right_ptr: None }
    }

    fn get_left_ptr(&self) -> (ptr: Option<usize>)
        ensures
            ptr == self.left_ptr,
    {
        self.left_ptr
    }

    fn get_right_ptr(&self) -> (ptr: Option<usize>)
        ensures
            ptr == self.right_ptr,
    {
        self.right_ptr
    }

    /// Slot `0` is the root and no child: it clears the link.
    fn set_left_ptr(&mut self, ptr: usize)
        ensures
            final(self).left_ptr == (if ptr == 0 {
                None
            } else {
                Some(ptr)
            }),
            final(self).index == old(self).index,
            final(self).element == old(self).element,
            final(self).combined == old(self).combined,
            final(self).right_ptr == old(self).right_ptr,
    {
        self.left_ptr = if ptr == 0 {
            None
        } else {
            Some(ptr)
        };
    }

    /// Slot `0` is the root and no child: it clears the link.
    fn set_right_ptr(&mut self, ptr: usize)
        ensures
            final(self).right_ptr == (if ptr == 0 {
                None
            } else {
                Some(ptr)
            }),
            final(self).index == old(self).index,
            final(self).element == old(self).element,
            final(self).combined == old(self).combined,
            final(self).left_ptr == old(self).left_ptr,
    {
        self.right_ptr = if ptr == 0 {
            None
        } else {
            Some(ptr)
        };
    }

    fn get_element(&self) -> (element: &T)
        ensures
            *element == self.element,
    {
        &self.element
    }

    /// The cached combination of the subtree.
    spec fn cached(&self) -> T {
        match self.combined {
            Some(combined) => combined,
            None => self.element,
        }
    }

    fn get_combined(&self) -> (combined: &T)
        ensures
            *combined == self.cached(),
    {
        match &self.combined {
            Some(combined) => combined,
            None => &self.element,
        }
    }

    fn set_combined(&mut self, combined: T)
        ensures
            final(self).combined == Some(combined),
            final(self).index == old(self).index,
            final(self).element == old(self).element,
            final(self).left_ptr == old(self).left_ptr,
            final(self).right_ptr == old(self).right_ptr,
    {
        self.combined = Some(combined);
    }
}

/// The point at which the interval `start..end` is halved.
pub(crate) open spec fn midpoint(start: int, end: int) -> int {
    start + (end - start) / 2
}

/// The written positions of the subtree at `ptr`, which owns the interval
/// `start..end`, with their elements.
spec fn content<T>(arena: Seq<Node<T>>, ptr: Option<usize>, start: int, end: int) -> Map<int, T>
    decreases end - start,
{
    match ptr {
        None => Map::empty(),
        Some(p) => {
            if end - start <= 0 || p >= arena.len() {
                Map::empty()
            } else if end - start == 1 {
                Map::empty().insert(arena[p as int].index as int, arena[p as int].element)
            } else {
                let mid = midpoint(start, end);
                content(arena, arena[p as int].left_ptr, start, mid).union_prefer_right(
                    content(arena, arena[p as int].right_ptr, mid, end),
                ).insert(arena[p as int].index as int, arena[p as int].element)
            }
        },
    }
}

/// The slots of the subtree at `ptr`.
spec fn slots<T>(arena: Seq<Node<T>>, ptr: Option<usize>, start: int, end: int) -> Set<int>
    decreases end - start,
{
    match ptr {
        None => Set::empty(),
        Some(p) => {
            if end - start <= 0 || p >= arena.len() {
                Set::empty()
            } else if end - start == 1 {
                Set::empty().insert(p as int)
            } else {
                let mid = midpoint(start, end);
                slots(arena, arena[p as int].left_ptr, start, mid).union(
                    slots(arena, arena[p as int].right_ptr, mid, end),
                ).insert(p as int)
            }
        },
    }
}

/// The subtree at `ptr` is sound: every slot holds a position of the
/// interval it owns, the positions are in order from left to right, a child
/// has a later slot than its parent, and every cache holds the combination
/// of its subtree.
spec fn sound<Query: Monoid>(
    arena: Seq<Node<Query::Set>>,
    ptr: Option<usize>,
    start: int,
    end: int,
) -> bool
    decreases end - start,
{
    match ptr {
        None => true,
        Some(p) => {
            &&& p < arena.len()
            &&& start <= arena[p as int].index < end
            &&& arena[p as int].cached() == span_fold::<Query>(
                content(arena, ptr, start, end),
                start,
                end,
            )
            &&& if end - start <= 1 {
                arena[p as int].left_ptr is None && arena[p as int].right_ptr is None
            } else {
                let mid = midpoint(start, end);
                let left = arena[p as int].left_ptr;
                let right = arena[p as int].right_ptr;
                &&& left matches Some(c) ==> c > p
                &&& right matches Some(c) ==> c > p
                &&& sound::<Query>(arena, left, start, mid)
                &&& sound::<Query>(arena, right, mid, end)
                &&& forall|k: int|
                    content(arena, left, start, mid).contains_key(k) ==> k < arena[p as int].index
                &&& forall|k: int|
                    content(arena, right, mid, end).contains_key(k) ==> arena[p as int].index < k
            }
        },
    }
}

/// The slots of a sound subtree are slots of the arena, none before the
/// root of the subtree, and hold positions of its interval.
proof fn lemma_slots_bound<Query: Monoid>(
    arena: Seq<Node<Query::Set>>,
    ptr: Option<usize>,
    start: int,
    end: int,
    x: int,
)
    requires
        sound::<Query>(arena, ptr, start, end),
        slots(arena, ptr, start, end).contains(x),
    ensures
        ptr is Some,
        ptr.unwrap() <= x < arena.len(),
        start <= arena[x].index < end,
    decreases end - start,
{
    let p = ptr.unwrap();
    if end - start >= 2 && x != p {
        let mid = midpoint(start, end);
        if slots(arena, arena[p as int].left_ptr, start, mid).contains(x) {
            lemma_slots_bound::<Query>(arena, arena[p as int].left_ptr, start, mid, x);
        } else {
            lemma_slots_bound::<Query>(arena, arena[p as int].right_ptr, mid, end, x);
        }
    }
}

/// The written positions of a sound subtree lie in its interval.
proof fn lemma_content_bound<Query: Monoid>(
    arena: Seq<Node<Query::Set>>,
    ptr: Option<usize>,
    start: int,
    end: int,
    k: int,
)
    requires
        sound::<Query>(arena, ptr, start, end),
        content(arena, ptr, start, end).contains_key(k),
    ensures
        start <= k < end,
    decreases end - start,
{
    let p = ptr.unwrap();
    if end - start >= 2 && k != arena[p as int].index {
        let mid = midpoint(start, end);
        if content(arena, arena[p as int].left_ptr, start, mid).contains_key(k) {
            lemma_content_bound::<Query>(arena, arena[p as int].left_ptr, start, mid, k);
        } else {
            lemma_content_bound::<Query>(arena, arena[p as int].right_ptr, mid, end, k);
        }
    }
}

/// A sound subtree stays what it is where the arena changes in other slots
/// only.
proof fn lemma_frame<Query: Monoid>(
    arena: Seq<Node<Query::Set>>,
    after: Seq<Node<Query::Set>>,
    ptr: Option<usize>,
    start: int,
    end: int,
)
    requires
        sound::<Query>(arena, ptr, start, end),
        arena.len() <= after.len(),
        forall|x: int| slots(arena, ptr, start, end).contains(x) ==> after[x] == arena[x],
    ensures
        sound::<Query>(after, ptr, start, end),
        content(after, ptr, start, end) == content(arena, ptr, start, end),
        slots(after, ptr, start, end) == slots(arena, ptr, start, end),
    decreases end - start,
{
    if ptr is Some {
        let p = ptr.unwrap();
        assert(slots(arena, ptr, start, end).contains(p as int));
        if end - start >= 2 {
            let mid = midpoint(start, end);
            lemma_frame::<Query>(arena, after, arena[p as int].left_ptr, start, mid);
            lemma_frame::<Query>(arena, after, arena[p as int].right_ptr, mid, end);
        }
    }
}

/// The subtree at slot `p` is sound but for the cache of `p` itself.
spec fn shaped<Query: Monoid>(arena: Seq<Node<Query::Set>>, p: usize, start: int, end: int) -> bool {
    &&& p < arena.len()
    &&& start <= arena[p as int].index < end
    &&& if end - start <= 1 {
        arena[p as int].left_ptr is None && arena[p as int].right_ptr is None
    } else {
        let mid = midpoint(start, end);
        let left = arena[p as int].left_ptr;
        let right = arena[p as int].right_ptr;
        &&& left matches Some(c) ==> c > p
        &&& right matches Some(c) ==> c > p
        &&& sound::<Query>(arena, left, start, mid)
        &&& sound::<Query>(arena, right, mid, end)
        &&& forall|k: int|
            content(arena, left, start, mid).contains_key(k) ==> k < arena[p as int].index
        &&& forall|k: int|
            content(arena, right, mid, end).contains_key(k) ==> arena[p as int].index < k
    }
}

/// The combination of a shaped subtree, from the caches of its children and
/// its own element.
proof fn lemma_shaped_fold<Query: Monoid>(
    arena: Seq<Node<Query::Set>>,
    p: usize,
    start: int,
    end: int,
    l: int,
    r: int,
)
    requires
        shaped::<Query>(arena, p, start, end),
    ensures
        span_fold::<Query>(content(arena, Some(p), start, end), l, r) == Query::op(
            Query::op(
                span_fold::<Query>(
                    content(arena, arena[p as int].left_ptr, start, midpoint(start, end)),
                    l,
                    r,
                ),
                if l <= arena[p as int].index < r {
                    arena[p as int].element
                } else {
                    Query::id()
                },
            ),
            span_fold::<Query>(
                content(arena, arena[p as int].right_ptr, midpoint(start, end), end),
                l,
                r,
            ),
        ),
{
    let mid = midpoint(start, end);
    let node = arena[p as int];
    let lower = content(arena, node.left_ptr, start, mid);
    let upper = content(arena, node.right_ptr, mid, end);
    if end - start <= 1 {
        assert(lower =~= Map::empty());
        assert(upper =~= Map::empty());
        assert(content(arena, Some(p), start, end) =~= lower.union_prefer_right(upper).insert(
            node.index as int,
            node.element,
        ));
    }
    lemma_span_fold_parts::<Query>(
        content(arena, Some(p), start, end),
        lower,
        node.index as int,
        node.element,
        upper,
        l,
        r,
    );
}

/// The midpoint of a non-empty interval.
fn mid_of(start: isize, end: isize) -> (mid: isize)
    requires
        start < end,
    ensures
        mid == midpoint(start as int, end as int),
        end - start >= 2 ==> start < mid < end,
{
    let width: usize = (end as i128 - start as i128) as usize;
    (start as i128 + (width / 2) as i128) as isize
}

/// A data structure that supports **range query, point update** operations
/// on an interval of signed positions that may be very long.
///
/// It represents the sparse sequence `self@` of the elements that have been
/// written; every other position of the interval holds the identity element.
///
/// Each written position has one slot in an arena. The slot `0` is the root
/// and owns the whole interval; the children of a slot own the two halves of
/// its interval.
pub struct DynamicSegmentTree<Query: Monoid> {
    arena: Vec<Node<Query::Set>>,
    range: Range<isize>,
}

impl<Query: Monoid> View for DynamicSegmentTree<Query> {
    type V = Map<int, Query::Set>;

    /// The written positions with their elements.
    closed spec fn view(&self) -> Map<int, Query::Set> {
        content(self.arena@, self.root(), self.range.start as int, self.range.end as int)
    }
}

impl<Query: Monoid> DynamicSegmentTree<Query> {
    spec fn root(&self) -> Option<usize> {
        if self.arena.len() == 0 {
            None
        } else {
            Some(0)
        }
    }

    /// The first position of the interval.
    pub closed spec fn start(&self) -> int {
        self.range.start as int
    }

    /// The position after the last one of the interval.
    pub closed spec fn end(&self) -> int {
        self.range.end as int
    }

    /// The interval is not empty and the tree of slots is sound.
    pub closed spec fn wf(&self) -> bool {
        &&& self.range.start < self.range.end
        &&& sound::<Query>(self.arena@, self.root(), self.range.start as int, self.range.end as int)
    }

    /// The written positions lie in the interval.
    pub proof fn lemma_view_bound(&self, position: int)
        requires
            self.wf(),
            self@.contains_key(position),
        ensures
            self.start() <= position < self.end(),
    {
        lemma_content_bound::<Query>(
            self.arena@,
            self.root(),
            self.range.start as int,
            self.range.end as int,
            position,
        );
    }

    /// Creates an instance over the positions `range`, all of which hold the
    /// identity element; `None` where `range` is empty.
    ///
    /// # Time complexity
    ///
    /// *O*(1)
    pub fn new(range: Range<isize>) -> (tree: Option<Self>)
        ensures
            tree is Some <==> range.start < range.end,
            tree matches Some(t) ==> t.wf() && t@ == Map::<int, Query::Set>::empty() && t.start()
                == range.start && t.end() == range.end,
    {
        if range.start >= range.end {
            None
        } else {
            Some(DynamicSegmentTree { arena: Vec::new(), range })
        }
    }

    /// Returns the number of positions of the interval.
    ///
    /// # Time complexity
    ///
    /// *O*(1)
    pub fn len(&self) -> (n: usize)
        requires
            self.wf(),
        ensures
            n == self.end() - self.start(),
    {
        (self.range.end as i128 - self.range.start as i128) as usize
    }

    /// Creates an instance over the positions `range` with room for the
    /// slots of `q` updates; `None` where `range` is empty.
    ///
    /// # Time complexity
    ///
    /// *O*(1)
    pub fn with_capacity(range: Range<isize>, q: usize) -> (tree: Option<Self>)
        ensures
            tree is Some <==> range.start < range.end,
            tree matches Some(t) ==> t.wf() && t@ == Map::<int, Query::Set>::empty() && t.start()
                == range.start && t.end() == range.end,
    {
        if range.start >= range.end {
            None
        } else {
            let len: usize = (range.end as i128 - range.start as i128) as usize;
            let levels = height(len) + 1;
            let arena = match q.checked_mul(levels) {
                Some(capacity) => Vec::with_capacity(capacity),
                None => Vec::new(),
            };
            Some(DynamicSegmentTree { arena, range })
        }
    }

    /// Writes `element` to the position `i` of the subtree at slot `p`, which
    /// owns the interval `start..end`.
    fn insert_at(&mut self, p: usize, start: isize, end: isize, i: isize, element: Query::Set)
        requires
            sound::<Query>(old(self).arena@, Some(p), start as int, end as int),
            start <= i < end,
        ensures
            sound::<Query>(final(self).arena@, Some(p), start as int, end as int),
            content(final(self).arena@, Some(p), start as int, end as int) == content(
                old(self).arena@,
                Some(p),
                start as int,
                end as int,
            ).insert(i as int, element),
            final(self).range == old(self).range,
            final(self).arena.len() >= old(self).arena.len(),
            forall|x: int|
                0 <= x < old(self).arena.len() && !slots(
                    old(self).arena@,
                    Some(p),
                    start as int,
                    end as int,
                ).contains(x) ==> final(self).arena@[x] == old(self).arena@[x],
        decreases end - start,
    {
        let ghost before = self.arena@;
        let ghost i0 = i as int;
        let ghost element0 = element;
        let ghost index0 = before[p as int].index as int;
        let ghost mid0 = midpoint(start as int, end as int);
        let ghost left = before[p as int].left_ptr;
        let ghost right = before[p as int].right_ptr;
        let ghost lower = content(before, left, start as int, mid0);
        let ghost upper = content(before, right, mid0, end as int);
        proof {
            assert(slots(before, Some(p), start as int, end as int).contains(p as int));
            assert forall|x: int| slots(before, left, start as int, mid0).contains(x) implies p < x
                < before.len() && before[x].index < mid0 && slots(
                before,
                Some(p),
                start as int,
                end as int,
            ).contains(x) by {
                lemma_slots_bound::<Query>(before, left, start as int, mid0, x);
            }
            assert forall|x: int| slots(before, right, mid0, end as int).contains(x) implies p < x
                < before.len() && before[x].index >= mid0 && slots(
                before,
                Some(p),
                start as int,
                end as int,
            ).contains(x) by {
                lemma_slots_bound::<Query>(before, right, mid0, end as int, x);
            }
            assert forall|k: int| lower.contains_key(k) implies start <= k < mid0 by {
                if end - start >= 2 {
                    lemma_content_bound::<Query>(before, left, start as int, mid0, k);
                }
            }
            assert forall|k: int| upper.contains_key(k) implies mid0 <= k < end by {
                if end - start >= 2 {
                    lemma_content_bound::<Query>(before, right, mid0, end as int, k);
                }
            }
        }
        if self.arena[p].index == i {
            self.arena[p].element = element;
            proof {
                let after = self.arena@;
                if end - start >= 2 {
                    lemma_frame::<Query>(before, after, left, start as int, mid0);
                    lemma_frame::<Query>(before, after, right, mid0, end as int);
                }
                assert(content(after, Some(p), start as int, end as int) =~= content(
                    before,
                    Some(p),
                    start as int,
                    end as int,
                ).insert(i0, element0));
            }
            self.refresh(p, Ghost(start as int), Ghost(end as int));
            return ;
        }
        let mid = mid_of(start, end);
        let mut i = i;
        let mut element = element;
        if i < mid {
            if !(i < self.arena[p].index) {
                core::mem::swap(&mut i, &mut self.arena[p].index);
                core::mem::swap(&mut element, &mut self.arena[p].element);
            }
            let ghost swapped = self.arena@;
            proof {
                lemma_frame::<Query>(before, swapped, left, start as int, mid0);
                lemma_frame::<Query>(before, swapped, right, mid0, end as int);
            }
            match self.arena[p].get_left_ptr() {
                Some(c) => {
                    self.insert_at(c, start, mid, i, element);
                },
                None => {
                    let n = self.arena.len();
                    self.arena[p].set_left_ptr(n);
                    self.arena.push(Node::new(i, element));
                    proof {
                        let after = self.arena@;
                        assert(shaped::<Query>(after, n, start as int, mid0));
                        lemma_shaped_fold::<Query>(after, n, start as int, mid0, start as int, mid0);
                        lemma_span_fold_empty::<Query>(
                            Map::<int, Query::Set>::empty(),
                            start as int,
                            mid0,
                        );
                        assert(content(
                            after,
                            None,
                            start as int,
                            midpoint(start as int, mid0),
                        ) =~= Map::<int, Query::Set>::empty());
                        assert(content(after, None, midpoint(start as int, mid0), mid0)
                            =~= Map::<int, Query::Set>::empty());
                        Query::lemma_identity(Query::id());
                        Query::lemma_identity(after[n as int].element);
                        assert(content(after, Some(n), start as int, mid0) =~= lower.insert(
                            i as int,
                            element,
                        ));
                    }
                },
            }
            proof {
                let after = self.arena@;
                lemma_frame::<Query>(before, after, right, mid0, end as int);
                assert(content(after, after[p as int].left_ptr, start as int, mid0) == lower.insert(
                    i as int,
                    element,
                ));
                assert(shaped::<Query>(after, p, start as int, end as int));
                assert(content(after, Some(p), start as int, end as int) =~= content(
                    before,
                    Some(p),
                    start as int,
                    end as int,
                ).insert(i0, element0));
            }
        } else {
            if !(i > self.arena[p].index) {
                core::mem::swap(&mut i, &mut self.arena[p].index);
                core::mem::swap(&mut element, &mut self.arena[p].element);
            }
            let ghost swapped = self.arena@;
            proof {
                lemma_frame::<Query>(before, swapped, left, start as int, mid0);
                lemma_frame::<Query>(before, swapped, right, mid0, end as int);
            }
            match self.arena[p].get_right_ptr() {
                Some(c) => {
                    self.insert_at(c, mid, end, i, element);
                },
                None => {
                    let n = self.arena.len();
                    self.arena[p].set_right_ptr(n);
                    self.arena.push(Node::new(i, element));
                    proof {
                        let after = self.arena@;
                        assert(shaped::<Query>(after, n, mid0, end as int));
                        lemma_shaped_fold::<Query>(after, n, mid0, end as int, mid0, end as int);
                        lemma_span_fold_empty::<Query>(
                            Map::<int, Query::Set>::empty(),
                            mid0,
                            end as int,
                        );
                        assert(content(after, None, mid0, midpoint(mid0, end as int))
                            =~= Map::<int, Query::Set>::empty());
                        assert(content(after, None, midpoint(mid0, end as int), end as int)
                            =~= Map::<int, Query::Set>::empty());
                        Query::lemma_identity(Query::id());
                        Query::lemma_identity(after[n as int].element);
                        assert(content(after, Some(n), mid0, end as int) =~= upper.insert(
                            i as int,
                            element,
                        ));
                    }
                },
            }
            proof {
                let after = self.arena@;
                lemma_frame::<Query>(before, after, left, start as int, mid0);
                assert(content(after, after[p as int].right_ptr, mid0, end as int) == upper.insert(
                    i as int,
                    element,
                ));
                assert(shaped::<Query>(after, p, start as int, end as int));
                assert(content(after, Some(p), start as int, end as int) =~= content(
                    before,
                    Some(p),
                    start as int,
                    end as int,
                ).insert(i0, element0));
            }
        }
        self.refresh(p, Ghost(start as int), Ghost(end as int));
    }

    /// Writes `element` to the position `i`.
    ///
    /// # Time complexity
    ///
    /// *O*(log *N*)
    pub fn point_update(&mut self, i: isize, element: Query::Set)
        requires
            old(self).wf(),
            old(self).start() <= i < old(self).end(),
        ensures
            final(self).wf(),
            final(self).start() == old(self).start(),
            final(self).end() == old(self).end(),
            final(self)@ == old(self)@.insert(i as int, element),
    {
        if self.arena.len() == 0 {
            self.arena.push(Node::new(i, element));
            proof {
                let after = self.arena@;
                let start = self.range.start as int;
                let end = self.range.end as int;
                assert(shaped::<Query>(after, 0, start, end));
                lemma_shaped_fold::<Query>(after, 0, start, end, start, end);
                lemma_span_fold_empty::<Query>(Map::<int, Query::Set>::empty(), start, end);
                assert(content(after, None, start, midpoint(start, end)) =~= Map::<
                    int,
                    Query::Set,
                >::empty());
                assert(content(after, None, midpoint(start, end), end) =~= Map::<
                    int,
                    Query::Set,
                >::empty());
                Query::lemma_identity(Query::id());
                Query::lemma_identity(element);
                assert(self@ =~= old(self)@.insert(i as int, element));
            }
        } else {
            let start = self.range.start;
            let end = self.range.end;
            self.insert_at(0, start, end, i, element);
        }
    }

    /// Combines `acc` with the elements of the subtree at slot `p` that lie
    /// in `l..r`, in order.
    fn query_at(&self, p: usize, start: isize, end: isize, l: isize, r: isize, acc: Query::Set) -> (res:
        Query::Set)
        requires
            sound::<Query>(self.arena@, Some(p), start as int, end as int),
        ensures
            res == Query::op(
                acc,
                span_fold::<Query>(
                    content(self.arena@, Some(p), start as int, end as int),
                    l as int,
                    r as int,
                ),
            ),
        decreases end - start,
    {
        let ghost arena = self.arena@;
        let ghost whole = content(arena, Some(p), start as int, end as int);
        let ghost mid0 = midpoint(start as int, end as int);
        let ghost left = arena[p as int].left_ptr;
        let ghost right = arena[p as int].right_ptr;
        let ghost lower = content(arena, left, start as int, mid0);
        let ghost upper = content(arena, right, mid0, end as int);
        proof {
            assert forall|k: int| whole.contains_key(k) implies start <= k < end by {
                lemma_content_bound::<Query>(arena, Some(p), start as int, end as int, k);
            }
            assert forall|k: int| lower.contains_key(k) implies start <= k < mid0 by {
                if end - start >= 2 {
                    lemma_content_bound::<Query>(arena, left, start as int, mid0, k);
                }
            }
            assert forall|k: int| upper.contains_key(k) implies mid0 <= k < end by {
                if end - start >= 2 {
                    lemma_content_bound::<Query>(arena, right, mid0, end as int, k);
                }
            }
        }
        if r <= start || end <= l || l >= r {
            proof {
                lemma_span_fold_empty::<Query>(whole, l as int, r as int);
                Query::lemma_identity(acc);
            }
            return acc;
        }
        if l <= start && end <= r {
            proof {
                lemma_span_fold_trim::<Query>(whole, l as int, r as int, start as int, end as int);
            }
            return Query::combine(&acc, self.arena[p].get_combined());
        }
        let mid = mid_of(start, end);
        let mut acc = acc;
        let ghost acc0 = acc;
        proof {
            lemma_shaped_fold::<Query>(arena, p, start as int, end as int, l as int, r as int);
        }
        let ghost part_l = span_fold::<Query>(lower, l as int, r as int);
        let ghost part_r = span_fold::<Query>(upper, l as int, r as int);
        let ghost own = if l <= arena[p as int].index < r {
            arena[p as int].element
        } else {
            Query::id()
        };
        if l < mid {
            if let Some(c) = self.arena[p].get_left_ptr() {
                acc = self.query_at(c, start, mid, l, r, acc);
            }
        }
        proof {
            if left is None || l >= mid {
                lemma_span_fold_empty::<Query>(lower, l as int, r as int);
                Query::lemma_identity(acc0);
            }
            assert(acc == Query::op(acc0, part_l));
        }
        let index = self.arena[p].index;
        if l <= index && index < r {
            acc = Query::combine(&acc, self.arena[p].get_element());
        }
        proof {
            Query::lemma_identity(Query::op(acc0, part_l));
            Query::lemma_associative(acc0, part_l, own);
            assert(acc == Query::op(acc0, Query::op(part_l, own)));
        }
        let ghost acc1 = acc;
        if r > mid {
            if let Some(c) = self.arena[p].get_right_ptr() {
                acc = self.query_at(c, mid, end, l, r, acc);
            }
        }
        proof {
            if right is None || r <= mid {
                lemma_span_fold_empty::<Query>(upper, l as int, r as int);
                Query::lemma_identity(acc1);
            }
            Query::lemma_associative(acc0, Query::op(part_l, own), part_r);
        }
        acc
    }

    /// Answers the query for the given range: the combination, in order, of
    /// the elements at its positions; the identity element where it is empty.
    ///
    /// # Time complexity
    ///
    /// *O*(log *N*)
    pub fn range_query<R: RangeArg<isize>>(&self, range: R) -> (combined: Query::Set)
        requires
            self.wf(),
            representable(range),
        ensures
            combined == span_fold::<Query>(
                self@,
                signed_span_start(range.lower(), self.start() as isize),
                signed_span_end(range.upper(), self.end() as isize),
            ),
    {
        let (l, r) = convert_signed_range(range, &self.range);
        if l >= r || self.arena.len() == 0 {
            proof {
                lemma_span_fold_empty::<Query>(self@, l as int, r as int);
            }
            return Query::identity();
        }
        let res = self.query_at(0, self.range.start, self.range.end, l, r, Query::identity());
        proof {
            Query::lemma_identity(span_fold::<Query>(self@, l as int, r as int));
        }
        res
    }

    /// Returns the element at the position `i`: the identity element where
    /// none has been written, or `i` lies outside the interval.
    ///
    /// # Time complexity
    ///
    /// *O*(log *N*)
    pub fn point_query(&self, i: isize) -> (element: Query::Set)
        requires
            self.wf(),
        ensures
            element == at::<Query>(self@, i as int),
    {
        if !(self.range.start <= i && i < self.range.end) || self.arena.len() == 0 {
            proof {
                if self@.contains_key(i as int) {
                    self.lemma_view_bound(i as int);
                }
            }
            return Query::identity();
        }
        let mut p: usize = 0;
        let mut start = self.range.start;
        let mut end = self.range.end;
        loop
            invariant
                sound::<Query>(self.arena@, Some(p), start as int, end as int),
                start <= i < end,
                at::<Query>(self@, i as int) == at::<Query>(
                    content(self.arena@, Some(p), start as int, end as int),
                    i as int,
                ),
            ensures
                at::<Query>(self@, i as int) == Query::id(),
            decreases end - start,
        {
            let ghost arena = self.arena@;
            let ghost mid0 = midpoint(start as int, end as int);
            let ghost left = arena[p as int].left_ptr;
            let ghost right = arena[p as int].right_ptr;
            let ghost lower = content(arena, left, start as int, mid0);
            let ghost upper = content(arena, right, mid0, end as int);
            proof {
                assert forall|k: int| lower.contains_key(k) implies start <= k < mid0 by {
                    if end - start >= 2 {
                        lemma_content_bound::<Query>(arena, left, start as int, mid0, k);
                    }
                }
                assert forall|k: int| upper.contains_key(k) implies mid0 <= k < end by {
                    if end - start >= 2 {
                        lemma_content_bound::<Query>(arena, right, mid0, end as int, k);
                    }
                }
            }
            let node = &self.arena[p];
            if node.index == i {
                proof {
                    Query::lemma_identity(node.element);
                }
                return Query::combine(&Query::identity(), node.get_element());
            }
            let mid = mid_of(start, end);
            if i < mid {
                match node.get_left_ptr() {
                    Some(c) => {
                        p = c;
                        end = mid;
                    },
                    None => {
                        break ;
                    },
                }
            } else {
                match node.get_right_ptr() {
                    Some(c) => {
                        p = c;
                        start = mid;
                    },
                    None => {
                        break ;
                    },
                }
            }
        }
        Query::identity()
    }

    /// Recomputes the cache of slot `p` from its element and the caches of
    /// its children.
    fn refresh(&mut self, p: usize, Ghost(start): Ghost<int>, Ghost(end): Ghost<int>)
        requires
            shaped::<Query>(old(self).arena@, p, start, end),
        ensures
            sound::<Query>(final(self).arena@, Some(p), start, end),
            content(final(self).arena@, Some(p), start, end) == content(
                old(self).arena@,
                Some(p),
                start,
                end,
            ),
            final(self).range == old(self).range,
            final(self).arena.len() == old(self).arena.len(),
            forall|x: int|
                0 <= x < old(self).arena.len() && x != p ==> final(self).arena@[x] == old(
                    self,
                ).arena@[x],
    {
        let ghost before = self.arena@;
        let ghost mid = midpoint(start, end);
        let ghost left = before[p as int].left_ptr;
        let ghost right = before[p as int].right_ptr;
        let mut combined = Query::identity();
        if let Some(l_ptr) = self.arena[p].get_left_ptr() {
            combined = Query::combine(&combined, self.arena[l_ptr].get_combined());
        }
        combined = Query::combine(&combined, self.arena[p].get_element());
        if let Some(r_ptr) = self.arena[p].get_right_ptr() {
            combined = Query::combine(&combined, self.arena[r_ptr].get_combined());
        }
        self.arena[p].set_combined(combined);
        proof {
            let after = self.arena@;
            assert forall|x: int| slots(before, left, start, mid).contains(x) implies after[x]
                == before[x] by {
                lemma_slots_bound::<Query>(before, left, start, mid, x);
            }
            assert forall|x: int| slots(before, right, mid, end).contains(x) implies after[x]
                == before[x] by {
                lemma_slots_bound::<Query>(before, right, mid, end, x);
            }
            if end - start >= 2 {
                lemma_frame::<Query>(before, after, left, start, mid);
                lemma_frame::<Query>(before, after, right, mid, end);
            }
            assert(content(after, Some(p), start, end) =~= content(before, Some(p), start, end));
            lemma_shaped_fold::<Query>(before, p, start, end, start, end);
            let lower = content(before, left, start, mid);
            let upper = content(before, right, mid, end);
            assert forall|k: int| lower.contains_key(k) implies start <= k < mid by {
                if end - start >= 2 {
                    lemma_content_bound::<Query>(before, left, start, mid, k);
                }
            }
            assert forall|k: int| upper.contains_key(k) implies mid <= k < end by {
                if end - start >= 2 {
                    lemma_content_bound::<Query>(before, right, mid, end, k);
                }
            }
            lemma_span_fold_trim::<Query>(lower, start, end, start, mid);
            lemma_span_fold_trim::<Query>(upper, start, end, mid, end);
            Query::lemma_identity(Query::id());
            Query::lemma_identity(before[p as int].element);
            if left is None {
                lemma_span_fold_empty::<Query>(lower, start, end);
            } else {
                Query::lemma_identity(before[left.unwrap() as int].cached());
            }
            if right is None {
                lemma_span_fold_empty::<Query>(upper, start, end);
                Query::lemma_identity(
                    Query::op(span_fold::<Query>(lower, start, end), before[p as int].element),
                );
            }
        }
    }
}

} // verus!
