//! Range update, range query, on a large or negative index domain.

use vstd::prelude::*;
use std::ops::Range;
use crate::traits::{Monoid, MonoidAction};
use crate::dynamic::{
    at, span_fold, midpoint, lemma_span_fold_split, lemma_span_fold_empty, lemma_span_fold_agree,
    lemma_span_fold_trim,
};
use crate::utility::{RangeArg, convert_signed_range, signed_span_start, signed_span_end, representable};
use crate::bits::height;

verus! {

/// The elements of `elements` with `mapping` applied to those at the
/// positions `l..r`.
pub open spec fn acted<Action: MonoidAction>(
    elements: Map<int, <Action::Set as Monoid>::Set>,
    l: int,
    r: int,
    mapping: <Action::Map as Monoid>::Set,
) -> Map<int, <Action::Set as Monoid>::Set> {
    Map::new(
        |k: int| elements.contains_key(k),
        |k: int|
            if l <= k < r {
                Action::apply(mapping, elements[k], 1)
            } else {
                elements[k]
            },
    )
}

/// The fold over a span of which every position holds the identity element
/// is the identity element.
pub proof fn lemma_span_fold_identities<Query: Monoid>(
    elements: Map<int, Query::Set>,
    l: int,
    r: int,
)
    requires
        forall|k: int| l <= k < r ==> at::<Query>(elements, k) == Query::id(),
    ensures
        span_fold::<Query>(elements, l, r) == Query::id(),
    decreases r - l,
{
    if l < r {
        lemma_span_fold_identities::<Query>(elements, l, r - 1);
        Query::lemma_identity(Query::id());
    }
}

/// Acting on every element of a non-empty span is acting on its fold, with
/// the length of the span for the size.
pub proof fn lemma_span_fold_acted<Action: MonoidAction>(
    elements: Map<int, <Action::Set as Monoid>::Set>,
    after: Map<int, <Action::Set as Monoid>::Set>,
    l: int,
    r: int,
    mapping: <Action::Map as Monoid>::Set,
)
    requires
        l < r,
        forall|k: int|
            l <= k < r ==> at::<Action::Set>(after, k) == Action::apply(
                mapping,
                at::<Action::Set>(elements, k),
                1,
            ),
    ensures
        span_fold::<Action::Set>(after, l, r) == Action::apply(
            mapping,
            span_fold::<Action::Set>(elements, l, r),
            (r - l) as nat,
        ),
    decreases r - l,
{
    let last = at::<Action::Set>(elements, r - 1);
    if r - l == 1 {
        assert(span_fold::<Action::Set>(elements, l, r - 1) == <Action::Set as Monoid>::id());
        assert(span_fold::<Action::Set>(after, l, r - 1) == <Action::Set as Monoid>::id());
        <Action::Set as Monoid>::lemma_identity(last);
        <Action::Set as Monoid>::lemma_identity(Action::apply(mapping, last, 1));
    } else {
        lemma_span_fold_acted::<Action>(elements, after, l, r - 1, mapping);
        Action::lemma_act_distributes(
            mapping,
            span_fold::<Action::Set>(elements, l, r - 1),
            (r - 1 - l) as nat,
            last,
            1,
        );
    }
}

/// A slot of the arena: the combination of an interval of positions, and
/// the map that is applied to it already and to nothing below it yet.
struct Node<V, F> {
    element: V,
    update: F,
    left_ptr: Option<usize>,
    right_ptr: Option<usize>,
}

/// The element at `position` of the subtree at `ptr`, which owns the
/// interval `start..end`. A missing subtree holds identity elements.
spec fn value<Action: MonoidAction>(
    arena: Seq<Node<<Action::Set as Monoid>::Set, <Action::Map as Monoid>::Set>>,
    ptr: Option<usize>,
    start: int,
    end: int,
    position: int,
) -> <Action::Set as Monoid>::Set
    decreases end - start,
{
    match ptr {
        None => <Action::Set as Monoid>::id(),
        Some(p) => {
            if end - start <= 0 || p >= arena.len() {
                <Action::Set as Monoid>::id()
            } else if end - start == 1 {
                arena[p as int].element
            } else {
                let mid = midpoint(start, end);
                Action::apply(
                    arena[p as int].update,
                    if position < mid {
                        value::<Action>(arena, arena[p as int].left_ptr, start, mid, position)
                    } else {
                        value::<Action>(arena, arena[p as int].right_ptr, mid, end, position)
                    },
                    1,
                )
            }
        },
    }
}

/// The elements of the subtree at `ptr`, by position.
spec fn content<Action: MonoidAction>(
    arena: Seq<Node<<Action::Set as Monoid>::Set, <Action::Map as Monoid>::Set>>,
    ptr: Option<usize>,
    start: int,
    end: int,
) -> Map<int, <Action::Set as Monoid>::Set> {
    Map::new(|k: int| start <= k < end, |k: int| value::<Action>(arena, ptr, start, end, k))
}

/// The slots of the subtree at `ptr`.
spec fn slots<V, F>(arena: Seq<Node<V, F>>, ptr: Option<usize>, start: int, end: int) -> Set<int>
    decreases end - start,
{
    match ptr {
        None => Set::empty(),
        Some(p) => {
            if end - start <= 0 || p >= arena.len() {
                Set::empty()
            } else if end - start == 1 {
                Set::empty().insert(p as int)
            } else {
                let mid = midpoint(start, end);
                slots(arena, arena[p as int].left_ptr, start, mid).union(
                    slots(arena, arena[p as int].right_ptr, mid, end),
                ).insert(p as int)
            }
        },
    }
}

/// The subtree at `ptr` is sound: every slot holds the combination of the
/// elements of its interval, a child has a later slot than its parent, and
/// no slot is shared.
spec fn sound<Action: MonoidAction>(
    arena: Seq<Node<<Action::Set as Monoid>::Set, <Action::Map as Monoid>::Set>>,
    ptr: Option<usize>,
    start: int,
    end: int,
) -> bool
    decreases end - start,
{
    match ptr {
        None => true,
        Some(p) => {
            &&& p < arena.len()
            &&& start < end
            &&& arena[p as int].element == span_fold::<Action::Set>(
                content::<Action>(arena, ptr, start, end),
                start,
                end,
            )
            &&& if end - start <= 1 {
                arena[p as int].left_ptr is None && arena[p as int].right_ptr is None
            } else {
                let mid = midpoint(start, end);
                let left = arena[p as int].left_ptr;
                let right = arena[p as int].right_ptr;
                &&& left matches Some(c) ==> c > p
                &&& right matches Some(c) ==> c > p
                &&& sound::<Action>(arena, left, start, mid)
                &&& sound::<Action>(arena, right, mid, end)
                &&& slots(arena, left, start, mid).disjoint(slots(arena, right, mid, end))
            }
        },
    }
}

/// The slots of a sound subtree are slots of the arena, none before the
/// root of the subtree.
proof fn lemma_slots_bound<Action: MonoidAction>(
    arena: Seq<Node<<Action::Set as Monoid>::Set, <Action::Map as Monoid>::Set>>,
    ptr: Option<usize>,
    start: int,
    end: int,
    x: int,
)
    requires
        sound::<Action>(arena, ptr, start, end),
        slots(arena, ptr, start, end).contains(x),
    ensures
        ptr is Some,
        ptr.unwrap() <= x < arena.len(),
    decreases end - start,
{
    let p = ptr.unwrap();
    if end - start >= 2 && x != p {
        let mid = midpoint(start, end);
        if slots(arena, arena[p as int].left_ptr, start, mid).contains(x) {
            lemma_slots_bound::<Action>(arena, arena[p as int].left_ptr, start, mid, x);
        } else {
            lemma_slots_bound::<Action>(arena, arena[p as int].right_ptr, mid, end, x);
        }
    }
}

/// A subtree has the same elements and slots where the arena changes in
/// other slots only.
proof fn lemma_frame_value<Action: MonoidAction>(
    arena: Seq<Node<<Action::Set as Monoid>::Set, <Action::Map as Monoid>::Set>>,
    after: Seq<Node<<Action::Set as Monoid>::Set, <Action::Map as Monoid>::Set>>,
    ptr: Option<usize>,
    start: int,
    end: int,
    position: int,
)
    requires
        sound::<Action>(arena, ptr, start, end),
        arena.len() <= after.len(),
        forall|x: int| slots(arena, ptr, start, end).contains(x) ==> after[x] == arena[x],
    ensures
        value::<Action>(after, ptr, start, end, position) == value::<Action>(
            arena,
            ptr,
            start,
            end,
            position,
        ),
        slots(after, ptr, start, end) == slots(arena, ptr, start, end),
    decreases end - start,
{
    if ptr is Some {
        let p = ptr.unwrap();
        assert(slots(arena, ptr, start, end).contains(p as int));
        if end - start >= 2 {
            let mid = midpoint(start, end);
            lemma_frame_value::<Action>(arena, after, arena[p as int].left_ptr, start, mid, position);
            lemma_frame_value::<Action>(arena, after, arena[p as int].right_ptr, mid, end, position);
        }
    }
}

/// A sound subtree stays what it is where the arena changes in other slots
/// only.
proof fn lemma_frame<Action: MonoidAction>(
    arena: Seq<Node<<Action::Set as Monoid>::Set, <Action::Map as Monoid>::Set>>,
    after: Seq<Node<<Action::Set as Monoid>::Set, <Action::Map as Monoid>::Set>>,
    ptr: Option<usize>,
    start: int,
    end: int,
)
    requires
        sound::<Action>(arena, ptr, start, end),
        arena.len() <= after.len(),
        forall|x: int| slots(arena, ptr, start, end).contains(x) ==> after[x] == arena[x],
    ensures
        sound::<Action>(after, ptr, start, end),
        content::<Action>(after, ptr, start, end) == content::<Action>(arena, ptr, start, end),
        slots(after, ptr, start, end) == slots(arena, ptr, start, end),
    decreases end - start,
{
    assert forall|k: int| start <= k < end implies value::<Action>(after, ptr, start, end, k)
        == value::<Action>(arena, ptr, start, end, k) by {
        lemma_frame_value::<Action>(arena, after, ptr, start, end, k);
    }
    lemma_frame_value::<Action>(arena, after, ptr, start, end, start);
    assert(content::<Action>(after, ptr, start, end) =~= content::<Action>(arena, ptr, start, end));
    if ptr is Some {
        let p = ptr.unwrap();
        assert(slots(arena, ptr, start, end).contains(p as int));
        if end - start >= 2 {
            let mid = midpoint(start, end);
            lemma_frame::<Action>(arena, after, arena[p as int].left_ptr, start, mid);
            lemma_frame::<Action>(arena, after, arena[p as int].right_ptr, mid, end);
        }
    }
}

/// The fold of the elements of a subtree with two halves: the map of its
/// root applied to the combination of the folds of the halves.
proof fn lemma_halves<Action: MonoidAction>(
    arena: Seq<Node<<Action::Set as Monoid>::Set, <Action::Map as Monoid>::Set>>,
    p: usize,
    start: int,
    end: int,
)
    requires
        p < arena.len(),
        end - start >= 2,
    ensures
        span_fold::<Action::Set>(content::<Action>(arena, Some(p), start, end), start, end)
            == Action::apply(
            arena[p as int].update,
            <Action::Set as Monoid>::op(
                span_fold::<Action::Set>(
                    content::<Action>(arena, arena[p as int].left_ptr, start, midpoint(start, end)),
                    start,
                    midpoint(start, end),
                ),
                span_fold::<Action::Set>(
                    content::<Action>(arena, arena[p as int].right_ptr, midpoint(start, end), end),
                    midpoint(start, end),
                    end,
                ),
            ),
            (end - start) as nat,
        ),
{
    let mid = midpoint(start, end);
    let whole = content::<Action>(arena, Some(p), start, end);
    let lower = content::<Action>(arena, arena[p as int].left_ptr, start, mid);
    let upper = content::<Action>(arena, arena[p as int].right_ptr, mid, end);
    let f = arena[p as int].update;
    lemma_span_fold_split::<Action::Set>(whole, start, mid, end);
    lemma_span_fold_acted::<Action>(lower, whole, start, mid, f);
    lemma_span_fold_acted::<Action>(upper, whole, mid, end, f);
    Action::lemma_act_distributes(
        f,
        span_fold::<Action::Set>(lower, start, mid),
        (mid - start) as nat,
        span_fold::<Action::Set>(upper, mid, end),
        (end - mid) as nat,
    );
}

/// A span of a sequence made of two halves folds to the combination of the
/// folds of that span of each half.
proof fn lemma_span_fold_halves<Query: Monoid>(
    whole: Map<int, Query::Set>,
    lower: Map<int, Query::Set>,
    upper: Map<int, Query::Set>,
    start: int,
    mid: int,
    end: int,
    l: int,
    r: int,
)
    requires
        start <= mid <= end,
        forall|k: int| whole.contains_key(k) <==> start <= k < end,
        forall|k: int| lower.contains_key(k) <==> start <= k < mid,
        forall|k: int| upper.contains_key(k) <==> mid <= k < end,
        forall|k: int| start <= k < mid ==> whole[k] == lower[k],
        forall|k: int| mid <= k < end ==> whole[k] == upper[k],
    ensures
        span_fold::<Query>(whole, l, r) == Query::op(
            span_fold::<Query>(lower, l, r),
            span_fold::<Query>(upper, l, r),
        ),
{
    if l >= r {
        Query::lemma_identity(Query::id());
    } else {
        let cut = if mid < l {
            l
        } else if r < mid {
            r
        } else {
            mid
        };
        lemma_span_fold_split::<Query>(whole, l, cut, r);
        lemma_span_fold_agree::<Query>(whole, lower, l, cut);
        lemma_span_fold_agree::<Query>(whole, upper, cut, r);
        lemma_span_fold_split::<Query>(lower, l, cut, r);
        lemma_span_fold_split::<Query>(upper, l, cut, r);
        lemma_span_fold_empty::<Query>(lower, cut, r);
        lemma_span_fold_empty::<Query>(upper, l, cut);
        Query::lemma_identity(span_fold::<Query>(lower, l, cut));
        Query::lemma_identity(span_fold::<Query>(upper, cut, r));
    }
}

impl<V, F> Node<V, F> {
    fn get_left_ptr(&self) -> (ptr: Option<usize>)
        ensures
            ptr == self.left_ptr,
    {
        self.left_ptr
    }

    fn get_right_ptr(&self) -> (ptr: Option<usize>)
        ensures
            ptr == self.right_ptr,
    {
        self.right_ptr
    }

    /// Slot `0` is the root and no child: it clears the link.
    fn set_left_ptr(&mut self, ptr: usize)
        ensures
            final(self).left_ptr == (if ptr == 0 {
                None
            } else {
                Some(ptr)
            }),
            final(self).element == old(self).element,
            final(self).update == old(self).update,
            final(self).right_ptr == old(self).right_ptr,
    {
        self.left_ptr = if ptr == 0 {
            None
        } else {
            Some(ptr)
        };
    }

    /// Slot `0` is the root and no child: it clears the link.
    fn set_right_ptr(&mut self, ptr: usize)
        ensures
            final(self).right_ptr == (if ptr == 0 {
                None
            } else {
                Some(ptr)
            }),
            final(self).element == old(self).element,
            final(self).update == old(self).update,
            final(self).left_ptr == old(self).left_ptr,
    {
        self.right_ptr = if ptr == 0 {
            None
        } else {
            Some(ptr)
        };
    }
}

/// A slot without children that holds the identity element and the
/// identity map.
fn new_node<Action: MonoidAction>() -> (node: Node<
    <Action::Set as Monoid>::Set,
    <Action::Map as Monoid>::Set,
>)
    ensures
        node.element == <Action::Set as Monoid>::id(),
        node.update == <Action::Map as Monoid>::id(),
        node.left_ptr is None,
        node.right_ptr is None,
{
    Node {
        element: <Action::Set as Monoid>::identity(),
        update: <Action::Map as Monoid>::identity(),
        left_ptr: None,
        right_ptr: None,
    }
}

/// A slot without children that holds the identity element and the identity
/// map is a sound subtree of identity elements.
proof fn lemma_fresh<Action: MonoidAction>(
    arena: Seq<Node<<Action::Set as Monoid>::Set, <Action::Map as Monoid>::Set>>,
    c: usize,
    start: int,
    end: int,
)
    requires
        c < arena.len(),
        start < end,
        arena[c as int].element == <Action::Set as Monoid>::id(),
        arena[c as int].update == <Action::Map as Monoid>::id(),
        arena[c as int].left_ptr is None,
        arena[c as int].right_ptr is None,
    ensures
        sound::<Action>(arena, Some(c), start, end),
        content::<Action>(arena, Some(c), start, end) == content::<Action>(arena, None, start, end),
        slots(arena, Some(c), start, end) == Set::<int>::empty().insert(c as int),
{
    Action::lemma_act_identity(<Action::Set as Monoid>::id(), 1);
    let whole = content::<Action>(arena, Some(c), start, end);
    let mid = midpoint(start, end);
    assert forall|k: int| start <= k < end implies value::<Action>(arena, Some(c), start, end, k)
        == <Action::Set as Monoid>::id() by {
        assert(value::<Action>(arena, None, start, mid, k) == <Action::Set as Monoid>::id());
        assert(value::<Action>(arena, None, mid, end, k) == <Action::Set as Monoid>::id());
    }
    assert(whole =~= content::<Action>(arena, None, start, end));
    assert forall|k: int| start <= k < end implies at::<Action::Set>(whole, k)
        == <Action::Set as Monoid>::id() by {
        assert(whole[k] == value::<Action>(arena, Some(c), start, end, k));
    }
    lemma_span_fold_identities::<Action::Set>(whole, start, end);
    assert(arena[c as int].element == span_fold::<Action::Set>(whole, start, end));
    assert(sound::<Action>(arena, None, start, mid));
    assert(sound::<Action>(arena, None, mid, end));
    assert(slots(arena, None::<usize>, start, mid) =~= Set::<int>::empty());
    assert(slots(arena, None::<usize>, mid, end) =~= Set::<int>::empty());
    assert(slots(arena, Some(c), start, end) =~= Set::<int>::empty().insert(c as int));
}

/// The number of positions of a non-empty interval.
fn width(start: isize, end: isize) -> (len: usize)
    requires
        start < end,
    ensures
        len == end - start,
{
    (end as i128 - start as i128) as usize
}

/// The midpoint of a non-empty interval.
fn mid_of(start: isize, end: isize) -> (mid: isize)
    requires
        start < end,
    ensures
        mid == midpoint(start as int, end as int),
        end - start >= 2 ==> start < mid < end,
{
    let len = width(start, end);
    (start as i128 + (len / 2) as i128) as isize
}

/// A data structure that supports **range query, range update** operations
/// on an interval of signed positions that may be very long.
///
/// It represents the sequence `self@` of the elements at the positions of
/// the interval, all of which hold the identity element at first. An update
/// `f` of a range replaces every element `a` of the range by `f * a`.
///
/// The slot `0` of an arena is the root and owns the whole interval; the
/// children of a slot own the two halves of its interval, and are made when
/// an update or a query first has to tell them apart.
pub struct DynamicLazySegmentTree<Action: MonoidAction> {
    arena: Vec<Node<<Action::Set as Monoid>::Set, <Action::Map as Monoid>::Set>>,
    range: Range<isize>,
}

impl<Action: MonoidAction> View for DynamicLazySegmentTree<Action> {
    type V = Map<int, <Action::Set as Monoid>::Set>;

    /// The elements, by position.
    closed spec fn view(&self) -> Map<int, <Action::Set as Monoid>::Set> {
        content::<Action>(self.arena@, Some(0), self.range.start as int, self.range.end as int)
    }
}

impl<Action: MonoidAction> DynamicLazySegmentTree<Action> {
    /// The first position of the interval.
    pub closed spec fn start(&self) -> int {
        self.range.start as int
    }

    /// The position after the last one of the interval.
    pub closed spec fn end(&self) -> int {
        self.range.end as int
    }

    /// The interval is not empty, its length is a size that the action
    /// accepts, and the tree of slots is sound.
    pub closed spec fn wf(&self) -> bool {
        &&& self.range.start < self.range.end
        &&& Action::size_ok((self.range.end - self.range.start) as nat)
        &&& sound::<Action>(self.arena@, Some(0), self.range.start as int, self.range.end as int)
    }

    /// The sequence has an element at every position of the interval, and
    /// nowhere else.
    pub proof fn lemma_view_domain(&self, position: int)
        ensures
            self@.contains_key(position) <==> self.start() <= position < self.end(),
    {
    }

    /// Creates an instance over the positions `range`, all of which hold the
    /// identity element; `None` where `range` is empty.
    ///
    /// # Time complexity
    ///
    /// *O*(1)
    pub fn new(range: Range<isize>) -> (tree: Option<Self>)
        requires
            range.start < range.end ==> Action::size_ok((range.end - range.start) as nat),
        ensures
            tree is Some <==> range.start < range.end,
            tree matches Some(t) ==> {
                &&& t.wf()
                &&& t.start() == range.start
                &&& t.end() == range.end
                &&& forall|k: int| #[trigger] t@.contains_key(k) <==> range.start <= k < range.end
                &&& forall|k: int|
                    range.start <= k < range.end ==> #[trigger] t@[k] == <Action::Set as Monoid>::id()
            },
    {
        Self::with_capacity(range, 0)
    }

    /// Creates an instance over the positions `range`, all of which hold the
    /// identity element, with room for the slots of `capacity` updates;
    /// `None` where `range` is empty.
    ///
    /// # Time complexity
    ///
    /// *O*(1)
    pub fn with_capacity(range: Range<isize>, capacity: usize) -> (tree: Option<Self>)
        requires
            range.start < range.end ==> Action::size_ok((range.end - range.start) as nat),
        ensures
            tree is Some <==> range.start < range.end,
            tree matches Some(t) ==> {
                &&& t.wf()
                &&& t.start() == range.start
                &&& t.end() == range.end
                &&& forall|k: int| #[trigger] t@.contains_key(k) <==> range.start <= k < range.end
                &&& forall|k: int|
                    range.start <= k < range.end ==> #[trigger] t@[k] == <Action::Set as Monoid>::id()
            },
    {
        if range.start >= range.end {
            None
        } else {
            let levels = height(width(range.start, range.end)) + 1;
            let mut arena = match capacity.checked_mul(levels) {
                Some(slots) => Vec::with_capacity(slots),
                None => Vec::new(),
            };
            arena.push(new_node::<Action>());
            let tree = DynamicLazySegmentTree { arena, range };
            proof {
                lemma_fresh::<Action>(tree.arena@, 0, range.start as int, range.end as int);
            }
            Some(tree)
        }
    }

    /// Returns the number of positions of the interval.
    ///
    /// # Time complexity
    ///
    /// *O*(1)
    pub fn len(&self) -> (n: usize)
        requires
            self.wf(),
        ensures
            n == self.end() - self.start(),
    {
        width(self.range.start, self.range.end)
    }

    /// Makes sure that the slot `p` has its left child, and returns it.
    fn left_child(&mut self, p: usize, Ghost(start): Ghost<int>, Ghost(end): Ghost<int>) -> (c: usize)
        requires
            sound::<Action>(old(self).arena@, Some(p), start, end),
            end - start >= 2,
        ensures
            sound::<Action>(final(self).arena@, Some(p), start, end),
            final(self).arena@[p as int].left_ptr == Some(c),
            final(self).arena@[p as int].right_ptr == old(self).arena@[p as int].right_ptr,
            final(self).arena@[p as int].update == old(self).arena@[p as int].update,
            content::<Action>(final(self).arena@, Some(p), start, end) == content::<Action>(
                old(self).arena@,
                Some(p),
                start,
                end,
            ),
            final(self).range == old(self).range,
            final(self).arena.len() >= old(self).arena.len(),
            forall|x: int|
                0 <= x < old(self).arena.len() && x != p ==> final(self).arena@[x] == old(
                    self,
                ).arena@[x],
            forall|x: int|
                slots(final(self).arena@, Some(p), start, end).contains(x) ==> slots(
                    old(self).arena@,
                    Some(p),
                    start,
                    end,
                ).contains(x) || x >= old(self).arena.len(),
    {
        let ghost before = self.arena@;
        let ghost mid = midpoint(start, end);
        let ghost right = before[p as int].right_ptr;
        match self.arena[p].get_left_ptr() {
            Some(c) => c,
            None => {
                let c = self.arena.len();
                self.arena.push(new_node::<Action>());
                self.arena[p].set_left_ptr(c);
                proof {
                    let after = self.arena@;
                    assert forall|x: int| slots(before, right, mid, end).contains(x) implies after[x]
                        == before[x] by {
                        lemma_slots_bound::<Action>(before, right, mid, end, x);
                    }
                    lemma_frame::<Action>(before, after, right, mid, end);
                    lemma_fresh::<Action>(after, c, start, mid);
                    assert forall|k: int| start <= k < end implies value::<Action>(
                        after,
                        Some(p),
                        start,
                        end,
                        k,
                    ) == value::<Action>(before, Some(p), start, end, k) by {
                        if k < mid {
                            assert(content::<Action>(after, Some(c), start, mid)[k]
                                == content::<Action>(after, None, start, mid)[k]);
                            assert(value::<Action>(before, None, start, mid, k)
                                == <Action::Set as Monoid>::id());
                        } else {
                            lemma_frame_value::<Action>(before, after, right, mid, end, k);
                        }
                    }
                    assert(content::<Action>(after, Some(p), start, end) =~= content::<Action>(
                        before,
                        Some(p),
                        start,
                        end,
                    ));
                    assert forall|x: int| slots(before, right, mid, end).contains(x) implies x
                        != c by {
                        lemma_slots_bound::<Action>(before, right, mid, end, x);
                    }
                    assert(slots(before, None::<usize>, start, mid) =~= Set::<int>::empty());
                }
                c
            },
        }
    }

    /// Makes sure that the slot `p` has its right child, and returns it.
    fn right_child(&mut self, p: usize, Ghost(start): Ghost<int>, Ghost(end): Ghost<int>) -> (c: usize)
        requires
            sound::<Action>(old(self).arena@, Some(p), start, end),
            end - start >= 2,
        ensures
            sound::<Action>(final(self).arena@, Some(p), start, end),
            final(self).arena@[p as int].right_ptr == Some(c),
            final(self).arena@[p as int].left_ptr == old(self).arena@[p as int].left_ptr,
            final(self).arena@[p as int].update == old(self).arena@[p as int].update,
            content::<Action>(final(self).arena@, Some(p), start, end) == content::<Action>(
                old(self).arena@,
                Some(p),
                start,
                end,
            ),
            final(self).range == old(self).range,
            final(self).arena.len() >= old(self).arena.len(),
            forall|x: int|
                0 <= x < old(self).arena.len() && x != p ==> final(self).arena@[x] == old(
                    self,
                ).arena@[x],
            forall|x: int|
                slots(final(self).arena@, Some(p), start, end).contains(x) ==> slots(
                    old(self).arena@,
                    Some(p),
                    start,
                    end,
                ).contains(x) || x >= old(self).arena.len(),
    {
        let ghost before = self.arena@;
        let ghost mid = midpoint(start, end);
        let ghost left = before[p as int].left_ptr;
        match self.arena[p].get_right_ptr() {
            Some(c) => c,
            None => {
                let c = self.arena.len();
                self.arena.push(new_node::<Action>());
                self.arena[p].set_right_ptr(c);
                proof {
                    let after = self.arena@;
                    assert forall|x: int| slots(before, left, start, mid).contains(x) implies after[x]
                        == before[x] by {
                        lemma_slots_bound::<Action>(before, left, start, mid, x);
                    }
                    lemma_frame::<Action>(before, after, left, start, mid);
                    lemma_fresh::<Action>(after, c, mid, end);
                    assert forall|k: int| start <= k < end implies value::<Action>(
                        after,
                        Some(p),
                        start,
                        end,
                        k,
                    ) == value::<Action>(before, Some(p), start, end, k) by {
                        if k >= mid {
                            assert(content::<Action>(after, Some(c), mid, end)[k]
                                == content::<Action>(after, None, mid, end)[k]);
                            assert(value::<Action>(before, None, mid, end, k)
                                == <Action::Set as Monoid>::id());
                        } else {
                            lemma_frame_value::<Action>(before, after, left, start, mid, k);
                        }
                    }
                    assert(content::<Action>(after, Some(p), start, end) =~= content::<Action>(
                        before,
                        Some(p),
                        start,
                        end,
                    ));
                    assert forall|x: int| slots(before, left, start, mid).contains(x) implies x
                        != c by {
                        lemma_slots_bound::<Action>(before, left, start, mid, x);
                    }
                    assert(slots(before, None::<usize>, mid, end) =~= Set::<int>::empty());
                }
                c
            },
        }
    }

    /// Hands the map of the slot `p`, which owns the interval `start..end`,
    /// down to its two children, which it makes where they are missing.
    /// Returns the children.
    fn propagate_at(&mut self, p: usize, start: isize, end: isize) -> (children: (usize, usize))
        requires
            sound::<Action>(old(self).arena@, Some(p), start as int, end as int),
            end - start >= 2,
            Action::size_ok((end - start) as nat),
        ensures
            sound::<Action>(final(self).arena@, Some(p), start as int, end as int),
            final(self).arena@[p as int].left_ptr == Some(children.0),
            final(self).arena@[p as int].right_ptr == Some(children.1),
            final(self).arena@[p as int].update == <Action::Map as Monoid>::id(),
            content::<Action>(final(self).arena@, Some(p), start as int, end as int)
                == content::<Action>(old(self).arena@, Some(p), start as int, end as int),
            final(self).range == old(self).range,
            final(self).arena.len() >= old(self).arena.len(),
            forall|x: int|
                0 <= x < old(self).arena.len() && !slots(
                    old(self).arena@,
                    Some(p),
                    start as int,
                    end as int,
                ).contains(x) ==> final(self).arena@[x] == old(self).arena@[x],
            forall|x: int|
                slots(final(self).arena@, Some(p), start as int, end as int).contains(x) ==> slots(
                    old(self).arena@,
                    Some(p),
                    start as int,
                    end as int,
                ).contains(x) || x >= old(self).arena.len(),
    {
        let ghost s = start as int;
        let ghost e = end as int;
        let ghost mid0 = midpoint(s, e);
        let ghost arena0 = self.arena@;
        let l_ptr = self.left_child(p, Ghost(s), Ghost(e));
        let r_ptr = self.right_child(p, Ghost(s), Ghost(e));
        let ghost before = self.arena@;
        let ghost left = Some(l_ptr);
        let ghost right = Some(r_ptr);
        let ghost f = before[p as int].update;
        proof {
            assert(slots(arena0, Some(p), s, e).contains(p as int));
            assert forall|x: int| slots(before, left, s, mid0).contains(x) implies p < x
                < before.len() && slots(before, Some(p), s, e).contains(x) by {
                lemma_slots_bound::<Action>(before, left, s, mid0, x);
            }
            assert forall|x: int| slots(before, right, mid0, e).contains(x) implies p < x
                < before.len() && slots(before, Some(p), s, e).contains(x) by {
                lemma_slots_bound::<Action>(before, right, mid0, e, x);
            }
            Action::lemma_size_ok((e - s) as nat, (mid0 - s) as nat);
            Action::lemma_size_ok((e - s) as nat, (e - mid0) as nat);
        }
        let mut mapping = <Action::Map as Monoid>::identity();
        core::mem::swap(&mut self.arena[p].update, &mut mapping);
        let mid = mid_of(start, end);
        let ghost cleared = self.arena@;
        proof {
            lemma_frame::<Action>(before, cleared, left, s, mid0);
            lemma_frame::<Action>(before, cleared, right, mid0, e);
            assert(slots(cleared, left, s, mid0).contains(l_ptr as int));
            assert(slots(cleared, right, mid0, e).contains(r_ptr as int));
        }
        self.push_map(l_ptr, start, mid, &mapping);
        let ghost pushed = self.arena@;
        proof {
            lemma_frame::<Action>(cleared, pushed, right, mid0, e);
        }
        self.push_map(r_ptr, mid, end, &mapping);
        proof {
            let after = self.arena@;
            assert forall|x: int| slots(pushed, left, s, mid0).contains(x) implies after[x]
                == pushed[x] by {}
            lemma_frame::<Action>(pushed, after, left, s, mid0);
            let lower0 = content::<Action>(before, left, s, mid0);
            let upper0 = content::<Action>(before, right, mid0, e);
            let lower = content::<Action>(after, left, s, mid0);
            let upper = content::<Action>(after, right, mid0, e);
            assert(lower == acted::<Action>(lower0, s, mid0, f));
            assert(upper == acted::<Action>(upper0, mid0, e, f));
            assert forall|k: int| s <= k < e implies value::<Action>(after, Some(p), s, e, k)
                == value::<Action>(before, Some(p), s, e, k) by {
                if k < mid0 {
                    assert(lower[k] == Action::apply(f, lower0[k], 1));
                    Action::lemma_act_identity(lower[k], 1);
                } else {
                    assert(upper[k] == Action::apply(f, upper0[k], 1));
                    Action::lemma_act_identity(upper[k], 1);
                }
            }
            assert(content::<Action>(after, Some(p), s, e) =~= content::<Action>(
                before,
                Some(p),
                s,
                e,
            ));
        }
        (l_ptr, r_ptr)
    }

    /// Applies `update` to the elements at the positions `l..r` of the
    /// subtree at the slot `p`, which owns the interval `start..end`.
    fn update_at(
        &mut self,
        p: usize,
        start: isize,
        end: isize,
        l: isize,
        r: isize,
        update: &<Action::Map as Monoid>::Set,
    )
        requires
            sound::<Action>(old(self).arena@, Some(p), start as int, end as int),
            Action::size_ok((end - start) as nat),
        ensures
            sound::<Action>(final(self).arena@, Some(p), start as int, end as int),
            content::<Action>(final(self).arena@, Some(p), start as int, end as int)
                == acted::<Action>(
                content::<Action>(old(self).arena@, Some(p), start as int, end as int),
                l as int,
                r as int,
                *update,
            ),
            final(self).range == old(self).range,
            final(self).arena.len() >= old(self).arena.len(),
            forall|x: int|
                0 <= x < old(self).arena.len() && !slots(
                    old(self).arena@,
                    Some(p),
                    start as int,
                    end as int,
                ).contains(x) ==> final(self).arena@[x] == old(self).arena@[x],
            forall|x: int|
                slots(final(self).arena@, Some(p), start as int, end as int).contains(x) ==> slots(
                    old(self).arena@,
                    Some(p),
                    start as int,
                    end as int,
                ).contains(x) || x >= old(self).arena.len(),
        decreases end - start,
    {
        let ghost s = start as int;
        let ghost e = end as int;
        let ghost mid0 = midpoint(s, e);
        let ghost arena0 = self.arena@;
        let ghost whole0 = content::<Action>(arena0, Some(p), s, e);
        proof {
            assert(slots(arena0, Some(p), s, e).contains(p as int));
        }
        if r <= start || end <= l || l >= r {
            proof {
                assert(whole0 =~= acted::<Action>(whole0, l as int, r as int, *update));
            }
            return ;
        }
        if l <= start && end <= r {
            self.push_map(p, start, end, update);
            proof {
                assert(acted::<Action>(whole0, s, e, *update) =~= acted::<Action>(
                    whole0,
                    l as int,
                    r as int,
                    *update,
                ));
            }
            return ;
        }
        let (l_ptr, r_ptr) = self.propagate_at(p, start, end);
        let mid = mid_of(start, end);
        let ghost before = self.arena@;
        let ghost left = Some(l_ptr);
        let ghost right = Some(r_ptr);
        let ghost lower0 = content::<Action>(before, left, s, mid0);
        let ghost upper0 = content::<Action>(before, right, mid0, e);
        proof {
            assert(slots(before, Some(p), s, e).contains(p as int));
            assert forall|x: int| slots(before, left, s, mid0).contains(x) implies p < x
                < before.len() && slots(before, Some(p), s, e).contains(x) by {
                lemma_slots_bound::<Action>(before, left, s, mid0, x);
            }
            assert forall|x: int| slots(before, right, mid0, e).contains(x) implies p < x
                < before.len() && slots(before, Some(p), s, e).contains(x) by {
                lemma_slots_bound::<Action>(before, right, mid0, e, x);
            }
            Action::lemma_size_ok((e - s) as nat, (mid0 - s) as nat);
            Action::lemma_size_ok((e - s) as nat, (e - mid0) as nat);
        }
        if l < mid {
            self.update_at(l_ptr, start, mid, l, r, update);
        }
        let ghost half = self.arena@;
        proof {
            lemma_frame::<Action>(before, half, right, mid0, e);
            if l >= mid {
                assert(lower0 =~= acted::<Action>(lower0, l as int, r as int, *update));
            }
            assert forall|x: int| slots(half, left, s, mid0).contains(x) implies p < x
                < half.len() by {
                lemma_slots_bound::<Action>(half, left, s, mid0, x);
            }
        }
        if r > mid {
            self.update_at(r_ptr, mid, end, l, r, update);
        }
        let ghost both = self.arena@;
        proof {
            lemma_frame::<Action>(half, both, left, s, mid0);
            if r <= mid {
                assert(upper0 =~= acted::<Action>(upper0, l as int, r as int, *update));
            }
            assert forall|x: int| slots(both, right, mid0, e).contains(x) implies p < x
                < both.len() by {
                lemma_slots_bound::<Action>(both, right, mid0, e, x);
            }
        }
        let combined = <Action::Set as Monoid>::combine(
            &self.arena[l_ptr].element,
            &self.arena[r_ptr].element,
        );
        self.arena[p].element = combined;
        proof {
            let after = self.arena@;
            lemma_frame::<Action>(both, after, left, s, mid0);
            lemma_frame::<Action>(both, after, right, mid0, e);
            let lower = content::<Action>(after, left, s, mid0);
            let upper = content::<Action>(after, right, mid0, e);
            assert(lower == acted::<Action>(lower0, l as int, r as int, *update));
            assert(upper == acted::<Action>(upper0, l as int, r as int, *update));
            let whole = content::<Action>(after, Some(p), s, e);
            let target = acted::<Action>(whole0, l as int, r as int, *update);
            assert forall|k: int| s <= k < e implies #[trigger] whole[k] == target[k] by {
                assert(whole0[k] == value::<Action>(before, Some(p), s, e, k));
                if k < mid0 {
                    assert(lower[k] == acted::<Action>(lower0, l as int, r as int, *update)[k]);
                    Action::lemma_act_identity(lower[k], 1);
                    Action::lemma_act_identity(lower0[k], 1);
                } else {
                    assert(upper[k] == acted::<Action>(upper0, l as int, r as int, *update)[k]);
                    Action::lemma_act_identity(upper[k], 1);
                    Action::lemma_act_identity(upper0[k], 1);
                }
            }
            assert(whole =~= target);
            lemma_halves::<Action>(after, p, s, e);
            Action::lemma_act_identity(after[p as int].element, (e - s) as nat);
        }
    }

    /// Combines `acc` with the elements at the positions `l..r` of the
    /// subtree at the slot `p`, which owns the interval `start..end`.
    fn query_at(
        &mut self,
        p: usize,
        start: isize,
        end: isize,
        l: isize,
        r: isize,
        acc: <Action::Set as Monoid>::Set,
    ) -> (res: <Action::Set as Monoid>::Set)
        requires
            sound::<Action>(old(self).arena@, Some(p), start as int, end as int),
            Action::size_ok((end - start) as nat),
        ensures
            sound::<Action>(final(self).arena@, Some(p), start as int, end as int),
            content::<Action>(final(self).arena@, Some(p), start as int, end as int)
                == content::<Action>(old(self).arena@, Some(p), start as int, end as int),
            res == <Action::Set as Monoid>::op(
                acc,
                span_fold::<Action::Set>(
                    content::<Action>(old(self).arena@, Some(p), start as int, end as int),
                    l as int,
                    r as int,
                ),
            ),
            final(self).range == old(self).range,
            final(self).arena.len() >= old(self).arena.len(),
            forall|x: int|
                0 <= x < old(self).arena.len() && !slots(
                    old(self).arena@,
                    Some(p),
                    start as int,
                    end as int,
                ).contains(x) ==> final(self).arena@[x] == old(self).arena@[x],
            forall|x: int|
                slots(final(self).arena@, Some(p), start as int, end as int).contains(x) ==> slots(
                    old(self).arena@,
                    Some(p),
                    start as int,
                    end as int,
                ).contains(x) || x >= old(self).arena.len(),
        decreases end - start,
    {
        let ghost s = start as int;
        let ghost e = end as int;
        let ghost mid0 = midpoint(s, e);
        let ghost arena0 = self.arena@;
        let ghost whole = content::<Action>(arena0, Some(p), s, e);
        proof {
            assert(slots(arena0, Some(p), s, e).contains(p as int));
        }
        if r <= start || end <= l || l >= r {
            proof {
                lemma_span_fold_empty::<Action::Set>(whole, l as int, r as int);
                <Action::Set as Monoid>::lemma_identity(acc);
            }
            return acc;
        }
        if l <= start && end <= r {
            proof {
                lemma_span_fold_trim::<Action::Set>(whole, l as int, r as int, s, e);
            }
            return <Action::Set as Monoid>::combine(&acc, &self.arena[p].element);
        }
        let (l_ptr, r_ptr) = self.propagate_at(p, start, end);
        let mid = mid_of(start, end);
        let ghost before = self.arena@;
        let ghost left = Some(l_ptr);
        let ghost right = Some(r_ptr);
        let ghost lower = content::<Action>(before, left, s, mid0);
        let ghost upper = content::<Action>(before, right, mid0, e);
        let ghost part_l = span_fold::<Action::Set>(lower, l as int, r as int);
        let ghost part_r = span_fold::<Action::Set>(upper, l as int, r as int);
        proof {
            assert(slots(before, Some(p), s, e).contains(p as int));
            assert forall|x: int| slots(before, left, s, mid0).contains(x) implies p < x
                < before.len() && slots(before, Some(p), s, e).contains(x) by {
                lemma_slots_bound::<Action>(before, left, s, mid0, x);
            }
            assert forall|x: int| slots(before, right, mid0, e).contains(x) implies p < x
                < before.len() && slots(before, Some(p), s, e).contains(x) by {
                lemma_slots_bound::<Action>(before, right, mid0, e, x);
            }
            Action::lemma_size_ok((e - s) as nat, (mid0 - s) as nat);
            Action::lemma_size_ok((e - s) as nat, (e - mid0) as nat);
            assert forall|k: int| s <= k < e implies whole[k] == (if k < mid0 {
                lower[k]
            } else {
                upper[k]
            }) by {
                assert(whole[k] == value::<Action>(before, Some(p), s, e, k));
                if k < mid0 {
                    Action::lemma_act_identity(lower[k], 1);
                } else {
                    Action::lemma_act_identity(upper[k], 1);
                }
            }
            lemma_span_fold_halves::<Action::Set>(
                whole,
                lower,
                upper,
                s,
                mid0,
                e,
                l as int,
                r as int,
            );
        }
        let mut acc = acc;
        let ghost acc0 = acc;
        if l < mid {
            acc = self.query_at(l_ptr, start, mid, l, r, acc);
        }
        let ghost half = self.arena@;
        proof {
            lemma_frame::<Action>(before, half, right, mid0, e);
            if l >= mid {
                lemma_span_fold_empty::<Action::Set>(lower, l as int, r as int);
                <Action::Set as Monoid>::lemma_identity(acc0);
            }
            assert forall|x: int| slots(half, left, s, mid0).contains(x) implies p < x
                < half.len() by {
                lemma_slots_bound::<Action>(half, left, s, mid0, x);
            }
        }
        let ghost acc1 = acc;
        if r > mid {
            acc = self.query_at(r_ptr, mid, end, l, r, acc);
        }
        proof {
            let after = self.arena@;
            lemma_frame::<Action>(half, after, left, s, mid0);
            if r <= mid {
                lemma_span_fold_empty::<Action::Set>(upper, l as int, r as int);
                <Action::Set as Monoid>::lemma_identity(acc1);
            }
            <Action::Set as Monoid>::lemma_associative(acc0, part_l, part_r);
            assert forall|x: int| slots(after, right, mid0, e).contains(x) implies p < x
                < after.len() by {
                lemma_slots_bound::<Action>(after, right, mid0, e, x);
            }
            assert forall|k: int| s <= k < e implies value::<Action>(after, Some(p), s, e, k)
                == value::<Action>(before, Some(p), s, e, k) by {
                lemma_frame_value::<Action>(before, after, None, s, e, k);
                assert(content::<Action>(after, left, s, mid0) == lower);
                assert(content::<Action>(after, right, mid0, e) == upper);
                if k < mid0 {
                    assert(content::<Action>(after, left, s, mid0)[k] == lower[k]);
                } else {
                    assert(content::<Action>(after, right, mid0, e)[k] == upper[k]);
                }
            }
            assert(content::<Action>(after, Some(p), s, e) =~= whole);
        }
        acc
    }

    /// Updates the elements of the range: `a[i] <- update * a[i]`.
    ///
    /// # Time complexity
    ///
    /// *O*(log *N*)
    pub fn range_update<R: RangeArg<isize>>(&mut self, range: R,
        update: &<Action::Map as Monoid>::Set,
    )
        requires
            old(self).wf(),
            representable(range),
        ensures
            final(self).wf(),
            final(self).start() == old(self).start(),
            final(self).end() == old(self).end(),
            final(self)@ == acted::<Action>(
                old(self)@,
                signed_span_start(range.lower(), old(self).start() as isize),
                signed_span_end(range.upper(), old(self).end() as isize),
                *update,
            ),
    {
        let (l, r) = convert_signed_range(range, &self.range);
        if l >= r {
            proof {
                assert(self@ =~= acted::<Action>(self@, l as int, r as int, *update));
            }
            return ;
        }
        let start = self.range.start;
        let end = self.range.end;
        self.update_at(0, start, end, l, r, update);
    }

    /// Answers the query for the given range: the combination, in order, of
    /// the elements at its positions; the identity element where it is empty.
    ///
    /// # Time complexity
    ///
    /// *O*(log *N*)
    pub fn range_query<R: RangeArg<isize>>(&mut self, range: R) -> (combined: <
        Action::Set as Monoid
    >::Set)
        requires
            old(self).wf(),
            representable(range),
        ensures
            final(self).wf(),
            final(self).start() == old(self).start(),
            final(self).end() == old(self).end(),
            final(self)@ == old(self)@,
            combined == span_fold::<Action::Set>(
                old(self)@,
                signed_span_start(range.lower(), old(self).start() as isize),
                signed_span_end(range.upper(), old(self).end() as isize),
            ),
    {
        let (l, r) = convert_signed_range(range, &self.range);
        if l >= r {
            return <Action::Set as Monoid>::identity();
        }
        let start = self.range.start;
        let end = self.range.end;
        let res = self.query_at(0, start, end, l, r, <Action::Set as Monoid>::identity());
        proof {
            <Action::Set as Monoid>::lemma_identity(
                span_fold::<Action::Set>(old(self)@, l as int, r as int),
            );
        }
        res
    }

    /// Applies `update` to the slot `p`, which owns the interval
    /// `start..end`, and composes it into the map of the slot.
    fn push_map(&mut self, p: usize, start: isize, end: isize, update: &<Action::Map as Monoid>::Set)
        requires
            sound::<Action>(old(self).arena@, Some(p), start as int, end as int),
            Action::size_ok((end - start) as nat),
        ensures
            sound::<Action>(final(self).arena@, Some(p), start as int, end as int),
            content::<Action>(final(self).arena@, Some(p), start as int, end as int)
                == acted::<Action>(
                content::<Action>(old(self).arena@, Some(p), start as int, end as int),
                start as int,
                end as int,
                *update,
            ),
            slots(final(self).arena@, Some(p), start as int, end as int) == slots(
                old(self).arena@,
                Some(p),
                start as int,
                end as int,
            ),
            final(self).range == old(self).range,
            final(self).arena.len() == old(self).arena.len(),
            forall|x: int|
                0 <= x < old(self).arena.len() && x != p ==> final(self).arena@[x] == old(
                    self,
                ).arena@[x],
    {
        let ghost before = self.arena@;
        let ghost s = start as int;
        let ghost e = end as int;
        let ghost mid = midpoint(s, e);
        let ghost left = before[p as int].left_ptr;
        let ghost right = before[p as int].right_ptr;
        let size = width(start, end);
        let applied = Action::act(update, &self.arena[p].element, Some(size));
        self.arena[p].element = applied;
        let composed = <Action::Map as Monoid>::combine(update, &self.arena[p].update);
        self.arena[p].update = composed;
        proof {
            let after = self.arena@;
            let was = content::<Action>(before, Some(p), s, e);
            let now = content::<Action>(after, Some(p), s, e);
            if e - s >= 2 {
                assert forall|x: int| slots(before, left, s, mid).contains(x) implies after[x]
                    == before[x] by {
                    lemma_slots_bound::<Action>(before, left, s, mid, x);
                }
                assert forall|x: int| slots(before, right, mid, e).contains(x) implies after[x]
                    == before[x] by {
                    lemma_slots_bound::<Action>(before, right, mid, e, x);
                }
                lemma_frame::<Action>(before, after, left, s, mid);
                lemma_frame::<Action>(before, after, right, mid, e);
            }
            assert forall|k: int| s <= k < e implies #[trigger] now[k] == Action::apply(
                *update,
                was[k],
                1,
            ) by {
                if e - s >= 2 {
                    let below = if k < mid {
                        value::<Action>(before, left, s, mid, k)
                    } else {
                        value::<Action>(before, right, mid, e, k)
                    };
                    assert(content::<Action>(after, left, s, mid) == content::<Action>(
                        before,
                        left,
                        s,
                        mid,
                    ));
                    if k < mid {
                        assert(content::<Action>(after, left, s, mid)[k] == content::<Action>(
                            before,
                            left,
                            s,
                            mid,
                        )[k]);
                    } else {
                        assert(content::<Action>(after, right, mid, e)[k] == content::<Action>(
                            before,
                            right,
                            mid,
                            e,
                        )[k]);
                    }
                    Action::lemma_act_combine(*update, before[p as int].update, below, 1);
                }
            }
            assert(now =~= acted::<Action>(was, s, e, *update));
            lemma_span_fold_acted::<Action>(was, now, s, e, *update);
            assert(slots(after, Some(p), s, e) =~= slots(before, Some(p), s, e));
        }
    }
}

} // verus!
