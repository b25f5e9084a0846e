//! Range arguments.
//!
//! A range is given by its two bounds, each inclusive, exclusive or absent,
//! and is normalised to a half-open span `start..end`. The range expressions
//! of the language (`a..b`, `a..=b`, `..b`, `..` and so on) and pairs of
//! bounds are range arguments.

use vstd::prelude::*;
use std::ops::{Bound, Range, RangeFrom, RangeFull, RangeInclusive, RangeTo, RangeToInclusive};
use vstd::arithmetic::power2::{pow2, lemma_pow2_pos, lemma_pow2_unfold};
use crate::bits::{strip_width, lemma_pow2_values};

verus! {

/// `std::ops::Bound`: an inclusive, an exclusive or no bound.
#[verifier::external_type_specification]
#[verifier::reject_recursive_types(T)]
pub struct ExBound<T>(Bound<T>);

/// `std::ops::RangeFrom`, the type of `start..`, with its field `start`.
#[verifier::external_type_specification]
#[verifier::reject_recursive_types(Idx)]
pub struct ExRangeFrom<Idx>(RangeFrom<Idx>);

/// `std::ops::RangeTo`, the type of `..end`, with its field `end`.
#[verifier::external_type_specification]
#[verifier::reject_recursive_types(Idx)]
pub struct ExRangeTo<Idx>(RangeTo<Idx>);

/// `std::ops::RangeToInclusive`, the type of `..=end`, with its field `end`.
#[verifier::external_type_specification]
#[verifier::reject_recursive_types(Idx)]
pub struct ExRangeToInclusive<Idx>(RangeToInclusive<Idx>);

/// `std::ops::RangeFull`, the type of `..`.
#[verifier::external_type_specification]
pub struct ExRangeFull(RangeFull);

/// A range of positions, given by its two bounds.
pub trait RangeArg<T> {
    /// The bound at which the range starts.
    spec fn lower(&self) -> Bound<T>;

    /// The bound at which the range ends.
    spec fn upper(&self) -> Bound<T>;

    /// Returns the two bounds.
    fn bounds(&self) -> (b: (Bound<T>, Bound<T>))
        ensures
            b == (self.lower(), self.upper()),
    ;
}

impl<T: Copy> RangeArg<T> for (Bound<T>, Bound<T>) {
    open spec fn lower(&self) -> Bound<T> {
        self.0
    }

    open spec fn upper(&self) -> Bound<T> {
        self.1
    }

    fn bounds(&self) -> (b: (Bound<T>, Bound<T>)) {
        (self.0, self.1)
    }
}

impl<T: Copy> RangeArg<T> for Range<T> {
    open spec fn lower(&self) -> Bound<T> {
        Bound::Included(self.start)
    }

    open spec fn upper(&self) -> Bound<T> {
        Bound::Excluded(self.end)
    }

    fn bounds(&self) -> (b: (Bound<T>, Bound<T>)) {
        (Bound::Included(self.start), Bound::Excluded(self.end))
    }
}

impl<T: Copy> RangeArg<T> for RangeFrom<T> {
    open spec fn lower(&self) -> Bound<T> {
        Bound::Included(self.start)
    }

    open spec fn upper(&self) -> Bound<T> {
        Bound::Unbounded
    }

    fn bounds(&self) -> (b: (Bound<T>, Bound<T>)) {
        (Bound::Included(self.start), Bound::Unbounded)
    }
}

impl<T: Copy> RangeArg<T> for RangeTo<T> {
    open spec fn lower(&self) -> Bound<T> {
        Bound::Unbounded
    }

    open spec fn upper(&self) -> Bound<T> {
        Bound::Excluded(self.end)
    }

    fn bounds(&self) -> (b: (Bound<T>, Bound<T>)) {
        (Bound::Unbounded, Bound::Excluded(self.end))
    }
}

impl<T: Copy> RangeArg<T> for RangeToInclusive<T> {
    open spec fn lower(&self) -> Bound<T> {
        Bound::Unbounded
    }

    open spec fn upper(&self) -> Bound<T> {
        Bound::Included(self.end)
    }

    fn bounds(&self) -> (b: (Bound<T>, Bound<T>)) {
        (Bound::Unbounded, Bound::Included(self.end))
    }
}

impl<T: Copy> RangeArg<T> for RangeFull {
    open spec fn lower(&self) -> Bound<T> {
        Bound::Unbounded
    }

    open spec fn upper(&self) -> Bound<T> {
        Bound::Unbounded
    }

    fn bounds(&self) -> (b: (Bound<T>, Bound<T>)) {
        (Bound::Unbounded, Bound::Unbounded)
    }
}

/// Reads the bounds of `start..=end` with `RangeBounds::start_bound` and
/// `RangeBounds::end_bound`: the start is inclusive, and the end is
/// inclusive unless the range has been iterated to exhaustion, after which
/// it is exclusive.
#[verifier::external_body]
fn inclusive_bounds<T: Copy>(range: &RangeInclusive<T>) -> (b: (Bound<T>, Bound<T>))
    ensures
        b.0 == Bound::Included(range@.start),
        b.1 == (if range@.exhausted {
            Bound::Excluded(range@.end)
        } else {
            Bound::Included(range@.end)
        }),
{
    (
        std::ops::RangeBounds::start_bound(range).cloned(),
        std::ops::RangeBounds::end_bound(range).cloned(),
    )
}

impl<T: Copy> RangeArg<T> for RangeInclusive<T> {
    open spec fn lower(&self) -> Bound<T> {
        Bound::Included(self@.start)
    }

    open spec fn upper(&self) -> Bound<T> {
        if self@.exhausted {
            Bound::Excluded(self@.end)
        } else {
            Bound::Included(self@.end)
        }
    }

    fn bounds(&self) -> (b: (Bound<T>, Bound<T>)) {
        inclusive_bounds(self)
    }
}

/// The first index of the span that begins at `bound`; `unbounded` where the
/// bound is absent.
pub open spec fn span_start(bound: Bound<usize>, unbounded: usize) -> int {
    match bound {
        Bound::Included(start) => start as int,
        Bound::Excluded(start) => start + 1,
        Bound::Unbounded => unbounded as int,
    }
}

/// The index after the last one of the span that ends at `bound`;
/// `unbounded` where the bound is absent.
pub open spec fn span_end(bound: Bound<usize>, unbounded: usize) -> int {
    match bound {
        Bound::Included(end) => end + 1,
        Bound::Excluded(end) => end as int,
        Bound::Unbounded => unbounded as int,
    }
}

/// The first position of the span that begins at `bound`, among signed
/// positions; `unbounded` where the bound is absent.
pub open spec fn signed_span_start(bound: Bound<isize>, unbounded: isize) -> int {
    match bound {
        Bound::Included(start) => start as int,
        Bound::Excluded(start) => start + 1,
        Bound::Unbounded => unbounded as int,
    }
}

/// The position after the last one of the span that ends at `bound`, among
/// signed positions; `unbounded` where the bound is absent.
pub open spec fn signed_span_end(bound: Bound<isize>, unbounded: isize) -> int {
    match bound {
        Bound::Included(end) => end + 1,
        Bound::Excluded(end) => end as int,
        Bound::Unbounded => unbounded as int,
    }
}

/// Both ends of the span of `given` are positions: an exclusive start or
/// inclusive end is less than `isize::MAX`.
pub open spec fn representable<R: RangeArg<isize>>(given: R) -> bool {
    &&& signed_span_start(given.lower(), 0) <= isize::MAX
    &&& signed_span_end(given.upper(), 0) <= isize::MAX
}

/// Converts a range of signed positions into the half-open span it denotes,
/// absent bounds being those of `outer`.
pub fn convert_signed_range<R: RangeArg<isize>>(given: R, outer: &Range<isize>) -> (span: (
    isize,
    isize,
))
    requires
        representable(given),
    ensures
        span.0 == signed_span_start(given.lower(), outer.start),
        span.1 == signed_span_end(given.upper(), outer.end),
{
    let given = given.bounds();
    let start = match given.0 {
        Bound::Included(start) => start,
        Bound::Excluded(start) => start + 1,
        Bound::Unbounded => outer.start,
    };
    let end = match given.1 {
        Bound::Excluded(end) => end,
        Bound::Included(end) => end + 1,
        Bound::Unbounded => outer.end,
    };
    (start, end)
}

/// The span of `given` lies within `0..len`. It may be empty, also by
/// ending before it starts.
pub open spec fn within<R: RangeArg<usize>>(given: R, len: usize) -> bool {
    &&& span_start(given.lower(), 0) <= usize::MAX
    &&& span_end(given.upper(), len) <= len
}

/// Converts a range into the half-open span it denotes, absent bounds being
/// those of `outer`.
///
/// The span must lie within `outer`, and an exclusive start or inclusive end
/// must be less than `usize::MAX`.
pub fn convert_range<R: RangeArg<usize>>(given: R, outer: Range<usize>) -> (span: Range<usize>)
    requires
        outer.start <= span_start(given.lower(), outer.start) <= usize::MAX,
        span_end(given.upper(), outer.end) <= outer.end,
    ensures
        span.start == span_start(given.lower(), outer.start),
        span.end == span_end(given.upper(), outer.end),
{
    let given = given.bounds();
    let start = match given.0 {
        Bound::Included(start) => start,
        Bound::Excluded(start) => start + 1,
        Bound::Unbounded => outer.start,
    };
    let end = match given.1 {
        Bound::Excluded(end) => end,
        Bound::Included(end) => end + 1,
        Bound::Unbounded => outer.end,
    };
    start..end
}

/// The smallest power of two that is not less than `x`.
pub open spec fn ceil_pow2(x: nat) -> nat
    decreases x,
{
    if x <= 1 {
        1
    } else {
        2 * ceil_pow2((x + 1) / 2)
    }
}

/// The largest power of two that divides `x`; `0` for `0`.
pub open spec fn low_bit(x: nat) -> nat
    decreases x,
{
    if x == 0 {
        0
    } else if x % 2 == 1 {
        1
    } else {
        2 * low_bit(x / 2)
    }
}

proof fn lemma_ceil_pow2(x: nat, k: nat)
    requires
        x <= pow2(k),
        pow2(k) < 2 * x || pow2(k) == 1,
    ensures
        ceil_pow2(x) == pow2(k),
    decreases k,
{
    lemma_pow2_values();
    if k == 0 {
    } else {
        lemma_pow2_unfold(k);
        lemma_pow2_pos((k - 1) as nat);
        lemma_ceil_pow2((x + 1) / 2, (k - 1) as nat);
    }
}

proof fn lemma_low_bit(x: nat, m: nat, t: nat)
    requires
        m % 2 == 1,
        x == m * pow2(t),
    ensures
        low_bit(x) == pow2(t),
    decreases t,
{
    lemma_pow2_values();
    if t == 0 {
        assert(m * 1 == m);
    } else {
        lemma_pow2_unfold(t);
        let p = pow2((t - 1) as nat);
        assert(m * (2 * p) == 2 * (m * p)) by (nonlinear_arith);
        lemma_low_bit(x / 2, m, (t - 1) as nat);
    }
}

/// The smallest power of two that is not less than `x`.
pub(crate) fn next_power_of_two(x: usize) -> (r: usize)
    requires
        x - 1 <= usize::MAX / 2,
    ensures
        r == ceil_pow2(x as nat),
        x <= r,
        r < 2 * x || r == 1,
{
    let mut p: usize = 1;
    let ghost mut k: nat = 0;
    proof {
        lemma_pow2_values();
    }
    while p < x
        invariant
            x - 1 <= usize::MAX / 2,
            p == pow2(k),
            p >= 1,
            p < 2 * x || p == 1,
        decreases 2 * x - p,
    {
        proof {
            lemma_pow2_unfold(k + 1);
            k = k + 1;
        }
        p = 2 * p;
    }
    proof {
        lemma_ceil_pow2(x as nat, k);
    }
    p
}

/// Returns the largest index of a node whose number of elements is not a
/// power of two, in a tree of `len_plus_offset / 2` elements laid out in
/// `len_plus_offset` nodes; `0` where there is none such.
///
/// With `p` the smallest power of two not less than `len_plus_offset` and
/// `b` the largest one that divides `len_plus_offset - p / 2`, that is
/// `(len_plus_offset - 1) / 2b`.
pub fn min_invalid_index(len_plus_offset: usize) -> (index: usize)
    requires
        0 < len_plus_offset,
        len_plus_offset - 1 <= usize::MAX / 2,
    ensures
        index == (len_plus_offset - 1) / (2 * low_bit(
            (len_plus_offset - ceil_pow2(len_plus_offset as nat) / 2) as nat,
        )) as int,
{
    let p = next_power_of_two(len_plus_offset);
    let bottom_len = len_plus_offset - p / 2;
    let (m, w, Ghost(t)) = strip_width(bottom_len);
    proof {
        lemma_pow2_pos(t);
        assert(w <= m * pow2(t)) by (nonlinear_arith)
            requires
                m >= 1,
                w == pow2(t),
        ;
        lemma_low_bit(bottom_len as nat, m as nat, t);
    }
    (len_plus_offset - 1) / (2 * w)
}

} // verus!
