use rand::Rng;
use seg_lib::{DynamicLazySegmentTree, Monoid, MonoidAction, Size};

/// Concatenation of strings: a monoid that is not commutative.
struct Concat;

impl Monoid for Concat {
    type Set = String;

    const IS_COMMUTATIVE: bool = false;

    fn id() -> String {
        Self::identity()
    }

    fn op(lhs: String, rhs: String) -> String {
        Self::combine(&lhs, &rhs)
    }

    fn identity() -> String {
        String::new()
    }

    fn combine(lhs: &String, rhs: &String) -> String {
        format!("{lhs}{rhs}")
    }

    fn lemma_associative(_a: String, _b: String, _c: String) {}

    fn lemma_identity(_a: String) {}

    fn lemma_commutative(_a: String, _b: String) {}
}

/// `Some(c)` writes the letter `c`; `f · g` is `g` first, then `f`.
struct Paint;

impl Monoid for Paint {
    type Set = Option<char>;

    const IS_COMMUTATIVE: bool = false;

    fn id() -> Option<char> {
        Self::identity()
    }

    fn op(lhs: Option<char>, rhs: Option<char>) -> Option<char> {
        Self::combine(&lhs, &rhs)
    }

    fn identity() -> Option<char> {
        None
    }

    fn combine(lhs: &Option<char>, rhs: &Option<char>) -> Option<char> {
        lhs.or(*rhs)
    }

    fn lemma_associative(_a: Option<char>, _b: Option<char>, _c: Option<char>) {}

    fn lemma_identity(_a: Option<char>) {}

    fn lemma_commutative(_a: Option<char>, _b: Option<char>) {}
}

/// Writes the letter to every position of a segment: the text of a segment
/// of `size` positions becomes the letter `size` times.
struct LetterAt;

impl MonoidAction for LetterAt {
    type Map = Paint;
    type Set = Concat;

    const USE_SEGMENT_SIZE: bool = true;

    fn size_ok(_size: Size) -> bool {
        true
    }

    fn apply(mapping: Option<char>, element: String, _size: Size) -> String {
        Self::act(&mapping, &element, Some(1))
    }

    fn act(mapping: &Option<char>, element: &String, size: Option<usize>) -> String {
        match mapping {
            Some(c) => std::iter::repeat_n(*c, size.unwrap()).collect(),
            None => element.clone(),
        }
    }

    fn lemma_size_ok(_size: Size, _smaller: Size) {}

    fn lemma_size_unused(_mapping: Option<char>, _element: String, _size: Size, _other: Size) {}

    fn lemma_act_combine(_f: Option<char>, _g: Option<char>, _element: String, _size: Size) {}

    fn lemma_act_identity(_element: String, _size: Size) {}

    fn lemma_act_distributes(
        _mapping: Option<char>,
        _a: String,
        _size_a: Size,
        _b: String,
        _size_b: Size,
    ) {
    }
}

struct Sum;

impl Monoid for Sum {
    type Set = i64;

    const IS_COMMUTATIVE: bool = true;

    fn id() -> i64 {
        Self::identity()
    }

    fn op(lhs: i64, rhs: i64) -> i64 {
        Self::combine(&lhs, &rhs)
    }

    fn identity() -> i64 {
        0
    }

    fn combine(lhs: &i64, rhs: &i64) -> i64 {
        lhs + rhs
    }

    fn lemma_associative(_a: i64, _b: i64, _c: i64) {}

    fn lemma_identity(_a: i64) {}

    fn lemma_commutative(_a: i64, _b: i64) {}
}

struct AddToSum;

impl MonoidAction for AddToSum {
    type Map = Sum;
    type Set = Sum;

    const USE_SEGMENT_SIZE: bool = true;

    fn size_ok(_size: Size) -> bool {
        true
    }

    fn apply(mapping: i64, element: i64, _size: Size) -> i64 {
        Self::act(&mapping, &element, Some(1))
    }

    fn act(mapping: &i64, element: &i64, size: Option<usize>) -> i64 {
        element + mapping * size.unwrap() as i64
    }

    fn lemma_size_ok(_size: Size, _smaller: Size) {}

    fn lemma_size_unused(_mapping: i64, _element: i64, _size: Size, _other: Size) {}

    fn lemma_act_combine(_f: i64, _g: i64, _element: i64, _size: Size) {}

    fn lemma_act_identity(_element: i64, _size: Size) {}

    fn lemma_act_distributes(
        _mapping: i64,
        _a: i64,
        _size_a: Size,
        _b: i64,
        _size_b: Size,
    ) {
    }
}

#[test]
fn empty_domain_gives_no_instance() {
    assert!(DynamicLazySegmentTree::<AddToSum>::new(0..0).is_none());
    assert!(DynamicLazySegmentTree::<AddToSum>::with_capacity(4..-4, 3).is_none());
    assert!(DynamicLazySegmentTree::<AddToSum>::new(-4..4).is_some());
}

#[test]
fn range_add_range_sum_on_a_large_domain() {
    let range = -1_000_000_000..1_000_000_000;
    let mut seg = DynamicLazySegmentTree::<AddToSum>::new(range.clone()).unwrap();
    assert_eq!(seg.len(), range.len());
    assert_eq!(seg.range_query(..), 0);

    seg.range_update(.., &1);
    assert_eq!(seg.range_query(..), 2_000_000_000);
    seg.range_update(-10..10, &5);
    assert_eq!(seg.range_query(-10..=-10), 6);
    assert_eq!(seg.range_query(-11..=-11), 1);
    assert_eq!(seg.range_query(-20..20), 40 + 100);
    assert_eq!(seg.range_query(7..7), 0);
}

#[test]
fn dynamic_lazy_matches_plain_array() {
    let mut rng = rand::rng();
    for (start, end) in [(-50isize, 50isize), (0, 1), (-9, -2), (5, 70)] {
        let n = (end - start) as usize;
        let mut plain = vec![0i64; n];
        let mut seg = DynamicLazySegmentTree::<AddToSum>::with_capacity(start..end, 10).unwrap();
        for _ in 0..300 {
            let l = rng.random_range(start as i64..=end as i64) as isize;
            let r = rng.random_range(start as i64..=end as i64) as isize;
            if rng.random_range(0..2) == 0 {
                let f = rng.random_range(-100..100);
                seg.range_update(l..r, &f);
                for p in l..r.max(l) {
                    plain[(p - start) as usize] += f;
                }
            } else {
                let expected: i64 = if l < r {
                    plain[(l - start) as usize..(r - start) as usize].iter().sum()
                } else {
                    0
                };
                assert_eq!(seg.range_query(l..r), expected);
            }
        }
    }
}

#[test]
fn queries_combine_in_order() {
    // writes one letter to each position, then reads spans back
    let mut rng = rand::rng();
    let (start, end) = (-20isize, 45isize);
    let mut seg = DynamicLazySegmentTree::<LetterAt>::new(start..end).unwrap();
    let mut plain = vec![String::new(); (end - start) as usize];
    for _ in 0..200 {
        let l = rng.random_range(start as i64..=end as i64) as isize;
        let r = rng.random_range(start as i64..=end as i64) as isize;
        if rng.random_range(0..3) > 0 {
            let c = rng.random_range(b'a'..=b'z') as char;
            seg.range_update(l..r, &Some(c));
            for p in l..r.max(l) {
                plain[(p - start) as usize] = c.to_string();
            }
        } else {
            let expected: String = if l < r {
                plain[(l - start) as usize..(r - start) as usize].concat()
            } else {
                String::new()
            };
            assert_eq!(seg.range_query(l..r), expected);
        }
    }
}
