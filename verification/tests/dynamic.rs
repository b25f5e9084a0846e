use rand::Rng;
use seg_lib::ops::Add;
use seg_lib::{DynamicSegmentTree, Monoid};
use std::collections::BTreeMap;
use std::ops::Bound::{Excluded, Included};

/// Concatenation of strings: a monoid that is not commutative.
struct Concat;

impl Monoid for Concat {
    type Set = String;

    const IS_COMMUTATIVE: bool = false;

    fn id() -> String {
        Self::identity()
    }

    fn op(lhs: String, rhs: String) -> String {
        Self::combine(&lhs, &rhs)
    }

    fn identity() -> String {
        String::new()
    }

    fn combine(lhs: &String, rhs: &String) -> String {
        format!("{lhs}{rhs}")
    }

    fn lemma_associative(_a: String, _b: String, _c: String) {}

    fn lemma_identity(_a: String) {}

    fn lemma_commutative(_a: String, _b: String) {}
}

#[test]
fn empty_range_gives_no_instance() {
    assert!(DynamicSegmentTree::<Add<i64>>::new(0..0).is_none());
    assert!(DynamicSegmentTree::<Add<i64>>::new(5..-5).is_none());
    assert!(DynamicSegmentTree::<Add<i64>>::with_capacity(3..3, 10).is_none());
    assert!(DynamicSegmentTree::<Add<i64>>::new(-1..0).is_some());
}

#[test]
fn unwritten_positions_hold_the_identity() {
    let range = -1_000..5_000;
    let mut seg = DynamicSegmentTree::<Add<i32>>::new(range.clone()).unwrap();
    assert_eq!(seg.len(), range.len());
    assert_eq!(seg.range_query(..), 0);
    assert_eq!(seg.point_query(17), 0);

    seg.point_update(0, 42);
    seg.point_update(1_000, 21);
    seg.point_update(2_000, 10);
    assert_eq!(seg.len(), range.len());
    assert_eq!(seg.point_query(0), 42);
    assert_eq!(seg.point_query(1), 0);
    assert_eq!(seg.point_query(9_999), 0);
    assert_eq!(seg.range_query(..), 73);
    assert_eq!(seg.range_query(..1_000), 42);
    assert_eq!(seg.range_query((Excluded(0), Included(2_000))), 31);
    assert_eq!(seg.range_query(5..5), 0);

    seg.point_update(1_000, -1);
    assert_eq!(seg.range_query(..), 51);
}

#[test]
fn dynamic_matches_plain_map_in_order() {
    let mut rng = rand::rng();
    for (start, end) in [(-100isize, 100isize), (0, 1), (-7, -3), (3, 1_000), (-64, 64)] {
        let mut seg = DynamicSegmentTree::<Concat>::with_capacity(start..end, 50).unwrap();
        let mut plain: BTreeMap<isize, String> = BTreeMap::new();
        for step in 0..300 {
            let i = rng.random_range(start as i64..end as i64) as isize;
            let value = format!("<{step}>");
            seg.point_update(i, value.clone());
            plain.insert(i, value);

            let l = rng.random_range(start as i64 - 3..end as i64 + 3) as isize;
            let r = rng.random_range(start as i64 - 3..end as i64 + 3) as isize;
            let expected: String = if l < r {
                plain.range(l..r).map(|(_, v)| v.as_str()).collect()
            } else {
                String::new()
            };
            assert_eq!(seg.range_query(l..r), expected);
            let j = rng.random_range(start as i64..end as i64) as isize;
            assert_eq!(seg.point_query(j), plain.get(&j).cloned().unwrap_or_default());
        }
    }
}

#[test]
fn order_of_updates_does_not_matter() {
    let updates = [(-50isize, 9i64), (-40, 3), (-30, 7), (12, 5), (99, 1), (-100, 4)];
    let mut orders = vec![updates.to_vec()];
    let mut reversed = updates.to_vec();
    reversed.reverse();
    orders.push(reversed);
    let mut rotated = updates.to_vec();
    rotated.rotate_left(2);
    orders.push(rotated);

    let mut answers: Vec<Vec<i64>> = Vec::new();
    for order in orders {
        let mut seg = DynamicSegmentTree::<Add<i64>>::new(-100..100).unwrap();
        for (i, v) in order {
            seg.point_update(i, v);
        }
        let mut answer = Vec::new();
        for l in (-100..100).step_by(7) {
            for r in (-100..=100).step_by(11) {
                answer.push(seg.range_query(l..r));
            }
        }
        answers.push(answer);
    }
    assert_eq!(answers[0], answers[1]);
    assert_eq!(answers[0], answers[2]);
}
