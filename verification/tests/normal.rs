use rand::Rng;
use seg_lib::ops::{Add, Affine};
use seg_lib::SegmentTree;
use std::ops::Bound::{Excluded, Included};

fn template(n: usize) {
    let range_sum = SegmentTree::<Add<usize>>::from(Vec::from_iter(0..n));
    for i in 0..n {
        for j in i + 1..n {
            assert_eq!(
                range_sum.range_query(i..j),
                (i + j - 1) * (j - i) / 2
            )
        }
    }
}

#[test]
fn pow2() {
    for i in 0..5 {
        template(1 << i);
    }
}

#[test]
fn random() {
    let mut rng = rand::rng();
    for _ in 0..5 {
        template(rng.random_range(100..5_000));
    }
}

#[test]
fn ones() {
    const MAX_SIZE: isize = 200;
    const OFFSET: isize = 10;

    for size in 0..MAX_SIZE {
        let range_sum_query = SegmentTree::<Add<isize>>::from(vec![1; size as usize]);
        for start in 0..=size {
            for sum in -OFFSET..=size as isize + OFFSET {
                assert_eq!(
                    range_sum_query.partition_end(start as usize, |&v| v <= sum),
                    (start + sum).clamp(start, size) as usize,
                    "size: {size}, start: {start}, sum: {sum}"
                )
            }
        }
    }
}

fn naive_end(values: &Vec<u32>, start: usize, pred: impl Fn(&u32) -> bool) -> usize {
    let additional = values[start..]
        .iter()
        .scan(0, |acc, v| {
            *acc += v;
            Some(*acc)
        })
        .take_while(|v| pred(v))
        .count();
    start + additional
}

#[test]
fn zero_one() {
    const SIZE: u32 = 100;

    let mut rng = rand::rng();
    for size in 0..=SIZE {
        let values =
            Vec::from_iter(std::iter::repeat_with(|| rng.random_range(0..=1)).take(size as usize));
        let range_sum_query = SegmentTree::<Add<u32>>::from(values.clone());

        for start in 0..=size as usize {
            for sum in 0..=size {
                assert_eq!(
                    range_sum_query.partition_end(start, |v| *v < sum),
                    naive_end(&values, start, |v| *v < sum)
                )
            }
        }
    }
}

#[test]
fn normal_ones() {
    const MAX_SIZE: isize = 200;
    const OFFSET: isize = 10;

    for size in 0..MAX_SIZE {
        let range_sum_query = SegmentTree::<Add<isize>>::from(vec![1; size as usize]);
        for end in 0..=size {
            for sum in -OFFSET..=size as isize + OFFSET {
                assert_eq!(
                    range_sum_query.partition_start(end as usize, |&v| v <= sum),
                    (end - sum).clamp(0, end) as usize,
                    "size: {size}, end: {end}, sum: {sum}"
                )
            }
        }
    }
}

fn naive_start(values: &Vec<u32>, end: usize, pred: impl Fn(&u32) -> bool) -> usize {
    let additional = values[..end]
        .iter()
        .rev()
        .scan(0, |acc, v| {
            *acc += v;
            Some(*acc)
        })
        .take_while(|v| pred(v))
        .count();
    end - additional
}

#[test]
fn normal_zero_one() {
    const SIZE: u32 = 100;

    let mut rng = rand::rng();
    for size in 0..=SIZE {
        let values =
            Vec::from_iter(std::iter::repeat_with(|| rng.random_range(0..=1)).take(size as usize));
        let range_sum_query = SegmentTree::<Add<u32>>::from(values.clone());

        for end in 0..=size as usize {
            for sum in 0..=size {
                assert_eq!(
                    range_sum_query.partition_start(end, |v| *v <= sum),
                    naive_start(&values, end, |v| *v <= sum),
                    "size: {size}, end: {end}, sum: {sum}, vex: {values:?}"
                )
            }
        }
    }
}

#[test]
fn segment_tree_walkthrough() {
    let mut seg = SegmentTree::<Add<i32>>::from(Vec::from_iter(0..10));
    assert_eq!(seg.len(), 10);
    assert_eq!(seg.iter().sum::<i32>(), (0 + 9) * 10 / 2);

    seg.point_update(0, 100);
    assert_eq!(
        Vec::from_iter(seg.iter().copied()),
        vec![100, 1, 2, 3, 4, 5, 6, 7, 8, 9]
    );
    assert_eq!(seg.point_query(0), &100);
    assert_eq!(seg.range_query(..), 100 + (1 + 9) * 9 / 2);

    seg.point_update_with(5, |x| x * 2 + 7);
    assert_eq!(
        Vec::from_iter(seg.iter().copied()),
        vec![100, 1, 2, 3, 4, 17, 6, 7, 8, 9]
    );

    assert_eq!(seg.partition_end(0, |sum| *sum <= 120), 5);
    assert_eq!(seg.partition_start(8, |sum| *sum <= 100), 1);
}

#[test]
fn empty_tree_and_empty_ranges() {
    let empty = SegmentTree::<Add<i64>>::new(0);
    assert_eq!(empty.len(), 0);
    assert_eq!(empty.range_query(..), 0);
    assert_eq!(empty.partition_end(0, |_| true), 0);
    assert_eq!(empty.partition_start(0, |_| true), 0);

    let seg = SegmentTree::<Add<i64>>::from(vec![3, 4, 5]);
    assert_eq!(seg.range_query(2..2), 0);
    assert_eq!(seg.range_query(2..1), 0);
    assert_eq!(seg.range_query((Excluded(0), Included(2))), 9);
    assert_eq!(seg.range_query(..=1), 7);
    // the predicate fails at once, or holds to the end
    assert_eq!(seg.partition_end(1, |v| *v <= 3), 1);
    assert_eq!(seg.partition_end(1, |v| *v <= 100), 3);
    assert_eq!(seg.partition_start(2, |v| *v <= 3), 2);
    assert_eq!(seg.partition_start(2, |v| *v <= 100), 0);
}

#[test]
fn static_tree_matches_plain_array_in_order() {
    let compose = |f: [i64; 2], g: [i64; 2]| {
        [
            f[0].wrapping_mul(g[0]),
            f[0].wrapping_mul(g[1]).wrapping_add(f[1]),
        ]
    };
    let mut rng = rand::rng();
    for n in [1usize, 2, 3, 5, 8, 13, 64, 100] {
        let mut plain: Vec<[i64; 2]> = (0..n)
            .map(|_| [rng.random_range(-9..10), rng.random_range(-9..10)])
            .collect();
        let mut seg = SegmentTree::<Affine<i64>>::from(plain.clone());
        for _ in 0..300 {
            let i = rng.random_range(0..n);
            let f = [rng.random_range(-9..10), rng.random_range(-9..10)];
            seg.point_update(i, f);
            plain[i] = f;
            let l = rng.random_range(0..=n);
            let r = rng.random_range(0..=n);
            let expected = if l < r {
                plain[l..r].iter().fold([1, 0], |acc, f| compose(acc, *f))
            } else {
                [1, 0]
            };
            assert_eq!(seg.range_query(l..r), expected);
            assert_eq!(*seg.point_query(i), plain[i]);
        }
    }
}
