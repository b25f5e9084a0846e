use seg_lib::acts::{AddQueryAddUpdate, AddQueryAffineUpdate, AddQueryMulUpdate};
use seg_lib::ops::{Add, Affine, AssignOr, Max, Min, Mul, GCD, LCM};
use seg_lib::{
    DualSegmentTree, DynamicSegmentTree, LazySegmentTree, Monoid, MonoidAction, SegmentTree,
};

#[test]
fn dual_tree_composes_affine_maps() {
    let mut seg = DualSegmentTree::<Affine<i32>>::new(100);
    assert_eq!(seg.len(), 100);
    assert!(seg.iter().all(|e| *e == Affine::<i32>::identity()));

    seg.range_update(..75, &[2, 3]); // ax + b -> 2(ax + b) + 3
    seg.range_update(25.., &[5, 7]); // ax + b -> 5(ax + b) + 7

    assert_eq!(seg.point_query(50), [10, 22]);
    assert_eq!(seg.point_query_with(75, |[a, b]| a * 100 + b), 507);
    assert_eq!(seg.point_query(0), [2, 3]);
    // every position of the overlap has both maps, in the order they came
    for i in 25..75 {
        assert_eq!(seg.point_query(i), [10, 22]);
    }

    seg.point_update(50, &[0, 100]); // ax + b -> 0(ax + b) + 100
    assert_eq!(seg.point_query(50), [0, 100]);
}

#[test]
fn lazy_tree_range_affine_range_sum() {
    const MOD: u64 = 998_244_353;
    let mut seg = LazySegmentTree::<AddQueryAffineUpdate<u64>>::from(Vec::from_iter(0..100));

    seg.range_update(.., &[2, 0]);
    seg.range_update(50..=75, &[3, 0]);

    assert_eq!(
        seg.range_query(..50),
        (0..50).map(|i| 2 * i).sum::<u64>()
    );
    assert_eq!(
        seg.range_query(50..=75),
        (50..=75).map(|i| 6 * i).sum::<u64>() % MOD
    );
}

#[test]
fn dynamic_tree_with_lcm() {
    let mut seg = DynamicSegmentTree::<LCM<u32>>::new(-100..100).unwrap();

    seg.point_update(-50, 9);
    seg.point_update(-40, 3);
    seg.point_update(-30, 7);

    assert_eq!(seg.range_query(..), 63);
    assert_eq!(seg.range_query(0..), 1);
    assert_eq!(seg.range_query(..=-40), 9);
}

#[test]
fn lazy_tree_range_multiply_range_sum() {
    let mut seg = LazySegmentTree::<AddQueryMulUpdate<i32>>::from(Vec::from_iter(0..100));
    assert_eq!(seg.len(), 100);
    assert_eq!(Vec::from_iter(seg.iter().copied()), Vec::from_iter(0..100));

    seg.range_update(.., &2);
    seg.range_update(50..=75, &3);

    assert_eq!(seg.range_query(..50), (0..50).map(|i| 2 * i).sum());
    assert_eq!(
        seg.range_query(50..=75),
        (50..=75).map(|i| 6 * i).sum()
    );

    seg.point_update(50, &100);
    assert_eq!(seg.point_query(50), &30_000);
}

#[test]
fn commutative_maps_need_no_propagation() {
    // updates that overlap above and below each other, queried in between
    for n in [1usize, 2, 3, 6, 7, 16, 37] {
        let mut plain = vec![0i64; n];
        let mut seg = LazySegmentTree::<AddQueryAddUpdate<i64>>::new(n);
        let mut step = 0i64;
        for l in 0..n {
            for r in l..=n {
                step += 1;
                seg.range_update(l..r, &step);
                for p in l..r {
                    plain[p] += step;
                }
                let (a, b) = ((l * 7 + r) % n, n - (r * 3 + l) % n);
                let expected: i64 = if a < b { plain[a..b].iter().sum() } else { 0 };
                assert_eq!(seg.range_query(a..b), expected);
            }
        }
        assert_eq!(Vec::from_iter(seg.iter().copied()), plain);
    }
}

#[test]
fn segment_size_is_converted_for_the_action() {
    // adding 3 to each of 5 elements adds 15 to their sum
    assert_eq!(AddQueryAddUpdate::<i32>::act(&3, &100, Some(5)), 115);
    assert_eq!(AddQueryAddUpdate::<u64>::act(&3, &100, Some(5)), 115);
    assert_eq!(AddQueryAddUpdate::<i64>::act(&-3, &100, Some(5)), 85);
    assert_eq!(AddQueryAddUpdate::<u32>::act(&3, &100, Some(1)), 103);
    // x -> 2x + 3 on 5 elements that sum to 100
    assert_eq!(AddQueryAffineUpdate::<i32>::act(&[2, 3], &100, Some(5)), 215);
    assert_eq!(AddQueryAffineUpdate::<u32>::act(&[2, 3], &100, Some(5)), 215);
    assert_eq!(AddQueryAffineUpdate::<i64>::act(&[2, 3], &100, Some(5)), 215);
    assert_eq!(AddQueryAffineUpdate::<u64>::act(&[2, 3], &100, Some(5)), 215);
    assert_eq!(AddQueryMulUpdate::<i64>::act(&7, &6, None), 42);
}

#[test]
fn action_laws_on_samples() {
    let maps = [[1i64, 0], [2, 3], [5, 7], [-1, 4], [0, 9], [i64::MAX, 2]];
    let values = [0i64, 1, -5, 100, i64::MAX, i64::MIN];
    for size in [1usize, 2, 5, 64] {
        for f in maps {
            for g in maps {
                for v in values {
                    let fg = Affine::<i64>::combine(&f, &g);
                    assert_eq!(
                        AddQueryAffineUpdate::<i64>::act(&fg, &v, Some(size)),
                        AddQueryAffineUpdate::<i64>::act(
                            &f,
                            &AddQueryAffineUpdate::<i64>::act(&g, &v, Some(size)),
                            Some(size)
                        )
                    );
                    let sum = Add::<i64>::combine(&f[1], &g[1]);
                    assert_eq!(
                        AddQueryAddUpdate::<i64>::act(&sum, &v, Some(size)),
                        AddQueryAddUpdate::<i64>::act(
                            &f[1],
                            &AddQueryAddUpdate::<i64>::act(&g[1], &v, Some(size)),
                            Some(size)
                        )
                    );
                }
            }
        }
        for v in values {
            assert_eq!(AddQueryAffineUpdate::<i64>::act(&[1, 0], &v, Some(size)), v);
            assert_eq!(AddQueryAddUpdate::<i64>::act(&0, &v, Some(size)), v);
            assert_eq!(AddQueryMulUpdate::<i64>::act(&1, &v, None), v);
        }
    }
}

#[test]
fn monoids_on_samples() {
    assert_eq!(Add::<i32>::combine(&i32::MAX, &1), i32::MIN);
    assert_eq!(Mul::<u32>::combine(&65_536, &65_536), 0);
    assert_eq!(Mul::<i64>::combine(&-3, &4), -12);
    assert_eq!(Affine::<i32>::combine(&[5, 7], &[2, 3]), [10, 22]);
    assert_eq!(Affine::<i32>::combine(&[2, 3], &[5, 7]), [10, 17]);
    assert_eq!(Max::<i32>::combine(&Some(3), &None), Some(3));
    assert_eq!(Max::<i32>::combine(&Some(3), &Some(8)), Some(8));
    assert_eq!(Min::<i32>::combine(&Some(3), &Some(8)), Some(3));
    assert_eq!(Min::<i32>::identity(), None);
    assert_eq!(GCD::<u64>::combine(&12, &18), 6);
    assert_eq!(GCD::<u32>::combine(&0, &18), 18);
    assert_eq!(GCD::<usize>::combine(&7, &3), 1);
    assert_eq!(GCD::<u64>::identity(), 0);
    assert_eq!(LCM::<u64>::combine(&4, &6), 12);
    assert_eq!(LCM::<u32>::combine(&7, &3), 21);
    assert_eq!(LCM::<usize>::combine(&2, &4), 4);
    assert_eq!(LCM::<u64>::combine(&0, &6), 0);
    assert_eq!(LCM::<u64>::identity(), 1);
    // a least common multiple that does not fit counts as 0
    assert_eq!(LCM::<u32>::combine(&65_537, &65_536), 0);
    assert_eq!(LCM::<u32>::combine(&65_535, &65_536), 65_535 * 65_536);
}

#[test]
fn assign_or_another_map() {
    type Map = AssignOr<Add<i32>>;
    let show = |m: Map| match m {
        AssignOr::Assign(a) => (0, a),
        AssignOr::Other(x) => (1, Some(x)),
    };
    // assigning 5, then adding 2, is assigning 7
    assert_eq!(
        show(Map::combine(&AssignOr::Other(2), &AssignOr::Assign(Some(5)))),
        (0, Some(7))
    );
    // adding 2, then assigning 5, is assigning 5
    assert_eq!(
        show(Map::combine(&AssignOr::Assign(Some(5)), &AssignOr::Other(2))),
        (0, Some(5))
    );
    assert_eq!(show(Map::combine(&AssignOr::Other(3), &AssignOr::Other(2))), (1, Some(5)));
    assert_eq!(show(Map::combine(&Map::identity(), &AssignOr::Other(2))), (1, Some(2)));
    assert_eq!(show(Map::combine(&AssignOr::Other(2), &Map::identity())), (1, Some(2)));
    assert_eq!(show(Map::identity()), (0, None));
}

#[test]
fn gcd_of_ranges() {
    let mut seg = SegmentTree::<GCD<u64>>::from(vec![12, 18, 30, 7, 0, 14]);
    assert_eq!(seg.range_query(..3), 6);
    assert_eq!(seg.range_query(3..), 7);
    assert_eq!(seg.range_query(4..=5), 14);
    assert_eq!(seg.range_query(..), 1);
    seg.point_update(3, 24);
    assert_eq!(seg.range_query(..4), 6);
    assert_eq!(seg.range_query(..), 2);
}

#[test]
fn dual_tree_assigns_or_adds() {
    let show = |m: AssignOr<Add<i32>>| match m {
        AssignOr::Assign(a) => (0, a),
        AssignOr::Other(x) => (1, Some(x)),
    };
    let mut seg = DualSegmentTree::<AssignOr<Add<i32>>>::new(10);
    seg.range_update(..6, &AssignOr::Other(2));
    seg.range_update(3..8, &AssignOr::Assign(Some(50)));
    seg.range_update(5.., &AssignOr::Other(100));
    assert_eq!(show(seg.point_query(0)), (1, Some(2)));
    assert_eq!(show(seg.point_query(3)), (0, Some(50)));
    assert_eq!(show(seg.point_query(5)), (0, Some(150)));
    assert_eq!(show(seg.point_query(7)), (0, Some(150)));
    assert_eq!(show(seg.point_query(8)), (1, Some(100)));
    assert_eq!(show(seg.point_query(9)), (1, Some(100)));
}

#[test]
fn static_tree_of_maxima_and_bits() {
    let mut seg = SegmentTree::<Max<i32>>::new(100);
    assert_eq!(seg.range_query(..), None);
    seg.point_update(50, Some(2));
    seg.point_update(60, Some(10));
    assert_eq!(seg.range_query(..), Some(10));
    seg.point_update_with(50, |element| element.map(|v| v + 100));
    assert_eq!(seg.range_query(..), Some(102));
    assert_eq!(seg.range_query(51..), Some(10));
    assert_eq!(seg.range_query(61..), None);

    let bits = SegmentTree::<seg_lib::ops::BitAnd<u32>>::from(vec![0b1110, 0b0111, 0b1100]);
    assert_eq!(bits.range_query(..), 0b0100);
    assert_eq!(bits.range_query(..2), 0b0110);
    assert_eq!(bits.range_query(1..1), !0);
    let bits = SegmentTree::<seg_lib::ops::BitOr<u32>>::from(vec![0b1000, 0b0001, 0b0100]);
    assert_eq!(bits.range_query(1..), 0b0101);
    let minima = SegmentTree::<Min<i64>>::from(vec![Some(4), None, Some(-3), Some(9)]);
    assert_eq!(minima.range_query(..2), Some(4));
    assert_eq!(minima.range_query(..), Some(-3));
    assert_eq!(minima.range_query(1..2), None);
}
