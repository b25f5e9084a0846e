use rand::Rng;
use seg_lib::ops::{Add, Affine};
use seg_lib::DualSegmentTree;

fn template(n: usize) {
    let mut dual = DualSegmentTree::<Add<usize>>::new(n);

    for l in 0..n {
        for r in 0..n {
            dual.range_update(l..=r, &1);
        }
    }

    for i in 0..n {
        let result = dual.point_query(i);
        let expected = (i + 1) * (n - i);
        assert_eq!(result, expected, "panics when n = {n}, i = {i}");
    }
}

#[test]
fn test_pow_2() {
    for d in 0..5 {
        template(1 << d);
    }
}

#[test]
fn test_random() {
    let mut rng = rand::rng();
    for _ in 0..10 {
        let n = rng.random_range(100..5_000);
        template(n);
    }
}

#[test]
fn dual_matches_plain_array_in_order() {
    let compose = |f: [i64; 2], g: [i64; 2]| {
        [
            f[0].wrapping_mul(g[0]),
            f[0].wrapping_mul(g[1]).wrapping_add(f[1]),
        ]
    };
    let mut rng = rand::rng();
    for n in [1usize, 2, 3, 5, 8, 13, 64, 100] {
        let mut plain = vec![[1i64, 0]; n];
        let mut dual = DualSegmentTree::<Affine<i64>>::new(n);
        for _ in 0..300 {
            let l = rng.random_range(0..=n);
            let r = rng.random_range(0..=n);
            let f = [rng.random_range(-9..10), rng.random_range(-9..10)];
            dual.range_update(l..r, &f);
            for p in l..r.max(l) {
                plain[p] = compose(f, plain[p]);
            }
            let i = rng.random_range(0..n);
            assert_eq!(dual.point_query(i), plain[i]);
            if l < n {
                dual.point_update(l, &f);
                plain[l] = compose(f, plain[l]);
            }
        }
        assert_eq!(Vec::from_iter(dual.iter().copied()), plain);
        assert_eq!(dual.len(), n);
    }
}

#[test]
fn dual_tree_holds_given_values() {
    let mut dual = DualSegmentTree::<Add<u32>>::from(vec![5, 6, 7]);
    assert_eq!(dual.len(), 3);
    assert_eq!(dual.point_query(1), 6);
    dual.range_update(1..=2, &10);
    assert_eq!(Vec::from_iter(dual.iter().copied()), vec![5, 16, 17]);
    assert_eq!(dual.point_query_with(2, |v| v * 2), 34);
}
