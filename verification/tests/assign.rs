use rand::Rng;
use seg_lib::ops::{Add, BitXor};
use seg_lib::{AssignSegmentTree, Monoid};

/// Concatenation of strings: a monoid that is not commutative.
struct Concat;

impl Monoid for Concat {
    type Set = String;

    const IS_COMMUTATIVE: bool = false;

    fn id() -> String {
        Self::identity()
    }

    fn op(lhs: String, rhs: String) -> String {
        Self::combine(&lhs, &rhs)
    }

    fn identity() -> String {
        String::new()
    }

    fn combine(lhs: &String, rhs: &String) -> String {
        format!("{lhs}{rhs}")
    }

    fn lemma_associative(_a: String, _b: String, _c: String) {}

    fn lemma_identity(_a: String) {}

    fn lemma_commutative(_a: String, _b: String) {}
}

#[test]
fn range_xor_range_assign() {
    let mut seg = AssignSegmentTree::<BitXor<u32>>::from(Vec::from_iter(0..100));
    assert_eq!(seg.len(), 100);
    assert_eq!(Vec::from_iter(seg.iter().copied()), Vec::from_iter(0..100));

    seg.range_assign(..50, 100);
    assert!(seg.iter().take(50).all(|e| *e == 100));

    assert_eq!(seg.range_query(..50), 0);
    assert_eq!(
        seg.range_query(50..),
        (50..100).fold(0, |res, e| res ^ e)
    );

    seg.point_assign(50, !0);
    assert_eq!(seg.point_query(50), &!0);
}

#[test]
fn assigned_range_sums_to_value_times_length() {
    for n in [1usize, 2, 3, 7, 16, 33, 100] {
        for l in 0..n {
            for r in l + 1..=n {
                let mut seg = AssignSegmentTree::<Add<u64>>::new(n);
                seg.range_assign(l..r, 7);
                assert_eq!(seg.range_query(l..r), 7 * (r - l) as u64);
                assert_eq!(seg.range_query(..), 7 * (r - l) as u64);
                let mid = (l + r) / 2;
                assert_eq!(seg.range_query(l..mid), 7 * (mid - l) as u64);
            }
        }
    }
}

#[test]
fn assign_matches_plain_array_in_order() {
    let mut rng = rand::rng();
    for n in [1usize, 2, 3, 5, 8, 13, 40] {
        let mut plain: Vec<String> = (0..n).map(|i| format!("{}", i % 10)).collect();
        let mut seg = AssignSegmentTree::<Concat>::from(plain.clone());
        // many more assignments than elements, so that the pool is emptied
        for step in 0..40 * n {
            let l = rng.random_range(0..=n);
            let r = rng.random_range(0..=n);
            match rng.random_range(0..3) {
                0 => {
                    let c = ((b'a' + (step % 26) as u8) as char).to_string();
                    seg.range_assign(l..r, c.clone());
                    for p in l..r.max(l) {
                        plain[p] = c.clone();
                    }
                }
                1 if l < n => {
                    let c = ((b'A' + (step % 26) as u8) as char).to_string();
                    seg.point_assign(l, c.clone());
                    plain[l] = c;
                }
                _ => {
                    let expected = if l < r { plain[l..r].concat() } else { String::new() };
                    assert_eq!(seg.range_query(l..r), expected);
                }
            }
        }
        for p in 0..n {
            assert_eq!(*seg.point_query(p), plain[p]);
        }
        assert_eq!(Vec::from_iter(seg.iter().cloned()), plain);
    }
}
