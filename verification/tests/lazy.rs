use rand::Rng;
use seg_lib::{LazySegmentTree, Monoid, MonoidAction, Size};

const MOD: u64 = 998_244_353;

struct ModAdd;

impl Monoid for ModAdd {
    type Set = u64;

    const IS_COMMUTATIVE: bool = true;

    fn id() -> u64 {
        Self::identity()
    }

    fn op(lhs: u64, rhs: u64) -> u64 {
        Self::combine(&lhs, &rhs)
    }

    fn identity() -> u64 {
        0
    }

    fn combine(lhs: &u64, rhs: &u64) -> u64 {
        (lhs + rhs) % MOD
    }

    fn lemma_associative(_a: u64, _b: u64, _c: u64) {}

    fn lemma_identity(_a: u64) {}

    fn lemma_commutative(_a: u64, _b: u64) {}
}

/// `[a, b]` stands for `x -> a * x + b`; `f · g` is `g` first, then `f`.
struct ModAffine;

impl Monoid for ModAffine {
    type Set = [u64; 2];

    const IS_COMMUTATIVE: bool = false;

    fn id() -> [u64; 2] {
        Self::identity()
    }

    fn op(lhs: [u64; 2], rhs: [u64; 2]) -> [u64; 2] {
        Self::combine(&lhs, &rhs)
    }

    fn identity() -> [u64; 2] {
        [1, 0]
    }

    fn combine(lhs: &[u64; 2], rhs: &[u64; 2]) -> [u64; 2] {
        [lhs[0] * rhs[0] % MOD, (lhs[0] * rhs[1] + lhs[1]) % MOD]
    }

    fn lemma_associative(_a: [u64; 2], _b: [u64; 2], _c: [u64; 2]) {}

    fn lemma_identity(_a: [u64; 2]) {}

    fn lemma_commutative(_a: [u64; 2], _b: [u64; 2]) {}
}

struct SumUnderAffine;

impl MonoidAction for SumUnderAffine {
    type Map = ModAffine;
    type Set = ModAdd;

    const USE_SEGMENT_SIZE: bool = true;

    fn size_ok(_size: Size) -> bool {
        true
    }

    fn apply(mapping: [u64; 2], element: u64, _size: Size) -> u64 {
        Self::act(&mapping, &element, Some(1))
    }

    fn act(mapping: &[u64; 2], element: &u64, size: Option<usize>) -> u64 {
        (mapping[0] * element + size.unwrap() as u64 % MOD * mapping[1]) % MOD
    }

    fn lemma_size_ok(_size: Size, _smaller: Size) {}

    fn lemma_size_unused(_mapping: [u64; 2], _element: u64, _size: Size, _other: Size) {}

    fn lemma_act_combine(_f: [u64; 2], _g: [u64; 2], _element: u64, _size: Size) {}

    fn lemma_act_identity(_element: u64, _size: Size) {}

    fn lemma_act_distributes(
        _mapping: [u64; 2],
        _a: u64,
        _size_a: Size,
        _b: u64,
        _size_b: Size,
    ) {
    }
}

#[test]
fn range_affine_range_sum() {
    let mut seg = LazySegmentTree::<SumUnderAffine>::from(Vec::from_iter(0..100));
    assert_eq!(seg.len(), 100);
    assert_eq!(Vec::from_iter(seg.iter().copied()), Vec::from_iter(0..100));

    seg.range_update(.., &[2, 0]);
    seg.range_update(50..=75, &[3, 0]);

    assert_eq!(
        seg.range_query(..50),
        (0..50).map(|i| 2 * i).sum::<u64>()
    );
    assert_eq!(
        seg.range_query(50..=75),
        (50..=75).map(|i| 6 * i).sum::<u64>() % MOD
    );

    seg.point_update(50, &[0, 100]);
    assert_eq!(seg.point_query(50), &100);
}

#[test]
fn lazy_matches_plain_array() {
    let mut rng = rand::rng();
    for n in [1usize, 2, 3, 5, 8, 13, 64, 100] {
        let mut plain: Vec<u64> = (0..n).map(|_| rng.random_range(0..MOD)).collect();
        let mut seg = LazySegmentTree::<SumUnderAffine>::from(plain.clone());
        for _ in 0..200 {
            let l = rng.random_range(0..=n);
            let r = rng.random_range(0..=n);
            if rng.random_range(0..2) == 0 {
                let f = [rng.random_range(0..MOD), rng.random_range(0..MOD)];
                seg.range_update(l..r, &f);
                for p in l..r.max(l) {
                    plain[p] = (f[0] * plain[p] + f[1]) % MOD;
                }
            } else {
                let expected = plain[l.min(r)..r.max(l.min(r))]
                    .iter()
                    .fold(0, |acc, v| (acc + v) % MOD);
                let expected = if l < r { expected } else { 0 };
                assert_eq!(seg.range_query(l..r), expected);
            }
        }
        for p in 0..n {
            assert_eq!(*seg.point_query(p), plain[p]);
        }
        assert_eq!(Vec::from_iter(seg.iter().copied()), plain);
    }
}
