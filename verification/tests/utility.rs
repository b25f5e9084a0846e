use seg_lib::utility::{convert_range, min_invalid_index};
use std::ops::Bound::{Excluded, Included};

#[test]
fn clamp_infinite_range() {
    assert_eq!(convert_range(.., 0..3), 0..3);
    assert_eq!(convert_range(1.., 0..3), 1..3);
    assert_eq!(convert_range(..2, 0..3), 0..2);
}

#[test]
fn inclusive_and_exclusive_bounds() {
    assert_eq!(convert_range((Excluded(0), Included(1)), 0..3), 1..2);
    assert_eq!(convert_range(3..3, 0..3), 3..3);
}

#[test]
fn test_min_invalid_index() {
    const MAX_N: usize = 1_000;

    fn calc_node_size(n: usize) -> Vec<usize> {
        let mut size = Vec::from_iter(std::iter::repeat_n(0, n).chain(std::iter::repeat_n(1, n)));
        for i in (0..n).rev() {
            size[i] = size[i * 2] + size[i * 2 + 1]
        }
        size
    }

    fn naive(size: &[usize]) -> usize {
        (0..size.len())
            .rev()
            .find(|&i| !size[i].is_power_of_two())
            .unwrap_or(0)
    }

    for n in 1..MAX_N {
        let size = calc_node_size(n);

        assert_eq!(min_invalid_index(n * 2), naive(&size))
    }
}

#[test]
fn unbounded_range_of_the_largest_outer() {
    assert_eq!(convert_range(.., 0..!0), 0..!0);
    assert_eq!(convert_range(!0.., 0..!0), !0..!0);
}
