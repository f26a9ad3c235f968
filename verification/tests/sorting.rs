use parallel_merge_sort::{merge, merge_sort};
use std::cmp::Ordering;

/// A value that is ordered by its key alone; the tag tells apart values
/// that compare equal.
#[derive(Clone, Copy, Debug)]
struct Tagged {
    key: i32,
    tag: &'static str,
}

impl PartialEq for Tagged {
    fn eq(&self, other: &Self) -> bool {
        self.key == other.key
    }
}

impl PartialOrd for Tagged {
    fn partial_cmp(&self, other: &Self) -> Option<Ordering> {
        self.key.partial_cmp(&other.key)
    }
}

fn tagged(key: i32, tag: &'static str) -> Tagged {
    Tagged { key, tag }
}

fn pairs(values: &[Tagged]) -> Vec<(i32, &'static str)> {
    values.iter().map(|t| (t.key, t.tag)).collect()
}

#[test]
fn sort_gives_ascending_permutation() {
    let input = vec![5, -3, 9, 0, 5, 2, -3, 7, 1];
    let output = merge_sort(input.clone());
    assert_eq!(output, vec![-3, -3, 0, 1, 2, 5, 5, 7, 9]);
    for pair in output.windows(2) {
        assert!(pair[0] <= pair[1]);
    }
    let mut expected = input;
    expected.sort();
    assert_eq!(output, expected);
}

#[test]
fn sort_keeps_length() {
    for n in 0..40usize {
        let input: Vec<u32> = (0..n).map(|k| ((k * 7919 + 13) % 31) as u32).collect();
        assert_eq!(merge_sort(input).len(), n);
    }
}

#[test]
fn merge_length_is_sum_of_lengths() {
    assert_eq!(merge(vec![1, 4, 9], vec![2, 3]).len(), 5);
    assert_eq!(merge(Vec::<i32>::new(), vec![2, 3]).len(), 2);
    assert_eq!(merge(vec![1, 4, 9], Vec::<i32>::new()).len(), 3);
    assert_eq!(merge(Vec::<i32>::new(), Vec::<i32>::new()).len(), 0);
}

#[test]
fn sort_of_sorted_is_unchanged() {
    let input = vec![1, 2, 2, 3, 10, 10, 11];
    assert_eq!(merge_sort(input.clone()), input);
    let once = merge_sort(vec![9, 1, 8, 2, 7, 3]);
    assert_eq!(merge_sort(once.clone()), once);
}

#[test]
fn sort_of_sorted_keeps_equal_elements_in_place() {
    let input = vec![tagged(1, "a"), tagged(1, "b"), tagged(2, "c"), tagged(2, "d"), tagged(3, "e")];
    let output = merge_sort(input.clone());
    assert_eq!(pairs(&output), pairs(&input));
}

#[test]
fn merge_takes_left_first_on_ties() {
    let left = vec![tagged(1, "a"), tagged(2, "b")];
    let right = vec![tagged(1, "c")];
    let output = merge(left, right);
    assert_eq!(pairs(&output), vec![(1, "a"), (1, "c"), (2, "b")]);
}

#[test]
fn merge_keeps_order_within_each_side() {
    let left = vec![tagged(1, "l1"), tagged(1, "l2"), tagged(3, "l3")];
    let right = vec![tagged(1, "r1"), tagged(1, "r2"), tagged(3, "r3"), tagged(4, "r4")];
    let output = merge(left, right);
    assert_eq!(
        pairs(&output),
        vec![(1, "l1"), (1, "l2"), (1, "r1"), (1, "r2"), (3, "l3"), (3, "r3"), (4, "r4")]
    );
}

#[test]
fn sort_is_stable() {
    let input = vec![
        tagged(2, "a"),
        tagged(1, "b"),
        tagged(2, "c"),
        tagged(1, "d"),
        tagged(3, "e"),
        tagged(1, "f"),
        tagged(2, "g"),
    ];
    let output = merge_sort(input);
    assert_eq!(
        pairs(&output),
        vec![(1, "b"), (1, "d"), (1, "f"), (2, "a"), (2, "c"), (2, "g"), (3, "e")]
    );
}

#[test]
fn merge_interleaves() {
    assert_eq!(merge(vec![1, 3, 5], vec![2, 4, 6]), vec![1, 2, 3, 4, 5, 6]);
}

#[test]
fn merge_appends_rest_of_left() {
    assert_eq!(merge(vec![1, 7, 8, 9], vec![2, 3]), vec![1, 2, 3, 7, 8, 9]);
}

#[test]
fn merge_appends_rest_of_right() {
    assert_eq!(merge(vec![4], vec![1, 5, 6, 7]), vec![1, 4, 5, 6, 7]);
}

#[test]
fn merge_with_empty_side() {
    assert_eq!(merge(Vec::<i32>::new(), vec![1, 2]), vec![1, 2]);
    assert_eq!(merge(vec![1, 2], Vec::<i32>::new()), vec![1, 2]);
    assert_eq!(merge(Vec::<i32>::new(), Vec::<i32>::new()), Vec::<i32>::new());
}

#[test]
fn merge_does_not_hand_an_argument_back() {
    let output = merge(vec![2, 4], vec![1, 3]);
    assert_ne!(output, vec![2, 4]);
    assert_ne!(output, vec![1, 3]);
    assert_eq!(output, vec![1, 2, 3, 4]);
}

#[test]
fn sort_of_empty_is_empty() {
    assert_eq!(merge_sort(Vec::<i32>::new()), Vec::<i32>::new());
}

#[test]
fn sort_of_single_is_unchanged() {
    assert_eq!(merge_sort(vec![42]), vec![42]);
    let output = merge_sort(vec![tagged(7, "only")]);
    assert_eq!(pairs(&output), vec![(7, "only")]);
}

#[test]
fn sort_of_two() {
    assert_eq!(merge_sort(vec![2, 1]), vec![1, 2]);
    assert_eq!(merge_sort(vec![1, 2]), vec![1, 2]);
    assert_eq!(merge_sort(vec![1, 1]), vec![1, 1]);
}

#[test]
fn sort_of_odd_length() {
    assert_eq!(merge_sort(vec![3, 1, 2]), vec![1, 2, 3]);
    assert_eq!(merge_sort(vec![5, 4, 3, 2, 1]), vec![1, 2, 3, 4, 5]);
}

#[test]
fn sort_of_descending() {
    let input: Vec<i64> = (0..100).rev().collect();
    let expected: Vec<i64> = (0..100).collect();
    assert_eq!(merge_sort(input), expected);
}

#[test]
fn sort_of_unsigned_and_chars() {
    assert_eq!(merge_sort(vec![3u8, 255, 0, 17]), vec![0u8, 3, 17, 255]);
    assert_eq!(merge_sort(vec!['d', 'a', 'c', 'b']), vec!['a', 'b', 'c', 'd']);
}

#[test]
fn sort_of_floats() {
    assert_eq!(merge_sort(vec![2.5f64, -1.0, 0.0, 10.25]), vec![-1.0f64, 0.0, 2.5, 10.25]);
}

#[test]
fn sort_of_source_sequence() {
    let source = vec![16, 26, 53, 44, 65, 36, 77, 89, 91, 106, 51, 62, 123, 69];
    assert_eq!(
        merge_sort(source),
        vec![16, 26, 36, 44, 51, 53, 62, 65, 69, 77, 89, 91, 106, 123]
    );
}
