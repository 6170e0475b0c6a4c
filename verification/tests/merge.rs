use lattice_toolkit::merge::merge_tuples;
use std::collections::HashSet;

#[test]
fn test_merge_tuples() {
    let vec: Vec<(u64, u64)> = vec![
        (1, 2),
        (1, 5),
        (5, 2),
        (7, 2),
        (5, 8),
        (1, 3),
        (7, 7),
        (5, 0),
    ];
    let answer: Vec<(u64, u64)> = vec![(1, 10), (5, 10), (7, 9)];
    let merged_vec = merge_tuples(&vec);

    let answer_unordered: HashSet<_> = answer.iter().collect();
    let merged_unordered: HashSet<_> = merged_vec.iter().collect();

    assert_eq!(merged_unordered, answer_unordered);
}

#[test]
fn merge_tuples_empty_input() {
    let vec: Vec<(u64, u64)> = Vec::new();
    assert!(merge_tuples(&vec).is_empty());
}

#[test]
fn merge_tuples_single_pair() {
    let vec: Vec<(u64, u64)> = vec![(3, 4)];
    assert_eq!(merge_tuples(&vec), vec![(3, 4)]);
}

#[test]
fn merge_tuples_distinct_keys_unchanged() {
    let vec: Vec<(u64, u64)> = vec![(2, 1), (17, 1), (191, 1)];
    let merged: HashSet<(u64, u64)> = merge_tuples(&vec).into_iter().collect();
    let expected: HashSet<(u64, u64)> = vec.into_iter().collect();
    assert_eq!(merged, expected);
}

#[test]
fn merge_tuples_zero_values_kept() {
    let vec: Vec<(u64, u64)> = vec![(9, 0), (9, 0)];
    assert_eq!(merge_tuples(&vec), vec![(9, 0)]);
}

#[test]
fn merge_tuples_large_values() {
    let vec: Vec<(u64, u64)> = vec![(1, u64::MAX - 10), (1, 7), (2, 3)];
    let merged: HashSet<(u64, u64)> = merge_tuples(&vec).into_iter().collect();
    let expected: HashSet<(u64, u64)> = vec![(1, u64::MAX - 3), (2, 3)].into_iter().collect();
    assert_eq!(merged, expected);
}
