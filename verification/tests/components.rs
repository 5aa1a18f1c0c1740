use graph_matrix::compress::compress;
use graph_matrix::normalize::{dedup_pairs, max_value, sort_pairs, split_pairs};

#[test]
fn sort_orders_lexicographically() {
    let sorted = sort_pairs(vec![(2, 0), (0, 2), (1, 1), (0, 1), (2, 0)]);
    assert_eq!(sorted, vec![(0, 1), (0, 2), (1, 1), (2, 0), (2, 0)]);
}

#[test]
fn dedup_drops_exact_repeats() {
    let d = dedup_pairs(&vec![(0, 1), (0, 1), (0, 2), (1, 0), (1, 0), (1, 0)]);
    assert_eq!(d, vec![(0, 1), (0, 2), (1, 0)]);
    let empty = dedup_pairs(&vec![]);
    assert_eq!(empty.len(), 0);
}

#[test]
fn max_value_scans_both_components() {
    assert_eq!(max_value(&vec![(1, 7), (3, 2)]), 7);
    assert_eq!(max_value(&vec![(9, 0)]), 9);
    assert_eq!(max_value(&vec![(0, 0)]), 0);
}

#[test]
fn split_keeps_positions() {
    let (rows, cols) = split_pairs(&vec![(0, 1), (0, 2), (1, 2)]);
    assert_eq!(rows, vec![0, 0, 1]);
    assert_eq!(cols, vec![1, 2, 2]);
}

#[test]
fn compress_builds_row_pointers() {
    let (ia, ja) = compress(&vec![0, 0, 1], &vec![1, 2, 2], 3);
    assert_eq!(ia, vec![0, 2, 3, 3]);
    assert_eq!(ja, vec![1, 2, 2]);
}

#[test]
fn compress_counts_empty_rows() {
    let (ia, ja) = compress(&vec![0, 2], &vec![2, 0], 3);
    assert_eq!(ia, vec![0, 1, 1, 2]);
    assert_eq!(ja, vec![2, 0]);
}
