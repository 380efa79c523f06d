use graco::primitives::{
    find_runs, gather_by, generate_index_list, prefix_sum_inclusive, scatter_by, sort_by_key, take_prefix,
};

#[test]
fn index_list_counts_up() {
    assert_eq!(generate_index_list(5), vec![0, 1, 2, 3, 4]);
    assert!(generate_index_list(0).is_empty());
}

#[test]
fn gather_reads_through_indices() {
    assert_eq!(gather_by(&vec![10, 20, 30], &vec![2, 0, 2, 1]), vec![30, 10, 30, 20]);
}

#[test]
fn scatter_writes_through_indices() {
    assert_eq!(scatter_by(&vec![10, 20, 30], &vec![2, 0, 1]), vec![20, 30, 10]);
}

#[test]
fn prefix_sum_is_inclusive() {
    assert_eq!(prefix_sum_inclusive(&vec![1, 0, 2, 1]), vec![1, 1, 3, 4]);
    assert!(prefix_sum_inclusive(&vec![]).is_empty());
}

#[test]
fn prefix_sum_wraps_around() {
    assert_eq!(prefix_sum_inclusive(&vec![u32::MAX, 2]), vec![u32::MAX, 1]);
}

#[test]
fn runs_are_found() {
    let r = find_runs(&vec![3, 3, 5, 7, 7, 7]);
    assert_eq!(r.run_count, 3);
    assert_eq!(r.run_starts, vec![0, 2, 3]);
    assert_eq!(r.run_mapping, vec![0, 0, 1, 2, 2, 2]);
    let empty = find_runs(&vec![]);
    assert_eq!(empty.run_count, 0);
}

#[test]
fn sort_is_stable() {
    let (keys, values) = sort_by_key(vec![2, 1, 2, 0, 1], vec![0, 1, 2, 3, 4]);
    assert_eq!(keys, vec![0, 1, 1, 2, 2]);
    assert_eq!(values, vec![3, 1, 4, 0, 2]);
}

#[test]
fn prefix_is_taken() {
    assert_eq!(take_prefix(&vec![4, 5, 6], 2), vec![4, 5]);
}
