use grid_puzzles::lists::{parse_pairs, similarity_score, sorted, total_distance};

#[test]
fn sorting_orders_numbers() {
    assert_eq!(sorted(&vec![3, 4, 2, 1, 3, 3]), vec![1, 2, 3, 3, 3, 4]);
    assert_eq!(sorted(&Vec::new()), Vec::<u32>::new());
}

#[test]
fn distance_of_sorted_lists() {
    let left = vec![3, 4, 2, 1, 3, 3];
    let right = vec![4, 3, 5, 3, 9, 3];
    assert_eq!(total_distance(&left, &right), 11);
    assert_eq!(total_distance(&vec![u32::MAX], &vec![0]), 4294967295);
}

#[test]
fn similarity_counts_matches() {
    let left = vec![3, 4, 2, 1, 3, 3];
    let right = vec![4, 3, 5, 3, 9, 3];
    assert_eq!(similarity_score(&left, &right), 31);
    assert_eq!(similarity_score(&left, &Vec::new()), 0);
}

#[test]
fn pairs_parse_per_line() {
    assert_eq!(parse_pairs("3   4\n4   3\n"), Some((vec![3, 4], vec![4, 3])));
    assert_eq!(parse_pairs("3 4 5"), Some((vec![3], vec![4])));
    assert_eq!(parse_pairs("3\n4 5"), None);
    assert_eq!(parse_pairs("3 x"), None);
}
