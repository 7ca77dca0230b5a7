use tabular::compare::{compare_vecs, compare_vecs_unordered};

#[test]
fn ordered_comparison_is_positional() {
    assert!(compare_vecs(&[1, 2, 3], &[1, 2, 3]));
    assert!(!compare_vecs(&[1, 2, 3], &[3, 2, 1]));
    assert!(!compare_vecs(&[1, 2], &[1, 2, 3]));
    assert!(compare_vecs::<i32>(&[], &[]));
}

#[test]
fn unordered_comparison_counts_duplicates() {
    assert!(compare_vecs_unordered(&[1, 2, 3], &[3, 1, 2]));
    assert!(!compare_vecs_unordered(&[1, 1, 2], &[1, 2, 2]));
    assert!(!compare_vecs_unordered(&[1, 2], &[1, 2, 2]));
    assert!(!compare_vecs_unordered(&[1, 2, 2], &[1, 2]));
    assert!(compare_vecs_unordered::<i32>(&[], &[]));
}
