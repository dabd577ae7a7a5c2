use prime_sum::sequence::{contains, lower_bound};

#[test]
fn lower_bound_counts_the_smaller_members() {
    let seq = [2, 3, 5, 7, 11];
    assert_eq!(lower_bound(&seq, 0), 0);
    assert_eq!(lower_bound(&seq, 2), 0);
    assert_eq!(lower_bound(&seq, 3), 1);
    assert_eq!(lower_bound(&seq, 4), 2);
    assert_eq!(lower_bound(&seq, 11), 4);
    assert_eq!(lower_bound(&seq, 12), 5);
    assert_eq!(lower_bound(&[], 12), 0);
}

#[test]
fn contains_finds_the_members_only() {
    let seq = [2, 3, 5, 7, 11];
    for x in 0..15 {
        assert_eq!(contains(&seq, x), seq.iter().any(|&y| y == x));
    }
    assert!(!contains(&[], 0));
}
