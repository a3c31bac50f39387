use crypto_primitives::factorization::share_no_entry;

#[test]
fn lists_without_a_common_entry() {
    assert!(share_no_entry(&vec![2, 2, 3], &vec![5, 7]));
    assert!(share_no_entry(&vec![], &vec![5, 7]));
    assert!(share_no_entry(&vec![2], &vec![]));
    assert!(share_no_entry(&vec![], &vec![]));
}

#[test]
fn lists_with_a_common_entry() {
    assert!(!share_no_entry(&vec![2, 2, 3], &vec![3]));
    assert!(!share_no_entry(&vec![7], &vec![5, 7]));
    assert!(!share_no_entry(&vec![2, 3, 5, 7], &vec![11, 13, 2]));
}
