use btree_engine::lcs::longest_common_subsequence;

#[test]
fn lcs_examples() {
    assert_eq!(longest_common_subsequence("abcde".to_string(), "ace".to_string()), 3);
    assert_eq!(longest_common_subsequence("".to_string(), "abc".to_string()), 0);
    assert_eq!(longest_common_subsequence("abc".to_string(), "".to_string()), 0);
    assert_eq!(longest_common_subsequence("abc".to_string(), "abc".to_string()), 3);
    assert_eq!(longest_common_subsequence("abc".to_string(), "xyz".to_string()), 0);
    assert_eq!(longest_common_subsequence("abcbdab".to_string(), "bdcaba".to_string()), 4);
}
