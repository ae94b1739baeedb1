use spma_retrieval::coverage::{covering_patterns, multi_symbol_positions, positions_of};
use spma_retrieval::subsequence::is_subsequence;

#[test]
fn subsequence_with_gaps() {
    assert!(is_subsequence(&[1, 3], &[1, 2, 3]));
    assert!(is_subsequence(&[1, 2, 3], &[1, 2, 3]));
    assert!(is_subsequence(&[2, 2], &[2, 5, 2]));
}

#[test]
fn subsequence_order_matters() {
    assert!(!is_subsequence(&[3, 1], &[1, 2, 3]));
    assert!(!is_subsequence(&[2, 2], &[2, 5]));
}

#[test]
fn subsequence_edge_cases() {
    assert!(is_subsequence(&[], &[]));
    assert!(is_subsequence(&[], &[4, 4]));
    assert!(!is_subsequence(&[4], &[]));
    assert!(!is_subsequence(&[1, 2, 3, 4], &[1, 2, 3]));
}

#[test]
fn covering_lists_patterns_per_sentence() {
    let grammar = vec![vec![0, 2], vec![1, 3], vec![2, 0]];
    let train = vec![vec![0, 1, 2, 3], vec![2, 1, 0], vec![4]];
    let cover = covering_patterns(&vec![2, 0, 1], &grammar, &train);
    assert_eq!(cover, vec![vec![0, 1], vec![2], vec![]]);
}

#[test]
fn covering_keeps_repeated_ids() {
    let grammar = vec![vec![5, 6]];
    let train = vec![vec![5, 7, 6]];
    assert_eq!(covering_patterns(&vec![0, 0], &grammar, &train), vec![vec![0, 0]]);
    assert_eq!(covering_patterns(&vec![], &grammar, &train), vec![Vec::<usize>::new()]);
}

#[test]
fn multi_symbol_positions_drops_short_ones() {
    let patterns = vec![vec![1], vec![1, 2], vec![], vec![3, 4, 5], vec![6]];
    assert_eq!(multi_symbol_positions(&patterns), vec![1, 3]);
    assert!(multi_symbol_positions(&vec![]).is_empty());
}

#[test]
fn positions_of_finds_first_positions_and_skips_unknown() {
    let keys = vec![10, 20, 30, 20];
    assert_eq!(positions_of(&keys, &vec![30, 99, 20, 10, 20]), vec![2, 1, 0, 1]);
    assert!(positions_of(&keys, &vec![]).is_empty());
    assert!(positions_of(&vec![], &vec![1, 2]).is_empty());
}
