use spma_retrieval::costs::{build_costs, pad_costs};
use spma_retrieval::overlap::jaccard_fraction;
use spma_retrieval::selection::{count_rows_of_len, distinct_ids, sorted_ascending};
use std::collections::HashSet;

fn set(v: &[usize]) -> HashSet<usize> {
    v.iter().copied().collect()
}

#[test]
fn distinct_ids_keeps_every_new_id_in_order() {
    let groups = vec![vec![3, 1, 3], vec![2, 1, 7, 8], vec![9]];
    assert_eq!(distinct_ids(&groups), vec![3, 1, 2, 7, 8, 9]);
}

#[test]
fn distinct_ids_is_not_capped() {
    // far more distinct ids than the five the attention side retrieves
    let groups = vec![(0..60).collect::<Vec<usize>>(), (30..120).collect::<Vec<usize>>()];
    let ids = distinct_ids(&groups);
    assert_eq!(ids.len(), 120);
    assert_eq!(ids, (0..120).collect::<Vec<usize>>());
}

#[test]
fn distinct_ids_skips_empty_groups() {
    assert_eq!(distinct_ids(&vec![vec![], vec![6, 6], vec![]]), vec![6]);
    assert_eq!(distinct_ids(&vec![]), Vec::<usize>::new());
}

#[test]
fn sorted_ascending_sorts_with_repeats() {
    assert_eq!(sorted_ascending(&vec![42, 7, 99, 7, 0]), vec![0, 7, 7, 42, 99]);
    assert_eq!(sorted_ascending(&vec![]), Vec::<usize>::new());
}

#[test]
fn count_rows_of_len_counts_exact_length() {
    let rows = vec![vec![1, 2, 3, 4, 5], vec![1], vec![6, 7, 8, 9, 10], vec![]];
    assert_eq!(count_rows_of_len(&rows, 5), 2);
    assert_eq!(count_rows_of_len(&rows, 0), 1);
    assert_eq!(count_rows_of_len(&rows, 3), 0);
}

#[test]
fn jaccard_of_two_empty_sets_is_one() {
    assert_eq!(jaccard_fraction(&set(&[]), &set(&[])), (1, 1));
}

#[test]
fn jaccard_of_disjoint_sets_is_zero() {
    assert_eq!(jaccard_fraction(&set(&[1, 2]), &set(&[3])), (0, 3));
    assert_eq!(jaccard_fraction(&set(&[]), &set(&[3, 4])), (0, 2));
}

#[test]
fn jaccard_counts_shared_and_total() {
    // one shared index out of nine distinct: 1/9 = 0.111
    assert_eq!(jaccard_fraction(&set(&[1, 2, 3, 4, 5]), &set(&[5, 6, 7, 8, 9])), (1, 9));
    assert_eq!(jaccard_fraction(&set(&[1, 2, 3]), &set(&[3, 2, 1])), (3, 3));
}

#[test]
fn jaccard_ignores_repeats() {
    assert_eq!(jaccard_fraction(&set(&[1, 1, 2]), &set(&[2, 2])), (1, 2));
}

#[test]
fn jaccard_is_symmetric_on_example() {
    let a = set(&[10, 20, 30]);
    let b = set(&[30, 40]);
    assert_eq!(jaccard_fraction(&a, &b), jaccard_fraction(&b, &a));
}

#[test]
fn build_costs_last_pair_wins_and_out_of_range_skipped() {
    let pairs = vec![(1u32, 2.5f64), (0, 0.5), (1, 3.0), (7, 9.0)];
    assert_eq!(build_costs(3, 1.0, &pairs), vec![0.5, 3.0, 1.0]);
    assert_eq!(build_costs(0, 1.0, &pairs), Vec::<f64>::new());
}

#[test]
fn build_costs_with_integers() {
    let pairs = vec![(2u32, 5u64), (2, 6)];
    assert_eq!(build_costs(4, 0u64, &pairs), vec![0, 0, 6, 0]);
}

#[test]
fn pad_costs_appends_fill_only_when_short() {
    let mut costs = vec![0.25f64, 0.75];
    pad_costs(&mut costs, 4, 1.0);
    assert_eq!(costs, vec![0.25, 0.75, 1.0, 1.0]);
    pad_costs(&mut costs, 2, 9.0);
    assert_eq!(costs, vec![0.25, 0.75, 1.0, 1.0]);
}
