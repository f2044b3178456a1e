use dobutsu_count::merge::{merge_candidates, merge_level, merge_runs, merge_step, min_head, push_candidate, MergeStep};
use dobutsu_count::sorted::{dedup_sorted, diff_sorted, index_of, merge_into, not_in_by_search, sort_dedup};
use dobutsu_count::Pos;

#[test]
fn merge_into_keeps_order() {
    let mut known: Vec<Pos> = vec![1, 4, 9];
    merge_into(&mut known, &[2, 3, 10]);
    assert_eq!(known, vec![1, 2, 3, 4, 9, 10]);
}

#[test]
fn merge_into_edge_cases() {
    let mut known: Vec<Pos> = Vec::new();
    merge_into(&mut known, &[5, 6]);
    assert_eq!(known, vec![5, 6]);
    merge_into(&mut known, &[]);
    assert_eq!(known, vec![5, 6]);
    merge_into(&mut known, &[0, 1]);
    assert_eq!(known, vec![0, 1, 5, 6]);
}

#[test]
fn diff_keeps_unknown_candidates() {
    let mut out: Vec<Pos> = vec![99, 98];
    diff_sorted(&[1, 3, 5], &[1, 2, 3, 4, 6], &mut out);
    assert_eq!(out, vec![2, 4, 6]);
    diff_sorted(&[], &[7, 8], &mut out);
    assert_eq!(out, vec![7, 8]);
    diff_sorted(&[7, 8], &[7, 8], &mut out);
    assert!(out.is_empty());
}

#[test]
fn dedup_removes_repeats() {
    let mut v: Vec<Pos> = vec![1, 1, 2, 5, 5, 5, 9];
    dedup_sorted(&mut v);
    assert_eq!(v, vec![1, 2, 5, 9]);
    let mut e: Vec<Pos> = Vec::new();
    dedup_sorted(&mut e);
    assert!(e.is_empty());
}

#[test]
fn sort_dedup_sorts_and_removes_repeats() {
    let mut v: Vec<Pos> = vec![5, 1, 5, 3, 1];
    sort_dedup(&mut v);
    assert_eq!(v, vec![1, 3, 5]);
}

#[test]
fn binary_search_finds_index() {
    let v: Vec<Pos> = vec![2, 4, 6];
    assert_eq!(index_of(&v, 4), Some(1));
    assert_eq!(index_of(&v, 2), Some(0));
    assert_eq!(index_of(&v, 6), Some(2));
    assert_eq!(index_of(&v, 5), None);
    assert_eq!(index_of(&v, 7), None);
    assert_eq!(index_of(&[], 7), None);
}

#[test]
fn filter_by_search_keeps_order() {
    assert_eq!(not_in_by_search(&[1, 3, 5], &[5, 2, 3, 7]), vec![2, 7]);
    assert_eq!(not_in_by_search(&[], &[4, 4]), vec![4, 4]);
}

#[test]
fn merge_step_decisions() {
    assert_eq!(merge_step(Some(5), None, None), MergeStep::CopyKnown);
    assert_eq!(merge_step(None, None, Some(3)), MergeStep::Finish);
    assert_eq!(merge_step(Some(5), Some(3), Some(3)), MergeStep::SkipCandidate);
    assert_eq!(merge_step(Some(2), Some(3), None), MergeStep::CopyKnown);
    assert_eq!(merge_step(Some(3), Some(3), Some(1)), MergeStep::KeepKnown);
    assert_eq!(merge_step(Some(7), Some(3), None), MergeStep::AddNew);
    assert_eq!(merge_step(None, Some(3), Some(2)), MergeStep::AddNew);
}

#[test]
fn smallest_head_first_run_on_tie() {
    assert_eq!(min_head(&[Some(5), None, Some(3), Some(3)]), Some(2));
    assert_eq!(min_head(&[Some(1), Some(1)]), Some(0));
    assert_eq!(min_head(&[None, None]), None);
    assert_eq!(min_head(&[]), None);
}

#[test]
fn runs_merge_in_order() {
    let runs: Vec<Vec<Pos>> = vec![vec![1, 4, 7], vec![2, 4], vec![], vec![0, 9]];
    assert_eq!(merge_runs(&runs), vec![0, 1, 2, 4, 4, 7, 9]);
    assert!(merge_runs(&[]).is_empty());
}

#[test]
fn candidates_merge_into_known() {
    let (known, frontier) = merge_candidates(&[2, 5, 8], &[1, 2, 2, 3, 8, 9]);
    assert_eq!(known, vec![1, 2, 3, 5, 8, 9]);
    assert_eq!(frontier, vec![1, 3, 9]);
}

#[test]
fn level_merge_of_runs() {
    let runs: Vec<Vec<Pos>> = vec![vec![3, 8, 11], vec![1, 3, 20], vec![8]];
    let (known, frontier) = merge_level(&[3, 10, 20], &runs);
    assert_eq!(known, vec![1, 3, 8, 10, 11, 20]);
    assert_eq!(frontier, vec![1, 8, 11]);
    let (same, none) = merge_level(&[3, 10], &[]);
    assert_eq!(same, vec![3, 10]);
    assert!(none.is_empty());
}

#[test]
fn run_is_full_at_its_capacity() {
    let mut run: Vec<Pos> = Vec::new();
    assert!(!push_candidate(&mut run, 9, 3));
    assert!(!push_candidate(&mut run, 4, 3));
    assert!(push_candidate(&mut run, 7, 3));
    assert_eq!(run, vec![9, 4, 7]);
    let mut one: Vec<Pos> = vec![1];
    assert!(push_candidate(&mut one, 1, 0));
    assert_eq!(one, vec![1, 1]);
}
