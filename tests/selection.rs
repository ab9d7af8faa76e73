use std::collections::BTreeSet;

use target_cleaner::{filter_same, parse_selection, plan_removal, SelectionError};

#[test]
fn dedup_keeps_each_index_once() {
    let r = filter_same(vec![2, 2, 0, 0, 1]);
    assert_eq!(r.len(), 3);
    let set: BTreeSet<usize> = r.into_iter().collect();
    assert_eq!(set, BTreeSet::from([0, 1, 2]));
}

#[test]
fn dedup_of_nothing_is_nothing() {
    assert!(filter_same(Vec::new()).is_empty());
}

#[test]
fn out_of_range_index_removes_nothing() {
    assert_eq!(plan_removal(3, vec![0, 5, 1, 7]), Err(SelectionError::OutOfRange(5)));
    assert_eq!(plan_removal(3, vec![3]), Err(SelectionError::OutOfRange(3)));
    assert_eq!(plan_removal(0, vec![0]), Err(SelectionError::OutOfRange(0)));
}

#[test]
fn valid_selection_is_planned_once_each() {
    let plan = plan_removal(3, vec![2, 2, 0]).unwrap();
    let set: BTreeSet<usize> = plan.iter().copied().collect();
    assert_eq!(plan.len(), 2);
    assert_eq!(set, BTreeSet::from([0, 2]));
}

#[test]
fn line_is_read_as_indices() {
    assert_eq!(parse_selection("2 2 0 0 1\n").unwrap(), vec![2, 2, 0, 0, 1]);
    assert_eq!(parse_selection("  7\t\n").unwrap(), vec![7]);
    assert_eq!(parse_selection("+4 10").unwrap(), vec![4, 10]);
    assert_eq!(parse_selection("18446744073709551615").unwrap(), vec![usize::MAX]);
}

#[test]
fn words_split_at_runs_of_white_space() {
    assert_eq!(parse_selection("1  2").unwrap(), vec![1, 2]);
    assert_eq!(parse_selection("1\t2").unwrap(), vec![1, 2]);
    assert_eq!(parse_selection(" 3 \t 4\r\n").unwrap(), vec![3, 4]);
    assert_eq!(parse_selection("5\u{3000}6\u{a0}7").unwrap(), vec![5, 6, 7]);
}

#[test]
fn blank_line_names_no_index() {
    assert_eq!(parse_selection("\n").unwrap(), Vec::<usize>::new());
    assert_eq!(parse_selection("").unwrap(), Vec::<usize>::new());
}

#[test]
fn malformed_line_is_rejected() {
    assert_eq!(parse_selection("1 x"), Err(SelectionError::NotANumber));
    assert_eq!(parse_selection("-1"), Err(SelectionError::NotANumber));
    assert_eq!(parse_selection("+"), Err(SelectionError::NotANumber));
    assert_eq!(parse_selection("1,2"), Err(SelectionError::NotANumber));
    assert_eq!(parse_selection("18446744073709551616"), Err(SelectionError::NotANumber));
}
