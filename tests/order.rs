use target_cleaner::{sort_targets, SortBy, TargetItem, Timestamp};

fn item(name: &str, size: u64, secs: i64, nanos: u32) -> TargetItem {
    TargetItem::new(vec![name.to_string()], size, Timestamp { secs, nanos })
}

fn sample() -> Vec<TargetItem> {
    vec![item("a", 300, 20, 0), item("b", 100, 10, 5), item("c", 200, 10, 1)]
}

fn order(v: &[TargetItem]) -> Vec<&str> {
    v.iter().map(|t| t.path[0].as_str()).collect()
}

#[test]
fn size_is_largest_first() {
    assert_eq!(order(&sort_targets(sample(), SortBy::Size)), vec!["a", "c", "b"]);
}

#[test]
fn rsize_is_smallest_first() {
    assert_eq!(order(&sort_targets(sample(), SortBy::Rsize)), vec!["b", "c", "a"]);
}

#[test]
fn size_orders_are_reverses_without_ties() {
    let down = sort_targets(sample(), SortBy::Size);
    let up = sort_targets(sample(), SortBy::Rsize);
    let mut reversed = order(&down);
    reversed.reverse();
    assert_eq!(order(&up), reversed);
}

#[test]
fn time_is_oldest_first() {
    assert_eq!(order(&sort_targets(sample(), SortBy::Time)), vec!["c", "b", "a"]);
}

#[test]
fn rtime_is_newest_first() {
    assert_eq!(order(&sort_targets(sample(), SortBy::Rtime)), vec!["a", "b", "c"]);
}

#[test]
fn equal_keys_keep_their_order() {
    let v = vec![item("x", 5, 1, 0), item("y", 9, 1, 0), item("z", 5, 1, 0)];
    assert_eq!(order(&sort_targets(v, SortBy::Size)), vec!["y", "x", "z"]);
    let v = vec![item("x", 5, 1, 0), item("y", 9, 1, 0), item("z", 5, 1, 0)];
    assert_eq!(order(&sort_targets(v, SortBy::Rsize)), vec!["x", "z", "y"]);
    let v = vec![item("x", 5, 1, 0), item("y", 9, 1, 0), item("z", 5, 1, 0)];
    assert_eq!(order(&sort_targets(v, SortBy::Rtime)), vec!["x", "y", "z"]);
}

#[test]
fn time_orders_by_seconds_then_nanoseconds() {
    let v = vec![item("late", 1, 5, 0), item("early", 1, 4, 999_999_999), item("odd", 1, 4, 4_000_000_000)];
    assert_eq!(order(&sort_targets(v, SortBy::Time)), vec!["early", "odd", "late"]);
}

#[test]
fn empty_list_stays_empty() {
    assert!(sort_targets(Vec::new(), SortBy::Time).is_empty());
}
