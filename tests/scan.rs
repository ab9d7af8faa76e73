use target_cleaner::{human_size, DirTree, NodeKind, ScanError, Timestamp};

fn stamp(secs: i64) -> Timestamp {
    Timestamp { secs, nanos: 0 }
}

fn dir(modified: i64) -> NodeKind {
    NodeKind::Dir { listed: true, modified: Some(stamp(modified)) }
}

fn file(size: u64) -> NodeKind {
    NodeKind::File { size: Some(size) }
}

fn names(path: &[String]) -> Vec<&str> {
    path.iter().map(|s| s.as_str()).collect()
}

#[test]
fn one_project_beside_a_plain_directory() {
    let mut t = DirTree::new(".".to_string(), true, Some(stamp(1)));
    let proj = t.add(0, "proj".to_string(), dir(2)).unwrap();
    t.add(proj, "Cargo.toml".to_string(), file(120)).unwrap();
    let target = t.add(proj, "target".to_string(), dir(3)).unwrap();
    for i in 0..10u64 {
        let size = if i < 9 { 200 } else { 248 };
        t.add(target, format!("f{}", i), file(size)).unwrap();
    }
    let other = t.add(0, "other".to_string(), dir(4)).unwrap();
    t.add(other, "notes.txt".to_string(), file(7)).unwrap();
    let found = t.find_targets().unwrap();
    assert_eq!(found.len(), 1);
    assert_eq!(names(&found[0].path), vec![".", "proj", "target"]);
    assert_eq!(found[0].size, 2048);
    assert_eq!(found[0].time, stamp(3));
    assert_eq!(human_size(found[0].size).unwrap(), "2.0K");
}

#[test]
fn empty_root_reports_nothing() {
    let t = DirTree::new(".".to_string(), true, Some(stamp(1)));
    assert_eq!(t.find_targets().unwrap().len(), 0);
}

#[test]
fn unlistable_root_reports_nothing() {
    let t = DirTree::new("missing".to_string(), false, None);
    assert_eq!(t.find_targets().unwrap().len(), 0);
}

#[test]
fn manifest_or_build_dir_alone_is_not_a_project() {
    let mut t = DirTree::new("r".to_string(), true, Some(stamp(1)));
    let a = t.add(0, "a".to_string(), dir(1)).unwrap();
    t.add(a, "Cargo.toml".to_string(), file(1)).unwrap();
    let b = t.add(0, "b".to_string(), dir(1)).unwrap();
    t.add(b, "target".to_string(), dir(1)).unwrap();
    let c = t.add(0, "c".to_string(), dir(1)).unwrap();
    t.add(c, "Cargo.toml".to_string(), dir(1)).unwrap();
    t.add(c, "target".to_string(), dir(1)).unwrap();
    let d = t.add(0, "d".to_string(), dir(1)).unwrap();
    t.add(d, "Cargo.toml".to_string(), file(1)).unwrap();
    t.add(d, "target".to_string(), file(1)).unwrap();
    assert_eq!(t.find_targets().unwrap().len(), 0);
}

#[test]
fn root_itself_can_be_a_project() {
    let mut t = DirTree::new("/work".to_string(), true, Some(stamp(1)));
    let target = t.add(0, "target".to_string(), dir(5)).unwrap();
    t.add(0, "Cargo.toml".to_string(), file(1)).unwrap();
    t.add(target, "a".to_string(), file(10)).unwrap();
    let found = t.find_targets().unwrap();
    assert_eq!(found.len(), 1);
    assert_eq!(names(&found[0].path), vec!["/work", "target"]);
    assert_eq!(found[0].size, 10);
}

#[test]
fn size_counts_nested_files_only() {
    let mut t = DirTree::new(".".to_string(), true, Some(stamp(1)));
    let p = t.add(0, "p".to_string(), dir(1)).unwrap();
    t.add(p, "Cargo.toml".to_string(), file(1000)).unwrap();
    let target = t.add(p, "target".to_string(), dir(9)).unwrap();
    let debug = t.add(target, "debug".to_string(), dir(1)).unwrap();
    let deps = t.add(debug, "deps".to_string(), dir(1)).unwrap();
    t.add(deps, "libx.rlib".to_string(), file(300)).unwrap();
    t.add(debug, "app".to_string(), file(50)).unwrap();
    t.add(target, "link".to_string(), NodeKind::Other).unwrap();
    t.add(p, "src".to_string(), dir(1)).unwrap();
    let found = t.find_targets().unwrap();
    assert_eq!(found.len(), 1);
    assert_eq!(found[0].size, 350);
}

#[test]
fn project_nested_in_build_dir_is_reported_too() {
    let mut t = DirTree::new(".".to_string(), true, Some(stamp(1)));
    let outer = t.add(0, "target".to_string(), dir(1)).unwrap();
    t.add(0, "Cargo.toml".to_string(), file(1)).unwrap();
    let pkg = t.add(outer, "pkg".to_string(), dir(1)).unwrap();
    t.add(pkg, "Cargo.toml".to_string(), file(4)).unwrap();
    let inner = t.add(pkg, "target".to_string(), dir(1)).unwrap();
    t.add(inner, "x".to_string(), file(6)).unwrap();
    let found = t.find_targets().unwrap();
    assert_eq!(found.len(), 2);
    assert_eq!(names(&found[0].path), vec![".", "target"]);
    assert_eq!(found[0].size, 10);
    assert_eq!(names(&found[1].path), vec![".", "target", "pkg", "target"]);
    assert_eq!(found[1].size, 6);
}

#[test]
fn unreadable_dir_inside_build_dir_fails_the_scan() {
    let mut t = DirTree::new(".".to_string(), true, Some(stamp(1)));
    t.add(0, "Cargo.toml".to_string(), file(1)).unwrap();
    let target = t.add(0, "target".to_string(), dir(1)).unwrap();
    t.add(target, "locked".to_string(), NodeKind::Dir { listed: false, modified: None }).unwrap();
    assert_eq!(t.find_targets().unwrap_err(), ScanError::Unreadable);
}

#[test]
fn unreadable_dir_elsewhere_is_skipped() {
    let mut t = DirTree::new(".".to_string(), true, Some(stamp(1)));
    t.add(0, "locked".to_string(), NodeKind::Dir { listed: false, modified: None }).unwrap();
    assert_eq!(t.find_targets().unwrap().len(), 0);
}

#[test]
fn missing_time_fails_the_scan() {
    let mut t = DirTree::new(".".to_string(), true, Some(stamp(1)));
    t.add(0, "Cargo.toml".to_string(), file(1)).unwrap();
    t.add(0, "target".to_string(), NodeKind::Dir { listed: true, modified: None }).unwrap();
    assert_eq!(t.find_targets().unwrap_err(), ScanError::NoModifiedTime);
}

#[test]
fn oversized_build_dir_fails_the_scan() {
    let mut t = DirTree::new(".".to_string(), true, Some(stamp(1)));
    t.add(0, "Cargo.toml".to_string(), file(1)).unwrap();
    let target = t.add(0, "target".to_string(), dir(1)).unwrap();
    t.add(target, "a".to_string(), file(u64::MAX)).unwrap();
    t.add(target, "b".to_string(), file(1)).unwrap();
    assert_eq!(t.find_targets().unwrap_err(), ScanError::TooLarge);
}

#[test]
fn entries_go_only_into_listed_directories() {
    let mut t = DirTree::new(".".to_string(), true, Some(stamp(1)));
    let f = t.add(0, "file".to_string(), file(1)).unwrap();
    assert_eq!(t.add(f, "x".to_string(), file(1)), None);
    let d = t.add(0, "d".to_string(), NodeKind::Dir { listed: false, modified: None }).unwrap();
    assert_eq!(t.add(d, "x".to_string(), file(1)), None);
    assert_eq!(t.add(99, "x".to_string(), file(1)), None);
    assert_eq!(t.len(), 3);
}

#[test]
fn a_directory_holds_each_name_once() {
    let mut t = DirTree::new(".".to_string(), true, Some(stamp(1)));
    let p = t.add(0, "p".to_string(), dir(1)).unwrap();
    t.add(p, "Cargo.toml".to_string(), file(1)).unwrap();
    t.add(p, "target".to_string(), dir(1)).unwrap();
    assert_eq!(t.add(p, "target".to_string(), dir(2)), None);
    assert_eq!(t.add(p, "Cargo.toml".to_string(), file(2)), None);
    assert!(t.add(0, "target".to_string(), dir(1)).is_some());
    let found = t.find_targets().unwrap();
    assert_eq!(found.len(), 1);
    assert_eq!(names(&found[0].path), vec![".", "p", "target"]);
}
