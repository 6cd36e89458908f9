use rgit::merge::has_conflict_markers;
use rgit::merge::{
    generate_conflict_markers, merge_kind, merge_message, restore_targets, restore_worktree_entry,
    three_way_tree_merge, MergeKind, RestoreError, TreeItem,
};

fn item(p: &str, h: u8) -> TreeItem {
    TreeItem { path: p.to_string(), hash: [h; 20], mode: 0o100644 }
}

#[test]
fn three_way_cases() {
    let base = vec![item("a", 1), item("b", 1), item("c", 1), item("d", 1)];
    let ours = vec![item("a", 2), item("b", 1), item("c", 3), item("e", 5)];
    let theirs = vec![item("a", 1), item("b", 4), item("c", 4), item("d", 1), item("f", 6)];
    let (merged, conflicts) = three_way_tree_merge(&base, &ours, &theirs);
    let m: Vec<(String, u8)> = merged.iter().map(|i| (i.path.clone(), i.hash[0])).collect();
    // a: ours changed; b: theirs changed; c: both changed differently; d: we deleted;
    // e: only ours added; f: only theirs added
    assert_eq!(m, vec![("a".to_string(), 2), ("b".to_string(), 4), ("e".to_string(), 5), ("f".to_string(), 6)]);
    assert_eq!(conflicts.len(), 1);
    assert_eq!(conflicts[0].path, "c");
    assert_eq!(conflicts[0].ours.unwrap().0, [3; 20]);
    assert_eq!(conflicts[0].theirs.unwrap().0, [4; 20]);
    assert_eq!(conflicts[0].base.unwrap().0, [1; 20]);
}

#[test]
fn unchanged_ours_takes_theirs() {
    let base = vec![item("a", 1), item("b", 1)];
    let theirs = vec![item("a", 9), item("c", 3)];
    let (merged, conflicts) = three_way_tree_merge(&base, &base, &theirs);
    assert!(conflicts.is_empty());
    let m: Vec<(String, u8)> = merged.iter().map(|i| (i.path.clone(), i.hash[0])).collect();
    assert_eq!(m, vec![("a".to_string(), 9), ("c".to_string(), 3)]);
}

#[test]
fn unchanged_theirs_keeps_ours() {
    let base = vec![item("a", 1), item("b", 1)];
    let ours = vec![item("b", 7), item("d", 4)];
    let (merged, conflicts) = three_way_tree_merge(&base, &ours, &base);
    assert!(conflicts.is_empty());
    let m: Vec<(String, u8)> = merged.iter().map(|i| (i.path.clone(), i.hash[0])).collect();
    assert_eq!(m, vec![("b".to_string(), 7), ("d".to_string(), 4)]);
}

#[test]
fn identical_sides_merge_to_that_side() {
    let base = vec![item("a", 1), item("c", 2)];
    let side = vec![item("a", 5), item("b", 6)];
    let (merged, conflicts) = three_way_tree_merge(&base, &side, &side);
    assert!(conflicts.is_empty());
    let m: Vec<(String, u8)> = merged.iter().map(|i| (i.path.clone(), i.hash[0])).collect();
    assert_eq!(m, vec![("a".to_string(), 5), ("b".to_string(), 6)]);
}

#[test]
fn conflict_markers() {
    let out = generate_conflict_markers(b"mine", b"theirs\n", "topic");
    assert_eq!(String::from_utf8(out).unwrap(), "<<<<<<< HEAD\nmine\n=======\ntheirs\n>>>>>>> topic\n");
    let empty = generate_conflict_markers(b"", b"", "b");
    assert_eq!(String::from_utf8(empty).unwrap(), "<<<<<<< HEAD\n=======\n>>>>>>> b\n");
}

#[test]
fn merge_kinds_and_message() {
    assert_eq!(merge_kind("a", "a", false, false), MergeKind::AlreadyUpToDate);
    assert_eq!(merge_kind("a", "b", true, false), MergeKind::AlreadyUpToDate);
    assert_eq!(merge_kind("a", "b", false, true), MergeKind::FastForward);
    assert_eq!(merge_kind("a", "b", false, false), MergeKind::ThreeWay);
    assert_eq!(merge_message("dev"), "Merge branch 'dev'");
}

#[test]
fn restore_sources() {
    assert_eq!(restore_targets(false, false), (true, false));
    assert_eq!(restore_targets(true, false), (false, true));
    assert_eq!(restore_targets(true, true), (true, true));
    let idx = vec![item("a", 1)];
    let head = vec![item("a", 2)];
    let src = vec![item("a", 3)];
    assert_eq!(restore_worktree_entry("a", None, false, None, &idx).unwrap().0, [1; 20]);
    assert_eq!(restore_worktree_entry("a", None, true, Some(&head), &idx).unwrap().0, [2; 20]);
    assert_eq!(restore_worktree_entry("a", Some(&src), true, Some(&head), &idx).unwrap().0, [3; 20]);
    assert_eq!(restore_worktree_entry("z", None, false, None, &idx).unwrap_err(), RestoreError::NoMatch("z".into()));
    assert_eq!(
        restore_worktree_entry("a", None, true, None, &idx).unwrap_err(),
        RestoreError::NoHeadCommit("a".into())
    );
}

#[test]
fn finding_conflict_markers() {
    assert!(has_conflict_markers(b"a\n<<<<<<< HEAD\nx\n"));
    assert!(has_conflict_markers(b"<<<<<<<"));
    assert!(!has_conflict_markers(b"<<<<<< only six"));
    assert!(!has_conflict_markers(b""));
}
