use rgit::merge::TreeItem;
use rgit::status::{classify_status, format_status, unstaged_after_reset, StatusReport};
use rgit::paths::paths_under;

fn item(p: &str, h: u8) -> TreeItem {
    TreeItem { path: p.to_string(), hash: [h; 20], mode: 0o100644 }
}

#[test]
fn classification() {
    let head = vec![item("a", 1), item("b", 1), item("c", 1)];
    let index = vec![item("a", 1), item("b", 2), item("d", 1), item("e", 1)];
    let work = vec![item("a", 9), item("b", 2), item("d", 1), item("z", 1)];
    let r = classify_status(&head, &index, &work);
    assert_eq!(r.staged_new, vec!["d", "e"]);
    assert_eq!(r.staged_modified, vec!["b"]);
    assert_eq!(r.staged_deleted, vec!["c"]);
    assert_eq!(r.unstaged_modified, vec!["a"]);
    assert_eq!(r.unstaged_deleted, vec!["e"]);
    assert_eq!(r.untracked, vec!["z"]);
}

fn empty() -> StatusReport {
    StatusReport {
        staged_new: vec![],
        staged_modified: vec![],
        staged_deleted: vec![],
        unstaged_modified: vec![],
        unstaged_deleted: vec![],
        untracked: vec![],
    }
}

#[test]
fn clean_tree_text() {
    assert_eq!(format_status(false, &empty()), vec!["nothing to commit, working tree clean"]);
    assert_eq!(
        format_status(true, &empty()),
        vec!["", "No commits yet", "", "nothing to commit (create/copy files and use 'add' to track)"]
    );
}

#[test]
fn sections_text() {
    let mut r = empty();
    r.staged_new = vec!["n".into()];
    r.unstaged_deleted = vec!["d".into()];
    r.untracked = vec!["u".into()];
    assert_eq!(
        format_status(false, &r),
        vec![
            "Changes to be committed:",
            "\tnew file:   n",
            "",
            "Changes not staged for commit:",
            "\tdeleted:    d",
            "",
            "Untracked files:",
            "\tu",
            "",
        ]
    );
    let mut u = empty();
    u.untracked = vec!["u".into()];
    assert_eq!(
        format_status(false, &u),
        vec!["Untracked files:", "\tu", "", "no changes added to commit (use 'add' to track or stage changes)"]
    );
}

#[test]
fn unstaged_changes_after_a_mixed_reset() {
    let old = vec![
        TreeItem { path: "a".to_string(), hash: [1; 20], mode: 0o100644 },
        TreeItem { path: "b".to_string(), hash: [2; 20], mode: 0o100644 },
        TreeItem { path: "c".to_string(), hash: [3; 20], mode: 0o100644 },
    ];
    let target = vec![
        TreeItem { path: "b".to_string(), hash: [9; 20], mode: 0o100644 },
        TreeItem { path: "c".to_string(), hash: [3; 20], mode: 0o100644 },
        TreeItem { path: "d".to_string(), hash: [4; 20], mode: 0o100644 },
    ];
    let all: Vec<String> = vec!["a", "b", "c", "d"].into_iter().map(String::from).collect();
    assert_eq!(unstaged_after_reset(&all, &old, &target), vec!["D\ta", "M\tb", "A\td"]);
}

#[test]
fn selecting_paths_under_a_directory() {
    let ps: Vec<String> = vec!["a", "a.txt", "a/b", "a/c/d", "ab"].into_iter().map(String::from).collect();
    assert_eq!(paths_under(&ps, "a"), vec!["a", "a/b", "a/c/d"]);
    assert_eq!(paths_under(&ps, "a/c"), vec!["a/c/d"]);
    assert!(paths_under(&ps, "zz").is_empty());
}
