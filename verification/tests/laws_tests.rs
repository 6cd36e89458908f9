use rgit::checkout::sync_working_tree;
use rgit::merge::{generate_conflict_markers, has_conflict_markers, TreeItem};
use rgit::refs::{head_content_for_branch, parse_head, ref_content, resolve_head_commit, HeadState};
use rgit::status::{classify_status, unstaged_after_reset};

fn tree() -> Vec<TreeItem> {
    vec![
        TreeItem { path: "a".to_string(), hash: [1; 20], mode: 0o100644 },
        TreeItem { path: "d/b".to_string(), hash: [2; 20], mode: 0o100755 },
    ]
}

#[test]
fn head_written_for_a_branch_reads_back() {
    match parse_head(&head_content_for_branch("feature/x")) {
        HeadState::Branch(b) => assert_eq!(b, "feature/x"),
        HeadState::Detached(_) => panic!("expected a branch"),
    }
}

#[test]
fn detached_head_reads_back() {
    match parse_head(&ref_content("0123abcd")) {
        HeadState::Detached(h) => assert_eq!(h, "0123abcd"),
        HeadState::Branch(_) => panic!("expected a detached head"),
    }
}

#[test]
fn ref_written_reads_back() {
    let head = HeadState::Branch("main".to_string());
    assert_eq!(resolve_head_commit(&head, Some(&ref_content("feedbeef"))), Some("feedbeef".to_string()));
}

#[test]
fn conflict_files_are_seen_as_unresolved() {
    let text = generate_conflict_markers(b"ours\n", b"theirs", "topic");
    assert!(has_conflict_markers(&text));
    let empty = generate_conflict_markers(b"", b"", "");
    assert!(has_conflict_markers(&empty));
}

#[test]
fn clean_tree_has_empty_status() {
    let t = tree();
    let r = classify_status(&t, &t, &t);
    assert!(r.staged_new.is_empty());
    assert!(r.staged_modified.is_empty());
    assert!(r.staged_deleted.is_empty());
    assert!(r.unstaged_modified.is_empty());
    assert!(r.unstaged_deleted.is_empty());
    assert!(r.untracked.is_empty());
}

#[test]
fn switching_to_the_same_tree_touches_nothing() {
    let t = tree();
    let (del, wr) = sync_working_tree(&t, &t, &t);
    assert!(del.is_empty());
    assert!(wr.is_empty());
}

#[test]
fn reset_to_the_same_tree_lists_nothing() {
    let t = tree();
    let all = vec!["a".to_string(), "d/b".to_string(), "z".to_string()];
    assert!(unstaged_after_reset(&all, &t, &t).is_empty());
}
