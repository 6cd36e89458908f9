use rgit::commit::log_entry;
use rgit::commit::commit_summary;
use rgit::refs::HeadState;
use rgit::commit::{
    build_commit, build_merge_commit, commit_content, commit_parents, commit_subject_line, commit_tree_hash,
    extract_commit_message, CommitError,
};
use rgit::store::{decode_object, hash_object_id};

const TEXT: &str = "tree t1\nparent p1\nparent p2\nauthor a 1 +0000\n\nsubject\n\nbody line\nparent not-a-parent\n";

#[test]
fn reading_commit_text() {
    assert_eq!(commit_parents(TEXT), vec!["p1", "p2"]);
    let fix = "tree t\nparent p1\nparent p2\nauthor a 0 +0000\n\nparent of the fix\n";
    assert_eq!(commit_parents(fix), vec!["p1", "p2"]);
    assert_eq!(commit_tree_hash(TEXT), Some("t1".to_string()));
    assert_eq!(extract_commit_message(TEXT), "subject\n\nbody line\nparent not-a-parent");
    assert_eq!(extract_commit_message("tree t\n"), "");
}

#[test]
fn subject_lines() {
    assert_eq!(commit_subject_line("commit", TEXT.as_bytes()), Ok("subject".to_string()));
    assert_eq!(commit_subject_line("commit", b"tree t\n\n"), Ok(String::new()));
    assert_eq!(commit_subject_line("blob", b"x"), Err(CommitError::NotACommit));
}

#[test]
fn commit_text_layout() {
    let text = commit_content("t", &vec!["p".to_string()], 42, "msg");
    assert_eq!(
        text,
        "tree t\nparent p\nauthor rgit <rgit@example.com> 42 +0000\ncommitter rgit <rgit@example.com> 42 +0000\n\nmsg\n"
    );
}

#[test]
fn built_commits_read_back() {
    let c = build_commit("tt", Some("pp"), "hello", 7);
    let (kind, content) = decode_object(&c.data).unwrap();
    assert_eq!(kind, "commit");
    let text = String::from_utf8(content.clone()).unwrap();
    assert_eq!(commit_parents(&text), vec!["pp"]);
    assert_eq!(commit_tree_hash(&text), Some("tt".to_string()));
    assert_eq!(extract_commit_message(&text), "hello");
    assert_eq!(c.hash, hash_object_id("commit", &content));
    let multi = build_commit("tt", Some("pp"), "subject\n\nbody\nparent x\n", 7);
    let (_, mc) = decode_object(&multi.data).unwrap();
    let mt = String::from_utf8(mc).unwrap();
    assert_eq!(extract_commit_message(&mt), "subject\n\nbody\nparent x\n");
    assert_eq!(commit_parents(&mt), vec!["pp"]);
    let root = build_commit("tt", None, "first", 7);
    let (_, rc) = decode_object(&root.data).unwrap();
    assert!(commit_parents(&String::from_utf8(rc).unwrap()).is_empty());
    let m = build_merge_commit("tt", "a", "b", "Merge branch 'b'", 9);
    let (_, mc) = decode_object(&m.data).unwrap();
    assert_eq!(commit_parents(&String::from_utf8(mc).unwrap()), vec!["a", "b"]);
}

#[test]
fn log_entry_lines() {
    let text = b"tree t\nparent p1\nparent p2\nauthor rgit <x> 1 +0000\ncommitter rgit <x> 1 +0000\n\nhello\nworld\n";
    let one = log_entry("abcdef1234", "commit", text, true, true).unwrap();
    assert_eq!(one, vec!["abcdef1 hello".to_string()]);
    let full = log_entry("abcdef1234", "commit", text, false, false).unwrap();
    assert_eq!(
        full,
        vec!["", "commit abcdef1234", "Author: rgit <x> 1 +0000", "", "    hello", "    world"]
            .into_iter()
            .map(String::from)
            .collect::<Vec<_>>()
    );
    let root = log_entry("abcdef1234", "commit", b"tree t\n\nfirst\n", false, true).unwrap();
    assert_eq!(root, vec!["commit abcdef1234", "", "    first"].into_iter().map(String::from).collect::<Vec<_>>());
    assert!(log_entry("abcdef1234", "blob", text, true, true).is_err());
}

#[test]
fn commit_summary_lines() {
    let main = HeadState::Branch("main".to_string());
    assert_eq!(commit_summary(&main, true, "abc1234", "first"), "[main (root-commit) abc1234] first");
    assert_eq!(commit_summary(&main, false, "abc1234", "second"), "[main abc1234] second");
    let det = HeadState::Detached("ffff".to_string());
    assert_eq!(commit_summary(&det, false, "abc1234", "x"), "[(detached HEAD) abc1234] x");
}

#[test]
fn parents_and_message_read_back_whatever_the_tree_hash_ends_in() {
    let c = build_commit("t\r", Some("pp"), "subject\nparent x", 3);
    let (_, content) = decode_object(&c.data).unwrap();
    let text = String::from_utf8(content).unwrap();
    assert_eq!(commit_parents(&text), vec!["pp"]);
    assert_eq!(extract_commit_message(&text), "subject\nparent x");
    assert_eq!(commit_tree_hash(&text), Some("t".to_string()));
}
