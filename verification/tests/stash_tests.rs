use rgit::stash::select_stash;
use rgit::stash::stash_commit_parents;
use rgit::stash::stash_messages;
use rgit::refs::HeadState;
use rgit::stash::{current_branch_label, parse_stash_index, read_stash_list, short_hash, write_stash_list, StashEntry, StashError};

#[test]
fn stash_references() {
    assert_eq!(parse_stash_index(None), Ok(0));
    assert_eq!(parse_stash_index(Some("stash@{2}")), Ok(2));
    assert_eq!(parse_stash_index(Some("  3 ")), Ok(3));
    assert_eq!(parse_stash_index(Some("+4")), Ok(4));
    assert_eq!(
        parse_stash_index(Some("stash@{x}")),
        Err(StashError::InvalidReference("stash@{x}".into()))
    );
    assert_eq!(parse_stash_index(Some("-1")), Err(StashError::InvalidReference("-1".into())));
    assert_eq!(parse_stash_index(Some("")), Err(StashError::InvalidReference("".into())));
    assert_eq!(
        parse_stash_index(Some("99999999999999999999999")),
        Err(StashError::InvalidReference("99999999999999999999999".into()))
    );
}

#[test]
fn stash_list_roundtrip() {
    let entries = vec![
        StashEntry { hash: "h2".into(), message: "WIP on main: two".into() },
        StashEntry { hash: "h1".into(), message: "one".into() },
    ];
    let text = write_stash_list(&entries);
    assert_eq!(text, "h1 one\nh2 WIP on main: two\n");
    let back = read_stash_list(&text);
    assert_eq!(back.len(), 2);
    assert_eq!(back[0].hash, "h2");
    assert_eq!(back[0].message, "WIP on main: two");
    assert_eq!(back[1].hash, "h1");
}

#[test]
fn stash_list_lines() {
    let back = read_stash_list("onlyhash\n\nh msg\n");
    assert_eq!(back.len(), 2);
    assert_eq!(back[0].hash, "h");
    assert_eq!(back[1].hash, "onlyhash");
    assert_eq!(back[1].message, "");
    assert_eq!(write_stash_list(&vec![]), "");
}

#[test]
fn head_labels() {
    assert_eq!(current_branch_label(&HeadState::Branch("main".into())), "main");
    assert_eq!(
        current_branch_label(&HeadState::Detached("0123456789abcdef".into())),
        "(detached HEAD at 0123456)"
    );
    assert_eq!(short_hash("abc"), "abc");
}

#[test]
fn selecting_a_stash_entry() {
    assert_eq!(select_stash(0, 0), Err(StashError::NoEntries));
    assert_eq!(select_stash(3, 0), Err(StashError::NoEntries));
    assert_eq!(select_stash(2, 2), Err(StashError::NoSuchEntry(2)));
    assert_eq!(select_stash(1, 2), Ok(1));
}

#[test]
fn stash_commit_needs_two_parents() {
    let text = b"tree t\nparent aaa\nparent bbb\nauthor x\n\nWIP\n";
    assert_eq!(stash_commit_parents(0, "commit", text), Ok(("aaa".to_string(), "bbb".to_string())));
    assert_eq!(stash_commit_parents(4, "commit", b"tree t\nparent aaa\n\nm\n"), Err(StashError::Corrupted(4)));
    assert_eq!(stash_commit_parents(2, "blob", text), Err(StashError::Corrupted(2)));
}

#[test]
fn stash_push_messages() {
    let (i, w) = stash_messages("main", "abc1234", "first commit", None);
    assert_eq!(i, "index on main: abc1234 first commit");
    assert_eq!(w, "WIP on main: abc1234 first commit");
    let (_, w2) = stash_messages("main", "abc1234", "first commit", Some("tidy up"));
    assert_eq!(w2, "On main: tidy up");
}
