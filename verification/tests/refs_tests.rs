use rgit::refs::{check_branch_delete, check_branch_rename};
use rgit::refs::{
    branch_ancestors, branch_ref_path, create_branch, current_branch_ref, format_branch_list,
    head_content_for_branch, is_valid_branch_name, list_branches, parse_head, ref_content,
    resolve_head_commit, BranchError, HeadState,
};

#[test]
fn head_parsing() {
    match parse_head("ref: refs/heads/main\n") {
        HeadState::Branch(b) => assert_eq!(b, "main"),
        _ => panic!("expected a branch"),
    }
    match parse_head("ref: other/x") {
        HeadState::Branch(b) => assert_eq!(b, "other/x"),
        _ => panic!("expected a branch"),
    }
    match parse_head("  abc123 \n") {
        HeadState::Detached(h) => assert_eq!(h, "abc123"),
        _ => panic!("expected detached"),
    }
    assert_eq!(current_branch_ref("ref: refs/heads/dev\n"), Some("refs/heads/dev".to_string()));
    assert_eq!(current_branch_ref("deadbeef\n"), None);
}

#[test]
fn head_commit_resolution() {
    let det = HeadState::Detached("c1".into());
    assert_eq!(resolve_head_commit(&det, None), Some("c1".to_string()));
    let br = HeadState::Branch("main".into());
    assert_eq!(resolve_head_commit(&br, Some("c2\n")), Some("c2".to_string()));
    assert_eq!(resolve_head_commit(&br, None), None);
}

#[test]
fn ref_texts() {
    assert_eq!(branch_ref_path("x/y"), "refs/heads/x/y");
    assert_eq!(head_content_for_branch("main"), "ref: refs/heads/main\n");
    assert_eq!(ref_content("abc"), "abc\n");
}

#[test]
fn branch_name_rules() {
    for good in ["main", "feature/x", "v1.2", "a-b_c", "é"] {
        assert!(is_valid_branch_name(good), "{}", good);
    }
    for bad in [
        "", "x.lock", "x.", "@", ".x", "a b", "a~b", "a^b", "a:b", "a?b", "a*b", "a[b", "a\\b", "a..b",
        "a//b", "a@{b", "/a", "a/", "a/.b", "a/b.lock/c", "tab\tname", "del\u{7f}",
    ] {
        assert!(!is_valid_branch_name(bad), "{:?}", bad);
    }
}

#[test]
fn listing() {
    let sorted = list_branches(vec!["main".into(), "dev".into(), "a/b".into()]);
    assert_eq!(sorted, vec!["a/b".to_string(), "dev".to_string(), "main".to_string()]);
    assert_eq!(format_branch_list(&sorted, Some("dev")), vec!["  a/b", "* dev", "  main"]);
    let none: Vec<String> = vec![];
    assert_eq!(format_branch_list(&none, Some("main")), vec!["* main"]);
    assert!(format_branch_list(&none, None).is_empty());
}

#[test]
fn creating_branches() {
    assert_eq!(branch_ancestors("a/b/c"), vec!["a/b".to_string(), "a".to_string()]);
    assert!(branch_ancestors("top").is_empty());
    assert_eq!(create_branch("bad..name", false, None), Err(BranchError::InvalidName));
    assert_eq!(create_branch("ok", true, None), Err(BranchError::AlreadyExists));
    assert_eq!(create_branch("a/b", false, Some("a")), Err(BranchError::ParentIsBranch("a".into())));
    assert_eq!(create_branch("a/b", false, None), Ok("refs/heads/a/b".to_string()));
}

#[test]
fn deleting_branches() {
    let head = HeadState::Branch("main".to_string());
    assert_eq!(check_branch_delete("main", &head, true, Some(true)), Err(BranchError::CheckedOut("main".to_string())));
    assert_eq!(check_branch_delete("dev", &head, false, Some(true)), Ok(()));
    assert_eq!(
        check_branch_delete("dev", &head, false, Some(false)),
        Err(BranchError::NotFullyMerged("dev".to_string()))
    );
    assert_eq!(check_branch_delete("dev", &head, true, Some(false)), Ok(()));
    assert_eq!(check_branch_delete("dev", &head, true, None), Err(BranchError::NotFound("dev".to_string())));
    let det = HeadState::Detached("abc".to_string());
    assert_eq!(check_branch_delete("main", &det, false, Some(true)), Ok(()));
}

#[test]
fn renaming_branches() {
    assert_eq!(check_branch_rename("a", "b..c", true, false), Err(BranchError::InvalidName));
    assert_eq!(check_branch_rename("a", "b", false, false), Err(BranchError::NotFound("a".to_string())));
    assert_eq!(check_branch_rename("a", "b", true, true), Err(BranchError::AlreadyExists));
    assert_eq!(
        check_branch_rename("a", "b", true, false),
        Ok(("refs/heads/a".to_string(), "refs/heads/b".to_string()))
    );
}
