use rgit::objects::{flatten_entry, parse_mode, FlatEntry, TreeEntry};
use rgit::rev::{resolve_name, RevError};
use rgit::checkout::{check_switch_safety, sync_working_tree, SwitchError};
use rgit::clean::{clean_dir_action, clean_mode, staged_dirs, CleanError, CleanMode, DirAction};
use rgit::cli::{diff_commit_args, DiffUsageError};
use rgit::merge::TreeItem;
use rgit::objects::{dir_entry_bytes, file_entry_bytes, format_ls_tree_line, parse_tree, reset_mode, ResetMode, TreeError};
use rgit::replay::{cherry_pick_message, first_line, lines_file, read_lines_set, replay_base, revert_message, ReplayError};
use rgit::rev::{first_parent, is_head_name, parse_rev};
use rgit::rm::{rm_check, rm_targets, RmError};
use rgit::text::{split_lines, trim};

fn item(p: &str, h: u8) -> TreeItem {
    TreeItem { path: p.to_string(), hash: [h; 20], mode: 0o100644 }
}

#[test]
fn lines_like_str_lines() {
    assert_eq!(split_lines("a\r\nb\n\nc"), vec!["a", "b", "", "c"]);
    assert_eq!(split_lines("x\n"), vec!["x"]);
    assert!(split_lines("").is_empty());
    assert_eq!(split_lines("a\r"), vec!["a\r"]);
    assert_eq!(trim("\t a b \u{3000}\n"), "a b");
}

#[test]
fn switch_safety() {
    let head = vec![item("a", 1), item("b", 1)];
    let target = vec![item("a", 2), item("b", 1), item("n", 5)];
    let index = vec![item("a", 1), item("b", 1)];
    let clean_work = vec![item("a", 1), item("b", 1)];
    assert!(check_switch_safety(&target, &head, &index, &clean_work).is_ok());
    let dirty = vec![item("a", 7), item("b", 1)];
    match check_switch_safety(&target, &head, &index, &dirty) {
        Err(SwitchError::LocalChangesWouldBeOverwritten(v)) => assert_eq!(v, vec!["a"]),
        _ => panic!("expected refusal"),
    }
    let untracked = vec![item("a", 1), item("b", 1), item("n", 6)];
    match check_switch_safety(&target, &head, &index, &untracked) {
        Err(SwitchError::UntrackedWouldBeOverwritten(p)) => assert_eq!(p, "n"),
        _ => panic!("expected refusal"),
    }
    // a local change to a file the switch does not touch is kept
    let other = vec![item("a", 1), item("b", 8)];
    assert!(check_switch_safety(&target, &head, &index, &other).is_ok());
    let (del, write) = sync_working_tree(&vec![item("a", 2)], &head, &index);
    assert_eq!(del, vec!["b"]);
    assert_eq!(write, vec!["a"]);
}

#[test]
fn clean_choices() {
    assert_eq!(clean_mode(true, false, true, true), Err(CleanError::ConflictingIgnoreFlags));
    assert_eq!(clean_mode(false, false, false, false), Err(CleanError::ForceRequired));
    assert_eq!(clean_mode(false, true, false, false), Ok(CleanMode::Normal));
    assert_eq!(clean_mode(true, false, true, false), Ok(CleanMode::IncludeIgnored));
    assert_eq!(clean_mode(true, false, false, true), Ok(CleanMode::IgnoredOnly));
    assert!(CleanMode::Normal.wants(false));
    assert!(!CleanMode::IgnoredOnly.wants(false));
    assert_eq!(staged_dirs(&vec!["a/b/c.txt".into(), "d.txt".into()]), vec!["a", "a/b"]);
    assert_eq!(clean_dir_action(true, false, false, false, CleanMode::Normal), DirAction::Remove);
    assert_eq!(clean_dir_action(true, false, false, true, CleanMode::Normal), DirAction::Skip);
    assert_eq!(clean_dir_action(false, false, false, true, CleanMode::Normal), DirAction::Skip);
    assert_eq!(clean_dir_action(false, false, false, true, CleanMode::IgnoredOnly), DirAction::Descend);
    assert_eq!(clean_dir_action(true, true, false, false, CleanMode::Normal), DirAction::Descend);
}

#[test]
fn cli_diff_args() {
    assert_eq!(diff_commit_args(&vec![]), Ok((None, None)));
    assert_eq!(diff_commit_args(&vec!["a".into()]), Ok((Some("a".into()), None)));
    assert_eq!(diff_commit_args(&vec!["a".into(), "b".into()]), Ok((Some("a".into()), Some("b".into()))));
    assert_eq!(diff_commit_args(&vec!["a".into(), "b".into(), "c".into()]), Err(DiffUsageError));
}

#[test]
fn trees() {
    let mut content = file_entry_bytes(0o100644, "a.txt", &[1; 20]);
    content.extend(dir_entry_bytes("sub", &[2; 20]));
    assert_eq!(&content[0..13], b"100644 a.txt\0");
    let es = parse_tree(&content).unwrap();
    assert_eq!(es.len(), 2);
    assert_eq!(es[0].mode, "100644");
    assert_eq!(es[0].name, "a.txt");
    assert_eq!(es[1].mode, "40000");
    assert_eq!(es[1].hash, [2; 20]);
    assert_eq!(
        format_ls_tree_line(&es[1]),
        "040000 tree 0202020202020202020202020202020202020202\tsub"
    );
    assert_eq!(parse_tree(b"100644 a\0short").unwrap_err(), TreeError::Truncated);
    assert_eq!(reset_mode(false, true), ResetMode::Hard);
    assert_eq!(reset_mode(false, false), ResetMode::Mixed);
}

#[test]
fn replay_texts() {
    assert_eq!(replay_base(&vec!["a".into(), "b".into()]), Err(ReplayError::MergeCommit));
    assert_eq!(replay_base(&vec!["a".into()]), Ok(Some("a".into())));
    assert_eq!(replay_base(&vec![]), Ok(None));
    assert_eq!(cherry_pick_message("fix\n\nbody", "abc"), "fix\n\nbody\n\n(cherry picked from commit abc)");
    assert_eq!(revert_message("fix", "abc"), "Revert \"fix\"\n\nThis reverts commit abc.");
    assert_eq!(first_line("one\ntwo"), "one");
    assert_eq!(first_line(""), "");
    assert_eq!(read_lines_set(" a \n\n b\n"), vec!["a", "b"]);
    assert_eq!(lines_file(&vec!["a".into(), "b".into()]), "a\nb\n");
}

#[test]
fn revisions() {
    assert_eq!(parse_rev("main~2"), ("main".to_string(), 2));
    assert_eq!(parse_rev("HEAD~x"), ("HEAD".to_string(), 1));
    assert_eq!(parse_rev("abc"), ("abc".to_string(), 0));
    assert!(is_head_name("hEaD"));
    assert!(!is_head_name("heads"));
    assert_eq!(first_parent("commit", b"tree t\nparent p\nparent r\n\nm\n"), Ok(Some("p".to_string())));
    assert_eq!(first_parent("commit", b"tree t\n\nparent q\n"), Ok(None));
    assert_eq!(first_parent("commit", b"tree t\n"), Ok(None));
    assert!(first_parent("tree", b"").is_err());
}

#[test]
fn rm_selection() {
    let index: Vec<String> = vec!["a".into(), "d/x".into(), "d/y".into()];
    assert_eq!(rm_targets(&index, &vec![], false), Err(RmError::NoPathspec));
    assert_eq!(rm_targets(&index, &vec!["d".into()], false), Err(RmError::NotRecursive("d".into())));
    assert_eq!(rm_targets(&index, &vec!["q".into()], true), Err(RmError::NoMatch("q".into())));
    assert_eq!(
        rm_targets(&index, &vec!["d".into(), "d/x".into(), "a".into()], true),
        Ok(vec!["d/x".to_string(), "d/y".to_string(), "a".to_string()])
    );
    let idx = vec![item("a", 1), item("b", 2), item("c", 3)];
    let head = vec![item("a", 1), item("b", 9), item("c", 3)];
    let (staged, modified) = rm_check(
        &vec!["a".into(), "b".into(), "c".into()],
        &idx,
        Some(&head),
        &vec![Some([5; 20]), None, Some([3; 20])],
    );
    assert_eq!(staged, vec!["b"]);
    assert_eq!(modified, vec!["a"]);
}

#[test]
fn resolving_names_to_commits() {
    assert_eq!(resolve_name("dev", Some("abc"), Some("blob")), Ok("abc".to_string()));
    assert_eq!(resolve_name("abc123", None, Some("commit")), Ok("abc123".to_string()));
    assert_eq!(
        resolve_name("abc123", None, Some("tree")),
        Err(RevError::NotACommit("abc123".to_string(), "tree".to_string()))
    );
    assert_eq!(resolve_name("nope", None, None), Err(RevError::NotFound("nope".to_string())));
}

#[test]
fn reading_modes_and_flattening_entries() {
    assert_eq!(parse_mode("100644"), Some(0o100644));
    assert_eq!(parse_mode("40000"), Some(0o40000));
    assert_eq!(parse_mode(""), None);
    assert_eq!(parse_mode("19"), None);
    assert_eq!(parse_mode("77777777777"), None);
    let d = TreeEntry { mode: "40000".to_string(), name: "src".to_string(), hash: [1; 20] };
    match flatten_entry("a", &d) {
        Some(FlatEntry::Dir(p, h)) => {
            assert_eq!(p, "a/src");
            assert_eq!(h, [1; 20]);
        }
        _ => panic!("expected a directory"),
    }
    let f = TreeEntry { mode: "100755".to_string(), name: "run.sh".to_string(), hash: [2; 20] };
    match flatten_entry("", &f) {
        Some(FlatEntry::File(it)) => {
            assert_eq!(it.path, "run.sh");
            assert_eq!(it.mode, 0o100755);
        }
        _ => panic!("expected a file"),
    }
    let bad = TreeEntry { mode: "xyz".to_string(), name: "n".to_string(), hash: [0; 20] };
    assert!(flatten_entry("", &bad).is_none());
}
