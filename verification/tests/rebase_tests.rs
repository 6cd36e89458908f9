use rgit::index::IndexEntry;
use rgit::rebase::{branch_marker, marker_branch, rebase_kind, rebase_pick, replay_walk_step, RebaseError, RebaseKind};
use rgit::refs::HeadState;
use rgit::staging::{mv_check, MvError};

#[test]
fn choosing_what_a_rebase_does() {
    assert_eq!(rebase_kind("ours", "up", "up"), RebaseKind::UpToDate);
    assert_eq!(rebase_kind("ours", "up", "ours"), RebaseKind::FastForward);
    assert_eq!(rebase_kind("ours", "up", "base"), RebaseKind::Replay);
}

#[test]
fn walking_back_to_the_merge_base() {
    let one = b"tree t\nparent p1\n\nmsg\n";
    assert_eq!(replay_walk_step("c", "commit", one), Ok("p1".to_string()));
    let two = b"tree t\nparent p1\nparent p2\n\nmsg\n";
    assert_eq!(replay_walk_step("c", "commit", two), Err(RebaseError::MergeCommit("c".to_string())));
    assert_eq!(replay_walk_step("c", "commit", b"tree t\n\nroot\n"), Err(RebaseError::UnrelatedRoot("c".to_string())));
    assert_eq!(replay_walk_step("c", "blob", one), Err(RebaseError::NotACommit("c".to_string())));
}

#[test]
fn reading_a_commit_to_replay() {
    let info = rebase_pick("c", "commit", b"tree t\nparent p1\n\nfix it\nbody\n").ok().unwrap();
    assert_eq!(info.message, "fix it\nbody");
    assert_eq!(info.subject, "fix it");
    assert_eq!(info.parent, Some("p1".to_string()));
    let root = rebase_pick("r", "commit", b"tree t\n\nstart\n").ok().unwrap();
    assert_eq!(root.parent, None);
    assert!(rebase_pick("m", "commit", b"tree t\nparent a\nparent b\n\nm\n").is_err());
}

#[test]
fn branch_markers() {
    assert_eq!(branch_marker(&HeadState::Branch("main".to_string())), "refs/heads/main");
    assert_eq!(branch_marker(&HeadState::Detached("abc".to_string())), "HEAD");
    assert_eq!(marker_branch("HEAD"), None);
    assert_eq!(marker_branch("refs/heads/feature/x"), Some("feature/x".to_string()));
    assert_eq!(marker_branch("odd"), Some("odd".to_string()));
}

fn entry(path: &str, b: u8, mode: u32) -> IndexEntry {
    IndexEntry {
        ctime_secs: 0,
        ctime_nsecs: 0,
        mtime_secs: 0,
        mtime_nsecs: 0,
        dev: 0,
        ino: 0,
        mode,
        uid: 0,
        gid: 0,
        size: 0,
        hash: [b; 20],
        path: path.to_string(),
    }
}

#[test]
fn checking_a_move() {
    let es = vec![entry("a", 1, 0o100755), entry("b", 2, 0o100644)];
    assert_eq!(mv_check(&es, "zz", "c", true, false, false), Err(MvError::NotTracked("zz".to_string())));
    assert_eq!(mv_check(&es, "a", "c", false, false, false), Err(MvError::MissingSource("a".to_string())));
    assert_eq!(mv_check(&es, "a", "a", true, true, false), Err(MvError::SameFile("a".to_string())));
    assert_eq!(mv_check(&es, "a", "b", true, true, false), Err(MvError::DestinationExists("b".to_string())));
    assert_eq!(mv_check(&es, "a", "b", true, true, true), Ok(([1; 20], 0o100755)));
    assert_eq!(mv_check(&es, "a", "c", true, false, false), Ok(([1; 20], 0o100755)));
}
