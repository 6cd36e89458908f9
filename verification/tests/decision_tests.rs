use rgit::checkout::{checkout_plan, CheckoutPlan};
use rgit::commit::{commit_plan, CommitPlan};
use rgit::merge::{three_way_tree_merge, TreeItem};
use rgit::refs::{filter_tags, tag_ref_path, text_contains};
use rgit::replay::{replay_sides, replay_step, ReplayMode, ReplayStep};
use rgit::stash::no_local_changes;

fn item(p: &str, h: u8) -> TreeItem {
    TreeItem { path: p.to_string(), hash: [h; 20], mode: 0o100644 }
}

#[test]
fn replay_sides_per_mode() {
    let parent = vec![item("a", 1)];
    let commit = vec![item("a", 2), item("b", 3)];
    let (base, theirs) = replay_sides(ReplayMode::Pick, parent.clone(), commit.clone());
    assert_eq!(base[0].hash, [1; 20]);
    assert_eq!(theirs.len(), 2);
    let (base, theirs) = replay_sides(ReplayMode::Revert, parent, commit);
    assert_eq!(base.len(), 2);
    assert_eq!(theirs[0].hash, [1; 20]);
}

#[test]
fn revert_of_head_gives_the_parent_tree() {
    let parent = vec![item("a", 1), item("c", 4)];
    let commit = vec![item("a", 2), item("b", 3)];
    let (base, theirs) = replay_sides(ReplayMode::Revert, parent, commit.clone());
    let (merged, conflicts) = three_way_tree_merge(&base, &commit, &theirs);
    assert!(conflicts.is_empty());
    let m: Vec<(String, u8)> = merged.iter().map(|i| (i.path.clone(), i.hash[0])).collect();
    assert_eq!(m, vec![("a".to_string(), 1), ("c".to_string(), 4)]);
}

#[test]
fn replay_steps() {
    assert_eq!(replay_step(true, true, true), ReplayStep::Conflicted);
    assert_eq!(replay_step(false, true, true), ReplayStep::Empty);
    assert_eq!(replay_step(false, false, true), ReplayStep::Staged);
    assert_eq!(replay_step(false, false, false), ReplayStep::Commit);
}

#[test]
fn commit_plans() {
    assert_eq!(commit_plan(Some("p"), None, true), CommitPlan::NothingToCommit);
    assert_eq!(commit_plan(Some("p"), None, false), CommitPlan::Single(Some("p".to_string())));
    assert_eq!(commit_plan(Some("p"), Some("q"), true), CommitPlan::Merge("p".to_string(), "q".to_string()));
    assert_eq!(commit_plan(None, None, false), CommitPlan::Single(None));
    assert_eq!(commit_plan(None, Some("q"), false), CommitPlan::Single(None));
}

#[test]
fn checkout_plans() {
    assert_eq!(checkout_plan(None, None, false, false), CheckoutPlan::MissingTarget);
    assert_eq!(
        checkout_plan(Some("main"), Some("topic"), false, true),
        CheckoutPlan::CreateBranch { name: "topic".to_string(), start: Some("main".to_string()) }
    );
    assert_eq!(
        checkout_plan(None, Some("topic"), false, false),
        CheckoutPlan::CreateBranch { name: "topic".to_string(), start: None }
    );
    assert_eq!(
        checkout_plan(Some("main"), None, false, true),
        CheckoutPlan::Switch { target: "main".to_string(), detach: false }
    );
    assert_eq!(
        checkout_plan(Some("abc1234"), None, false, false),
        CheckoutPlan::Switch { target: "abc1234".to_string(), detach: true }
    );
    assert_eq!(
        checkout_plan(Some("main"), None, true, true),
        CheckoutPlan::Switch { target: "main".to_string(), detach: true }
    );
}

#[test]
fn stash_has_nothing_to_save_only_when_both_trees_match() {
    assert!(no_local_changes("t", "t", "t"));
    assert!(!no_local_changes("t", "u", "t"));
    assert!(!no_local_changes("t", "t", "u"));
}

#[test]
fn tags_and_their_filter() {
    assert_eq!(tag_ref_path("v1.0"), "refs/tags/v1.0");
    let tags = vec!["v1.0".to_string(), "v1.1".to_string(), "release-2".to_string()];
    assert_eq!(filter_tags(&tags, None), tags);
    assert_eq!(filter_tags(&tags, Some("v1")), vec!["v1.0".to_string(), "v1.1".to_string()]);
    assert_eq!(filter_tags(&tags, Some("")), tags);
    assert!(filter_tags(&tags, Some("zzz")).is_empty());
    assert!(text_contains("release-2", "ease"));
    assert!(!text_contains("ab", "abc"));
}
