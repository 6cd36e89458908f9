use rgit::bisect::{run_mark, RunMark};
use rgit::bisect::{commit_oneline, first_bad_report};
use rgit::bisect::{bisect_recompute, BisectError, BisectOutcome};
use rgit::graph::{CommitGraph, CommitNode, GraphWalk};

fn chain(n: usize) -> CommitGraph {
    // c0 <- c1 <- ... <- c(n-1)
    let mut nodes = Vec::new();
    for i in 0..n {
        let parents = if i == 0 { vec![] } else { vec![format!("c{}", i - 1)] };
        nodes.push(CommitNode { hash: format!("c{}", i), parents });
    }
    CommitGraph { nodes }
}

#[test]
fn waiting_states() {
    let g = chain(3);
    assert_eq!(bisect_recompute(&g, None, &vec![], &vec![]), GraphWalk::Done(Ok(BisectOutcome::WaitingForBad)));
    assert_eq!(bisect_recompute(&g, Some("c2"), &vec![], &vec![]), GraphWalk::Done(Ok(BisectOutcome::WaitingForGood)));
}

#[test]
fn midpoint_and_found() {
    let g = chain(8);
    // candidates c7..c1 in BFS order from c7; c0 is good
    let r = bisect_recompute(&g, Some("c7"), &vec!["c0".into()], &vec![]);
    assert_eq!(r, GraphWalk::Done(Ok(BisectOutcome::Continue("c4".into(), 6))));
    let r = bisect_recompute(&g, Some("c2"), &vec!["c1".into()], &vec![]);
    assert_eq!(r, GraphWalk::Done(Ok(BisectOutcome::Found("c2".into()))));
}

#[test]
fn skips_and_errors() {
    let g = chain(4);
    let r = bisect_recompute(&g, Some("c3"), &vec!["c1".into()], &vec!["c3".into(), "c2".into()]);
    assert_eq!(r, GraphWalk::Done(Err(BisectError::AllSkipped)));
    let r = bisect_recompute(&g, Some("c3"), &vec!["c2".into()], &vec!["c3".into()]);
    assert_eq!(r, GraphWalk::Done(Ok(BisectOutcome::Found("c3".into()))));
    let r = bisect_recompute(&g, Some("c1"), &vec!["c3".into()], &vec![]);
    assert_eq!(r, GraphWalk::Done(Err(BisectError::GoodNotAncestor)));
}

#[test]
fn asks_for_missing_commits() {
    let g = CommitGraph { nodes: vec![CommitNode { hash: "b".into(), parents: vec!["a".into()] }] };
    assert_eq!(bisect_recompute(&g, Some("b"), &vec!["a".into()], &vec![]), GraphWalk::NeedCommit("a".into()));
    let mut full = g.clone();
    full.nodes.push(CommitNode { hash: "a".into(), parents: vec![] });
    assert_eq!(
        bisect_recompute(&full, Some("b"), &vec!["a".into()], &vec![]),
        GraphWalk::Done(Ok(BisectOutcome::Found("b".into())))
    );
    assert_eq!(
        bisect_recompute(&g, Some("b"), &vec!["z".into()], &vec![]),
        GraphWalk::NeedCommit("a".into())
    );
}

#[test]
fn bisect_commit_lines() {
    assert_eq!(commit_oneline("0123456789abcdef", "fix bug"), "[0123456] fix bug");
    assert_eq!(commit_oneline("abc", "x"), "[abc] x");
    let text = b"tree t\nparent p\nauthor A <a> 1 +0000\ncommitter C <c> 1 +0000\n\nbreak it\nmore\n";
    let r = first_bad_report("cafe", "commit", text).unwrap();
    assert_eq!(
        r,
        vec!["cafe is the first bad commit", "commit cafe", "Author: A <a> 1 +0000", "", "    break it"]
            .into_iter()
            .map(String::from)
            .collect::<Vec<_>>()
    );
    assert!(first_bad_report("cafe", "tree", text).is_err());
}

#[test]
fn bisect_run_exit_codes() {
    assert_eq!(run_mark(0), Some(RunMark::Good));
    assert_eq!(run_mark(125), Some(RunMark::Skip));
    assert_eq!(run_mark(1), Some(RunMark::Bad));
    assert_eq!(run_mark(127), Some(RunMark::Bad));
    assert_eq!(run_mark(128), None);
    assert_eq!(run_mark(-1), None);
}
