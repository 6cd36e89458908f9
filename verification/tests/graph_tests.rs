use rgit::graph::{
    add_commit, collect_ancestors, commit_node, find_merge_base, is_reachable, log_commits, order_candidates_from,
    CommitGraph, CommitNode, GraphWalk,
};

fn node(h: &str, ps: &[&str]) -> CommitNode {
    CommitNode { hash: h.to_string(), parents: ps.iter().map(|p| p.to_string()).collect() }
}

// a <- b <- c <- e
//       \<- d <-/   (e has parents c and d)
fn sample() -> CommitGraph {
    CommitGraph {
        nodes: vec![
            node("a", &[]),
            node("b", &["a"]),
            node("c", &["b"]),
            node("d", &["b"]),
            node("e", &["c", "d"]),
            node("x", &[]),
        ],
    }
}

#[test]
fn reachability() {
    let g = sample();
    assert_eq!(is_reachable(&g, "e", "a"), GraphWalk::Done(true));
    assert_eq!(is_reachable(&g, "c", "d"), GraphWalk::Done(false));
    assert_eq!(is_reachable(&g, "x", "x"), GraphWalk::Done(true));
    assert_eq!(is_reachable(&g, "a", "e"), GraphWalk::Done(false));
}

#[test]
fn ancestors_in_breadth_first_order() {
    let g = sample();
    assert_eq!(collect_ancestors(&g, "e"), GraphWalk::Done(vec!["e".into(), "c".into(), "d".into(), "b".into(), "a".into()]));
}

#[test]
fn missing_commits_are_requested() {
    let mut g = CommitGraph { nodes: vec![node("c", &["b"])] };
    assert_eq!(collect_ancestors(&g, "c"), GraphWalk::NeedCommit("b".to_string()));
    add_commit(&mut g, node("b", &[]));
    assert_eq!(collect_ancestors(&g, "c"), GraphWalk::Done(vec!["c".into(), "b".into()]));
}

#[test]
fn merge_bases() {
    let g = sample();
    assert_eq!(find_merge_base(&g, "c", "d"), GraphWalk::Done(Some("b".to_string())));
    assert_eq!(find_merge_base(&g, "e", "e"), GraphWalk::Done(Some("e".to_string())));
    assert_eq!(find_merge_base(&g, "e", "c"), GraphWalk::Done(Some("c".to_string())));
    assert_eq!(find_merge_base(&g, "x", "a"), GraphWalk::Done(None));
}

#[test]
fn candidate_order() {
    let g = sample();
    let cands = vec!["a".to_string(), "d".to_string(), "c".to_string()];
    assert_eq!(order_candidates_from(&g, "e", &cands), GraphWalk::Done(vec!["c".into(), "d".into(), "a".into()]));
}

#[test]
fn nodes_from_objects() {
    let n = commit_node("h", "commit", b"tree t\nparent p1\nparent p2\n\nparent not-me\n");
    assert_eq!(n.parents, vec!["p1".to_string(), "p2".to_string()]);
    assert!(commit_node("h", "blob", b"parent p\n").parents.is_empty());
}

#[test]
fn log_shows_every_reachable_commit_once() {
    let g = CommitGraph { nodes: vec![node("m", &["a", "b"]), node("a", &[]), node("b", &[])] };
    assert_eq!(log_commits(&g, "m"), GraphWalk::Done(vec!["m".into(), "a".into(), "b".into()]));
    let g = sample();
    assert_eq!(log_commits(&g, "e"), GraphWalk::Done(vec!["e".into(), "c".into(), "d".into(), "b".into(), "a".into()]));
}

#[test]
fn merge_base_is_a_best_common_ancestor() {
    let g = CommitGraph { nodes: vec![node("P", &[]), node("A", &["P"]), node("B", &["P", "A"])] };
    assert_eq!(find_merge_base(&g, "A", "B"), GraphWalk::Done(Some("A".to_string())));
    assert_eq!(find_merge_base(&g, "B", "A"), GraphWalk::Done(Some("A".to_string())));
    let g = sample();
    assert_eq!(find_merge_base(&g, "d", "e"), GraphWalk::Done(Some("d".to_string())));
}
