//! The commit graph walks behind reachability, ancestor sets, bisect
//! candidate ordering and merge bases.
//!
//! The walks read commits from a [`CommitGraph`] that the caller fills from the
//! object store. When a walk needs a commit that the graph does not hold yet it
//! stops and names it ([`GraphWalk::NeedCommit`]); the caller loads that commit
//! (its header parents, or none for an object that is not a commit), adds it and
//! runs the walk again. Every walk is breadth-first from its start, visiting
//! each hash once, in the order in which parents are listed.
use vstd::prelude::*;
use crate::codec::lossy_decode;
use crate::commit::{header_lines, commit_parents, parent_prefix, prefixed};
use crate::text::{lines_of, str_eq, string_views};

verus! {

/// One commit of the graph: its hash and its parents' hashes, in order.
#[derive(Debug, Clone)]
pub struct CommitNode {
    pub hash: String,
    pub parents: Vec<String>,
}

/// The commits loaded so far.
#[derive(Debug, Clone)]
pub struct CommitGraph {
    pub nodes: Vec<CommitNode>,
}

/// A hash with its parents.
pub open spec fn node_view(n: CommitNode) -> (Seq<char>, Seq<Seq<char>>) {
    (n.hash@, string_views(n.parents@))
}

pub open spec fn graph_view(g: CommitGraph) -> Seq<(Seq<char>, Seq<Seq<char>>)> {
    g.nodes@.map_values(|n: CommitNode| node_view(n))
}

/// The parents recorded for `h` (its first node), or `None` if `h` is not loaded.
pub open spec fn parents_in(g: Seq<(Seq<char>, Seq<Seq<char>>)>, h: Seq<char>) -> Option<Seq<Seq<char>>>
    decreases g.len(),
{
    if g.len() == 0 {
        None
    } else if g[0].0 == h {
        Some(g[0].1)
    } else {
        parents_in(g.drop_first(), h)
    }
}

/// How a breadth-first walk ends: the whole visit order, the first visited
/// hash that is in the stop list, or the first visited hash not yet loaded.
pub enum BfsEnd {
    Finished(Seq<Seq<char>>),
    Hit(Seq<char>),
    Missing(Seq<char>),
}

/// Breadth-first walk: take the front of the queue; skip it if already
/// visited; otherwise visit it, end on it if it is in `stop` or not loaded,
/// else queue its parents. `None` when `fuel` steps do not suffice.
pub open spec fn bfs_run(
    g: Seq<(Seq<char>, Seq<Seq<char>>)>,
    stop: Seq<Seq<char>>,
    queue: Seq<Seq<char>>,
    visited: Seq<Seq<char>>,
    fuel: nat,
) -> Option<BfsEnd>
    decreases fuel,
{
    if queue.len() == 0 {
        Some(BfsEnd::Finished(visited))
    } else if fuel == 0 {
        None
    } else {
        let h = queue[0];
        let rest = queue.drop_first();
        if visited.contains(h) {
            bfs_run(g, stop, rest, visited, (fuel - 1) as nat)
        } else if stop.contains(h) {
            Some(BfsEnd::Hit(h))
        } else {
            match parents_in(g, h) {
                None => Some(BfsEnd::Missing(h)),
                Some(ps) => bfs_run(g, stop, rest + ps, visited.push(h), (fuel - 1) as nat),
            }
        }
    }
}

/// The outcome of a walk run to its end from `start`.
pub open spec fn bfs_from(
    g: Seq<(Seq<char>, Seq<Seq<char>>)>,
    stop: Seq<Seq<char>>,
    start: Seq<char>,
    e: BfsEnd,
) -> bool {
    exists|f: nat| bfs_run(g, stop, seq![start], seq![], f) == Some(e)
}

/// The result of a walk over a partly loaded graph: the answer, or the
/// commit to load before asking again.
#[derive(Debug, Clone, PartialEq, Eq)]
pub enum GraphWalk<T> {
    Done(T),
    NeedCommit(String),
}

enum BfsResult {
    Finished(Vec<String>),
    Hit(String),
    Missing(String),
}

spec fn bfs_result_view(r: BfsResult) -> BfsEnd {
    match r {
        BfsResult::Finished(v) => BfsEnd::Finished(string_views(v@)),
        BfsResult::Hit(h) => BfsEnd::Hit(h@),
        BfsResult::Missing(h) => BfsEnd::Missing(h@),
    }
}

/// Whether `v` holds a string equal to `s`.
pub fn contains_str(v: &Vec<String>, s: &str) -> (r: bool)
    ensures
        r == string_views(v@).contains(s@),
{
    let mut i: usize = 0;
    while i < v.len()
        invariant
            i <= v@.len(),
            forall|k: int| 0 <= k < i ==> v@[k]@ != s@,
        decreases v@.len() - i,
    {
        if str_eq(v[i].as_str(), s) {
            assert(string_views(v@)[i as int] == s@);
            return true;
        }
        i += 1;
    }
    assert(!string_views(v@).contains(s@)) by {
        if string_views(v@).contains(s@) {
            let k = choose|k: int| 0 <= k < string_views(v@).len() && string_views(v@)[k] == s@;
            assert(v@[k]@ == s@);
        }
    }
    false
}

/// A copy of the strings.
pub fn clone_strings(v: &Vec<String>) -> (r: Vec<String>)
    ensures
        string_views(r@) == string_views(v@),
{
    let mut out: Vec<String> = Vec::new();
    let mut i: usize = 0;
    while i < v.len()
        invariant
            i <= v@.len(),
            string_views(out@) == string_views(v@).take(i as int),
        decreases v@.len() - i,
    {
        assert(string_views(out@).len() == out@.len());
        assert(string_views(v@).take(i as int).len() == i);
        let c = v[i].clone();
        assert(c@ == v@[i as int]@);
        let ghost before = out@;
        out.push(c);
        assert(out@ == before.push(c));
        assert(before.len() == i);
        assert(out@[i as int] == c);
        assert(string_views(out@).len() == i + 1);
        assert(string_views(out@)[i as int] == out@[i as int]@);
        assert(string_views(out@)[i as int] == c@);
        i += 1;
        assert(string_views(out@) =~= string_views(v@).take(i as int));
    }
    assert(string_views(v@).take(v@.len() as int) =~= string_views(v@));
    out
}

/// The parents loaded for `h`, if it is loaded.
fn lookup(g: &CommitGraph, h: &str) -> (r: Option<Vec<String>>)
    ensures
        match parents_in(graph_view(*g), h@) {
            None => r is None,
            Some(ps) => r matches Some(v) && string_views(v@) == ps,
        },
{
    let ghost gv = graph_view(*g);
    let mut i: usize = 0;
    assert(gv.skip(0) =~= gv);
    while i < g.nodes.len()
        invariant
            gv == graph_view(*g),
            i <= gv.len(),
            parents_in(gv, h@) == parents_in(gv.skip(i as int), h@),
        decreases gv.len() - i,
    {
        proof {
            assert(gv.skip(i as int).drop_first() =~= gv.skip(i + 1));
            assert(gv.skip(i as int)[0] == node_view(g.nodes@[i as int]));
        }
        if str_eq(g.nodes[i].hash.as_str(), h) {
            return Some(clone_strings(&g.nodes[i].parents));
        }
        i += 1;
    }
    None
}

/// Every hash in `vis` is loaded in `g`.
spec fn all_loaded(g: Seq<(Seq<char>, Seq<Seq<char>>)>, vis: Seq<Seq<char>>) -> bool {
    forall|k: int| 0 <= k < vis.len() ==> parents_in(g, #[trigger] vis[k]) is Some
}

/// The loaded hashes.
spec fn graph_hashes(g: Seq<(Seq<char>, Seq<Seq<char>>)>) -> Seq<Seq<char>> {
    g.map_values(|n: (Seq<char>, Seq<Seq<char>>)| n.0)
}

proof fn lemma_loaded_in_hashes(g: Seq<(Seq<char>, Seq<Seq<char>>)>, h: Seq<char>)
    requires
        parents_in(g, h) is Some,
    ensures
        graph_hashes(g).contains(h),
    decreases g.len(),
{
    if g[0].0 == h {
        assert(graph_hashes(g)[0] == h);
    } else {
        lemma_loaded_in_hashes(g.drop_first(), h);
        let k = choose|k: int| 0 <= k < graph_hashes(g.drop_first()).len() && graph_hashes(g.drop_first())[k] == h;
        assert(graph_hashes(g)[k + 1] == h);
    }
}

proof fn lemma_visited_bound(g: Seq<(Seq<char>, Seq<Seq<char>>)>, vis: Seq<Seq<char>>)
    requires
        vis.no_duplicates(),
        all_loaded(g, vis),
    ensures
        vis.len() <= g.len(),
{
    vis.unique_seq_to_set();
    let hs = graph_hashes(g);
    assert forall|x: Seq<char>| vis.to_set().contains(x) implies hs.to_set().contains(x) by {
        let k = choose|k: int| 0 <= k < vis.len() && vis[k] == x;
        lemma_loaded_in_hashes(g, vis[k]);
    }
    hs.lemma_cardinality_of_set();
    vstd::set_lib::lemma_len_subset(vis.to_set(), hs.to_set());
}

/// Runs the breadth-first walk from `start` to its end.
fn bfs(g: &CommitGraph, start: &str, stop: &Vec<String>) -> (r: BfsResult)
    ensures
        bfs_from(graph_view(*g), string_views(stop@), start@, bfs_result_view(r)),
{
    let ghost gv = graph_view(*g);
    let ghost sv = string_views(stop@);
    let ghost init = seq![start@];
    let mut queue: Vec<String> = Vec::new();
    queue.push(start.to_string());
    let mut head: usize = 0;
    let mut visited: Vec<String> = Vec::new();
    let ghost mut steps: nat = 0;
    let gn = g.nodes.len();
    proof {
        assert(string_views(queue@).skip(0) =~= init);
        assert(string_views(visited@) =~= Seq::<Seq<char>>::empty());
    }
    while head < queue.len()
        invariant
            gv == graph_view(*g),
            sv == string_views(stop@),
            init == seq![start@],
            gn == gv.len(),
            head <= queue@.len(),
            string_views(visited@).no_duplicates(),
            all_loaded(gv, string_views(visited@)),
            forall|f: nat| #[trigger] bfs_run(gv, sv, init, seq![], f + steps) == bfs_run(
                gv,
                sv,
                string_views(queue@).skip(head as int),
                string_views(visited@),
                f,
            ),
        decreases gn - visited@.len(), queue@.len() - head,
    {
        proof {
            lemma_visited_bound(gv, string_views(visited@));
        }
        let ghost q = string_views(queue@).skip(head as int);
        let ghost vis = string_views(visited@);
        let h = queue[head].clone();
        head += 1;
        proof {
            assert(q[0] == h@);
            assert(q.drop_first() =~= string_views(queue@).skip(head as int));
        }
        if contains_str(&visited, h.as_str()) {
            proof {
                assert forall|f: nat| #[trigger] bfs_run(gv, sv, init, seq![], f + (steps + 1)) == bfs_run(
                    gv,
                    sv,
                    string_views(queue@).skip(head as int),
                    string_views(visited@),
                    f,
                ) by {
                    assert(bfs_run(gv, sv, init, seq![], (f + 1) + steps) == bfs_run(gv, sv, q, vis, f + 1));
                }
                steps = steps + 1;
            }
        } else if contains_str(stop, h.as_str()) {
            proof {
                assert(bfs_run(gv, sv, init, seq![], 1 + steps) == bfs_run(gv, sv, q, vis, 1));
                assert(bfs_run(gv, sv, q, vis, 1) == Some(BfsEnd::Hit(h@)));
                let ghost f: nat = (1 + steps) as nat;
                        assert(init == seq![start@]);
                        assert(bfs_run(gv, sv, init, seq![], f) == Some(BfsEnd::Hit(h@)));
                        assert(bfs_result_view(BfsResult::Hit(h)) == BfsEnd::Hit(h@));
                        assert(bfs_run(graph_view(*g), string_views(stop@), seq![start@], seq![], f) == Some(bfs_result_view(BfsResult::Hit(h))));
            }
            return BfsResult::Hit(h);
        } else {
            match lookup(g, h.as_str()) {
                None => {
                    proof {
                        assert(bfs_run(gv, sv, init, seq![], 1 + steps) == bfs_run(gv, sv, q, vis, 1));
                        assert(bfs_run(gv, sv, q, vis, 1) == Some(BfsEnd::Missing(h@)));
                        let ghost f: nat = (1 + steps) as nat;
                        assert(init == seq![start@]);
                        assert(bfs_run(gv, sv, init, seq![], f) == Some(BfsEnd::Missing(h@)));
                        assert(bfs_result_view(BfsResult::Missing(h)) == BfsEnd::Missing(h@));
                        assert(bfs_run(graph_view(*g), string_views(stop@), seq![start@], seq![], f) == Some(bfs_result_view(BfsResult::Missing(h))));
                    }
                    return BfsResult::Missing(h);
                },
                Some(ps) => {
                    let ghost qv_before = string_views(queue@);
                    let mut j: usize = 0;
                    while j < ps.len()
                        invariant
                            head <= queue@.len(),
                            string_views(queue@) == qv_before + string_views(ps@).take(j as int),
                            j <= ps@.len(),
                        decreases ps@.len() - j,
                    {
                        let ghost qb = queue@;
                        assert(string_views(queue@).len() == queue@.len());
                        assert(string_views(ps@).take(j as int).len() == j);
                        queue.push(ps[j].clone());
                        proof {
                            assert(queue@ == qb.push(ps@[j as int]));
                            assert(string_views(queue@).len() == queue@.len());
                            assert(string_views(queue@)[queue@.len() - 1] == ps@[j as int]@);
                            assert(string_views(queue@) =~= string_views(qb).push(ps@[j as int]@));
                            assert(string_views(ps@).take(j + 1) =~= string_views(ps@).take(j as int).push(ps@[j as int]@));
                        }
                        j += 1;
                        proof {
                            assert(string_views(queue@) =~= qv_before + string_views(ps@).take(j as int));
                        }
                    }
                    visited.push(h);
                    proof {
                        let ghost pv = string_views(ps@);
                        assert(pv.take(pv.len() as int) =~= pv);
                        assert(string_views(queue@).skip(head as int) =~= q.drop_first() + pv);
                        assert(string_views(visited@) =~= vis.push(h@));
                        assert(string_views(visited@).no_duplicates()) by {
                            assert forall|a: int, b: int|
                                0 <= a < b < string_views(visited@).len() implies string_views(visited@)[a]
                                != string_views(visited@)[b] by {
                                if b == vis.len() {
                                    assert(string_views(visited@)[a] == vis[a]);
                                }
                            }
                        }
                        assert forall|f: nat| #[trigger] bfs_run(gv, sv, init, seq![], f + (steps + 1))
                            == bfs_run(
                            gv,
                            sv,
                            string_views(queue@).skip(head as int),
                            string_views(visited@),
                            f,
                        ) by {
                            assert(bfs_run(gv, sv, init, seq![], (f + 1) + steps) == bfs_run(gv, sv, q, vis, f + 1));
                        }
                        steps = steps + 1;
                        lemma_visited_bound(gv, string_views(visited@));
                    }
                },
            }
        }
    }
    proof {
        assert(string_views(queue@).skip(head as int).len() == 0);
        assert(bfs_run(gv, sv, init, seq![], 0 + steps) == Some(BfsEnd::Finished(string_views(visited@))));
        assert(bfs_run(graph_view(*g), string_views(stop@), seq![start@], seq![], steps) == Some(bfs_result_view(BfsResult::Finished(visited))));
    }
    BfsResult::Finished(visited)
}


proof fn lemma_no_hit_without_stop(
    g: Seq<(Seq<char>, Seq<Seq<char>>)>,
    q: Seq<Seq<char>>,
    vis: Seq<Seq<char>>,
    f: nat,
)
    ensures
        !(bfs_run(g, seq![], q, vis, f) matches Some(BfsEnd::Hit(_))),
    decreases f,
{
    if q.len() > 0 && f > 0 {
        let h = q[0];
        if vis.contains(h) {
            lemma_no_hit_without_stop(g, q.drop_first(), vis, (f - 1) as nat);
        } else {
            match parents_in(g, h) {
                None => {},
                Some(ps) => lemma_no_hit_without_stop(g, q.drop_first() + ps, vis.push(h), (f - 1) as nat),
            }
        }
    }
}

/// A walk that ends gives the same end whatever fuel is added.
proof fn lemma_bfs_fuel(
    g: Seq<(Seq<char>, Seq<Seq<char>>)>,
    stop: Seq<Seq<char>>,
    q: Seq<Seq<char>>,
    vis: Seq<Seq<char>>,
    f1: nat,
    f2: nat,
)
    requires
        bfs_run(g, stop, q, vis, f1) is Some,
        f1 <= f2,
    ensures
        bfs_run(g, stop, q, vis, f2) == bfs_run(g, stop, q, vis, f1),
    decreases f1,
{
    if q.len() > 0 && f1 > 0 {
        let h = q[0];
        if vis.contains(h) {
            lemma_bfs_fuel(g, stop, q.drop_first(), vis, (f1 - 1) as nat, (f2 - 1) as nat);
        } else if !stop.contains(h) {
            match parents_in(g, h) {
                None => {},
                Some(ps) => lemma_bfs_fuel(g, stop, q.drop_first() + ps, vis.push(h), (f1 - 1) as nat, (f2 - 1) as nat),
            }
        }
    }
}

/// A walk has at most one end.
pub proof fn lemma_bfs_unique(
    g: Seq<(Seq<char>, Seq<Seq<char>>)>,
    stop: Seq<Seq<char>>,
    start: Seq<char>,
    e1: BfsEnd,
    e2: BfsEnd,
)
    requires
        bfs_from(g, stop, start, e1),
        bfs_from(g, stop, start, e2),
    ensures
        e1 == e2,
{
    let f1 = choose|f: nat| bfs_run(g, stop, seq![start], seq![], f) == Some(e1);
    let f2 = choose|f: nat| bfs_run(g, stop, seq![start], seq![], f) == Some(e2);
    if f1 <= f2 {
        lemma_bfs_fuel(g, stop, seq![start], seq![], f1, f2);
    } else {
        lemma_bfs_fuel(g, stop, seq![start], seq![], f2, f1);
    }
}

/// Every hash reachable from `start` (start included), in breadth-first
/// order, once the graph holds all of them.
pub fn collect_ancestors(g: &CommitGraph, start: &str) -> (r: GraphWalk<Vec<String>>)
    ensures
        r matches GraphWalk::Done(v) ==> forall|x: Seq<char>|
            #[trigger] string_views(v@).contains(x) <==> reaches(graph_view(*g), start@, x),
        match r {
            GraphWalk::Done(v) => bfs_from(graph_view(*g), seq![], start@, BfsEnd::Finished(string_views(v@))),
            GraphWalk::NeedCommit(h) => bfs_from(graph_view(*g), seq![], start@, BfsEnd::Missing(h@)),
        },
{
    let stop: Vec<String> = Vec::new();
    assert(string_views(stop@) =~= Seq::<Seq<char>>::empty());
    match bfs(g, start, &stop) {
        BfsResult::Finished(v) => {
            proof {
                bfs_finished_exact(graph_view(*g), Seq::<Seq<char>>::empty(), start@, string_views(v@));
                assert forall|x: Seq<char>| reaches(graph_view(*g), start@, x) implies #[trigger] string_views(v@).contains(x) by {
                    assert(!Seq::<Seq<char>>::empty().contains(x));
                }
            }
            GraphWalk::Done(v)
        },
        BfsResult::Missing(h) => GraphWalk::NeedCommit(h),
        BfsResult::Hit(h) => {
            proof {
                let f = choose|f: nat| bfs_run(graph_view(*g), seq![], seq![start@], seq![], f) == Some(BfsEnd::Hit(h@));
                lemma_no_hit_without_stop(graph_view(*g), seq![start@], seq![], f);
            }
            GraphWalk::NeedCommit(h)
        },
    }
}

proof fn lemma_bfs_finished_grows(
    g: Seq<(Seq<char>, Seq<Seq<char>>)>,
    stop: Seq<Seq<char>>,
    q: Seq<Seq<char>>,
    vis: Seq<Seq<char>>,
    f: nat,
    vf: Seq<Seq<char>>,
)
    requires
        vis.no_duplicates(),
        bfs_run(g, stop, q, vis, f) == Some(BfsEnd::Finished(vf)),
    ensures
        vf.no_duplicates(),
        vis.len() <= vf.len(),
        vf.take(vis.len() as int) == vis,
    decreases f,
{
    if q.len() == 0 {
        assert(vf.take(vis.len() as int) =~= vis);
    } else {
        let h = q[0];
        if vis.contains(h) {
            lemma_bfs_finished_grows(g, stop, q.drop_first(), vis, (f - 1) as nat, vf);
        } else {
            let ps = parents_in(g, h)->0;
            let v2 = vis.push(h);
            assert(v2.no_duplicates()) by {
                assert forall|i: int, j: int| 0 <= i < j < v2.len() implies v2[i] != v2[j] by {
                    if j == vis.len() {
                        assert(v2[i] == vis[i]);
                    }
                }
            }
            lemma_bfs_finished_grows(g, stop, q.drop_first() + ps, v2, (f - 1) as nat, vf);
            assert(vf.take(vis.len() as int) =~= v2.take(vis.len() as int));
            assert(v2.take(vis.len() as int) =~= vis);
        }
    }
}

/// The commits `log` shows from `head`: every commit reachable from it
/// through parent links, each exactly once, in breadth-first order starting
/// with `head` itself.
pub fn log_commits(g: &CommitGraph, head: &str) -> (r: GraphWalk<Vec<String>>)
    ensures
        match r {
            GraphWalk::Done(v) => {
                &&& bfs_from(graph_view(*g), seq![], head@, BfsEnd::Finished(string_views(v@)))
                &&& forall|x: Seq<char>| #[trigger] string_views(v@).contains(x) <==> reaches(graph_view(*g), head@, x)
                &&& string_views(v@).no_duplicates()
                &&& v@.len() > 0 && v@[0]@ == head@
            },
            GraphWalk::NeedCommit(h) => bfs_from(graph_view(*g), seq![], head@, BfsEnd::Missing(h@)),
        },
{
    let r = collect_ancestors(g, head);
    match r {
        GraphWalk::Done(v) => {
            proof {
                let gv = graph_view(*g);
                let e: Seq<Seq<char>> = seq![];
                let f = choose|f: nat| bfs_run(gv, e, seq![head@], seq![], f) == Some(BfsEnd::Finished(string_views(v@)));
                assert(f > 0);
                assert(!Seq::<Seq<char>>::empty().contains(head@));
                assert(!e.contains(head@));
                let ps = parents_in(gv, head@)->0;
                assert(seq![head@].drop_first() + ps =~= ps);
                assert(Seq::<Seq<char>>::empty().push(head@) =~= seq![head@]);
                assert(bfs_run(gv, e, seq![head@], seq![], f) == bfs_run(gv, e, ps, seq![head@], (f - 1) as nat));
                lemma_bfs_finished_grows(gv, e, ps, seq![head@], (f - 1) as nat, string_views(v@));
                assert(string_views(v@).take(1)[0] == head@);
                assert(string_views(v@)[0] == v@[0]@);
            }
            GraphWalk::Done(v)
        },
        GraphWalk::NeedCommit(h) => GraphWalk::NeedCommit(h),
    }
}

/// The members of `cands`, in the order of `vis`.
pub open spec fn keep_members(vis: Seq<Seq<char>>, cands: Seq<Seq<char>>) -> Seq<Seq<char>>
    decreases vis.len(),
{
    if vis.len() == 0 {
        seq![]
    } else {
        let r = keep_members(vis.drop_last(), cands);
        if cands.contains(vis.last()) {
            r.push(vis.last())
        } else {
            r
        }
    }
}

/// The members of `candidates` reachable from `start`, in breadth-first order
/// of the whole ancestor graph.
pub fn order_candidates_from(g: &CommitGraph, start: &str, candidates: &Vec<String>) -> (r: GraphWalk<
    Vec<String>,
>)
    ensures
        match r {
            GraphWalk::Done(v) => exists|vis: Seq<Seq<char>>|
                bfs_from(graph_view(*g), seq![], start@, BfsEnd::Finished(vis)) && string_views(v@)
                    == keep_members(vis, string_views(candidates@)),
            GraphWalk::NeedCommit(h) => bfs_from(graph_view(*g), seq![], start@, BfsEnd::Missing(h@)),
        },
{
    match collect_ancestors(g, start) {
        GraphWalk::NeedCommit(h) => GraphWalk::NeedCommit(h),
        GraphWalk::Done(vis) => {
            let ghost cv = string_views(candidates@);
            let ghost vv = string_views(vis@);
            let mut out: Vec<String> = Vec::new();
            let mut i: usize = 0;
            assert(keep_members(vv.take(0), cv) =~= Seq::<Seq<char>>::empty());
            while i < vis.len()
                invariant
                    vv == string_views(vis@),
                    cv == string_views(candidates@),
                    i <= vis@.len(),
                    string_views(out@) == keep_members(vv.take(i as int), cv),
                decreases vis@.len() - i,
            {
                proof {
                    let t = vv.take(i + 1);
                    assert(t.drop_last() =~= vv.take(i as int));
                    assert(t.last() == vis@[i as int]@);
                    assert(keep_members(t, cv) == if cv.contains(t.last()) {
                        keep_members(t.drop_last(), cv).push(t.last())
                    } else {
                        keep_members(t.drop_last(), cv)
                    });
                }
                if contains_str(candidates, vis[i].as_str()) {
                    let ghost before = out@;
                    out.push(vis[i].clone());
                    proof {
                        assert(string_views(out@) =~= string_views(before).push(vis@[i as int]@));
                    }
                }
                i += 1;
            }
            assert(vv.take(vis@.len() as int) =~= vv);
            GraphWalk::Done(out)
        },
    }
}

/// Whether `target` can be reached from `start` by following parent links
/// (a commit reaches itself).
pub fn is_reachable(g: &CommitGraph, start: &str, target: &str) -> (r: GraphWalk<bool>)
    ensures
        r matches GraphWalk::Done(b) ==> (b <==> reaches(graph_view(*g), start@, target@)),
        start@ == target@ ==> r == GraphWalk::<bool>::Done(true),
        start@ != target@ ==> match r {
            GraphWalk::Done(b) => if b {
                bfs_from(graph_view(*g), seq![target@], start@, BfsEnd::Hit(target@))
            } else {
                exists|vis: Seq<Seq<char>>|
                    bfs_from(graph_view(*g), seq![target@], start@, BfsEnd::Finished(vis))
            },
            GraphWalk::NeedCommit(h) => bfs_from(
                graph_view(*g),
                seq![target@],
                start@,
                BfsEnd::Missing(h@),
            ),
        },
{
    if str_eq(start, target) {
        proof {
            lemma_reach_self(graph_view(*g), start@);
        }
        return GraphWalk::Done(true);
    }
    let mut stop: Vec<String> = Vec::new();
    stop.push(target.to_string());
    assert(string_views(stop@) =~= seq![target@]);
    match bfs(g, start, &stop) {
        BfsResult::Finished(v) => {
            proof {
                bfs_finished_exact(graph_view(*g), seq![target@], start@, string_views(v@));
                assert(seq![target@].contains(target@)) by {
                    assert(seq![target@][0] == target@);
                }
            }
            GraphWalk::Done(false)
        },
        BfsResult::Missing(h) => GraphWalk::NeedCommit(h),
        BfsResult::Hit(h) => {
            proof {
                let f = choose|f: nat| bfs_run(graph_view(*g), seq![target@], seq![start@], seq![], f) == Some(BfsEnd::Hit(h@));
                lemma_hit_in_stop(graph_view(*g), seq![target@], seq![start@], seq![], f, h@);
                assert(seq![target@].contains(h@));
                assert(h@ == target@);
                bfs_reachability(graph_view(*g), seq![target@], start@, BfsEnd::Hit(h@));
            }
            GraphWalk::Done(true)
        },
    }
}

proof fn lemma_hit_in_stop(
    g: Seq<(Seq<char>, Seq<Seq<char>>)>,
    stop: Seq<Seq<char>>,
    q: Seq<Seq<char>>,
    vis: Seq<Seq<char>>,
    f: nat,
    h: Seq<char>,
)
    requires
        bfs_run(g, stop, q, vis, f) == Some(BfsEnd::Hit(h)),
    ensures
        stop.contains(h),
    decreases f,
{
    if q.len() > 0 && f > 0 {
        let x = q[0];
        if vis.contains(x) {
            lemma_hit_in_stop(g, stop, q.drop_first(), vis, (f - 1) as nat, h);
        } else if !stop.contains(x) {
            match parents_in(g, x) {
                None => {},
                Some(ps) => lemma_hit_in_stop(g, stop, q.drop_first() + ps, vis.push(x), (f - 1) as nat, h),
            }
        }
    }
}

/// `x` is reachable from both `a` and `b` (each commit reaches itself).
pub open spec fn common_ancestor(g: Seq<(Seq<char>, Seq<Seq<char>>)>, a: Seq<char>, b: Seq<char>, x: Seq<char>) -> bool {
    reaches(g, a, x) && reaches(g, b, x)
}

/// `x` is a best common ancestor of `a` and `b`: a common ancestor that no
/// other common ancestor has among its ancestors.
pub open spec fn best_common_ancestor(
    g: Seq<(Seq<char>, Seq<Seq<char>>)>,
    a: Seq<char>,
    b: Seq<char>,
    x: Seq<char>,
) -> bool {
    &&& common_ancestor(g, a, b, x)
    &&& forall|d: Seq<char>| #[trigger] common_ancestor(g, a, b, d) && d != x ==> !reaches(g, d, x)
}

/// Some best common ancestor exists (always so in an acyclic history with a
/// common ancestor).
pub open spec fn has_best_common(g: Seq<(Seq<char>, Seq<Seq<char>>)>, a: Seq<char>, b: Seq<char>) -> bool {
    exists|x: Seq<char>| #[trigger] best_common_ancestor(g, a, b, x)
}

/// The merge base chosen among the common ancestors `cs` (listed in the
/// breadth-first order from `b`): the first best one; the first one when
/// none is best.
pub open spec fn merge_base_pick(
    g: Seq<(Seq<char>, Seq<Seq<char>>)>,
    a: Seq<char>,
    b: Seq<char>,
    cs: Seq<Seq<char>>,
    x: Seq<char>,
) -> bool {
    exists|i: int|
        0 <= i < cs.len() && cs[i] == x && (forall|k: int| 0 <= k < i ==> !best_common_ancestor(g, a, b, #[trigger] cs[k]))
            && (best_common_ancestor(g, a, b, x) || (!has_best_common(g, a, b) && i == 0))
}

proof fn lemma_keep_members_contains(vis: Seq<Seq<char>>, cands: Seq<Seq<char>>, x: Seq<char>)
    ensures
        keep_members(vis, cands).contains(x) <==> vis.contains(x) && cands.contains(x),
    decreases vis.len(),
{
    if vis.len() > 0 {
        lemma_keep_members_contains(vis.drop_last(), cands, x);
        let r = keep_members(vis.drop_last(), cands);
        if vis.contains(x) && x != vis.last() {
            let k = choose|k: int| 0 <= k < vis.len() && vis[k] == x;
            assert(k < vis.len() - 1);
            assert(vis.drop_last()[k] == x);
        }
        if vis.drop_last().contains(x) {
            let k = choose|k: int| 0 <= k < vis.drop_last().len() && vis.drop_last()[k] == x;
            assert(vis[k] == x);
        }
        if cands.contains(vis.last()) {
            assert(r.push(vis.last())[r.len() as int] == vis.last());
            if r.push(vis.last()).contains(x) && x != vis.last() {
                let k = choose|k: int| 0 <= k < r.push(vis.last()).len() && r.push(vis.last())[k] == x;
                assert(r[k] == x);
            }
            if r.contains(x) {
                let k = choose|k: int| 0 <= k < r.len() && r[k] == x;
                assert(r.push(vis.last())[k] == x);
            }
        }
        assert(vis[vis.len() - 1] == vis.last());
    }
}

/// A best common ancestor (merge base) of `a` and `b`: `a` itself when they
/// are equal; otherwise, among the common ancestors in breadth-first order
/// from `b`, the first that no other common ancestor reaches (the first
/// common ancestor when none is such, which only a cycle of parent links can
/// cause); `None` when they have no common ancestor.
pub fn find_merge_base(g: &CommitGraph, a: &str, b: &str) -> (r: GraphWalk<Option<String>>)
    ensures
        r matches GraphWalk::Done(Some(x)) ==> common_ancestor(graph_view(*g), a@, b@, x@) && (has_best_common(
            graph_view(*g),
            a@,
            b@,
        ) ==> best_common_ancestor(graph_view(*g), a@, b@, x@)),
        r matches GraphWalk::Done(None) ==> forall|x: Seq<char>|
            #[trigger] reaches(graph_view(*g), a@, x) ==> !reaches(graph_view(*g), b@, x),
        a@ == b@ ==> (r matches GraphWalk::Done(Some(x)) && x@ == a@),
        a@ != b@ ==> match r {
            GraphWalk::Done(res) => exists|va: Seq<Seq<char>>, vb: Seq<Seq<char>>|
                #![trigger bfs_from(graph_view(*g), seq![], a@, BfsEnd::Finished(va)), bfs_from(graph_view(*g), seq![], b@, BfsEnd::Finished(vb))]
                bfs_from(graph_view(*g), seq![], a@, BfsEnd::Finished(va)) && bfs_from(
                    graph_view(*g),
                    seq![],
                    b@,
                    BfsEnd::Finished(vb),
                ) && match res {
                    Some(x) => merge_base_pick(graph_view(*g), a@, b@, keep_members(vb, va), x@),
                    None => keep_members(vb, va).len() == 0,
                },
            GraphWalk::NeedCommit(h) => bfs_from(graph_view(*g), seq![], a@, BfsEnd::Missing(h@)) || bfs_from(
                graph_view(*g),
                seq![],
                b@,
                BfsEnd::Missing(h@),
            ) || exists|c: Seq<char>, d: Seq<char>|
                #![trigger bfs_from(graph_view(*g), seq![c], d, BfsEnd::Missing(h@))]
                common_ancestor(graph_view(*g), a@, b@, d) && bfs_from(graph_view(*g), seq![c], d, BfsEnd::Missing(h@)),
        },
{
    let ghost gv = graph_view(*g);
    if str_eq(a, b) {
        proof {
            lemma_reach_self(gv, a@);
            if has_best_common(gv, a@, b@) {
                let y = choose|y: Seq<char>| #[trigger] best_common_ancestor(gv, a@, b@, y);
                if y != a@ {
                    assert(common_ancestor(gv, a@, b@, a@));
                }
            }
        }
        return GraphWalk::Done(Some(a.to_string()));
    }
    let va = match collect_ancestors(g, a) {
        GraphWalk::NeedCommit(h) => {
            return GraphWalk::NeedCommit(h);
        },
        GraphWalk::Done(v) => v,
    };
    let cs = match order_candidates_from(g, b, &va) {
        GraphWalk::NeedCommit(h) => {
            return GraphWalk::NeedCommit(h);
        },
        GraphWalk::Done(v) => v,
    };
    let ghost vav = string_views(va@);
    let ghost vb = choose|vis: Seq<Seq<char>>|
        bfs_from(gv, seq![], b@, BfsEnd::Finished(vis)) && string_views(cs@) == keep_members(vis, vav);
    let ghost csv = string_views(cs@);
    proof {
        bfs_finished_exact(gv, seq![], b@, vb);
        assert forall|x: Seq<char>| #[trigger] csv.contains(x) <==> common_ancestor(gv, a@, b@, x) by {
            lemma_keep_members_contains(vb, vav, x);
            if reaches(gv, b@, x) {
                assert(!Seq::<Seq<char>>::empty().contains(x));
            }
        }
    }
    if cs.len() == 0 {
        proof {
            assert forall|x: Seq<char>| #[trigger] reaches(gv, a@, x) implies !reaches(gv, b@, x) by {
                if reaches(gv, b@, x) {
                    assert(csv.contains(x));
                }
            }
        }
        return GraphWalk::Done(None);
    }
    let mut i: usize = 0;
    while i < cs.len()
        invariant
            gv == graph_view(*g),
            csv == string_views(cs@),
            csv == keep_members(vb, vav),
            bfs_from(gv, seq![], a@, BfsEnd::Finished(vav)),
            bfs_from(gv, seq![], b@, BfsEnd::Finished(vb)),
            a@ != b@,
            cs@.len() > 0,
            i <= cs@.len(),
            forall|x: Seq<char>| #[trigger] csv.contains(x) <==> common_ancestor(gv, a@, b@, x),
            forall|k: int| 0 <= k < i ==> !best_common_ancestor(gv, a@, b@, #[trigger] csv[k]),
        decreases cs@.len() - i,
    {
        let mut j: usize = 0;
        let mut is_best = true;
        while j < cs.len()
            invariant
                gv == graph_view(*g),
                csv == string_views(cs@),
                a@ != b@,
                i < cs@.len(),
                j <= cs@.len(),
                forall|x: Seq<char>| #[trigger] csv.contains(x) <==> common_ancestor(gv, a@, b@, x),
                is_best <==> forall|m: int| 0 <= m < j && #[trigger] csv[m] != csv[i as int] ==> !reaches(gv, csv[m], csv[i as int]),
            decreases cs@.len() - j,
        {
            assert(csv[j as int] == cs@[j as int]@);
            assert(csv[i as int] == cs@[i as int]@);
            if !str_eq(cs[j].as_str(), cs[i].as_str()) {
                match is_reachable(g, cs[j].as_str(), cs[i].as_str()) {
                    GraphWalk::NeedCommit(h) => {
                        proof {
                            assert(csv.contains(csv[j as int]));
                            assert(common_ancestor(gv, a@, b@, csv[j as int]));
                            assert(bfs_from(gv, seq![csv[i as int]], csv[j as int], BfsEnd::Missing(h@)));
                        }
                        return GraphWalk::NeedCommit(h);
                    },
                    GraphWalk::Done(t) => {
                        if t {
                            is_best = false;
                        }
                    },
                }
            }
            j += 1;
        }
        proof {
            let x = csv[i as int];
            assert(csv.contains(x));
            if is_best {
                assert forall|d: Seq<char>| #[trigger] common_ancestor(gv, a@, b@, d) && d != x implies !reaches(gv, d, x) by {
                    assert(csv.contains(d));
                    let m = choose|m: int| 0 <= m < csv.len() && csv[m] == d;
                    assert(csv[m] != csv[i as int]);
                }
                assert(best_common_ancestor(gv, a@, b@, x));
            } else {
                let m = choose|m: int| 0 <= m < j && #[trigger] csv[m] != csv[i as int] && reaches(gv, csv[m], csv[i as int]);
                assert(csv.contains(csv[m]));
                assert(common_ancestor(gv, a@, b@, csv[m]));
                assert(!best_common_ancestor(gv, a@, b@, x));
            }
        }
        if is_best {
            proof {
                assert(merge_base_pick(gv, a@, b@, csv, cs@[i as int]@));
            }
            return GraphWalk::Done(Some(cs[i].clone()));
        }
        i += 1;
    }
    proof {
        assert(!has_best_common(gv, a@, b@)) by {
            if has_best_common(gv, a@, b@) {
                let y = choose|y: Seq<char>| #[trigger] best_common_ancestor(gv, a@, b@, y);
                assert(csv.contains(y));
                let m = choose|m: int| 0 <= m < csv.len() && csv[m] == y;
                assert(!best_common_ancestor(gv, a@, b@, csv[m]));
            }
        }
        assert(csv[0] == cs@[0]@);
        assert(csv.contains(csv[0]));
        assert(merge_base_pick(gv, a@, b@, csv, cs@[0]@));
    }
    GraphWalk::Done(Some(cs[0].clone()))
}

/// The graph node for an object read from the store: the parents in a
/// commit's header, none for any other kind of object.
pub fn commit_node(hash: &str, kind: &str, content: &[u8]) -> (r: CommitNode)
    ensures
        r.hash@ == hash@,
        kind@ == "commit"@ ==> string_views(r.parents@) == prefixed(
            header_lines(lines_of(lossy_decode(content@))),
            parent_prefix(),
        ),
        kind@ != "commit"@ ==> r.parents@.len() == 0,
{
    let parents = if str_eq(kind, "commit") {
        let text = crate::codec::from_utf8_lossy(content);
        commit_parents(text.as_str())
    } else {
        Vec::new()
    };
    CommitNode { hash: hash.to_string(), parents }
}

/// Adds a loaded commit to the graph.
pub fn add_commit(g: &mut CommitGraph, node: CommitNode)
    ensures
        graph_view(*final(g)) == graph_view(*old(g)).push(node_view(node)),
{
    g.nodes.push(node);
    assert(graph_view(*g) =~= graph_view(*old(g)).push(node_view(node)));
}
} // verus!

verus! {

/// `b` is a parent of `a` in the loaded graph.
pub open spec fn edge(g: Seq<(Seq<char>, Seq<Seq<char>>)>, a: Seq<char>, b: Seq<char>) -> bool {
    parents_in(g, a) matches Some(ps) && ps.contains(b)
}

/// A walk along parent links.
pub open spec fn is_walk(g: Seq<(Seq<char>, Seq<Seq<char>>)>, p: Seq<Seq<char>>) -> bool {
    p.len() >= 1 && forall|i: int| 0 <= i < p.len() - 1 ==> #[trigger] edge(g, p[i], p[i + 1])
}

/// `b` can be reached from `a` by following parent links (every commit
/// reaches itself).
pub open spec fn reaches(g: Seq<(Seq<char>, Seq<Seq<char>>)>, a: Seq<char>, b: Seq<char>) -> bool {
    exists|p: Seq<Seq<char>>| #[trigger] is_walk(g, p) && p[0] == a && p.last() == b
}

proof fn lemma_reach_self(g: Seq<(Seq<char>, Seq<Seq<char>>)>, a: Seq<char>)
    ensures
        reaches(g, a, a),
{
    let p = seq![a];
    assert(is_walk(g, p));
}

proof fn lemma_reach_step(g: Seq<(Seq<char>, Seq<Seq<char>>)>, s: Seq<char>, a: Seq<char>, b: Seq<char>)
    requires
        reaches(g, s, a),
        edge(g, a, b),
    ensures
        reaches(g, s, b),
{
    let p = choose|p: Seq<Seq<char>>| #[trigger] is_walk(g, p) && p[0] == s && p.last() == a;
    let q = p.push(b);
    assert forall|i: int| 0 <= i < q.len() - 1 implies #[trigger] edge(g, q[i], q[i + 1]) by {
        if i < p.len() - 1 {
            assert(q[i] == p[i]);
            assert(q[i + 1] == p[i + 1]);
            assert(edge(g, p[i], p[i + 1]));
        } else {
            assert(q[i] == a);
            assert(q[i + 1] == b);
        }
    }
    assert(is_walk(g, q));
}

/// Every visited hash has its parents among the visited ones or the queue.
pub open spec fn closed_upto(g: Seq<(Seq<char>, Seq<Seq<char>>)>, q: Seq<Seq<char>>, vis: Seq<Seq<char>>) -> bool {
    forall|v: Seq<char>|
        #[trigger] vis.contains(v) ==> (parents_in(g, v) matches Some(ps) && forall|y: Seq<char>|
            ps.contains(y) ==> vis.contains(y) || q.contains(y))
}

proof fn lemma_bfs_sound(
    g: Seq<(Seq<char>, Seq<Seq<char>>)>,
    stop: Seq<Seq<char>>,
    q: Seq<Seq<char>>,
    vis: Seq<Seq<char>>,
    f: nat,
    s: Seq<char>,
)
    requires
        forall|x: Seq<char>| #[trigger] q.contains(x) ==> reaches(g, s, x),
        forall|x: Seq<char>| #[trigger] vis.contains(x) ==> reaches(g, s, x),
        bfs_run(g, stop, q, vis, f) is Some,
    ensures
        match bfs_run(g, stop, q, vis, f) {
            Some(BfsEnd::Hit(h)) => reaches(g, s, h),
            Some(BfsEnd::Missing(h)) => reaches(g, s, h),
            Some(BfsEnd::Finished(vf)) => forall|x: Seq<char>| #[trigger] vf.contains(x) ==> reaches(g, s, x),
            None => true,
        },
    decreases f,
{
    if q.len() > 0 && f > 0 {
        let h = q[0];
        assert(q.contains(h));
        let rest = q.drop_first();
        assert forall|x: Seq<char>| #[trigger] rest.contains(x) implies reaches(g, s, x) by {
            let k = choose|k: int| 0 <= k < rest.len() && rest[k] == x;
            assert(q[k + 1] == x);
            assert(q.contains(x));
        }
        if vis.contains(h) {
            lemma_bfs_sound(g, stop, rest, vis, (f - 1) as nat, s);
        } else if !stop.contains(h) {
            match parents_in(g, h) {
                None => {},
                Some(ps) => {
                    let q2 = rest + ps;
                    let v2 = vis.push(h);
                    assert forall|x: Seq<char>| #[trigger] q2.contains(x) implies reaches(g, s, x) by {
                        let k = choose|k: int| 0 <= k < q2.len() && q2[k] == x;
                        if k < rest.len() {
                            assert(rest[k] == x);
                            assert(rest.contains(x));
                        } else {
                            assert(ps[k - rest.len()] == x);
                            assert(ps.contains(x));
                            assert(edge(g, h, x));
                            lemma_reach_step(g, s, h, x);
                        }
                    }
                    assert forall|x: Seq<char>| #[trigger] v2.contains(x) implies reaches(g, s, x) by {
                        let k = choose|k: int| 0 <= k < v2.len() && v2[k] == x;
                        if k < vis.len() {
                            assert(vis[k] == x);
                            assert(vis.contains(x));
                        }
                    }
                    lemma_bfs_sound(g, stop, q2, v2, (f - 1) as nat, s);
                },
            }
        }
    }
}

proof fn lemma_bfs_sound_finished(
    g: Seq<(Seq<char>, Seq<Seq<char>>)>,
    stop: Seq<Seq<char>>,
    q: Seq<Seq<char>>,
    vis: Seq<Seq<char>>,
    f: nat,
    s: Seq<char>,
    vf: Seq<Seq<char>>,
)
    requires
        forall|x: Seq<char>| #[trigger] q.contains(x) ==> reaches(g, s, x),
        forall|x: Seq<char>| #[trigger] vis.contains(x) ==> reaches(g, s, x),
        bfs_run(g, stop, q, vis, f) == Some(BfsEnd::Finished(vf)),
    ensures
        forall|x: Seq<char>| #[trigger] vf.contains(x) ==> reaches(g, s, x),
    decreases f,
{
    if q.len() > 0 {
        let h = q[0];
        assert(q.contains(h));
        let rest = q.drop_first();
        assert forall|x: Seq<char>| #[trigger] rest.contains(x) implies reaches(g, s, x) by {
            let k = choose|k: int| 0 <= k < rest.len() && rest[k] == x;
            assert(q[k + 1] == x);
            assert(q.contains(x));
        }
        if vis.contains(h) {
            lemma_bfs_sound_finished(g, stop, rest, vis, (f - 1) as nat, s, vf);
        } else {
            let ps = parents_in(g, h)->0;
            let q2 = rest + ps;
            let v2 = vis.push(h);
            assert forall|x: Seq<char>| #[trigger] q2.contains(x) implies reaches(g, s, x) by {
                let k = choose|k: int| 0 <= k < q2.len() && q2[k] == x;
                if k < rest.len() {
                    assert(rest[k] == x);
                    assert(rest.contains(x));
                } else {
                    assert(ps[k - rest.len()] == x);
                    assert(ps.contains(x));
                    assert(edge(g, h, x));
                    lemma_reach_step(g, s, h, x);
                }
            }
            assert forall|x: Seq<char>| #[trigger] v2.contains(x) implies reaches(g, s, x) by {
                let k = choose|k: int| 0 <= k < v2.len() && v2[k] == x;
                if k < vis.len() {
                    assert(vis[k] == x);
                    assert(vis.contains(x));
                }
            }
            lemma_bfs_sound_finished(g, stop, q2, v2, (f - 1) as nat, s, vf);
        }
    }
}

proof fn lemma_bfs_closed(
    g: Seq<(Seq<char>, Seq<Seq<char>>)>,
    stop: Seq<Seq<char>>,
    q: Seq<Seq<char>>,
    vis: Seq<Seq<char>>,
    f: nat,
    vf: Seq<Seq<char>>,
)
    requires
        closed_upto(g, q, vis),
        bfs_run(g, stop, q, vis, f) == Some(BfsEnd::Finished(vf)),
    ensures
        closed_upto(g, seq![], vf),
        forall|x: Seq<char>| #[trigger] q.contains(x) ==> vf.contains(x),
        forall|x: Seq<char>| #[trigger] vf.contains(x) ==> vis.contains(x) || !stop.contains(x),
    decreases f,
{
    if q.len() == 0 {
        assert forall|v: Seq<char>| #[trigger] vf.contains(v) implies (parents_in(g, v) matches Some(ps)
            && forall|y: Seq<char>| ps.contains(y) ==> vf.contains(y) || Seq::<Seq<char>>::empty().contains(y)) by {
            assert(vis.contains(v));
        }
    } else {
        let h = q[0];
        assert(q.contains(h));
        let rest = q.drop_first();
        if vis.contains(h) {
            assert forall|v: Seq<char>| #[trigger] vis.contains(v) implies (parents_in(g, v) matches Some(ps)
                && forall|y: Seq<char>| ps.contains(y) ==> vis.contains(y) || rest.contains(y)) by {
                let ps = parents_in(g, v)->0;
                assert forall|y: Seq<char>| ps.contains(y) implies vis.contains(y) || rest.contains(y) by {
                    if q.contains(y) && !vis.contains(y) {
                        let k = choose|k: int| 0 <= k < q.len() && q[k] == y;
                        assert(k != 0);
                        assert(rest[k - 1] == y);
                    }
                }
            }
            lemma_bfs_closed(g, stop, rest, vis, (f - 1) as nat, vf);
            assert forall|x: Seq<char>| #[trigger] q.contains(x) implies vf.contains(x) by {
                let k = choose|k: int| 0 <= k < q.len() && q[k] == x;
                if k > 0 {
                    assert(rest[k - 1] == x);
                    assert(rest.contains(x));
                } else {
                    assert(vis.contains(x));
                    lemma_closed_keeps(g, stop, rest, vis, (f - 1) as nat, vf, x);
                }
            }
        } else {
            let ps = parents_in(g, h)->0;
            let q2 = rest + ps;
            let v2 = vis.push(h);
            assert forall|v: Seq<char>| #[trigger] v2.contains(v) implies (parents_in(g, v) matches Some(pv)
                && forall|y: Seq<char>| pv.contains(y) ==> v2.contains(y) || q2.contains(y)) by {
                let k = choose|k: int| 0 <= k < v2.len() && v2[k] == v;
                if k == vis.len() {
                    assert forall|y: Seq<char>| ps.contains(y) implies v2.contains(y) || q2.contains(y) by {
                        let m = choose|m: int| 0 <= m < ps.len() && ps[m] == y;
                        assert(q2[rest.len() + m] == y);
                    }
                } else {
                    assert(vis[k] == v);
                    assert(vis.contains(v));
                    let pv = parents_in(g, v)->0;
                    assert forall|y: Seq<char>| pv.contains(y) implies v2.contains(y) || q2.contains(y) by {
                        if vis.contains(y) {
                            let m = choose|m: int| 0 <= m < vis.len() && vis[m] == y;
                            assert(v2[m] == y);
                        } else {
                            assert(q.contains(y));
                            let m = choose|m: int| 0 <= m < q.len() && q[m] == y;
                            if m == 0 {
                                assert(v2[vis.len() as int] == y);
                            } else {
                                assert(q2[m - 1] == y);
                            }
                        }
                    }
                }
            }
            lemma_bfs_closed(g, stop, q2, v2, (f - 1) as nat, vf);
            assert forall|x: Seq<char>| #[trigger] q.contains(x) implies vf.contains(x) by {
                let k = choose|k: int| 0 <= k < q.len() && q[k] == x;
                if k > 0 {
                    assert(q2[k - 1] == x);
                    assert(q2.contains(x));
                } else {
                    assert(v2[vis.len() as int] == x);
                    assert(v2.contains(x));
                    lemma_closed_keeps(g, stop, q2, v2, (f - 1) as nat, vf, x);
                }
            }
            assert forall|x: Seq<char>| #[trigger] vf.contains(x) implies vis.contains(x) || !stop.contains(x) by {
                if v2.contains(x) && !vis.contains(x) {
                    let k = choose|k: int| 0 <= k < v2.len() && v2[k] == x;
                    assert(k == vis.len());
                }
            }
        }
    }
}

proof fn lemma_closed_keeps(
    g: Seq<(Seq<char>, Seq<Seq<char>>)>,
    stop: Seq<Seq<char>>,
    q: Seq<Seq<char>>,
    vis: Seq<Seq<char>>,
    f: nat,
    vf: Seq<Seq<char>>,
    x: Seq<char>,
)
    requires
        vis.contains(x),
        bfs_run(g, stop, q, vis, f) == Some(BfsEnd::Finished(vf)),
    ensures
        vf.contains(x),
    decreases f,
{
    if q.len() > 0 {
        let h = q[0];
        if vis.contains(h) {
            lemma_closed_keeps(g, stop, q.drop_first(), vis, (f - 1) as nat, vf, x);
        } else {
            let ps = parents_in(g, h)->0;
            let k = choose|k: int| 0 <= k < vis.len() && vis[k] == x;
            assert(vis.push(h)[k] == x);
            lemma_closed_keeps(g, stop, q.drop_first() + ps, vis.push(h), (f - 1) as nat, vf, x);
        }
    }
}

proof fn lemma_walk_stays(g: Seq<(Seq<char>, Seq<Seq<char>>)>, vf: Seq<Seq<char>>, p: Seq<Seq<char>>)
    requires
        closed_upto(g, seq![], vf),
        is_walk(g, p),
        vf.contains(p[0]),
    ensures
        vf.contains(p.last()),
    decreases p.len(),
{
    if p.len() > 1 {
        let p0 = p.drop_last();
        assert forall|i: int| 0 <= i < p0.len() - 1 implies #[trigger] edge(g, p0[i], p0[i + 1]) by {
            assert(edge(g, p[i], p[i + 1]));
        }
        lemma_walk_stays(g, vf, p0);
        let i = p.len() - 2;
        let a = p[i];
        assert(edge(g, p[i], p[i + 1]));
        assert(p[i + 1] == p.last());
        assert(p0.last() == a);
        assert(vf.contains(a));
    }
}

/// A walk from `start` that ends because nothing is left to visit has
/// visited exactly the hashes reachable from `start` that are not in the stop
/// list; one that ends on a hash in the stop list has reached it.
pub proof fn bfs_reachability(
    g: Seq<(Seq<char>, Seq<Seq<char>>)>,
    stop: Seq<Seq<char>>,
    start: Seq<char>,
    e: BfsEnd,
)
    requires
        bfs_from(g, stop, start, e),
    ensures
        e matches BfsEnd::Hit(h) ==> reaches(g, start, h) && stop.contains(h),
        e matches BfsEnd::Finished(vf) ==> (forall|x: Seq<char>| #[trigger] vf.contains(x) ==> reaches(g, start, x)),
        e matches BfsEnd::Finished(vf) ==> (forall|x: Seq<char>|
            reaches(g, start, x) && !stop.contains(x) ==> #[trigger] vf.contains(x)),
        e matches BfsEnd::Finished(vf) ==> (forall|x: Seq<char>| stop.contains(x) ==> !reaches(g, start, x)),
{
    let f = choose|f: nat| bfs_run(g, stop, seq![start], seq![], f) == Some(e);
    lemma_reach_self(g, start);
    assert forall|x: Seq<char>| #[trigger] seq![start].contains(x) implies reaches(g, start, x) by {
        let k = choose|k: int| 0 <= k < seq![start].len() && seq![start][k] == x;
    }
    lemma_bfs_sound(g, stop, seq![start], seq![], f, start);
    match e {
        BfsEnd::Hit(h) => {
            lemma_hit_in_stop(g, stop, seq![start], seq![], f, h);
        },
        BfsEnd::Finished(vf) => {
            lemma_bfs_closed(g, stop, seq![start], seq![], f, vf);
            assert(seq![start].contains(start)) by {
                assert(seq![start][0] == start);
            }
            assert(vf.contains(start));
            assert forall|x: Seq<char>| reaches(g, start, x) implies #[trigger] vf.contains(x) by {
                let p = choose|p: Seq<Seq<char>>| #[trigger] is_walk(g, p) && p[0] == start && p.last() == x;
                lemma_walk_stays(g, vf, p);
            }
            assert forall|x: Seq<char>| stop.contains(x) implies !reaches(g, start, x) by {
                if reaches(g, start, x) {
                    assert(vf.contains(x));
                    assert(!Seq::<Seq<char>>::empty().contains(x));
                }
            }
        },
        BfsEnd::Missing(_) => {},
    }
}

} // verus!

verus! {

/// A finished walk from `start` visits exactly the hashes reachable from
/// `start` that are not in the stop list, and none in the stop list is reachable.
pub proof fn bfs_finished_exact(g: Seq<(Seq<char>, Seq<Seq<char>>)>, stop: Seq<Seq<char>>, start: Seq<char>, vf: Seq<Seq<char>>)
    requires
        bfs_from(g, stop, start, BfsEnd::Finished(vf)),
    ensures
        forall|x: Seq<char>| #[trigger] vf.contains(x) ==> reaches(g, start, x),
        forall|x: Seq<char>| reaches(g, start, x) && !stop.contains(x) ==> #[trigger] vf.contains(x),
        forall|x: Seq<char>| #[trigger] stop.contains(x) ==> !reaches(g, start, x),
{
    let f = choose|f: nat| bfs_run(g, stop, seq![start], seq![], f) == Some(BfsEnd::Finished(vf));
    lemma_reach_self(g, start);
    assert forall|x: Seq<char>| #[trigger] seq![start].contains(x) implies reaches(g, start, x) by {
        let k = choose|k: int| 0 <= k < seq![start].len() && seq![start][k] == x;
    }
    lemma_bfs_sound_finished(g, stop, seq![start], seq![], f, start, vf);
    lemma_bfs_closed(g, stop, seq![start], seq![], f, vf);
    assert(seq![start].contains(start)) by {
        assert(seq![start][0] == start);
    }
    assert(vf.contains(start));
    assert forall|x: Seq<char>| reaches(g, start, x) && !stop.contains(x) implies #[trigger] vf.contains(x) by {
        let p = choose|p: Seq<Seq<char>>| #[trigger] is_walk(g, p) && p[0] == start && p.last() == x;
        lemma_walk_stays(g, vf, p);
    }
    assert forall|x: Seq<char>| #[trigger] stop.contains(x) implies !reaches(g, start, x) by {
        if reaches(g, start, x) {
            let p = choose|p: Seq<Seq<char>>| #[trigger] is_walk(g, p) && p[0] == start && p.last() == x;
            lemma_walk_stays(g, vf, p);
            assert(!Seq::<Seq<char>>::empty().contains(x));
        }
    }
}

} // verus!
