//! Bisect: from the known bad commit, the good commits and the skipped ones,
//! decide whether the search waits, is over, or tests a midpoint next.
use vstd::prelude::*;
use crate::graph::{
    bfs_from, collect_ancestors, contains_str, graph_view, is_reachable, keep_members,
    lemma_bfs_unique, order_candidates_from, BfsEnd, CommitGraph, GraphWalk,
};
use crate::text::string_views;

verus! {

/// Where a bisect session stands after a mark.
#[derive(Debug, Clone, PartialEq, Eq)]
pub enum BisectOutcome {
    WaitingForBad,
    WaitingForGood,
    /// Test this commit next; this many candidates remain after it.
    Continue(String, usize),
    /// The first bad commit.
    Found(String),
}

/// Why bisect cannot go on.
#[derive(Debug, Clone, Copy, PartialEq, Eq)]
pub enum BisectError {
    /// Some good commit is not an ancestor of the bad one.
    GoodNotAncestor,
    /// Every remaining candidate has been skipped.
    AllSkipped,
}

/// The content of an outcome.
pub enum OutcomeView {
    WaitingForBad,
    WaitingForGood,
    Continue(Seq<char>, nat),
    Found(Seq<char>),
}

pub open spec fn outcome_view(o: BisectOutcome) -> OutcomeView {
    match o {
        BisectOutcome::WaitingForBad => OutcomeView::WaitingForBad,
        BisectOutcome::WaitingForGood => OutcomeView::WaitingForGood,
        BisectOutcome::Continue(h, n) => OutcomeView::Continue(h@, n as nat),
        BisectOutcome::Found(h) => OutcomeView::Found(h@),
    }
}

/// The members of `vis`, in order, that `cs` does not hold.
pub open spec fn drop_members(vis: Seq<Seq<char>>, cs: Seq<Seq<char>>) -> Seq<Seq<char>>
    decreases vis.len(),
{
    if vis.len() == 0 {
        seq![]
    } else {
        let r = drop_members(vis.drop_last(), cs);
        if cs.contains(vis.last()) {
            r
        } else {
            r.push(vis.last())
        }
    }
}

/// The decision once the candidates (ancestors of bad that no good commit
/// reaches, in breadth-first order from bad) and the testable ones among
/// them (not skipped) are known: with nothing testable, the lone candidate
/// (or bad itself when there is none) is the answer and more than one is an
/// error; one testable commit is the answer; otherwise test the middle one.
pub open spec fn bisect_decision(cands: Seq<Seq<char>>, testable: Seq<Seq<char>>, bad: Seq<char>) -> Result<OutcomeView, BisectError> {
    if testable.len() == 0 {
        if cands.len() <= 1 {
            Ok(OutcomeView::Found(if cands.len() == 1 { cands[0] } else { bad }))
        } else {
            Err(BisectError::AllSkipped)
        }
    } else if testable.len() == 1 {
        Ok(OutcomeView::Found(testable[0]))
    } else {
        Ok(OutcomeView::Continue(testable[(testable.len() / 2) as int], (testable.len() - 1) as nat))
    }
}

/// Whether `good` is an ancestor of `bad` (or is `bad`), as the walk from
/// `bad` that stops at `good` finds.
pub open spec fn good_reached(g: Seq<(Seq<char>, Seq<Seq<char>>)>, bad: Seq<char>, good: Seq<char>) -> bool {
    bad == good || bfs_from(g, seq![good], bad, BfsEnd::Hit(good))
}

/// The walk from `bad` that stops at `good` ends without reaching it.
pub open spec fn good_missed(g: Seq<(Seq<char>, Seq<Seq<char>>)>, bad: Seq<char>, good: Seq<char>) -> bool {
    bad != good && exists|vis: Seq<Seq<char>>| bfs_from(g, seq![good], bad, BfsEnd::Finished(vis))
}

/// The commits every good commit reaches, given each one's walk.
pub open spec fn flatten_visits(vgs: Seq<Seq<Seq<char>>>) -> Seq<Seq<char>>
    decreases vgs.len(),
{
    if vgs.len() == 0 {
        seq![]
    } else {
        flatten_visits(vgs.drop_last()) + vgs.last()
    }
}

/// The outcome of a bisect step, given the complete walks: from `bad` (`vab`)
/// and from each good commit (`vgs`).
pub open spec fn bisect_from_walks(
    vab: Seq<Seq<char>>,
    vgs: Seq<Seq<Seq<char>>>,
    skips: Seq<Seq<char>>,
    bad: Seq<char>,
) -> Result<OutcomeView, BisectError> {
    let cands = drop_members(vab, flatten_visits(vgs));
    bisect_decision(cands, drop_members(cands, skips), bad)
}

fn drop_listed(vis: &Vec<String>, cs: &Vec<String>) -> (r: Vec<String>)
    ensures
        string_views(r@) == drop_members(string_views(vis@), string_views(cs@)),
{
    let ghost vv = string_views(vis@);
    let mut out: Vec<String> = Vec::new();
    let mut i: usize = 0;
    assert(vv.take(0) =~= Seq::<Seq<char>>::empty());
    while i < vis.len()
        invariant
            vv == string_views(vis@),
            i <= vv.len(),
            string_views(out@) == drop_members(vv.take(i as int), string_views(cs@)),
        decreases vv.len() - i,
    {
        proof {
            let t = vv.take(i + 1);
            assert(t.drop_last() =~= vv.take(i as int));
            assert(t.last() == vis@[i as int]@);
        }
        if !contains_str(cs, vis[i].as_str()) {
            let ghost before = string_views(out@);
            out.push(vis[i].clone());
            assert(string_views(out@) =~= before.push(vis@[i as int]@));
        }
        i += 1;
    }
    assert(vv.take(vv.len() as int) =~= vv);
    out
}

proof fn lemma_drop_sub(vis: Seq<Seq<char>>, cs: Seq<Seq<char>>, x: Seq<char>)
    requires
        drop_members(vis, cs).contains(x),
    ensures
        vis.contains(x),
    decreases vis.len(),
{
    if vis.len() > 0 {
        let r = drop_members(vis.drop_last(), cs);
        if r.contains(x) {
            lemma_drop_sub(vis.drop_last(), cs, x);
            let k = choose|k: int| 0 <= k < vis.drop_last().len() && vis.drop_last()[k] == x;
            assert(vis[k] == x);
        } else {
            assert(vis[vis.len() - 1] == x);
        }
    }
}

proof fn lemma_drop_not_in(vis: Seq<Seq<char>>, cs: Seq<Seq<char>>, x: Seq<char>)
    requires
        drop_members(vis, cs).contains(x),
    ensures
        !cs.contains(x),
    decreases vis.len(),
{
    if vis.len() > 0 {
        let r = drop_members(vis.drop_last(), cs);
        if r.contains(x) {
            lemma_drop_not_in(vis.drop_last(), cs, x);
        } else {
            let k = choose|k: int| 0 <= k < drop_members(vis, cs).len() && drop_members(vis, cs)[k] == x;
            assert(k == r.len());
        }
    }
}

proof fn lemma_keep_has(vis: Seq<Seq<char>>, cs: Seq<Seq<char>>, x: Seq<char>)
    requires
        vis.contains(x),
        cs.contains(x),
    ensures
        keep_members(vis, cs).len() > 0,
    decreases vis.len(),
{
    if vis.len() > 0 && !cs.contains(vis.last()) {
        let k = choose|k: int| 0 <= k < vis.len() && vis[k] == x;
        assert(k < vis.len() - 1);
        assert(vis.drop_last()[k] == x);
        lemma_keep_has(vis.drop_last(), cs, x);
    }
}

proof fn lemma_drop_keeps(vis: Seq<Seq<char>>, cs: Seq<Seq<char>>, x: Seq<char>)
    requires
        vis.contains(x),
        !cs.contains(x),
    ensures
        drop_members(vis, cs).contains(x),
    decreases vis.len(),
{
    if vis.last() == x {
        assert(drop_members(vis, cs).last() == x);
    } else {
        let k = choose|k: int| 0 <= k < vis.len() && vis[k] == x;
        assert(vis.drop_last()[k] == x);
        lemma_drop_keeps(vis.drop_last(), cs, x);
        let r = drop_members(vis.drop_last(), cs);
        let m = choose|m: int| 0 <= m < r.len() && r[m] == x;
        assert(drop_members(vis, cs)[m] == x);
    }
}

proof fn lemma_keep_filter(vis: Seq<Seq<char>>, t: Seq<Seq<char>>, a: Seq<Seq<char>>, b: Seq<Seq<char>>)
    requires
        forall|x: Seq<char>| #[trigger] vis.contains(x) ==> (t.contains(x) <==> (!a.contains(x) && !b.contains(x))),
    ensures
        keep_members(vis, t) == drop_members(drop_members(vis, a), b),
    decreases vis.len(),
{
    if vis.len() > 0 {
        assert forall|x: Seq<char>| #[trigger] vis.drop_last().contains(x) implies (t.contains(x) <==> (
        !a.contains(x) && !b.contains(x))) by {
            let k = choose|k: int| 0 <= k < vis.drop_last().len() && vis.drop_last()[k] == x;
            assert(vis[k] == x);
            assert(vis.contains(x));
        }
        lemma_keep_filter(vis.drop_last(), t, a, b);
        assert(vis.contains(vis.last())) by {
            assert(vis[vis.len() - 1] == vis.last());
        }
        let x = vis.last();
        let d0 = drop_members(vis.drop_last(), a);
        if !a.contains(x) {
            assert(d0.push(x).drop_last() =~= d0);
            assert(drop_members(d0.push(x), b) == (if b.contains(x) {
                drop_members(d0, b)
            } else {
                drop_members(d0, b).push(x)
            }));
        }
    }
}

proof fn lemma_keep_is_self(vab: Seq<Seq<char>>, goods: Seq<Seq<char>>, skips: Seq<Seq<char>>)
    ensures
        keep_members(vab, drop_members(drop_members(vab, goods), skips)) == drop_members(
            drop_members(vab, goods),
            skips,
        ),
{
    let c = drop_members(vab, goods);
    let t = drop_members(c, skips);
    assert forall|x: Seq<char>| #[trigger] vab.contains(x) implies (t.contains(x) <==> (!goods.contains(x)
        && !skips.contains(x))) by {
        if t.contains(x) {
            lemma_drop_not_in(c, skips, x);
            lemma_drop_sub(c, skips, x);
            lemma_drop_not_in(vab, goods, x);
        }
        if !goods.contains(x) && !skips.contains(x) {
            lemma_drop_keeps(vab, goods, x);
            lemma_drop_keeps(c, skips, x);
        }
    }
    lemma_keep_filter(vab, t, goods, skips);
}

/// Decides the next bisect step over the commit graph loaded so far.
pub fn bisect_recompute(g: &CommitGraph, bad: Option<&str>, goods: &Vec<String>, skips: &Vec<String>) -> (r: GraphWalk<
    Result<BisectOutcome, BisectError>,
>)
    ensures
        bad is None ==> r == GraphWalk::<Result<BisectOutcome, BisectError>>::Done(Ok(BisectOutcome::WaitingForBad)),
        bad matches Some(b) ==> {
            let gv = graph_view(*g);
            let gs = string_views(goods@);
            if gs.len() == 0 {
                r == GraphWalk::<Result<BisectOutcome, BisectError>>::Done(Ok(BisectOutcome::WaitingForGood))
            } else {
                match r {
                    GraphWalk::Done(Err(BisectError::GoodNotAncestor)) => exists|k: int|
                        0 <= k < gs.len() && good_missed(gv, b@, #[trigger] gs[k]),
                    GraphWalk::Done(res) => (forall|k: int| 0 <= k < gs.len() ==> good_reached(gv, b@, #[trigger] gs[k]))
                        && exists|vab: Seq<Seq<char>>, vgs: Seq<Seq<Seq<char>>>|
                        {
                            &&& bfs_from(gv, seq![], b@, BfsEnd::Finished(vab))
                            &&& vgs.len() == gs.len()
                            &&& (forall|k: int|
                                0 <= k < gs.len() ==> bfs_from(gv, seq![], #[trigger] gs[k], BfsEnd::Finished(vgs[k])))
                            &&& match (res, bisect_from_walks(vab, vgs, string_views(skips@), b@)) {
                                (Ok(o), Ok(ov)) => outcome_view(o) == ov,
                                (Err(e1), Err(e2)) => e1 == e2,
                                _ => false,
                            }
                        },
                    GraphWalk::NeedCommit(h) => bfs_from(gv, seq![], b@, BfsEnd::Missing(h@)) || exists|k: int|
                        0 <= k < gs.len() && (bfs_from(gv, seq![#[trigger] gs[k]], b@, BfsEnd::Missing(h@))
                            || bfs_from(gv, seq![], gs[k], BfsEnd::Missing(h@))),
                }
            }
        },
{
    let bad_h = match bad {
        None => {
            return GraphWalk::Done(Ok(BisectOutcome::WaitingForBad));
        },
        Some(b) => b,
    };
    if goods.len() == 0 {
        return GraphWalk::Done(Ok(BisectOutcome::WaitingForGood));
    }
    let ghost gv = graph_view(*g);
    let ghost gs = string_views(goods@);
    let mut k: usize = 0;
    while k < goods.len()
        invariant
            gv == graph_view(*g),
            gs == string_views(goods@),
            bad == Some(bad_h),
            gs.len() > 0,
            k <= gs.len(),
            forall|j: int| 0 <= j < k ==> good_reached(gv, bad_h@, #[trigger] gs[j]),
        decreases gs.len() - k,
    {
        assert(gs[k as int] == goods@[k as int]@);
        match is_reachable(g, bad_h, goods[k].as_str()) {
            GraphWalk::NeedCommit(h) => {
                assert(bfs_from(gv, seq![gs[k as int]], bad_h@, BfsEnd::Missing(h@)));
                return GraphWalk::NeedCommit(h);
            },
            GraphWalk::Done(false) => {
                assert(good_missed(gv, bad_h@, gs[k as int]));
                return GraphWalk::Done(Err(BisectError::GoodNotAncestor));
            },
            GraphWalk::Done(true) => {},
        }
        k += 1;
    }
    let vab = match collect_ancestors(g, bad_h) {
        GraphWalk::NeedCommit(h) => {
            return GraphWalk::NeedCommit(h);
        },
        GraphWalk::Done(v) => v,
    };
    let mut good_anc: Vec<String> = Vec::new();
    let ghost mut vgs: Seq<Seq<Seq<char>>> = seq![];
    let mut j: usize = 0;
    while j < goods.len()
        invariant
            gv == graph_view(*g),
            gs == string_views(goods@),
            bad == Some(bad_h),
            gs.len() > 0,
            forall|i: int| 0 <= i < gs.len() ==> good_reached(gv, bad_h@, #[trigger] gs[i]),
            bfs_from(gv, seq![], bad_h@, BfsEnd::Finished(string_views(vab@))),
            j <= gs.len(),
            vgs.len() == j,
            forall|i: int| 0 <= i < j ==> bfs_from(gv, seq![], #[trigger] gs[i], BfsEnd::Finished(vgs[i])),
            string_views(good_anc@) == flatten_visits(vgs),
        decreases gs.len() - j,
    {
        assert(gs[j as int] == goods@[j as int]@);
        let v = match collect_ancestors(g, goods[j].as_str()) {
            GraphWalk::NeedCommit(h) => {
                assert(bfs_from(gv, seq![], gs[j as int], BfsEnd::Missing(h@)));
                return GraphWalk::NeedCommit(h);
            },
            GraphWalk::Done(v) => v,
        };
        let ghost before = string_views(good_anc@);
        let mut t: usize = 0;
        while t < v.len()
            invariant
                t <= v@.len(),
                string_views(good_anc@) == before + string_views(v@).take(t as int),
            decreases v@.len() - t,
        {
            let ghost b2 = good_anc@;
            assert(string_views(good_anc@).len() == good_anc@.len());
            let c = v[t].clone();
            good_anc.push(c);
            proof {
                assert(good_anc@ == b2.push(c));
                assert(string_views(good_anc@).len() == good_anc@.len());
                assert(string_views(good_anc@)[good_anc@.len() - 1] == c@);
                assert(string_views(good_anc@) =~= string_views(b2).push(c@));
                assert(string_views(v@).take(t + 1) =~= string_views(v@).take(t as int).push(v@[t as int]@));
            }
            t += 1;
        }
        proof {
            assert(string_views(v@).take(v@.len() as int) =~= string_views(v@));
            let nv = vgs.push(string_views(v@));
            assert(nv.drop_last() =~= vgs);
            vgs = nv;
        }
        j += 1;
    }
    let cands = drop_listed(&vab, &good_anc);
    let testable = drop_listed(&cands, skips);
    let ghost cv = string_views(cands@);
    let ghost tv = string_views(testable@);
    if testable.len() == 0 {
        if cands.len() <= 1 {
            let h = if cands.len() == 1 {
                cands[0].clone()
            } else {
                bad_h.to_string()
            };
            return GraphWalk::Done(Ok(BisectOutcome::Found(h)));
        }
        return GraphWalk::Done(Err(BisectError::AllSkipped));
    }
    match order_candidates_from(g, bad_h, &testable) {
        GraphWalk::NeedCommit(h) => {
            proof {
                lemma_bfs_unique(gv, seq![], bad_h@, BfsEnd::Finished(string_views(vab@)), BfsEnd::Missing(h@));
            }
            GraphWalk::NeedCommit(h)
        },
        GraphWalk::Done(order) => {
            proof {
                let vis = choose|vis: Seq<Seq<char>>|
                    bfs_from(gv, seq![], bad_h@, BfsEnd::Finished(vis)) && string_views(order@) == keep_members(vis, tv);
                lemma_bfs_unique(gv, seq![], bad_h@, BfsEnd::Finished(string_views(vab@)), BfsEnd::Finished(vis));
                let x = tv[0];
                assert(tv.contains(x));
                lemma_drop_sub(cv, string_views(skips@), x);
                lemma_drop_sub(string_views(vab@), string_views(good_anc@), x);
                lemma_keep_has(vis, tv, x);
                lemma_keep_is_self(string_views(vab@), string_views(good_anc@), string_views(skips@));
            }
            let n = order.len();
            if n == 1 {
                GraphWalk::Done(Ok(BisectOutcome::Found(order[0].clone())))
            } else {
                GraphWalk::Done(Ok(BisectOutcome::Continue(order[n / 2].clone(), n - 1)))
            }
        },
    }
}

/// The line bisect prints for a commit it moves to: the short hash in
/// brackets, then the subject.
pub open spec fn oneline_text(hash: Seq<char>, subject: Seq<char>) -> Seq<char> {
    seq!['['] + crate::stash::short_of(hash) + "] "@ + subject
}

/// Formats a commit as bisect lists it.
pub fn commit_oneline(hash: &str, subject: &str) -> (r: String)
    requires
        crate::stash::short_ok(hash@),
    ensures
        r@ == oneline_text(hash@, subject@),
{
    let short = crate::stash::short_hash(hash);
    let mut v: Vec<char> = Vec::new();
    v.push('[');
    crate::text::push_str(&mut v, short.as_str());
    crate::text::push_str(&mut v, "] ");
    crate::text::push_str(&mut v, subject);
    crate::text::string_of(&v)
}

/// What bisect prints when it has found the first bad commit: the verdict,
/// `commit <hash>`, every `author` header line as `Author: ..`, a blank line
/// and the indented subject.
pub open spec fn first_bad_lines(hash: Seq<char>, text: Seq<char>) -> Seq<Seq<char>> {
    let ls = crate::text::lines_of(text);
    let authors = crate::commit::prefixed(crate::commit::header_lines(ls), "author "@);
    seq![hash + " is the first bad commit"@, "commit "@ + hash] + authors.map_values(|a: Seq<char>| "Author: "@ + a)
        + seq![seq![], "    "@ + crate::commit::subject_of(text)]
}

/// The report on the first bad commit, given the stored object; refused
/// for an object that is not a commit.
pub fn first_bad_report(hash: &str, kind: &str, content: &[u8]) -> (r: Result<Vec<String>, crate::commit::CommitError>)
    ensures
        kind@ != "commit"@ ==> r matches Err(crate::commit::CommitError::NotACommit),
        kind@ == "commit"@ ==> (r matches Ok(v) && string_views(v@) == first_bad_lines(
            hash@,
            crate::codec::lossy_decode(content@),
        )),
{
    let subject = match crate::commit::commit_subject_line(kind, content) {
        Ok(s) => s,
        Err(e) => {
            return Err(e);
        },
    };
    let text = crate::codec::from_utf8_lossy(content);
    let mut out: Vec<String> = Vec::new();
    let mut a: Vec<char> = Vec::new();
    crate::text::push_str(&mut a, hash);
    crate::text::push_str(&mut a, " is the first bad commit");
    let l1 = crate::text::string_of(&a);
    assert(l1@ =~= hash@ + " is the first bad commit"@);
    out.push(l1);
    let mut c: Vec<char> = Vec::new();
    crate::text::push_str(&mut c, "commit ");
    crate::text::push_str(&mut c, hash);
    let l2 = crate::text::string_of(&c);
    assert(l2@ =~= "commit "@ + hash@);
    out.push(l2);
    assert(string_views(out@) =~= seq![hash@ + " is the first bad commit"@, "commit "@ + hash@]);
    let authors = crate::commit::header_authors(text.as_str());
    let ghost av = string_views(authors@);
    let ghost head = string_views(out@);
    let mut i: usize = 0;
    while i < authors.len()
        invariant
            av == string_views(authors@),
            i <= av.len(),
            string_views(out@) == head + av.take(i as int).map_values(|x: Seq<char>| "Author: "@ + x),
        decreases av.len() - i,
    {
        let mut l: Vec<char> = Vec::new();
        crate::text::push_str(&mut l, "Author: ");
        crate::text::push_str(&mut l, authors[i].as_str());
        let line = crate::text::string_of(&l);
        let ghost before = string_views(out@);
        out.push(line);
        proof {
            assert(string_views(out@) =~= before.push("Author: "@ + av[i as int]));
            assert(av.take(i + 1) =~= av.take(i as int).push(av[i as int]));
            assert(av.take(i + 1).map_values(|x: Seq<char>| "Author: "@ + x) =~= av.take(i as int).map_values(
                |x: Seq<char>| "Author: "@ + x,
            ).push("Author: "@ + av[i as int]));
        }
        i += 1;
    }
    assert(av.take(i as int) =~= av);
    let ghost mid = string_views(out@);
    let e = String::new();
    assert(e@ =~= Seq::<char>::empty());
    out.push(e);
    let mut m: Vec<char> = Vec::new();
    crate::text::push_str(&mut m, "    ");
    crate::text::push_str(&mut m, subject.as_str());
    let l3 = crate::text::string_of(&m);
    assert(l3@ =~= "    "@ + crate::commit::subject_of(text@));
    out.push(l3);
    proof {
        assert(string_views(out@) =~= mid + seq![Seq::<char>::empty(), "    "@ + crate::commit::subject_of(text@)]);
        assert(string_views(out@) =~= first_bad_lines(hash@, crate::codec::lossy_decode(content@)));
    }
    Ok(out)
}

/// How `bisect run` marks a commit.
#[derive(Debug, Clone, Copy, PartialEq, Eq)]
pub enum RunMark {
    Good,
    Bad,
    Skip,
}

/// The mark for the exit code of the test command: 0 is good, 125 skips,
/// 1 to 127 is bad; any other code stops the run (`None`).
pub fn run_mark(code: i32) -> (r: Option<RunMark>)
    ensures
        code == 0 ==> r == Some(RunMark::Good),
        code == 125 ==> r == Some(RunMark::Skip),
        1 <= code <= 127 && code != 125 ==> r == Some(RunMark::Bad),
        (code < 0 || code > 127) ==> r is None,
{
    if code == 0 {
        Some(RunMark::Good)
    } else if code == 125 {
        Some(RunMark::Skip)
    } else if 1 <= code && code <= 127 {
        Some(RunMark::Bad)
    } else {
        None
    }
}


/// A bisect step over the complete walks. The commits still to test are
/// the ancestors of the bad commit (itself included, in breadth-first order
/// from it) that no good commit reaches and that are not skipped. With two
/// or more of them left, the step tests the middle one (at index n / 2) and
/// reports n - 1 left after it; with exactly one left, that one is the first
/// bad commit; the first bad commit is never named while two or more are
/// left. With none left to test, the lone candidate (or the bad commit when
/// no candidate remains) is the first bad commit, and two or more skipped
/// candidates are an error, and only then.
pub proof fn bisect_tests_the_middle(
    vab: Seq<Seq<char>>,
    vgs: Seq<Seq<Seq<char>>>,
    skips: Seq<Seq<char>>,
    bad: Seq<char>,
)
    ensures
        ({
            let goods = flatten_visits(vgs);
            let t = drop_members(drop_members(vab, goods), skips);
            &&& forall|x: Seq<char>| #[trigger] t.contains(x) <==> (vab.contains(x) && !goods.contains(x) && !skips.contains(x))
            &&& t.len() >= 2 ==> bisect_from_walks(vab, vgs, skips, bad) == Ok::<OutcomeView, BisectError>(
                OutcomeView::Continue(t[(t.len() / 2) as int], (t.len() - 1) as nat),
            )
            &&& t.len() == 1 ==> bisect_from_walks(vab, vgs, skips, bad) == Ok::<OutcomeView, BisectError>(
                OutcomeView::Found(t[0]),
            )
            &&& (bisect_from_walks(vab, vgs, skips, bad) matches Ok(OutcomeView::Found(_))) ==> t.len() <= 1
        }),
        ({
            let c = drop_members(vab, flatten_visits(vgs));
            let t = drop_members(c, skips);
            &&& forall|x: Seq<char>| #[trigger] c.contains(x) <==> (vab.contains(x) && !flatten_visits(vgs).contains(x))
            &&& t.len() == 0 && c.len() == 0 ==> bisect_from_walks(vab, vgs, skips, bad) == Ok::<OutcomeView, BisectError>(
                OutcomeView::Found(bad),
            )
            &&& t.len() == 0 && c.len() == 1 ==> bisect_from_walks(vab, vgs, skips, bad) == Ok::<OutcomeView, BisectError>(
                OutcomeView::Found(c[0]),
            )
            &&& (t.len() == 0 && c.len() >= 2) <==> bisect_from_walks(vab, vgs, skips, bad) == Err::<OutcomeView, BisectError>(
                BisectError::AllSkipped,
            )
        }),
{
    let goods = flatten_visits(vgs);
    let c = drop_members(vab, goods);
    let t = drop_members(c, skips);
    assert forall|x: Seq<char>| #[trigger] c.contains(x) <==> (vab.contains(x) && !goods.contains(x)) by {
        if c.contains(x) {
            lemma_drop_sub(vab, goods, x);
            lemma_drop_not_in(vab, goods, x);
        }
        if vab.contains(x) && !goods.contains(x) {
            lemma_drop_keeps(vab, goods, x);
        }
    }
    assert forall|x: Seq<char>| #[trigger] t.contains(x) <==> (vab.contains(x) && !goods.contains(x) && !skips.contains(x)) by {
        if t.contains(x) {
            lemma_drop_sub(c, skips, x);
            lemma_drop_not_in(c, skips, x);
            lemma_drop_sub(vab, goods, x);
            lemma_drop_not_in(vab, goods, x);
        }
        if vab.contains(x) && !goods.contains(x) && !skips.contains(x) {
            lemma_drop_keeps(vab, goods, x);
            lemma_drop_keeps(c, skips, x);
        }
    }
}

} // verus!
