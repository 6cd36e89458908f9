//! What `status` reports: staged, unstaged and untracked paths, and the
//! text it prints for them.
use vstd::prelude::*;
use crate::merge::{entry_of, lookup_entry, same_hash, tree_wf, TreeItem};
use crate::text::{push_str, string_of, string_views};

verus! {

/// The paths of `src`, in order, that `other` does not record.
pub open spec fn missing_from(src: Seq<TreeItem>, other: Seq<TreeItem>) -> Seq<Seq<char>>
    decreases src.len(),
{
    if src.len() == 0 {
        seq![]
    } else {
        let r = missing_from(src.drop_last(), other);
        if entry_of(other, src.last().path@) is None {
            r.push(src.last().path@)
        } else {
            r
        }
    }
}

/// The paths of `src`, in order, that `other` records with a different hash.
pub open spec fn changed_in(src: Seq<TreeItem>, other: Seq<TreeItem>) -> Seq<Seq<char>>
    decreases src.len(),
{
    if src.len() == 0 {
        seq![]
    } else {
        let r = changed_in(src.drop_last(), other);
        match entry_of(other, src.last().path@) {
            Some(e) => if e.0 != src.last().hash@ {
                r.push(src.last().path@)
            } else {
                r
            },
            None => r,
        }
    }
}

/// The paths of `src` that `other` lacks.
pub fn paths_missing_from(src: &Vec<TreeItem>, other: &Vec<TreeItem>) -> (r: Vec<String>)
    ensures
        string_views(r@) == missing_from(src@, other@),
{
    let mut out: Vec<String> = Vec::new();
    let mut i: usize = 0;
    assert(src@.take(0) =~= Seq::<TreeItem>::empty());
    while i < src.len()
        invariant
            i <= src@.len(),
            string_views(out@) == missing_from(src@.take(i as int), other@),
        decreases src@.len() - i,
    {
        proof {
            let t = src@.take(i + 1);
            assert(t.drop_last() =~= src@.take(i as int));
            assert(t.last() == src@[i as int]);
        }
        if lookup_entry(other, src[i].path.as_str()).is_none() {
            let ghost before = string_views(out@);
            out.push(src[i].path.clone());
            assert(string_views(out@) =~= before.push(src@[i as int].path@));
        }
        i += 1;
    }
    assert(src@.take(src@.len() as int) =~= src@);
    out
}

/// The paths of `src` that `other` records with a different hash.
pub fn paths_changed_in(src: &Vec<TreeItem>, other: &Vec<TreeItem>) -> (r: Vec<String>)
    ensures
        string_views(r@) == changed_in(src@, other@),
{
    let mut out: Vec<String> = Vec::new();
    let mut i: usize = 0;
    assert(src@.take(0) =~= Seq::<TreeItem>::empty());
    while i < src.len()
        invariant
            i <= src@.len(),
            string_views(out@) == changed_in(src@.take(i as int), other@),
        decreases src@.len() - i,
    {
        proof {
            let t = src@.take(i + 1);
            assert(t.drop_last() =~= src@.take(i as int));
            assert(t.last() == src@[i as int]);
        }
        match lookup_entry(other, src[i].path.as_str()) {
            Some(e) => {
                if !same_hash(&e.0, &src[i].hash) {
                    let ghost before = string_views(out@);
                    out.push(src[i].path.clone());
                    assert(string_views(out@) =~= before.push(src@[i as int].path@));
                }
            },
            None => {},
        }
        i += 1;
    }
    assert(src@.take(src@.len() as int) =~= src@);
    out
}

/// The paths `status` lists under each heading, each in path order.
#[derive(Debug, Clone)]
pub struct StatusReport {
    pub staged_new: Vec<String>,
    pub staged_modified: Vec<String>,
    pub staged_deleted: Vec<String>,
    pub unstaged_modified: Vec<String>,
    pub unstaged_deleted: Vec<String>,
    pub untracked: Vec<String>,
}

/// Compares HEAD's tree with the index (staged changes) and the index with
/// the working files (unstaged changes and untracked files). Only hashes are
/// compared.
pub fn classify_status(head: &Vec<TreeItem>, index: &Vec<TreeItem>, work: &Vec<TreeItem>) -> (r: StatusReport)
    ensures
        string_views(r.staged_new@) == missing_from(index@, head@),
        string_views(r.staged_modified@) == changed_in(index@, head@),
        string_views(r.staged_deleted@) == missing_from(head@, index@),
        string_views(r.unstaged_modified@) == changed_in(work@, index@),
        string_views(r.unstaged_deleted@) == missing_from(index@, work@),
        string_views(r.untracked@) == missing_from(work@, index@),
        tree_wf(head@) && tree_wf(index@) && tree_wf(work@) ==> forall|p: Seq<char>|
            {
                let h = crate::checkout::hash_at(head@, p);
                let i = crate::checkout::hash_at(index@, p);
                let w = crate::checkout::hash_at(work@, p);
                &&& #[trigger] string_views(r.staged_new@).contains(p) <==> (i is Some && h is None)
                &&& string_views(r.staged_modified@).contains(p) <==> (i is Some && h is Some && i != h)
                &&& string_views(r.staged_deleted@).contains(p) <==> (h is Some && i is None)
                &&& string_views(r.unstaged_modified@).contains(p) <==> (w is Some && i is Some && w != i)
                &&& string_views(r.unstaged_deleted@).contains(p) <==> (i is Some && w is None)
                &&& string_views(r.untracked@).contains(p) <==> (w is Some && i is None)
            },
{
    proof {
        if tree_wf(head@) && tree_wf(index@) && tree_wf(work@) {
            assert forall|p: Seq<char>|
                {
                    let h = crate::checkout::hash_at(head@, p);
                    let i = crate::checkout::hash_at(index@, p);
                    let w = crate::checkout::hash_at(work@, p);
                    &&& #[trigger] missing_from(index@, head@).contains(p) <==> (i is Some && h is None)
                    &&& changed_in(index@, head@).contains(p) <==> (i is Some && h is Some && i != h)
                    &&& missing_from(head@, index@).contains(p) <==> (h is Some && i is None)
                    &&& changed_in(work@, index@).contains(p) <==> (w is Some && i is Some && w != i)
                    &&& missing_from(index@, work@).contains(p) <==> (i is Some && w is None)
                    &&& missing_from(work@, index@).contains(p) <==> (w is Some && i is None)
                } by {
                crate::checkout::lemma_missing_from_has(index@, head@, p);
                crate::checkout::lemma_changed_in_has(index@, head@, p);
                crate::checkout::lemma_missing_from_has(head@, index@, p);
                crate::checkout::lemma_changed_in_has(work@, index@, p);
                crate::checkout::lemma_missing_from_has(index@, work@, p);
                crate::checkout::lemma_missing_from_has(work@, index@, p);
            }
        }
    }
    StatusReport {
        staged_new: paths_missing_from(index, head),
        staged_modified: paths_changed_in(index, head),
        staged_deleted: paths_missing_from(head, index),
        unstaged_modified: paths_changed_in(work, index),
        unstaged_deleted: paths_missing_from(index, work),
        untracked: paths_missing_from(work, index),
    }
}

/// The prefixed lines for a group of paths.
pub open spec fn prefixed_lines(prefix: Seq<char>, paths: Seq<Seq<char>>) -> Seq<Seq<char>>
    decreases paths.len(),
{
    if paths.len() == 0 {
        seq![]
    } else {
        prefixed_lines(prefix, paths.drop_last()).push(prefix + paths.last())
    }
}

fn push_prefixed(out: &mut Vec<String>, prefix: &str, paths: &Vec<String>)
    ensures
        string_views(final(out)@) == string_views(old(out)@) + prefixed_lines(prefix@, string_views(paths@)),
{
    let ghost pv = string_views(paths@);
    let mut i: usize = 0;
    assert(pv.take(0) =~= Seq::<Seq<char>>::empty());
    assert(string_views(out@) =~= string_views(old(out)@) + prefixed_lines(prefix@, pv.take(0)));
    while i < paths.len()
        invariant
            pv == string_views(paths@),
            i <= pv.len(),
            string_views(out@) == string_views(old(out)@) + prefixed_lines(prefix@, pv.take(i as int)),
        decreases pv.len() - i,
    {
        let mut line: Vec<char> = Vec::new();
        push_str(&mut line, prefix);
        push_str(&mut line, paths[i].as_str());
        let ghost before = string_views(out@);
        out.push(string_of(&line));
        proof {
            let t = pv.take(i + 1);
            assert(t.drop_last() =~= pv.take(i as int));
            assert(t.last() == paths@[i as int]@);
            assert(string_views(out@) =~= before.push(line@));
        }
        i += 1;
    }
    assert(pv.take(pv.len() as int) =~= pv);
}

/// An empty line when `blank`.
pub open spec fn blank_line(blank: bool) -> Seq<Seq<char>> {
    if blank {
        seq![seq![]]
    } else {
        seq![]
    }
}

/// A section: an optional empty line, the title, the body, an empty line.
pub open spec fn section(blank: bool, title: Seq<char>, body: Seq<Seq<char>>) -> Seq<Seq<char>> {
    blank_line(blank) + seq![title] + body + seq![seq![]]
}

/// The closing line when nothing is staged.
pub open spec fn summary_line(no_commits_yet: bool, has_unstaged: bool, has_untracked: bool) -> Seq<char> {
    if no_commits_yet && !has_unstaged && !has_untracked {
        "nothing to commit (create/copy files and use 'add' to track)"@
    } else if has_unstaged || has_untracked {
        "no changes added to commit (use 'add' to track or stage changes)"@
    } else {
        "nothing to commit, working tree clean"@
    }
}

/// The lines `status` prints after its first line: the sections that have
/// paths (each followed by an empty line) and, when nothing is staged, a
/// closing summary.
pub open spec fn status_lines(
    no_commits_yet: bool,
    staged_new: Seq<Seq<char>>,
    staged_modified: Seq<Seq<char>>,
    staged_deleted: Seq<Seq<char>>,
    unstaged_modified: Seq<Seq<char>>,
    unstaged_deleted: Seq<Seq<char>>,
    untracked: Seq<Seq<char>>,
) -> Seq<Seq<char>> {
    let has_staged = staged_new.len() > 0 || staged_modified.len() > 0 || staged_deleted.len() > 0;
    let has_unstaged = unstaged_modified.len() > 0 || unstaged_deleted.len() > 0;
    let has_untracked = untracked.len() > 0;
    let blank1 = no_commits_yet;
    let blank2 = blank1 && !has_staged;
    let blank3 = blank2 && !has_unstaged;
    let blank4 = blank3 && !has_untracked;
    (if no_commits_yet {
        seq![seq![], "No commits yet"@]
    } else {
        seq![]
    }) + (if has_staged {
        section(
            blank1,
            "Changes to be committed:"@,
            prefixed_lines("\tnew file:   "@, staged_new) + prefixed_lines("\tmodified:   "@, staged_modified)
                + prefixed_lines("\tdeleted:    "@, staged_deleted),
        )
    } else {
        seq![]
    }) + (if has_unstaged {
        section(
            blank2,
            "Changes not staged for commit:"@,
            prefixed_lines("\tmodified:   "@, unstaged_modified) + prefixed_lines(
                "\tdeleted:    "@,
                unstaged_deleted,
            ),
        )
    } else {
        seq![]
    }) + (if has_untracked {
        section(blank3, "Untracked files:"@, prefixed_lines("\t"@, untracked))
    } else {
        seq![]
    }) + (if !has_staged {
        blank_line(blank4) + seq![summary_line(no_commits_yet, has_unstaged, has_untracked)]
    } else {
        seq![]
    })
}

fn push_line(out: &mut Vec<String>, s: &str)
    ensures
        string_views(final(out)@) == string_views(old(out)@).push(s@),
{
    let ghost before = string_views(out@);
    out.push(s.to_string());
    assert(string_views(out@) =~= before.push(s@));
}

fn push_blank(out: &mut Vec<String>, blank: bool)
    ensures
        string_views(final(out)@) == string_views(old(out)@) + blank_line(blank),
{
    if blank {
        push_line(out, "");
        proof {
            reveal_strlit("");
        }
        assert(""@ =~= Seq::<char>::empty());
        assert(string_views(out@) =~= string_views(old(out)@) + blank_line(blank));
    } else {
        assert(string_views(out@) =~= string_views(old(out)@) + blank_line(blank));
    }
}

fn push_section_end(out: &mut Vec<String>)
    ensures
        string_views(final(out)@) == string_views(old(out)@) + seq![Seq::<char>::empty()],
{
    push_line(out, "");
    proof {
        reveal_strlit("");
    }
    assert(""@ =~= Seq::<char>::empty());
    assert(string_views(out@) =~= string_views(old(out)@) + seq![Seq::<char>::empty()]);
}

fn staged_section(out: &mut Vec<String>, blank: bool, report: &StatusReport)
    ensures
        string_views(final(out)@) == string_views(old(out)@) + section(
            blank,
            "Changes to be committed:"@,
            prefixed_lines("\tnew file:   "@, string_views(report.staged_new@)) + prefixed_lines(
                "\tmodified:   "@,
                string_views(report.staged_modified@),
            ) + prefixed_lines("\tdeleted:    "@, string_views(report.staged_deleted@)),
        ),
{
    push_blank(out, blank);
    push_line(out, "Changes to be committed:");
    push_prefixed(out, "\tnew file:   ", &report.staged_new);
    push_prefixed(out, "\tmodified:   ", &report.staged_modified);
    push_prefixed(out, "\tdeleted:    ", &report.staged_deleted);
    push_section_end(out);
    assert(string_views(out@) =~= string_views(old(out)@) + section(
        blank,
        "Changes to be committed:"@,
        prefixed_lines("\tnew file:   "@, string_views(report.staged_new@)) + prefixed_lines(
            "\tmodified:   "@,
            string_views(report.staged_modified@),
        ) + prefixed_lines("\tdeleted:    "@, string_views(report.staged_deleted@)),
    ));
}

fn unstaged_section(out: &mut Vec<String>, blank: bool, report: &StatusReport)
    ensures
        string_views(final(out)@) == string_views(old(out)@) + section(
            blank,
            "Changes not staged for commit:"@,
            prefixed_lines("\tmodified:   "@, string_views(report.unstaged_modified@)) + prefixed_lines(
                "\tdeleted:    "@,
                string_views(report.unstaged_deleted@),
            ),
        ),
{
    push_blank(out, blank);
    push_line(out, "Changes not staged for commit:");
    push_prefixed(out, "\tmodified:   ", &report.unstaged_modified);
    push_prefixed(out, "\tdeleted:    ", &report.unstaged_deleted);
    push_section_end(out);
    assert(string_views(out@) =~= string_views(old(out)@) + section(
        blank,
        "Changes not staged for commit:"@,
        prefixed_lines("\tmodified:   "@, string_views(report.unstaged_modified@)) + prefixed_lines(
            "\tdeleted:    "@,
            string_views(report.unstaged_deleted@),
        ),
    ));
}

fn untracked_section(out: &mut Vec<String>, blank: bool, report: &StatusReport)
    ensures
        string_views(final(out)@) == string_views(old(out)@) + section(
            blank,
            "Untracked files:"@,
            prefixed_lines("\t"@, string_views(report.untracked@)),
        ),
{
    push_blank(out, blank);
    push_line(out, "Untracked files:");
    push_prefixed(out, "\t", &report.untracked);
    push_section_end(out);
    assert(string_views(out@) =~= string_views(old(out)@) + section(
        blank,
        "Untracked files:"@,
        prefixed_lines("\t"@, string_views(report.untracked@)),
    ));
}

/// The lines `status` prints after "On branch ..." / "HEAD detached at ...".
#[verifier::rlimit(40)]
pub fn format_status(no_commits_yet: bool, report: &StatusReport) -> (r: Vec<String>)
    ensures
        string_views(r@) == status_lines(
            no_commits_yet,
            string_views(report.staged_new@),
            string_views(report.staged_modified@),
            string_views(report.staged_deleted@),
            string_views(report.unstaged_modified@),
            string_views(report.unstaged_deleted@),
            string_views(report.untracked@),
        ),
        string_views(r@) == status_layout(
            no_commits_yet,
            string_views(report.staged_new@),
            string_views(report.staged_modified@),
            string_views(report.staged_deleted@),
            string_views(report.unstaged_modified@),
            string_views(report.unstaged_deleted@),
            string_views(report.untracked@),
        ),
{
    let mut out: Vec<String> = Vec::new();
    if no_commits_yet {
        push_line(&mut out, "");
        push_line(&mut out, "No commits yet");
        proof {
            reveal_strlit("");
        }
        assert(""@ =~= Seq::<char>::empty());
    }
    let ghost o0 = string_views(out@);
    assert(o0 =~= (if no_commits_yet {
        seq![seq![], "No commits yet"@]
    } else {
        seq![]
    }));
    let has_staged = report.staged_new.len() > 0 || report.staged_modified.len() > 0
        || report.staged_deleted.len() > 0;
    let has_unstaged = report.unstaged_modified.len() > 0 || report.unstaged_deleted.len() > 0;
    let has_untracked = report.untracked.len() > 0;
    let blank1 = no_commits_yet;
    let blank2 = blank1 && !has_staged;
    let blank3 = blank2 && !has_unstaged;
    let blank4 = blank3 && !has_untracked;
    if has_staged {
        staged_section(&mut out, blank1, report);
    }
    if has_unstaged {
        unstaged_section(&mut out, blank2, report);
    }
    if has_untracked {
        untracked_section(&mut out, blank3, report);
    }
    if !has_staged {
        push_blank(&mut out, blank4);
        if no_commits_yet && !has_unstaged && !has_untracked {
            push_line(&mut out, "nothing to commit (create/copy files and use 'add' to track)");
        } else if has_unstaged || has_untracked {
            push_line(&mut out, "no changes added to commit (use 'add' to track or stage changes)");
        } else {
            push_line(&mut out, "nothing to commit, working tree clean");
        }
    }
    proof {
        let sl = status_lines(
            no_commits_yet,
            string_views(report.staged_new@),
            string_views(report.staged_modified@),
            string_views(report.staged_deleted@),
            string_views(report.unstaged_modified@),
            string_views(report.unstaged_deleted@),
            string_views(report.untracked@),
        );
        assert(string_views(out@) =~= sl);
        status_shows_each_path_under_its_label(
            no_commits_yet,
            string_views(report.staged_new@),
            string_views(report.staged_modified@),
            string_views(report.staged_deleted@),
            string_views(report.unstaged_modified@),
            string_views(report.unstaged_deleted@),
            string_views(report.untracked@),
        );
    }
    out
}

/// How a mixed reset changed the index at `p`: `D` when the old index had
/// it and the target lacks it, `M` when both have it with other hashes, `A`
/// when only the target has it.
pub open spec fn reset_status(old_index: Seq<TreeItem>, target: Seq<TreeItem>, p: Seq<char>) -> Option<char> {
    match (entry_of(old_index, p), entry_of(target, p)) {
        (Some(_), None) => Some('D'),
        (Some(a), Some(b)) => if a.0 != b.0 {
            Some('M')
        } else {
            None
        },
        (None, Some(_)) => Some('A'),
        (None, None) => None,
    }
}

/// The `<status>\t<path>` lines for the members of `all` that changed, in order.
pub open spec fn reset_lines(all: Seq<Seq<char>>, old_index: Seq<TreeItem>, target: Seq<TreeItem>) -> Seq<Seq<char>>
    decreases all.len(),
{
    if all.len() == 0 {
        seq![]
    } else {
        let r = reset_lines(all.drop_last(), old_index, target);
        match reset_status(old_index, target, all.last()) {
            Some(c) => r.push(seq![c, '\t'] + all.last()),
            None => r,
        }
    }
}

/// The lines listed under `Unstaged changes after reset:` for the paths
/// `all` (every path of the old index and of the target, sorted).
pub fn unstaged_after_reset(all: &Vec<String>, old_index: &Vec<TreeItem>, target: &Vec<TreeItem>) -> (r: Vec<String>)
    ensures
        string_views(r@) == reset_lines(string_views(all@), old_index@, target@),
{
    let ghost av = string_views(all@);
    let mut out: Vec<String> = Vec::new();
    let mut i: usize = 0;
    assert(av.take(0) =~= seq![]);
    while i < all.len()
        invariant
            av == string_views(all@),
            i <= av.len(),
            string_views(out@) == reset_lines(av.take(i as int), old_index@, target@),
        decreases av.len() - i,
    {
        proof {
            let t = av.take(i + 1);
            assert(t.drop_last() =~= av.take(i as int));
            assert(t.last() == av[i as int]);
        }
        let p = &all[i];
        let a = lookup_entry(old_index, p.as_str());
        let b = lookup_entry(target, p.as_str());
        let status: Option<char> = match (a, b) {
            (Some(_), None) => Some('D'),
            (Some(x), Some(y)) => if same_hash(&x.0, &y.0) {
                None
            } else {
                Some('M')
            },
            (None, Some(_)) => Some('A'),
            (None, None) => None,
        };
        match status {
            Some(c) => {
                let mut v: Vec<char> = Vec::new();
                v.push(c);
                v.push('\t');
                push_str(&mut v, p.as_str());
                let line = string_of(&v);
                assert(line@ =~= seq![c, '\t'] + av[i as int]);
                let ghost before = string_views(out@);
                out.push(line);
                assert(string_views(out@) =~= before.push(seq![c, '\t'] + av[i as int]));
            },
            None => {},
        }
        i += 1;
    }
    assert(av.take(i as int) =~= av);
    out
}

proof fn lemma_entry_at(t: Seq<TreeItem>, k: int)
    requires
        crate::merge::tree_wf(t),
        0 <= k < t.len(),
    ensures
        entry_of(t, t[k].path@) == Some(crate::merge::item_entry(t[k])),
    decreases k,
{
    if k > 0 {
        let r = t.drop_first();
        assert(crate::merge::item_paths(t)[0] == t[0].path@);
        assert(crate::merge::item_paths(t)[k] == t[k].path@);
        assert(t[0].path@ != t[k].path@);
        assert forall|i: int, j: int| 0 <= i < j < crate::merge::item_paths(r).len() implies crate::paths::chars_lt(
            #[trigger] crate::merge::item_paths(r)[i],
            #[trigger] crate::merge::item_paths(r)[j],
        ) by {
            assert(crate::merge::item_paths(r)[i] == crate::merge::item_paths(t)[i + 1]);
            assert(crate::merge::item_paths(r)[j] == crate::merge::item_paths(t)[j + 1]);
        }
        lemma_entry_at(r, k - 1);
        assert(r[k - 1] == t[k]);
    }
}

/// When `HEAD`, the index and the working files hold the same files,
/// `status` lists nothing: no path is missing from or changed in the other.
pub proof fn status_clean(t: Seq<TreeItem>)
    requires
        crate::merge::tree_wf(t),
    ensures
        missing_from(t, t) == Seq::<Seq<char>>::empty(),
        changed_in(t, t) == Seq::<Seq<char>>::empty(),
{
    lemma_clean_prefix(t, t.len() as int);
    assert(t.take(t.len() as int) =~= t);
}

proof fn lemma_clean_prefix(t: Seq<TreeItem>, n: int)
    requires
        crate::merge::tree_wf(t),
        0 <= n <= t.len(),
    ensures
        missing_from(t.take(n), t) == Seq::<Seq<char>>::empty(),
        changed_in(t.take(n), t) == Seq::<Seq<char>>::empty(),
    decreases n,
{
    if n > 0 {
        lemma_clean_prefix(t, n - 1);
        let s = t.take(n);
        assert(s.drop_last() =~= t.take(n - 1));
        assert(s.last() == t[n - 1]);
        lemma_entry_at(t, n - 1);
    } else {
        assert(t.take(0) =~= Seq::<TreeItem>::empty());
    }
}

/// A mixed reset to the tree the index already holds lists no unstaged
/// change.
pub proof fn reset_to_same_tree(all: Seq<Seq<char>>, t: Seq<TreeItem>)
    ensures
        reset_lines(all, t, t) == Seq::<Seq<char>>::empty(),
    decreases all.len(),
{
    if all.len() > 0 {
        reset_to_same_tree(all.drop_last(), t);
    }
}


/// Each path of `paths`, in order, written after `label`.
pub open spec fn labelled(label: Seq<char>, paths: Seq<Seq<char>>) -> Seq<Seq<char>> {
    Seq::new(paths.len(), |i: int| label + paths[i])
}

proof fn lemma_prefixed_lines_labelled(prefix: Seq<char>, paths: Seq<Seq<char>>)
    ensures
        prefixed_lines(prefix, paths) == labelled(prefix, paths),
    decreases paths.len(),
{
    if paths.len() > 0 {
        lemma_prefixed_lines_labelled(prefix, paths.drop_last());
        assert(labelled(prefix, paths) =~= labelled(prefix, paths.drop_last()).push(prefix + paths.last()));
    }
}

/// The layout of `status`'s lines: "No commits yet" and one empty line when
/// nothing is committed; then, each only when it has paths, the staged
/// section (each new, modified and deleted staged path under its own label,
/// in that order), the unstaged section (each modified, then each deleted
/// working file) and the untracked section, each with its title and an
/// empty line after it; and, when nothing is staged, the summary line.
pub open spec fn status_layout(
    no_commits_yet: bool,
    staged_new: Seq<Seq<char>>,
    staged_modified: Seq<Seq<char>>,
    staged_deleted: Seq<Seq<char>>,
    unstaged_modified: Seq<Seq<char>>,
    unstaged_deleted: Seq<Seq<char>>,
    untracked: Seq<Seq<char>>,
) -> Seq<Seq<char>> {
    let hs = staged_new.len() > 0 || staged_modified.len() > 0 || staged_deleted.len() > 0;
    let hu = unstaged_modified.len() > 0 || unstaged_deleted.len() > 0;
    let ht = untracked.len() > 0;
    (if no_commits_yet {
        seq![seq![], "No commits yet"@, seq![]]
    } else {
        seq![]
    }) + (if hs {
        seq!["Changes to be committed:"@] + labelled("\tnew file:   "@, staged_new) + labelled(
            "\tmodified:   "@,
            staged_modified,
        ) + labelled("\tdeleted:    "@, staged_deleted) + seq![seq![]]
    } else {
        seq![]
    }) + (if hu {
        seq!["Changes not staged for commit:"@] + labelled("\tmodified:   "@, unstaged_modified) + labelled(
            "\tdeleted:    "@,
            unstaged_deleted,
        ) + seq![seq![]]
    } else {
        seq![]
    }) + (if ht {
        seq!["Untracked files:"@] + labelled("\t"@, untracked) + seq![seq![]]
    } else {
        seq![]
    }) + (if !hs {
        seq![summary_line(no_commits_yet, hu, ht)]
    } else {
        seq![]
    })
}

/// What `status` prints follows its layout: every staged, unstaged and
/// untracked path appears, once and in order, under the label of its kind
/// in the section of its kind.
#[verifier::rlimit(100)]
#[verifier::spinoff_prover]
pub proof fn status_shows_each_path_under_its_label(
    no_commits_yet: bool,
    staged_new: Seq<Seq<char>>,
    staged_modified: Seq<Seq<char>>,
    staged_deleted: Seq<Seq<char>>,
    unstaged_modified: Seq<Seq<char>>,
    unstaged_deleted: Seq<Seq<char>>,
    untracked: Seq<Seq<char>>,
)
    ensures
        status_lines(
            no_commits_yet,
            staged_new,
            staged_modified,
            staged_deleted,
            unstaged_modified,
            unstaged_deleted,
            untracked,
        ) == status_layout(
            no_commits_yet,
            staged_new,
            staged_modified,
            staged_deleted,
            unstaged_modified,
            unstaged_deleted,
            untracked,
        ),
{
    lemma_prefixed_lines_labelled("\tnew file:   "@, staged_new);
    lemma_prefixed_lines_labelled("\tmodified:   "@, staged_modified);
    lemma_prefixed_lines_labelled("\tdeleted:    "@, staged_deleted);
    lemma_prefixed_lines_labelled("\tmodified:   "@, unstaged_modified);
    lemma_prefixed_lines_labelled("\tdeleted:    "@, unstaged_deleted);
    lemma_prefixed_lines_labelled("\t"@, untracked);
    let nc = no_commits_yet;
    let hs = staged_new.len() > 0 || staged_modified.len() > 0 || staged_deleted.len() > 0;
    let hu = unstaged_modified.len() > 0 || unstaged_deleted.len() > 0;
    let ht = untracked.len() > 0;
    let bs = labelled("\tnew file:   "@, staged_new) + labelled("\tmodified:   "@, staged_modified) + labelled(
        "\tdeleted:    "@,
        staged_deleted,
    );
    let bu = labelled("\tmodified:   "@, unstaged_modified) + labelled("\tdeleted:    "@, unstaged_deleted);
    let bt = labelled("\t"@, untracked);
    let ss = seq!["Changes to be committed:"@] + bs + seq![seq![]];
    let uu = seq!["Changes not staged for commit:"@] + bu + seq![seq![]];
    let tt = seq!["Untracked files:"@] + bt + seq![seq![]];
    let cc = seq![summary_line(nc, hu, ht)];
    let e: Seq<Seq<char>> = seq![];
    let x1: Seq<Seq<char>> = if nc { seq![seq![], "No commits yet"@] } else { e };
    let x2: Seq<Seq<char>> = if hs { blank_line(nc) + ss } else { e };
    let x3: Seq<Seq<char>> = if hu { blank_line(nc && !hs) + uu } else { e };
    let x4: Seq<Seq<char>> = if ht { blank_line(nc && !hs && !hu) + tt } else { e };
    let x5: Seq<Seq<char>> = if !hs { blank_line(nc && !hs && !hu && !ht) + cc } else { e };
    assert(section(nc, "Changes to be committed:"@, bs) =~= blank_line(nc) + ss);
    assert(section(nc && !hs, "Changes not staged for commit:"@, bu) =~= blank_line(nc && !hs) + uu);
    assert(section(nc && !hs && !hu, "Untracked files:"@, bt) =~= blank_line(nc && !hs && !hu) + tt);
    let sl = status_lines(
        no_commits_yet,
        staged_new,
        staged_modified,
        staged_deleted,
        unstaged_modified,
        unstaged_deleted,
        untracked,
    );
    assert(sl == x1 + x2 + x3 + x4 + x5);
    let y1: Seq<Seq<char>> = if nc { seq![seq![], "No commits yet"@, seq![]] } else { e };
    let y2: Seq<Seq<char>> = if hs { ss } else { e };
    let y3: Seq<Seq<char>> = if hu { uu } else { e };
    let y4: Seq<Seq<char>> = if ht { tt } else { e };
    let y5: Seq<Seq<char>> = if !hs { cc } else { e };
    assert(status_layout(
        no_commits_yet,
        staged_new,
        staged_modified,
        staged_deleted,
        unstaged_modified,
        unstaged_deleted,
        untracked,
    ) == y1 + y2 + y3 + y4 + y5);
    if !nc {
        assert(blank_line(false) =~= e);
        assert(x1 + x2 + x3 + x4 + x5 =~= y1 + y2 + y3 + y4 + y5);
    } else if hs {
        assert(x1 + x2 =~= y1 + y2);
    } else if hu {
        assert(x1 + x2 + x3 =~= y1 + y2 + y3);
    } else if ht {
        assert(x1 + x2 + x3 + x4 =~= y1 + y2 + y3 + y4);
    } else {
        assert(x1 + x2 + x3 + x4 + x5 =~= y1 + y2 + y3 + y4 + y5);
    }
}

} // verus!
