//! Which staged paths `rm` removes, and when it refuses.
use vstd::prelude::*;
use crate::graph::contains_str;
use crate::merge::{entry_of, lookup_entry, same_hash, TreeItem};
use crate::text::{has_prefix, push_str, starts_with, str_eq, string_of, string_views};

verus! {

/// Whether staged path `e` is selected by the argument `rel`: the path
/// itself, or (recursively) anything below it.
pub open spec fn rm_selects(e: Seq<char>, rel: Seq<char>, recursive: bool) -> bool {
    e == rel || (recursive && has_prefix(e, rel.push('/')))
}

/// The staged paths, in index order, that `rel` selects.
pub open spec fn rm_matches(index: Seq<Seq<char>>, rel: Seq<char>, recursive: bool) -> Seq<Seq<char>>
    decreases index.len(),
{
    if index.len() == 0 {
        seq![]
    } else {
        let r = rm_matches(index.drop_last(), rel, recursive);
        if rm_selects(index.last(), rel, recursive) {
            r.push(index.last())
        } else {
            r
        }
    }
}

/// `acc` followed by the members of `xs` it does not hold yet, in order.
pub open spec fn append_new(acc: Seq<Seq<char>>, xs: Seq<Seq<char>>) -> Seq<Seq<char>>
    decreases xs.len(),
{
    if xs.len() == 0 {
        acc
    } else {
        let a = append_new(acc, xs.drop_last());
        if a.contains(xs.last()) {
            a
        } else {
            a.push(xs.last())
        }
    }
}

/// Why `rm` refused its arguments.
#[derive(Debug, Clone, PartialEq, Eq)]
pub enum RmError {
    /// No paths were given.
    NoPathspec,
    /// A directory argument without `-r`.
    NotRecursive(String),
    /// An argument that matches nothing staged.
    NoMatch(String),
}

/// What `rm` removes for the arguments `rels`, taken in order: the staged
/// paths each selects, each once; or the error for the first argument that
/// selects nothing.
pub open spec fn rm_plan(index: Seq<Seq<char>>, rels: Seq<Seq<char>>, recursive: bool) -> Result<Seq<Seq<char>>, (bool, Seq<char>)>
    decreases rels.len(),
{
    if rels.len() == 0 {
        Ok(seq![])
    } else {
        match rm_plan(index, rels.drop_last(), recursive) {
            Err(e) => Err(e),
            Ok(acc) => {
                let rel = rels.last();
                let m = rm_matches(index, rel, recursive);
                if m.len() == 0 {
                    Err((!recursive && rm_matches(index, rel, true).len() > 0, rel))
                } else {
                    Ok(append_new(acc, m))
                }
            },
        }
    }
}

proof fn lemma_plan_err_sticks(index: Seq<Seq<char>>, rels: Seq<Seq<char>>, k: int, recursive: bool)
    requires
        0 <= k < rels.len(),
        rm_plan(index, rels.take(k + 1), recursive) is Err,
    ensures
        rm_plan(index, rels, recursive) == rm_plan(index, rels.take(k + 1), recursive),
    decreases rels.len() - k,
{
    if k + 1 < rels.len() {
        assert(rels.drop_last().take(k + 1) =~= rels.take(k + 1));
        lemma_plan_err_sticks(index, rels.drop_last(), k, recursive);
    } else {
        assert(rels.take(k + 1) =~= rels);
    }
}

fn matches_of(index: &Vec<String>, rel: &str, recursive: bool) -> (r: Vec<String>)
    ensures
        string_views(r@) == rm_matches(string_views(index@), rel@, recursive),
{
    let ghost iv = string_views(index@);
    let mut dir: Vec<char> = crate::text::chars_of(rel);
    dir.push('/');
    let dir_s = string_of(&dir);
    let mut out: Vec<String> = Vec::new();
    let mut i: usize = 0;
    assert(iv.take(0) =~= Seq::<Seq<char>>::empty());
    while i < index.len()
        invariant
            iv == string_views(index@),
            dir_s@ == rel@.push('/'),
            i <= iv.len(),
            string_views(out@) == rm_matches(iv.take(i as int), rel@, recursive),
        decreases iv.len() - i,
    {
        proof {
            let t = iv.take(i + 1);
            assert(t.drop_last() =~= iv.take(i as int));
            assert(t.last() == index@[i as int]@);
        }
        if str_eq(index[i].as_str(), rel) || (recursive && starts_with(index[i].as_str(), dir_s.as_str())) {
            let ghost before = string_views(out@);
            out.push(index[i].clone());
            assert(string_views(out@) =~= before.push(index@[i as int]@));
        }
        i += 1;
    }
    assert(iv.take(iv.len() as int) =~= iv);
    out
}

/// The staged paths `rm` removes for its arguments (already normalised),
/// each once, in the order the arguments select them.
pub fn rm_targets(index: &Vec<String>, rels: &Vec<String>, recursive: bool) -> (r: Result<Vec<String>, RmError>)
    ensures
        rels@.len() == 0 ==> r == Err::<Vec<String>, RmError>(RmError::NoPathspec),
        rels@.len() > 0 ==> match rm_plan(string_views(index@), string_views(rels@), recursive) {
            Ok(ps) => r matches Ok(v) && string_views(v@) == ps,
            Err((true, rel)) => r matches Err(RmError::NotRecursive(x)) && x@ == rel,
            Err((false, rel)) => r matches Err(RmError::NoMatch(x)) && x@ == rel,
        },
{
    if rels.len() == 0 {
        return Err(RmError::NoPathspec);
    }
    let ghost iv = string_views(index@);
    let ghost rv = string_views(rels@);
    let mut acc: Vec<String> = Vec::new();
    let mut k: usize = 0;
    assert(rv.take(0) =~= Seq::<Seq<char>>::empty());
    assert(string_views(acc@) =~= Seq::<Seq<char>>::empty());
    while k < rels.len()
        invariant
            iv == string_views(index@),
            rv == string_views(rels@),
            k <= rv.len(),
            rm_plan(iv, rv.take(k as int), recursive) == Ok::<Seq<Seq<char>>, (bool, Seq<char>)>(string_views(acc@)),
        decreases rv.len() - k,
    {
        proof {
            let t = rv.take(k + 1);
            assert(t.drop_last() =~= rv.take(k as int));
            assert(t.last() == rels@[k as int]@);
        }
        let m = matches_of(index, rels[k].as_str(), recursive);
        if m.len() == 0 {
            let sub = matches_of(index, rels[k].as_str(), true);
            proof {
                lemma_plan_err_sticks(iv, rv, k as int, recursive);
            }
            if sub.len() > 0 && !recursive {
                return Err(RmError::NotRecursive(rels[k].clone()));
            } else {
                return Err(RmError::NoMatch(rels[k].clone()));
            }
        }
        let ghost acc0 = string_views(acc@);
        let ghost mv = string_views(m@);
        let mut j: usize = 0;
        assert(mv.take(0) =~= Seq::<Seq<char>>::empty());
        while j < m.len()
            invariant
                mv == string_views(m@),
                j <= mv.len(),
                string_views(acc@) == append_new(acc0, mv.take(j as int)),
            decreases mv.len() - j,
        {
            proof {
                let t = mv.take(j + 1);
                assert(t.drop_last() =~= mv.take(j as int));
                assert(t.last() == m@[j as int]@);
            }
            if !contains_str(&acc, m[j].as_str()) {
                let ghost before = string_views(acc@);
                acc.push(m[j].clone());
                assert(string_views(acc@) =~= before.push(m@[j as int]@));
            }
            j += 1;
        }
        assert(mv.take(mv.len() as int) =~= mv);
        k += 1;
    }
    assert(rv.take(rv.len() as int) =~= rv);
    Ok(acc)
}

/// Whether the index records `p` differently from HEAD (or HEAD lacks it).
pub open spec fn staged_change(index: Seq<TreeItem>, head: Option<Seq<TreeItem>>, p: Seq<char>) -> bool {
    match entry_of(index, p) {
        None => false,
        Some(ie) => match head {
            None => true,
            Some(h) => match entry_of(h, p) {
                None => true,
                Some(he) => ie.0 != he.0,
            },
        },
    }
}

/// The paths `rm` refuses without `-f`: those with staged changes, and the
/// others whose file on disk (`disk[i]`, `None` when it was not read)
/// differs from the index; each list in order.
pub open spec fn rm_refusals(
    paths: Seq<Seq<char>>,
    index: Seq<TreeItem>,
    head: Option<Seq<TreeItem>>,
    disk: Seq<Option<Seq<u8>>>,
) -> (Seq<Seq<char>>, Seq<Seq<char>>)
    decreases paths.len(),
{
    if paths.len() == 0 {
        (seq![], seq![])
    } else {
        let r = rm_refusals(paths.drop_last(), index, head, disk);
        let i = paths.len() - 1;
        let p = paths[i];
        if staged_change(index, head, p) {
            (r.0.push(p), r.1)
        } else if (disk[i] matches Some(d) && (entry_of(index, p) matches Some(ie) && ie.0 != d)) {
            (r.0, r.1.push(p))
        } else {
            r
        }
    }
}

pub open spec fn opt_hash(h: Option<[u8; 20]>) -> Option<Seq<u8>> {
    match h {
        None => None,
        Some(x) => Some(x@),
    }
}

/// Splits the paths `rm` would remove into those with staged changes and
/// those with local modifications (given each file's hash on disk, read only
/// when neither `--cached` applies nor the path has staged changes).
pub fn rm_check(paths: &Vec<String>, index: &Vec<TreeItem>, head: Option<&Vec<TreeItem>>, disk: &Vec<Option<[u8; 20]>>) -> (r: (
    Vec<String>,
    Vec<String>,
))
    requires
        disk@.len() == paths@.len(),
    ensures
        (string_views(r.0@), string_views(r.1@)) == rm_refusals(
            string_views(paths@),
            index@,
            match head {
                None => None,
                Some(h) => Some(h@),
            },
            disk@.map_values(|h: Option<[u8; 20]>| opt_hash(h)),
        ),
{
    let ghost pv = string_views(paths@);
    let ghost hv = match head {
        None => None::<Seq<TreeItem>>,
        Some(h) => Some(h@),
    };
    let ghost dv = disk@.map_values(|h: Option<[u8; 20]>| opt_hash(h));
    let mut staged: Vec<String> = Vec::new();
    let mut modified: Vec<String> = Vec::new();
    let mut i: usize = 0;
    while i < paths.len()
        invariant
            pv == string_views(paths@),
            dv == disk@.map_values(|h: Option<[u8; 20]>| opt_hash(h)),
            hv == match head {
                None => None::<Seq<TreeItem>>,
                Some(h) => Some(h@),
            },
            disk@.len() == paths@.len(),
            i <= pv.len(),
            (string_views(staged@), string_views(modified@)) == rm_refusals(pv.take(i as int), index@, hv, dv),
        decreases pv.len() - i,
    {
        proof {
            let t = pv.take(i + 1);
            assert(t.drop_last() =~= pv.take(i as int));
            assert(t.last() == paths@[i as int]@);
            assert(dv[i as int] == opt_hash(disk@[i as int]));
        }
        let p = paths[i].as_str();
        let ie = lookup_entry(index, p);
        let is_staged = match &ie {
            None => false,
            Some(e) => match head {
                None => true,
                Some(h) => match lookup_entry(h, p) {
                    None => true,
                    Some(he) => !same_hash(&e.0, &he.0),
                },
            },
        };
        if is_staged {
            let ghost before = string_views(staged@);
            staged.push(paths[i].clone());
            assert(string_views(staged@) =~= before.push(paths@[i as int]@));
        } else {
            let modded = match (&disk[i], &ie) {
                (Some(d), Some(e)) => !same_hash(&e.0, d),
                _ => false,
            };
            if modded {
                let ghost before = string_views(modified@);
                modified.push(paths[i].clone());
                assert(string_views(modified@) =~= before.push(paths@[i as int]@));
            }
        }
        i += 1;
    }
    proof {
        assert(pv.take(pv.len() as int) =~= pv);
    }
    (staged, modified)
}


proof fn lemma_rm_matches_has(index: Seq<Seq<char>>, rel: Seq<char>, recursive: bool, x: Seq<char>)
    ensures
        rm_matches(index, rel, recursive).contains(x) <==> (index.contains(x) && rm_selects(x, rel, recursive)),
    decreases index.len(),
{
    if index.len() > 0 {
        let i0 = index.drop_last();
        let r = rm_matches(i0, rel, recursive);
        lemma_rm_matches_has(i0, rel, recursive, x);
        assert(index[index.len() - 1] == index.last());
        if index.contains(x) && x != index.last() {
            let k = choose|k: int| 0 <= k < index.len() && index[k] == x;
            assert(i0[k] == x);
        }
        if i0.contains(x) {
            let k = choose|k: int| 0 <= k < i0.len() && i0[k] == x;
            assert(index[k] == x);
        }
        if rm_selects(index.last(), rel, recursive) {
            assert(r.push(index.last())[r.len() as int] == index.last());
            if r.push(index.last()).contains(x) && x != index.last() {
                let k = choose|k: int| 0 <= k < r.push(index.last()).len() && r.push(index.last())[k] == x;
                assert(r[k] == x);
            }
            if r.contains(x) {
                let k = choose|k: int| 0 <= k < r.len() && r[k] == x;
                assert(r.push(index.last())[k] == x);
            }
        }
    }
}

proof fn lemma_rm_matches_empty(index: Seq<Seq<char>>, rel: Seq<char>, recursive: bool)
    ensures
        rm_matches(index, rel, recursive).len() == 0 <==> forall|x: Seq<char>|
            #[trigger] index.contains(x) ==> !rm_selects(x, rel, recursive),
{
    let m = rm_matches(index, rel, recursive);
    if m.len() > 0 {
        lemma_rm_matches_has(index, rel, recursive, m[0]);
        assert(m.contains(m[0]));
    }
    if exists|x: Seq<char>| #[trigger] index.contains(x) && rm_selects(x, rel, recursive) {
        let x = choose|x: Seq<char>| #[trigger] index.contains(x) && rm_selects(x, rel, recursive);
        lemma_rm_matches_has(index, rel, recursive, x);
    }
}

proof fn lemma_append_new_has(acc: Seq<Seq<char>>, xs: Seq<Seq<char>>)
    ensures
        forall|x: Seq<char>| #[trigger] append_new(acc, xs).contains(x) <==> (acc.contains(x) || xs.contains(x)),
        acc.no_duplicates() ==> append_new(acc, xs).no_duplicates(),
    decreases xs.len(),
{
    if xs.len() > 0 {
        let x0 = xs.drop_last();
        lemma_append_new_has(acc, x0);
        let a = append_new(acc, x0);
        assert(xs[xs.len() - 1] == xs.last());
        assert forall|x: Seq<char>| #[trigger] append_new(acc, xs).contains(x) <==> (acc.contains(x) || xs.contains(x)) by {
            if xs.contains(x) && x != xs.last() {
                let k = choose|k: int| 0 <= k < xs.len() && xs[k] == x;
                assert(x0[k] == x);
            }
            if x0.contains(x) {
                let k = choose|k: int| 0 <= k < x0.len() && x0[k] == x;
                assert(xs[k] == x);
            }
            if !a.contains(xs.last()) {
                assert(a.push(xs.last())[a.len() as int] == xs.last());
                if a.push(xs.last()).contains(x) && x != xs.last() {
                    let k = choose|k: int| 0 <= k < a.push(xs.last()).len() && a.push(xs.last())[k] == x;
                    assert(a[k] == x);
                }
                if a.contains(x) {
                    let k = choose|k: int| 0 <= k < a.len() && a[k] == x;
                    assert(a.push(xs.last())[k] == x);
                }
            }
        }
        if acc.no_duplicates() && !a.contains(xs.last()) {
            let b = a.push(xs.last());
            assert forall|i: int, j: int| 0 <= i < b.len() && 0 <= j < b.len() && i != j implies b[i] != b[j] by {
                if i < a.len() && j < a.len() {
                    assert(b[i] == a[i] && b[j] == a[j]);
                } else if i < a.len() {
                    assert(b[i] == a[i]);
                    assert(a.contains(a[i]));
                } else {
                    assert(b[j] == a[j]);
                    assert(a.contains(a[j]));
                }
            }
        }
    }
}

/// `rm` goes on exactly when every argument selects some staged path; it
/// then removes each staged path that some argument selects, each once, and
/// nothing else. When it refuses, the argument it names selects nothing
/// staged, and it is reported as a directory needing `-r` exactly when,
/// without `-r`, some staged path lies below it.
pub proof fn rm_removes_what_is_selected(index: Seq<Seq<char>>, rels: Seq<Seq<char>>, recursive: bool)
    ensures
        rm_plan(index, rels, recursive) is Ok <==> forall|k: int|
            0 <= k < rels.len() ==> exists|x: Seq<char>| #[trigger] index.contains(x) && rm_selects(x, #[trigger] rels[k], recursive),
        rm_plan(index, rels, recursive) matches Ok(ps) ==> ps.no_duplicates() && forall|x: Seq<char>|
            #[trigger] ps.contains(x) <==> (index.contains(x) && exists|k: int|
                0 <= k < rels.len() && rm_selects(x, #[trigger] rels[k], recursive)),
        rm_plan(index, rels, recursive) matches Err((nr, rel)) ==> rels.contains(rel) && (forall|x: Seq<char>|
            #[trigger] index.contains(x) ==> !rm_selects(x, rel, recursive)) && (nr <==> (!recursive && exists|x: Seq<char>|
            #[trigger] index.contains(x) && rm_selects(x, rel, true))),
    decreases rels.len(),
{
    if rels.len() > 0 {
        let r0 = rels.drop_last();
        let rel = rels.last();
        let n = rels.len() - 1;
        assert(rels[n] == rel);
        rm_removes_what_is_selected(index, r0, recursive);
        lemma_rm_matches_empty(index, rel, recursive);
        lemma_rm_matches_empty(index, rel, true);
        let m = rm_matches(index, rel, recursive);
        match rm_plan(index, r0, recursive) {
            Err((nr, rl)) => {
                let k = choose|k: int| 0 <= k < r0.len() && r0[k] == rl;
                assert(rels[k] == rl);
                assert(!(forall|k: int|
                    0 <= k < r0.len() ==> exists|x: Seq<char>| #[trigger] index.contains(x) && rm_selects(x, #[trigger] r0[k], recursive)));
                let j = choose|j: int| 0 <= j < r0.len() && !(exists|x: Seq<char>| #[trigger] index.contains(x) && rm_selects(x, #[trigger] r0[j], recursive));
                assert(rels[j] == r0[j]);
            },
            Ok(acc) => {
                assert forall|k: int| 0 <= k < r0.len() implies exists|x: Seq<char>| #[trigger] index.contains(x) && rm_selects(x, #[trigger] r0[k], recursive) by {
                    assert(r0[k] == rels[k]);
                }
                if m.len() == 0 {
                    assert(rels.contains(rel));
                } else {
                    lemma_append_new_has(acc, m);
                    assert forall|k: int| 0 <= k < rels.len() implies exists|x: Seq<char>| #[trigger] index.contains(x) && rm_selects(x, #[trigger] rels[k], recursive) by {
                        if k < n {
                            assert(r0[k] == rels[k]);
                        }
                    }
                    assert forall|x: Seq<char>| #[trigger] append_new(acc, m).contains(x) <==> (index.contains(x) && exists|k: int|
                        0 <= k < rels.len() && rm_selects(x, #[trigger] rels[k], recursive)) by {
                        lemma_rm_matches_has(index, rel, recursive, x);
                        if acc.contains(x) {
                            let k = choose|k: int| 0 <= k < r0.len() && rm_selects(x, #[trigger] r0[k], recursive);
                            assert(rels[k] == r0[k]);
                        }
                        if index.contains(x) && exists|k: int| 0 <= k < rels.len() && rm_selects(x, #[trigger] rels[k], recursive) {
                            let k = choose|k: int| 0 <= k < rels.len() && rm_selects(x, #[trigger] rels[k], recursive);
                            if k < n {
                                assert(r0[k] == rels[k]);
                            }
                        }
                    }
                }
            },
        }
    }
}

} // verus!
