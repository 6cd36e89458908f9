//! Moving the working tree between commits: the safety check that refuses
//! to clobber local work, and which files to delete, write and re-stage.
use vstd::prelude::*;
use crate::merge::{entry_of, item_paths, lookup_entry, same_hash, tree_wf, TreeItem};
use crate::paths::{chars_lt, strictly_sorted, union_sorted};
use crate::status::{changed_in, missing_from, paths_changed_in, paths_missing_from};
use crate::text::string_views;

verus! {

proof fn lemma_missing_in(src: Seq<TreeItem>, other: Seq<TreeItem>)
    requires
        tree_wf(src),
    ensures
        strictly_sorted(missing_from(src, other)),
        forall|x: Seq<char>| #[trigger] missing_from(src, other).contains(x) ==> item_paths(src).contains(x),
    decreases src.len(),
{
    if src.len() > 0 {
        let s0 = src.drop_last();
        assert(item_paths(s0) =~= item_paths(src).drop_last());
        assert forall|i: int, j: int| 0 <= i < j < item_paths(s0).len() implies chars_lt(
            #[trigger] item_paths(s0)[i],
            #[trigger] item_paths(s0)[j],
        ) by {
            assert(item_paths(src)[i] == item_paths(s0)[i]);
            assert(item_paths(src)[j] == item_paths(s0)[j]);
        }
        lemma_missing_in(s0, other);
        let r = missing_from(s0, other);
        let last = src.last().path@;
        assert forall|x: Seq<char>| r.contains(x) implies chars_lt(x, last) by {
            let k = choose|k: int| 0 <= k < item_paths(s0).len() && item_paths(s0)[k] == x;
            assert(item_paths(src)[k] == x);
            assert(item_paths(src)[src.len() - 1] == last);
        }
        assert forall|x: Seq<char>| missing_from(src, other).contains(x) implies item_paths(src).contains(x) by {
            if r.contains(x) {
                let k = choose|k: int| 0 <= k < item_paths(s0).len() && item_paths(s0)[k] == x;
                assert(item_paths(src)[k] == x);
            } else {
                assert(item_paths(src)[src.len() - 1] == x);
            }
        }
        if entry_of(other, last) is None {
            let nr = r.push(last);
            assert forall|i: int, j: int| 0 <= i < j < nr.len() implies chars_lt(#[trigger] nr[i], #[trigger] nr[j]) by {
                if j == nr.len() - 1 {
                    assert(r.contains(nr[i]));
                }
            }
        }
    }
}

proof fn lemma_changed_in(src: Seq<TreeItem>, other: Seq<TreeItem>)
    requires
        tree_wf(src),
    ensures
        strictly_sorted(changed_in(src, other)),
        forall|x: Seq<char>| #[trigger] changed_in(src, other).contains(x) ==> item_paths(src).contains(x),
    decreases src.len(),
{
    if src.len() > 0 {
        let s0 = src.drop_last();
        assert(item_paths(s0) =~= item_paths(src).drop_last());
        assert forall|i: int, j: int| 0 <= i < j < item_paths(s0).len() implies chars_lt(
            #[trigger] item_paths(s0)[i],
            #[trigger] item_paths(s0)[j],
        ) by {
            assert(item_paths(src)[i] == item_paths(s0)[i]);
            assert(item_paths(src)[j] == item_paths(s0)[j]);
        }
        lemma_changed_in(s0, other);
        let r = changed_in(s0, other);
        let last = src.last().path@;
        assert forall|x: Seq<char>| r.contains(x) implies chars_lt(x, last) by {
            let k = choose|k: int| 0 <= k < item_paths(s0).len() && item_paths(s0)[k] == x;
            assert(item_paths(src)[k] == x);
            assert(item_paths(src)[src.len() - 1] == last);
        }
        assert forall|x: Seq<char>| changed_in(src, other).contains(x) implies item_paths(src).contains(x) by {
            if r.contains(x) {
                let k = choose|k: int| 0 <= k < item_paths(s0).len() && item_paths(s0)[k] == x;
                assert(item_paths(src)[k] == x);
            } else {
                assert(item_paths(src)[src.len() - 1] == x);
            }
        }
        let nr = changed_in(src, other);
        if nr != r {
            assert forall|i: int, j: int| 0 <= i < j < nr.len() implies chars_lt(#[trigger] nr[i], #[trigger] nr[j]) by {
                if j == nr.len() - 1 {
                    assert(r.contains(nr[i]));
                }
            }
        }
    }
}

/// The blob hash `t` records for `p`, if any.
pub open spec fn hash_at(t: Seq<TreeItem>, p: Seq<char>) -> Option<Seq<u8>> {
    match entry_of(t, p) {
        Some(e) => Some(e.0),
        None => None,
    }
}

/// `p` holds local work: the index records it differently from HEAD (or
/// only one of them records it), or the index records it and the working
/// file differs from the index (or is gone).
pub open spec fn has_local_change(head: Seq<TreeItem>, index: Seq<TreeItem>, work: Seq<TreeItem>, p: Seq<char>) -> bool {
    hash_at(index, p) != hash_at(head, p) || (hash_at(index, p) is Some && hash_at(work, p) != hash_at(index, p))
}

proof fn lemma_drop_last_wf(src: Seq<TreeItem>)
    requires
        tree_wf(src),
        src.len() > 0,
    ensures
        tree_wf(src.drop_last()),
        !item_paths(src.drop_last()).contains(src.last().path@),
{
    let s0 = src.drop_last();
    assert forall|i: int, j: int| 0 <= i < j < item_paths(s0).len() implies chars_lt(
        #[trigger] item_paths(s0)[i],
        #[trigger] item_paths(s0)[j],
    ) by {
        assert(item_paths(src)[i] == item_paths(s0)[i]);
        assert(item_paths(src)[j] == item_paths(s0)[j]);
    }
    if item_paths(s0).contains(src.last().path@) {
        let k = choose|k: int| 0 <= k < item_paths(s0).len() && item_paths(s0)[k] == src.last().path@;
        assert(item_paths(src)[k] == item_paths(s0)[k]);
        assert(item_paths(src)[src.len() - 1] == src.last().path@);
        assert(chars_lt(item_paths(src)[k], item_paths(src)[src.len() - 1]));
        crate::paths::lemma_le_refl(src.last().path@);
        crate::paths::lemma_le_antisym(src.last().path@, src.last().path@);
    }
}

pub(crate) proof fn lemma_missing_from_has(src: Seq<TreeItem>, other: Seq<TreeItem>, p: Seq<char>)
    requires
        tree_wf(src),
    ensures
        missing_from(src, other).contains(p) <==> (entry_of(src, p) is Some && entry_of(other, p) is None),
    decreases src.len(),
{
    if src.len() == 0 {
    } else {
        let s0 = src.drop_last();
        lemma_drop_last_wf(src);
        lemma_missing_from_has(s0, other, p);
        lemma_missing_in(s0, other);
        let last = src.last().path@;
        if p == last {
            crate::merge::lemma_entry_last(src);
            assert(!missing_from(s0, other).contains(p));
            if entry_of(other, last) is None {
                assert(missing_from(src, other).last() == last);
            }
        } else {
            crate::merge::lemma_entry_drop_last(src, p);
            let r = missing_from(s0, other);
            if entry_of(other, last) is None {
                assert(missing_from(src, other) == r.push(last));
                if r.push(last).contains(p) {
                    let k = choose|k: int| 0 <= k < r.push(last).len() && r.push(last)[k] == p;
                    assert(r[k] == p);
                }
                if r.contains(p) {
                    let k = choose|k: int| 0 <= k < r.len() && r[k] == p;
                    assert(r.push(last)[k] == p);
                }
            }
        }
    }
}

pub(crate) proof fn lemma_changed_in_has(src: Seq<TreeItem>, other: Seq<TreeItem>, p: Seq<char>)
    requires
        tree_wf(src),
    ensures
        changed_in(src, other).contains(p) <==> (entry_of(src, p) matches Some(e) && entry_of(other, p) matches Some(o)
            && o.0 != e.0),
    decreases src.len(),
{
    if src.len() == 0 {
    } else {
        let s0 = src.drop_last();
        lemma_drop_last_wf(src);
        lemma_changed_in_has(s0, other, p);
        lemma_changed_in(s0, other);
        let last = src.last().path@;
        let r = changed_in(s0, other);
        let pushes = entry_of(other, last) matches Some(e) && e.0 != src.last().hash@;
        if pushes {
            assert(changed_in(src, other) == r.push(last));
        } else {
            assert(changed_in(src, other) == r);
        }
        if p == last {
            crate::merge::lemma_entry_last(src);
            assert(!r.contains(p));
            if pushes {
                assert(changed_in(src, other).last() == last);
            }
        } else {
            crate::merge::lemma_entry_drop_last(src, p);
            if pushes {
                if r.push(last).contains(p) {
                    let k = choose|k: int| 0 <= k < r.push(last).len() && r.push(last)[k] == p;
                    assert(r[k] == p);
                }
                if r.contains(p) {
                    let k = choose|k: int| 0 <= k < r.len() && r[k] == p;
                    assert(r.push(last)[k] == p);
                }
            }
        }
    }
}

/// The paths with local work, as `check_switch_safety` gathers them, are
/// exactly those where the index and HEAD disagree or the working file
/// differs from a staged one.
proof fn lemma_local_change_set_has(head: Seq<TreeItem>, index: Seq<TreeItem>, work: Seq<TreeItem>, p: Seq<char>)
    requires
        tree_wf(head),
        tree_wf(index),
        tree_wf(work),
    ensures
        local_change_set(head, index, work).contains(p) <==> has_local_change(head, index, work, p),
{
    lemma_changed_in_has(work, index, p);
    lemma_missing_from_has(index, work, p);
    lemma_missing_from_has(index, head, p);
    lemma_changed_in_has(index, head, p);
    lemma_missing_from_has(head, index, p);
}

proof fn lemma_switched_paths_has(all: Seq<Seq<char>>, head: Seq<TreeItem>, target: Seq<TreeItem>, p: Seq<char>)
    ensures
        switched_paths(all, head, target).contains(p) <==> (all.contains(p) && switch_changes(head, target, p)),
    decreases all.len(),
{
    if all.len() > 0 {
        let a0 = all.drop_last();
        lemma_switched_paths_has(a0, head, target, p);
        let r = switched_paths(a0, head, target);
        if all.contains(p) && p != all.last() {
            let k = choose|k: int| 0 <= k < all.len() && all[k] == p;
            assert(a0[k] == p);
        }
        if a0.contains(p) {
            let k = choose|k: int| 0 <= k < a0.len() && a0[k] == p;
            assert(all[k] == p);
        }
        assert(all[all.len() - 1] == all.last());
        if switch_changes(head, target, all.last()) {
            if r.push(all.last()).contains(p) && p != all.last() {
                let k = choose|k: int| 0 <= k < r.push(all.last()).len() && r.push(all.last())[k] == p;
                assert(r[k] == p);
            }
            if r.contains(p) {
                let k = choose|k: int| 0 <= k < r.len() && r[k] == p;
                assert(r.push(all.last())[k] == p);
            }
            assert(r.push(all.last())[r.len() as int] == all.last());
        }
    }
}

/// A switch is refused exactly for the paths it changes that hold local
/// work: whatever order they are gathered in, a path is among those
/// reported if and only if the index records it differently from HEAD (or
/// only one of them does), or a staged file differs from (or is missing in)
/// the working tree, and HEAD and the target record it differently.
pub proof fn switch_refuses_exactly_local_changes(
    head: Seq<TreeItem>,
    index: Seq<TreeItem>,
    work: Seq<TreeItem>,
    target: Seq<TreeItem>,
    all: Seq<Seq<char>>,
    p: Seq<char>,
)
    requires
        tree_wf(head),
        tree_wf(index),
        tree_wf(work),
        all.to_set() == local_change_set(head, index, work),
    ensures
        switched_paths(all, head, target).contains(p) <==> (has_local_change(head, index, work, p) && switch_changes(
            head,
            target,
            p,
        )),
{
    lemma_switched_paths_has(all, head, target, p);
    lemma_local_change_set_has(head, index, work, p);
    assert(all.contains(p) <==> all.to_set().contains(p));
}

/// Whether a switch from `head` to `target` changes what is recorded for `p`.
pub open spec fn switch_changes(head: Seq<TreeItem>, target: Seq<TreeItem>, p: Seq<char>) -> bool {
    match (entry_of(head, p), entry_of(target, p)) {
        (Some(h), Some(t)) => h.0 != t.0,
        (None, Some(_)) => true,
        (Some(_), None) => true,
        (None, None) => false,
    }
}

/// The paths with local work: working files that differ from the index,
/// staged paths missing from the working files, and staged changes against HEAD.
pub open spec fn local_change_set(head: Seq<TreeItem>, index: Seq<TreeItem>, work: Seq<TreeItem>) -> Set<
    Seq<char>,
> {
    changed_in(work, index).to_set() + missing_from(index, work).to_set() + missing_from(index, head).to_set()
        + changed_in(index, head).to_set() + missing_from(head, index).to_set()
}

/// The first working file, in path order, that is not staged and that the
/// target records with different content, if any.
pub open spec fn first_untracked_clash(work: Seq<TreeItem>, index: Seq<TreeItem>, target: Seq<TreeItem>) -> Option<
    Seq<char>,
>
    decreases work.len(),
{
    if work.len() == 0 {
        None
    } else {
        let p = work[0].path@;
        if entry_of(index, p) is None && (entry_of(target, p) matches Some(t) && t.0 != work[0].hash@) {
            Some(p)
        } else {
            first_untracked_clash(work.drop_first(), index, target)
        }
    }
}

/// A working file that is not staged and that the target records with
/// other content.
pub open spec fn untracked_clash(work: Seq<TreeItem>, index: Seq<TreeItem>, target: Seq<TreeItem>, p: Seq<char>) -> bool {
    hash_at(work, p) is Some && hash_at(index, p) is None && hash_at(target, p) is Some && hash_at(target, p) != hash_at(
        work,
        p,
    )
}

proof fn lemma_first_clash(work: Seq<TreeItem>, index: Seq<TreeItem>, target: Seq<TreeItem>)
    requires
        tree_wf(work),
    ensures
        first_untracked_clash(work, index, target) matches Some(p) ==> untracked_clash(work, index, target, p),
        first_untracked_clash(work, index, target) is None ==> forall|p: Seq<char>|
            !#[trigger] untracked_clash(work, index, target, p),
    decreases work.len(),
{
    if work.len() > 0 {
        let w1 = work.drop_first();
        let p0 = work[0].path@;
        assert(tree_wf(w1)) by {
            assert forall|i: int, j: int| 0 <= i < j < item_paths(w1).len() implies chars_lt(
                #[trigger] item_paths(w1)[i],
                #[trigger] item_paths(w1)[j],
            ) by {
                assert(item_paths(w1)[i] == item_paths(work)[i + 1]);
                assert(item_paths(w1)[j] == item_paths(work)[j + 1]);
            }
        }
        lemma_first_clash(w1, index, target);
        assert forall|p: Seq<char>| p != p0 implies hash_at(work, p) == hash_at(w1, p) by {}
        assert(hash_at(work, p0) == Some(work[0].hash@));
        assert forall|p: Seq<char>| #[trigger] hash_at(w1, p) is Some implies p != p0 by {
            if !item_paths(w1).contains(p) {
                crate::merge::lemma_entry_none(w1, p);
            } else {
                let k = choose|k: int| 0 <= k < item_paths(w1).len() && item_paths(w1)[k] == p;
                assert(item_paths(w1)[k] == item_paths(work)[k + 1]);
                assert(item_paths(work)[0] == p0);
                assert(chars_lt(item_paths(work)[0], item_paths(work)[k + 1]));
            }
        }
        if !(entry_of(index, p0) is None && (entry_of(target, p0) matches Some(t) && t.0 != work[0].hash@)) {
            assert forall|p: Seq<char>| untracked_clash(work, index, target, p) implies #[trigger] untracked_clash(
                w1,
                index,
                target,
                p,
            ) by {
                if p == p0 {
                    assert(hash_at(target, p0) != Some(work[0].hash@));
                }
            }
            match first_untracked_clash(w1, index, target) {
                Some(p) => {
                    assert(hash_at(w1, p) is Some);
                },
                None => {
                    assert forall|p: Seq<char>| !#[trigger] untracked_clash(work, index, target, p) by {
                        if untracked_clash(work, index, target, p) {
                            assert(untracked_clash(w1, index, target, p));
                        }
                    }
                },
            }
        }
    } else {
        assert forall|p: Seq<char>| !#[trigger] untracked_clash(work, index, target, p) by {
            assert(entry_of(work, p) is None);
        }
    }
}

/// The members of `all`, in order, that a switch changes.
pub open spec fn switched_paths(all: Seq<Seq<char>>, head: Seq<TreeItem>, target: Seq<TreeItem>) -> Seq<Seq<char>>
    decreases all.len(),
{
    if all.len() == 0 {
        seq![]
    } else {
        let r = switched_paths(all.drop_last(), head, target);
        if switch_changes(head, target, all.last()) {
            r.push(all.last())
        } else {
            r
        }
    }
}

/// Why a switch was refused.
#[derive(Debug, Clone)]
pub enum SwitchError {
    /// An untracked working file would be overwritten.
    UntrackedWouldBeOverwritten(String),
    /// Local changes to these files would be overwritten.
    LocalChangesWouldBeOverwritten(Vec<String>),
}

fn first_clash(work: &Vec<TreeItem>, index: &Vec<TreeItem>, target: &Vec<TreeItem>) -> (r: Option<String>)
    ensures
        match first_untracked_clash(work@, index@, target@) {
            None => r is None,
            Some(p) => r matches Some(x) && x@ == p,
        },
{
    let mut i: usize = 0;
    assert(work@.skip(0) =~= work@);
    while i < work.len()
        invariant
            i <= work@.len(),
            first_untracked_clash(work@, index@, target@) == first_untracked_clash(work@.skip(i as int), index@, target@),
        decreases work@.len() - i,
    {
        assert(work@.skip(i as int).drop_first() =~= work@.skip(i + 1));
        assert(work@.skip(i as int)[0] == work@[i as int]);
        if lookup_entry(index, work[i].path.as_str()).is_none() {
            match lookup_entry(target, work[i].path.as_str()) {
                Some(t) => {
                    if !same_hash(&t.0, &work[i].hash) {
                        return Some(work[i].path.clone());
                    }
                },
                None => {},
            }
        }
        i += 1;
    }
    None
}

fn filter_switched(all: &Vec<String>, head: &Vec<TreeItem>, target: &Vec<TreeItem>) -> (r: Vec<String>)
    ensures
        string_views(r@) == switched_paths(string_views(all@), head@, target@),
{
    let ghost av = string_views(all@);
    let mut out: Vec<String> = Vec::new();
    let mut i: usize = 0;
    assert(av.take(0) =~= Seq::<Seq<char>>::empty());
    while i < all.len()
        invariant
            av == string_views(all@),
            i <= av.len(),
            string_views(out@) == switched_paths(av.take(i as int), head@, target@),
        decreases av.len() - i,
    {
        proof {
            let t = av.take(i + 1);
            assert(t.drop_last() =~= av.take(i as int));
            assert(t.last() == all@[i as int]@);
        }
        let h = lookup_entry(head, all[i].as_str());
        let t = lookup_entry(target, all[i].as_str());
        let changes = match (&h, &t) {
            (Some(a), Some(b)) => !same_hash(&a.0, &b.0),
            (None, Some(_)) => true,
            (Some(_), None) => true,
            (None, None) => false,
        };
        if changes {
            let ghost before = string_views(out@);
            out.push(all[i].clone());
            assert(string_views(out@) =~= before.push(all@[i as int]@));
        }
        i += 1;
    }
    assert(av.take(av.len() as int) =~= av);
    out
}

/// Refuses a switch from `head` to `target` that would overwrite an untracked
/// file, or local changes (working files against the index, the index
/// against HEAD) to a file the switch changes; those are listed in path order.
pub fn check_switch_safety(target: &Vec<TreeItem>, head: &Vec<TreeItem>, index: &Vec<TreeItem>, work: &Vec<TreeItem>) -> (r:
    Result<(), SwitchError>)
    requires
        tree_wf(head@),
        tree_wf(index@),
        tree_wf(work@),
    ensures
        match first_untracked_clash(work@, index@, target@) {
            Some(p) => r matches Err(SwitchError::UntrackedWouldBeOverwritten(x)) && x@ == p,
            None => exists|all: Seq<Seq<char>>|
                {
                    &&& strictly_sorted(all)
                    &&& all.to_set() == local_change_set(head@, index@, work@)
                    &&& if switched_paths(all, head@, target@).len() == 0 {
                        r is Ok
                    } else {
                        r matches Err(SwitchError::LocalChangesWouldBeOverwritten(v)) && string_views(v@)
                            == switched_paths(all, head@, target@)
                    }
                },
        },
        r matches Err(SwitchError::UntrackedWouldBeOverwritten(x)) ==> untracked_clash(work@, index@, target@, x@),
        (exists|p: Seq<char>| #[trigger] untracked_clash(work@, index@, target@, p)) ==> r matches Err(
            SwitchError::UntrackedWouldBeOverwritten(_),
        ),
        first_untracked_clash(work@, index@, target@) is None ==> {
            &&& (r is Ok <==> forall|p: Seq<char>|
                !(#[trigger] has_local_change(head@, index@, work@, p) && switch_changes(head@, target@, p)))
            &&& r is Err ==> (r matches Err(SwitchError::LocalChangesWouldBeOverwritten(v)) && forall|p: Seq<char>|
                #[trigger] string_views(v@).contains(p) <==> (has_local_change(head@, index@, work@, p)
                    && switch_changes(head@, target@, p)))
        },
{
    proof {
        lemma_first_clash(work@, index@, target@);
    }
    match first_clash(work, index, target) {
        Some(p) => {
            return Err(SwitchError::UntrackedWouldBeOverwritten(p));
        },
        None => {},
    }
    let a = paths_changed_in(work, index);
    let b = paths_missing_from(index, work);
    let c = paths_missing_from(index, head);
    let d = paths_changed_in(index, head);
    let e = paths_missing_from(head, index);
    proof {
        lemma_changed_in(work@, index@);
        lemma_missing_in(index@, work@);
        lemma_missing_in(index@, head@);
        lemma_changed_in(index@, head@);
        lemma_missing_in(head@, index@);
    }
    let ab = union_sorted(&a, &b);
    let abc = union_sorted(&ab, &c);
    let abcd = union_sorted(&abc, &d);
    let all = union_sorted(&abcd, &e);
    let over = filter_switched(&all, head, target);
    proof {
        let av = string_views(all@);
        assert(av.to_set() == local_change_set(head@, index@, work@));
        assert forall|p: Seq<char>| #[trigger] string_views(over@).contains(p) <==> (has_local_change(
            head@,
            index@,
            work@,
            p,
        ) && switch_changes(head@, target@, p)) by {
            switch_refuses_exactly_local_changes(head@, index@, work@, target@, av, p);
        }
        if over@.len() > 0 {
            assert(string_views(over@).contains(string_views(over@)[0]));
        } else {
            assert forall|p: Seq<char>|
                !(#[trigger] has_local_change(head@, index@, work@, p) && switch_changes(head@, target@, p)) by {
                if has_local_change(head@, index@, work@, p) && switch_changes(head@, target@, p) {
                    assert(string_views(over@).contains(p));
                }
            }
        }
    }
    if over.len() == 0 {
        Ok(())
    } else {
        Err(SwitchError::LocalChangesWouldBeOverwritten(over))
    }
}

/// The files a switch deletes: those staged or in HEAD but not in the target,
/// as a set.
pub open spec fn switch_deletions(target: Seq<TreeItem>, head: Seq<TreeItem>, index: Seq<TreeItem>) -> Set<Seq<char>> {
    missing_from(index, target).to_set() + missing_from(head, target).to_set()
}

/// The files a switch writes, in target order: those HEAD lacks or records
/// with different content.
pub open spec fn switch_writes(target: Seq<TreeItem>, head: Seq<TreeItem>) -> Seq<Seq<char>> {
    missing_from(target, head) + changed_in(target, head)
}

/// What a switch does to the working tree: the files to delete (in path
/// order) and the target files to write (in path order).
pub fn sync_working_tree(target: &Vec<TreeItem>, head: &Vec<TreeItem>, index: &Vec<TreeItem>) -> (r: (Vec<String>, Vec<String>))
    requires
        tree_wf(target@),
        tree_wf(head@),
        tree_wf(index@),
    ensures
        strictly_sorted(string_views(r.0@)),
        string_views(r.0@).to_set() == switch_deletions(target@, head@, index@),
        strictly_sorted(string_views(r.1@)),
        string_views(r.1@).to_set() == switch_writes(target@, head@).to_set(),
        forall|p: Seq<char>|
            #[trigger] string_views(r.0@).contains(p) <==> (hash_at(target@, p) is None && (hash_at(index@, p) is Some
                || hash_at(head@, p) is Some)),
        forall|p: Seq<char>|
            #[trigger] string_views(r.1@).contains(p) <==> (hash_at(target@, p) is Some && hash_at(target@, p)
                != hash_at(head@, p)),
{
    let a = paths_missing_from(index, target);
    let b = paths_missing_from(head, target);
    proof {
        lemma_missing_in(index@, target@);
        lemma_missing_in(head@, target@);
        lemma_missing_in(target@, head@);
        lemma_changed_in(target@, head@);
    }
    let del = union_sorted(&a, &b);
    let w1 = paths_missing_from(target, head);
    let w2 = paths_changed_in(target, head);
    let wr = union_sorted(&w1, &w2);
    proof {
        vstd::seq_lib::seq_to_set_distributes_over_add(missing_from(target@, head@), changed_in(target@, head@));
        assert forall|p: Seq<char>| #[trigger] string_views(del@).contains(p) <==> (hash_at(target@, p) is None && (
            hash_at(index@, p) is Some || hash_at(head@, p) is Some)) by {
            lemma_missing_from_has(index@, target@, p);
            lemma_missing_from_has(head@, target@, p);
            assert(string_views(del@).contains(p) <==> string_views(del@).to_set().contains(p));
        }
        assert forall|p: Seq<char>| #[trigger] string_views(wr@).contains(p) <==> (hash_at(target@, p) is Some
            && hash_at(target@, p) != hash_at(head@, p)) by {
            lemma_missing_from_has(target@, head@, p);
            lemma_changed_in_has(target@, head@, p);
            assert(string_views(wr@).contains(p) <==> string_views(wr@).to_set().contains(p));
            assert(switch_writes(target@, head@).contains(p) <==> switch_writes(target@, head@).to_set().contains(p));
            assert(switch_writes(target@, head@).contains(p) <==> (missing_from(target@, head@).contains(p)
                || changed_in(target@, head@).contains(p))) by {
                if switch_writes(target@, head@).contains(p) {
                    let k = choose|k: int| 0 <= k < switch_writes(target@, head@).len() && switch_writes(target@, head@)[k] == p;
                    if k < missing_from(target@, head@).len() {
                        assert(missing_from(target@, head@)[k] == p);
                    } else {
                        assert(changed_in(target@, head@)[k - missing_from(target@, head@).len()] == p);
                    }
                }
                if missing_from(target@, head@).contains(p) {
                    let k = choose|k: int| 0 <= k < missing_from(target@, head@).len() && missing_from(target@, head@)[k] == p;
                    assert(switch_writes(target@, head@)[k] == p);
                }
                if changed_in(target@, head@).contains(p) {
                    let k = choose|k: int| 0 <= k < changed_in(target@, head@).len() && changed_in(target@, head@)[k] == p;
                    assert(switch_writes(target@, head@)[k + missing_from(target@, head@).len()] == p);
                }
            }
        }
    }
    (del, wr)
}

/// Why the working tree is not clean enough to go on.
#[derive(Debug, Clone, PartialEq, Eq)]
pub enum DirtyError {
    /// The index does not match `HEAD`.
    StagedChanges,
    /// A file of `HEAD` is missing from the working tree.
    Missing(String),
    /// A file of `HEAD` differs in the working tree.
    Modified(String),
}

/// The first file of the `HEAD` map whose working copy is missing (`true`)
/// or holds other content (`false`), with its position; `work` gives, in the
/// map's order, each file's working blob hash or `None`.
pub open spec fn first_dirty(head: Seq<crate::tree::FileSlot>, work: Seq<Option<Seq<u8>>>) -> Option<(int, bool)>
    decreases head.len(),
{
    if head.len() == 0 || work.len() == 0 {
        None
    } else if work[0] is None {
        Some((0, true))
    } else if work[0].unwrap() != head[0].1 {
        Some((0, false))
    } else {
        match first_dirty(head.drop_first(), work.drop_first()) {
            None => None,
            Some((k, m)) => Some((k + 1, m)),
        }
    }
}

pub open spec fn hash_views(work: Seq<Option<[u8; 20]>>) -> Seq<Option<Seq<u8>>> {
    work.map_values(|w: Option<[u8; 20]>| match w {
        Some(h) => Some(h@),
        None => None,
    })
}

/// Refuses to go on unless the index matches `HEAD` and every file of `HEAD`
/// is present and unchanged in the working tree. `work` holds, for each
/// path of `item_map(head)` in order, the blob hash of the working file or
/// `None` when it is missing.
pub fn ensure_working_tree_clean(head: &Vec<TreeItem>, index: &Vec<TreeItem>, work: &Vec<Option<[u8; 20]>>) -> (r:
    Result<(), DirtyError>)
    requires
        work@.len() == crate::tree::item_map(head@).len(),
    ensures
        crate::tree::item_map(index@) != crate::tree::item_map(head@) ==> r == Err::<(), DirtyError>(
            DirtyError::StagedChanges,
        ),
        crate::tree::item_map(index@) == crate::tree::item_map(head@) ==> match first_dirty(
            crate::tree::item_map(head@),
            hash_views(work@),
        ) {
            None => r == Ok::<(), DirtyError>(()),
            Some((k, true)) => r matches Err(DirtyError::Missing(p)) && p@ == crate::tree::item_map(head@)[k].0,
            Some((k, false)) => r matches Err(DirtyError::Modified(p)) && p@ == crate::tree::item_map(head@)[k].0,
        },
{
    let hm = crate::tree::item_map_of(head);
    let im = crate::tree::item_map_of(index);
    if !crate::tree::same_slots(&im, &hm) {
        return Err(DirtyError::StagedChanges);
    }
    let ghost h = crate::tree::item_map(head@);
    let ghost w = hash_views(work@);
    let mut i: usize = 0;
    assert(h.skip(0) =~= h);
    assert(w.skip(0) =~= w);
    while i < hm.len()
        invariant
            crate::tree::slots(hm@) == h,
            h == crate::tree::item_map(head@),
            crate::tree::item_map(index@) == h,
            w == hash_views(work@),
            work@.len() == h.len(),
            i <= h.len(),
            first_dirty(h, w) == match first_dirty(h.skip(i as int), w.skip(i as int)) {
                None => None,
                Some((k, m)) => Some((k + i, m)),
            },
        decreases h.len() - i,
    {
        let ghost hs = h.skip(i as int);
        let ghost ws = w.skip(i as int);
        assert(hs[0] == h[i as int]);
        assert(ws[0] == w[i as int]);
        assert(crate::tree::slots(hm@)[i as int] == crate::tree::slot_of(hm@[i as int]));
        match &work[i] {
            None => {
                assert(first_dirty(hs, ws) == Some((0int, true)));
                return Err(DirtyError::Missing(hm[i].path.clone()));
            },
            Some(x) => {
                if !same_hash(x, &hm[i].hash) {
                    assert(first_dirty(hs, ws) == Some((0int, false)));
                    return Err(DirtyError::Modified(hm[i].path.clone()));
                }
            },
        }
        assert(hs.drop_first() =~= h.skip(i + 1));
        assert(ws.drop_first() =~= w.skip(i + 1));
        i += 1;
    }
    assert(h.skip(i as int).len() == 0);
    Ok(())
}

/// The index entries that survive a switch: those whose path `target`
/// records and that are not among the paths staged anew.
pub open spec fn kept_entries(es: Seq<crate::index::IndexEntry>, target: Seq<TreeItem>, fresh: Seq<Seq<char>>) -> Seq<
    crate::index::IndexEntry,
>
    decreases es.len(),
{
    if es.len() == 0 {
        seq![]
    } else {
        let r = kept_entries(es.drop_last(), target, fresh);
        let p = es.last().path@;
        if entry_of(target, p) is Some && !fresh.contains(p) {
            r.push(es.last())
        } else {
            r
        }
    }
}

proof fn lemma_kept_entries_has(es: Seq<crate::index::IndexEntry>, target: Seq<TreeItem>, fresh: Seq<Seq<char>>, x: crate::index::IndexEntry)
    ensures
        kept_entries(es, target, fresh).contains(x) <==> (es.contains(x) && entry_of(target, x.path@) is Some
            && !fresh.contains(x.path@)),
    decreases es.len(),
{
    if es.len() > 0 {
        let e0 = es.drop_last();
        lemma_kept_entries_has(e0, target, fresh, x);
        let r = kept_entries(e0, target, fresh);
        if es.contains(x) && x != es.last() {
            let k = choose|k: int| 0 <= k < es.len() && es[k] == x;
            assert(e0[k] == x);
        }
        if e0.contains(x) {
            let k = choose|k: int| 0 <= k < e0.len() && e0[k] == x;
            assert(es[k] == x);
        }
        assert(es[es.len() - 1] == es.last());
        if entry_of(target, es.last().path@) is Some && !fresh.contains(es.last().path@) {
            assert(r.push(es.last())[r.len() as int] == es.last());
            if r.push(es.last()).contains(x) && x != es.last() {
                let k = choose|k: int| 0 <= k < r.push(es.last()).len() && r.push(es.last())[k] == x;
                assert(r[k] == x);
            }
            if r.contains(x) {
                let k = choose|k: int| 0 <= k < r.len() && r[k] == x;
                assert(r.push(es.last())[k] == x);
            }
        }
    }
}

fn copy_entry(e: &crate::index::IndexEntry) -> (r: crate::index::IndexEntry)
    ensures
        r == *e,
{
    crate::index::IndexEntry {
        ctime_secs: e.ctime_secs,
        ctime_nsecs: e.ctime_nsecs,
        mtime_secs: e.mtime_secs,
        mtime_nsecs: e.mtime_nsecs,
        dev: e.dev,
        ino: e.ino,
        mode: e.mode,
        uid: e.uid,
        gid: e.gid,
        size: e.size,
        hash: e.hash,
        path: e.path.clone(),
    }
}

/// The index after a switch to `target`: the surviving entries, then the
/// entries `fresh` staged anew for the files the switch wrote.
pub fn index_after_switch(
    index: Vec<crate::index::IndexEntry>,
    target: &Vec<TreeItem>,
    fresh: Vec<crate::index::IndexEntry>,
) -> (r: Vec<crate::index::IndexEntry>)
    ensures
        r@ == kept_entries(index@, target@, fresh@.map_values(|e: crate::index::IndexEntry| e.path@)) + fresh@,
        forall|x: crate::index::IndexEntry|
            #[trigger] r@.contains(x) <==> (fresh@.contains(x) || (index@.contains(x) && entry_of(target@, x.path@) is Some
                && !fresh@.map_values(|e: crate::index::IndexEntry| e.path@).contains(x.path@))),
{
    let ghost fp = fresh@.map_values(|e: crate::index::IndexEntry| e.path@);
    let mut out: Vec<crate::index::IndexEntry> = Vec::new();
    let mut i: usize = 0;
    assert(index@.take(0) =~= seq![]);
    while i < index.len()
        invariant
            i <= index@.len(),
            fp == fresh@.map_values(|e: crate::index::IndexEntry| e.path@),
            out@ == kept_entries(index@.take(i as int), target@, fp),
        decreases index@.len() - i,
    {
        let e = &index[i];
        proof {
            let t = index@.take(i + 1);
            assert(t.drop_last() =~= index@.take(i as int));
            assert(t.last() == index@[i as int]);
        }
        let in_target = lookup_entry(target, e.path.as_str()).is_some();
        let mut staged_anew = false;
        let mut j: usize = 0;
        while j < fresh.len()
            invariant
                j <= fresh@.len(),
                fp == fresh@.map_values(|e: crate::index::IndexEntry| e.path@),
                staged_anew == (exists|k: int| 0 <= k < j && fp[k] == e.path@),
            decreases fresh@.len() - j,
        {
            assert(fp[j as int] == fresh@[j as int].path@);
            if crate::text::str_eq(fresh[j].path.as_str(), e.path.as_str()) {
                staged_anew = true;
                assert(0 <= j < j + 1 && fp[j as int] == e.path@);
            }
            j += 1;
        }
        proof {
            if fp.contains(e.path@) {
                let k = choose|k: int| 0 <= k < fp.len() && fp[k] == e.path@;
                assert(0 <= k < j && fp[k] == e.path@);
            }
            if staged_anew {
                let k = choose|k: int| 0 <= k < j && fp[k] == e.path@;
                assert(fp[k] == e.path@);
            }
        }
        if in_target && !staged_anew {
            out.push(copy_entry(e));
        }
        i += 1;
    }
    assert(index@.take(i as int) =~= index@);
    let ghost kept = out@;
    let ghost fr = fresh@;
    let mut fresh = fresh;
    out.append(&mut fresh);
    proof {
        assert forall|x: crate::index::IndexEntry| #[trigger] out@.contains(x) <==> (fr.contains(x) || (index@.contains(x)
            && entry_of(target@, x.path@) is Some && !fp.contains(x.path@))) by {
            lemma_kept_entries_has(index@, target@, fp, x);
            if out@.contains(x) {
                let k = choose|k: int| 0 <= k < out@.len() && out@[k] == x;
                if k < kept.len() {
                    assert(kept[k] == x);
                } else {
                    assert(fr[k - kept.len()] == x);
                }
            }
            if kept.contains(x) {
                let k = choose|k: int| 0 <= k < kept.len() && kept[k] == x;
                assert(out@[k] == x);
            }
            if fr.contains(x) {
                let k = choose|k: int| 0 <= k < fr.len() && fr[k] == x;
                assert(out@[k + kept.len()] == x);
            }
        }
    }
    out
}

/// Switching to the tree that `HEAD` and the index already hold deletes and
/// writes nothing.
pub proof fn switch_to_same_tree(t: Seq<TreeItem>)
    requires
        tree_wf(t),
    ensures
        switch_writes(t, t) == Seq::<Seq<char>>::empty(),
        switch_deletions(t, t, t) == Set::<Seq<char>>::empty(),
{
    crate::status::status_clean(t);
    assert(switch_writes(t, t) =~= Seq::<Seq<char>>::empty());
    assert(Seq::<Seq<char>>::empty().to_set() =~= Set::<Seq<char>>::empty());
    assert(switch_deletions(t, t, t) =~= Set::<Seq<char>>::empty());
}


/// What `checkout` does with its arguments.
#[derive(Debug, Clone, PartialEq, Eq)]
pub enum CheckoutPlan {
    /// Neither a target nor a branch to create was given.
    MissingTarget,
    /// Create `name` at `start` (at `HEAD`'s commit when `None`), then switch to it.
    CreateBranch { name: String, start: Option<String> },
    /// Switch to `target`, detached when asked or when it is not a branch.
    Switch { target: String, detach: bool },
}

/// Decides `checkout`: `-b <name>` creates and switches; otherwise the
/// target is switched to, detaching when `--detach` is given or when the
/// target is not a branch (`target_is_branch` says whether it is).
pub fn checkout_plan(target: Option<&str>, create: Option<&str>, detach: bool, target_is_branch: bool) -> (r: CheckoutPlan)
    ensures
        match (create, target) {
            (Some(n), t) => r matches CheckoutPlan::CreateBranch { name, start } && name@ == n@ && match t {
                Some(x) => start matches Some(s) && s@ == x@,
                None => start is None,
            },
            (None, Some(t)) => r matches CheckoutPlan::Switch { target: x, detach: d } && x@ == t@ && d == (detach
                || !target_is_branch),
            (None, None) => r == CheckoutPlan::MissingTarget,
        },
{
    match (create, target) {
        (Some(n), t) => {
            let start = match t {
                Some(x) => Some(x.to_string()),
                None => None,
            };
            CheckoutPlan::CreateBranch { name: n.to_string(), start }
        },
        (None, Some(t)) => CheckoutPlan::Switch { target: t.to_string(), detach: detach || !target_is_branch },
        (None, None) => CheckoutPlan::MissingTarget,
    }
}

} // verus!
