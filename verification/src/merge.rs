//! Three-way merges of flattened trees, conflict markers, and how a merge
//! of two commits proceeds.
use vstd::prelude::*;
use crate::codec::{from_utf8_lossy, lossy_decode};
use crate::paths::{strictly_sorted, union_sorted};
use crate::text::{has_suffix, push_str, str_eq, string_of, string_views};

verus! {

/// One file of a flattened tree: its path, blob hash and mode.
#[derive(Debug, Clone)]
pub struct TreeItem {
    pub path: String,
    pub hash: [u8; 20],
    pub mode: u32,
}

/// What a tree records for a path: blob hash and mode.
pub type EntryView = (Seq<u8>, u32);

pub open spec fn item_entry(it: TreeItem) -> EntryView {
    (it.hash@, it.mode)
}

pub open spec fn item_paths(items: Seq<TreeItem>) -> Seq<Seq<char>> {
    items.map_values(|it: TreeItem| it.path@)
}

/// A flattened tree: items strictly sorted by path.
pub open spec fn tree_wf(items: Seq<TreeItem>) -> bool {
    strictly_sorted(item_paths(items))
}

/// What `items` records for `p`.
pub open spec fn entry_of(items: Seq<TreeItem>, p: Seq<char>) -> Option<EntryView>
    decreases items.len(),
{
    if items.len() == 0 {
        None
    } else if items[0].path@ == p {
        Some(item_entry(items[0]))
    } else {
        entry_of(items.drop_first(), p)
    }
}

/// Whether two hashes are equal.
pub fn same_hash(a: &[u8; 20], b: &[u8; 20]) -> (r: bool)
    ensures
        r == (a@ == b@),
{
    let mut i: usize = 0;
    while i < 20
        invariant
            i <= 20,
            forall|k: int| 0 <= k < i ==> a@[k] == b@[k],
        decreases 20 - i,
    {
        if a[i] != b[i] {
            return false;
        }
        i += 1;
    }
    assert(a@ =~= b@);
    true
}

fn same_entry(a: &Option<([u8; 20], u32)>, b: &Option<([u8; 20], u32)>) -> (r: bool)
    ensures
        r == (opt_entry(*a) == opt_entry(*b)),
{
    match (a, b) {
        (None, None) => true,
        (Some(x), Some(y)) => same_hash(&x.0, &y.0) && x.1 == y.1,
        _ => false,
    }
}

pub open spec fn opt_entry(e: Option<([u8; 20], u32)>) -> Option<EntryView> {
    match e {
        None => None,
        Some(x) => Some((x.0@, x.1)),
    }
}

/// What `items` records for `path`.
pub fn lookup_entry(items: &Vec<TreeItem>, path: &str) -> (r: Option<([u8; 20], u32)>)
    ensures
        opt_entry(r) == entry_of(items@, path@),
{
    let mut i: usize = 0;
    assert(items@.skip(0) =~= items@);
    while i < items.len()
        invariant
            i <= items@.len(),
            entry_of(items@, path@) == entry_of(items@.skip(i as int), path@),
        decreases items@.len() - i,
    {
        assert(items@.skip(i as int).drop_first() =~= items@.skip(i + 1));
        assert(items@.skip(i as int)[0] == items@[i as int]);
        if str_eq(items[i].path.as_str(), path) {
            return Some((items[i].hash, items[i].mode));
        }
        i += 1;
    }
    None
}

fn paths_of(items: &Vec<TreeItem>) -> (r: Vec<String>)
    ensures
        string_views(r@) == item_paths(items@),
{
    let mut out: Vec<String> = Vec::new();
    let mut i: usize = 0;
    while i < items.len()
        invariant
            i <= items@.len(),
            string_views(out@) == item_paths(items@).take(i as int),
        decreases items@.len() - i,
    {
        let ghost before = out@;
        assert(string_views(out@).len() == out@.len());
        assert(item_paths(items@).take(i as int).len() == i);
        let c = items[i].path.clone();
        out.push(c);
        assert(out@ == before.push(c));
        assert(string_views(out@).len() == out@.len());
        assert(string_views(out@)[i as int] == c@);
        assert(string_views(out@) =~= item_paths(items@).take(i + 1));
        i += 1;
    }
    assert(item_paths(items@).take(items@.len() as int) =~= item_paths(items@));
    out
}

/// What a three-way merge does with one path, given what base, ours and
/// theirs record for it.
pub enum Pick {
    /// The merged tree records this (nothing, for `None`).
    Take(Option<EntryView>),
    /// Both sides changed it differently.
    Conflict,
}

/// Unchanged on one side: take the other side; same on both: take it;
/// changed differently: conflict.
pub open spec fn merge_pick(b: Option<EntryView>, o: Option<EntryView>, t: Option<EntryView>) -> Pick {
    if o == t {
        Pick::Take(o)
    } else if t == b {
        Pick::Take(o)
    } else if o == b {
        Pick::Take(t)
    } else {
        Pick::Conflict
    }
}

/// The merged tree's entries (path, hash, mode), for the paths in `all`, in order.
pub open spec fn merged_entries(
    all: Seq<Seq<char>>,
    base: Seq<TreeItem>,
    ours: Seq<TreeItem>,
    theirs: Seq<TreeItem>,
) -> Seq<(Seq<char>, EntryView)>
    decreases all.len(),
{
    if all.len() == 0 {
        seq![]
    } else {
        let r = merged_entries(all.drop_last(), base, ours, theirs);
        let p = all.last();
        match merge_pick(entry_of(base, p), entry_of(ours, p), entry_of(theirs, p)) {
            Pick::Take(Some(e)) => r.push((p, e)),
            _ => r,
        }
    }
}

/// The paths of `all` that conflict, in order.
pub open spec fn conflict_paths(
    all: Seq<Seq<char>>,
    base: Seq<TreeItem>,
    ours: Seq<TreeItem>,
    theirs: Seq<TreeItem>,
) -> Seq<Seq<char>>
    decreases all.len(),
{
    if all.len() == 0 {
        seq![]
    } else {
        let r = conflict_paths(all.drop_last(), base, ours, theirs);
        let p = all.last();
        match merge_pick(entry_of(base, p), entry_of(ours, p), entry_of(theirs, p)) {
            Pick::Conflict => r.push(p),
            _ => r,
        }
    }
}

/// A path both sides changed differently, with what each side and the base
/// record for it.
#[derive(Debug, Clone)]
pub struct PathConflict {
    pub path: String,
    pub base: Option<([u8; 20], u32)>,
    pub ours: Option<([u8; 20], u32)>,
    pub theirs: Option<([u8; 20], u32)>,
}

/// A conflicting path with the contents of its three versions (empty for a
/// version that does not exist).
#[derive(Debug, Clone, PartialEq, Eq)]
pub struct MergeConflict {
    pub path: String,
    pub base: Vec<u8>,
    pub ours: Vec<u8>,
    pub theirs: Vec<u8>,
}

pub open spec fn item_view(it: TreeItem) -> (Seq<char>, EntryView) {
    (it.path@, item_entry(it))
}

/// Merges three flattened trees path by path, over the sorted union of
/// their paths: returns the merged tree and the conflicting paths, both in
/// path order.
pub fn three_way_tree_merge(base: &Vec<TreeItem>, ours: &Vec<TreeItem>, theirs: &Vec<TreeItem>) -> (r: (
    Vec<TreeItem>,
    Vec<PathConflict>,
))
    requires
        tree_wf(base@),
        tree_wf(ours@),
        tree_wf(theirs@),
    ensures
        exists|all: Seq<Seq<char>>|
            {
                &&& strictly_sorted(all)
                &&& all.to_set() == item_paths(base@).to_set() + item_paths(ours@).to_set() + item_paths(
                    theirs@,
                ).to_set()
                &&& r.0@.map_values(|it: TreeItem| item_view(it)) == merged_entries(all, base@, ours@, theirs@)
                &&& r.1@.map_values(|c: PathConflict| c.path@) == conflict_paths(all, base@, ours@, theirs@)
            },
        forall|p: Seq<char>|
            #[trigger] conflict_list(r.1@).contains(p) <==> ((item_paths(base@).contains(p)
                || item_paths(ours@).contains(p) || item_paths(theirs@).contains(p)) && both_changed(
                base@,
                ours@,
                theirs@,
                p,
            )),
        forall|p: Seq<char>, e: EntryView|
            #[trigger] item_views(r.0@).contains((p, e)) <==> ((item_paths(
                base@,
            ).contains(p) || item_paths(ours@).contains(p) || item_paths(theirs@).contains(p)) && !both_changed(
                base@,
                ours@,
                theirs@,
                p,
            ) && kept_side(base@, ours@, theirs@, p) == Some(e)),
        forall|k: int|
            0 <= k < r.1@.len() ==> {
                let c = #[trigger] r.1@[k];
                &&& opt_entry(c.base) == entry_of(base@, c.path@)
                &&& opt_entry(c.ours) == entry_of(ours@, c.path@)
                &&& opt_entry(c.theirs) == entry_of(theirs@, c.path@)
            },
{
    let pb = paths_of(base);
    let po = paths_of(ours);
    let pt = paths_of(theirs);
    let u1 = union_sorted(&pb, &po);
    let all = union_sorted(&u1, &pt);
    let ghost av = string_views(all@);
    let mut merged: Vec<TreeItem> = Vec::new();
    let mut conflicts: Vec<PathConflict> = Vec::new();
    let mut i: usize = 0;
    assert(av.take(0) =~= Seq::<Seq<char>>::empty());
    while i < all.len()
        invariant
            av == string_views(all@),
            i <= av.len(),
            merged@.map_values(|it: TreeItem| item_view(it)) == merged_entries(av.take(i as int), base@, ours@, theirs@),
            conflicts@.map_values(|c: PathConflict| c.path@) == conflict_paths(av.take(i as int), base@, ours@, theirs@),
            forall|k: int|
                0 <= k < conflicts@.len() ==> {
                    let c = #[trigger] conflicts@[k];
                    &&& opt_entry(c.base) == entry_of(base@, c.path@)
                    &&& opt_entry(c.ours) == entry_of(ours@, c.path@)
                    &&& opt_entry(c.theirs) == entry_of(theirs@, c.path@)
                },
        decreases av.len() - i,
    {
        let p = all[i].as_str();
        let b = lookup_entry(base, p);
        let o = lookup_entry(ours, p);
        let t = lookup_entry(theirs, p);
        proof {
            let tk = av.take(i + 1);
            assert(tk.drop_last() =~= av.take(i as int));
            assert(tk.last() == p@);
        }
        let ghost mv = merged@.map_values(|it: TreeItem| item_view(it));
        let ghost cv = conflicts@.map_values(|c: PathConflict| c.path@);
        let take: Option<([u8; 20], u32)>;
        let mut conflict = false;
        if same_entry(&o, &t) {
            take = o;
        } else if same_entry(&t, &b) {
            take = o;
        } else if same_entry(&o, &b) {
            take = t;
        } else {
            take = None;
            conflict = true;
        }
        if conflict {
            conflicts.push(PathConflict { path: p.to_string(), base: b, ours: o, theirs: t });
            assert(conflicts@.map_values(|c: PathConflict| c.path@) =~= cv.push(p@));
        } else {
            match take {
                Some(e) => {
                    merged.push(TreeItem { path: p.to_string(), hash: e.0, mode: e.1 });
                    assert(merged@.map_values(|it: TreeItem| item_view(it)) =~= mv.push((p@, (e.0@, e.1))));
                },
                None => {},
            }
        }
        i += 1;
    }
    proof {
        assert(av.take(av.len() as int) =~= av);
        assert(item_paths(base@).to_set() + item_paths(ours@).to_set() + item_paths(theirs@).to_set()
            =~= av.to_set());
        assert(conflict_list(conflicts@) =~= conflicts@.map_values(|c: PathConflict| c.path@));
        assert(item_views(merged@) =~= merged@.map_values(|it: TreeItem| item_view(it)));
        assert forall|p: Seq<char>|
            #[trigger] conflict_list(conflicts@).contains(p) <==> ((item_paths(base@).contains(p)
                || item_paths(ours@).contains(p) || item_paths(theirs@).contains(p)) && both_changed(
                base@,
                ours@,
                theirs@,
                p,
            )) by {
            merge_by_path(av, base@, ours@, theirs@, p, (Seq::<u8>::empty(), 0u32));
            assert(av.contains(p) <==> av.to_set().contains(p));
        }
        assert forall|p: Seq<char>, e: EntryView|
            #[trigger] item_views(merged@).contains((p, e)) <==> ((item_paths(
                base@,
            ).contains(p) || item_paths(ours@).contains(p) || item_paths(theirs@).contains(p)) && !both_changed(
                base@,
                ours@,
                theirs@,
                p,
            ) && kept_side(base@, ours@, theirs@, p) == Some(e)) by {
            merge_by_path(av, base@, ours@, theirs@, p, e);
            assert(av.contains(p) <==> av.to_set().contains(p));
        }
    }
    (merged, conflicts)
}

/// `s` followed by a newline unless it is empty or already ends with one.
pub open spec fn with_final_newline(s: Seq<char>) -> Seq<char> {
    if s.len() == 0 || s.last() == '\n' {
        s
    } else {
        s.push('\n')
    }
}

/// The file written for a conflicting path: our version and theirs between
/// conflict markers, the closing marker naming the merged branch.
pub open spec fn conflict_text(ours: Seq<char>, theirs: Seq<char>, branch: Seq<char>) -> Seq<char> {
    "<<<<<<< HEAD\n"@ + with_final_newline(ours) + "=======\n"@ + with_final_newline(theirs) + ">>>>>>> "@
        + branch + seq!['\n']
}

fn push_with_newline(out: &mut Vec<char>, s: &str)
    ensures
        final(out)@ == old(out)@ + with_final_newline(s@),
{
    push_str(out, s);
    let n = s.unicode_len();
    if n > 0 && !has_suffix_newline(s) {
        out.push('\n');
    }
}

fn has_suffix_newline(s: &str) -> (r: bool)
    requires
        s@.len() > 0,
    ensures
        r == (s@.last() == '\n'),
{
    let cs = crate::text::chars_of(s);
    cs[cs.len() - 1] == '\n'
}

/// Conflict-marked content for a conflicting file (each side decoded lossily).
pub fn generate_conflict_markers(ours_content: &[u8], theirs_content: &[u8], branch_name: &str) -> (r: Vec<u8>)
    ensures
        r@ == vstd::utf8::encode_utf8(
            conflict_text(lossy_decode(ours_content@), lossy_decode(theirs_content@), branch_name@),
        ),
{
    let ours = from_utf8_lossy(ours_content);
    let theirs = from_utf8_lossy(theirs_content);
    let mut out: Vec<char> = Vec::new();
    push_str(&mut out, "<<<<<<< HEAD\n");
    push_with_newline(&mut out, ours.as_str());
    push_str(&mut out, "=======\n");
    push_with_newline(&mut out, theirs.as_str());
    push_str(&mut out, ">>>>>>> ");
    push_str(&mut out, branch_name);
    out.push('\n');
    let text = string_of(&out);
    assert(text@ =~= conflict_text(ours@, theirs@, branch_name@));
    crate::codec::utf8_bytes(text.as_str())
}

/// The bytes `<<<<<<<` that open a conflict block.
pub open spec fn marker_bytes() -> Seq<u8> {
    seq![60u8, 60u8, 60u8, 60u8, 60u8, 60u8, 60u8]
}

/// Whether `data` still holds a conflict marker: seven `<` in a row.
pub open spec fn holds_marker(data: Seq<u8>) -> bool {
    exists|i: int| 0 <= i && i + 7 <= data.len() && #[trigger] data.subrange(i, i + 7) == marker_bytes()
}

/// Whether a file still holds an unresolved conflict (`<<<<<<<` anywhere).
pub fn has_conflict_markers(data: &[u8]) -> (r: bool)
    ensures
        r == holds_marker(data@),
{
    let lit: [u8; 7] = [60u8, 60u8, 60u8, 60u8, 60u8, 60u8, 60u8];
    assert(lit@ =~= marker_bytes());
    if data.len() < 7 {
        return false;
    }
    let mut i: usize = 0;
    let end = data.len() - 6;
    while i < end
        invariant
            lit@ == marker_bytes(),
            data@.len() >= 7,
            end == data@.len() - 6,
            i <= end,
            forall|j: int| 0 <= j < i ==> #[trigger] data@.subrange(j, j + 7) != marker_bytes(),
        decreases data@.len() - i,
    {
        if crate::bytes::bytes_match_at(data, i, lit.as_slice()) {
            assert(data@.subrange(i as int, i + 7) == marker_bytes());
            return true;
        }
        i += 1;
    }
    proof {
        assert forall|j: int| 0 <= j && j + 7 <= data@.len() implies #[trigger] data@.subrange(j, j + 7) != marker_bytes() by {
            assert(j < i);
        }
    }
    false
}

proof fn lemma_lt_prefix(s: Seq<char>, k: nat)
    requires
        k <= s.len(),
        forall|i: int| 0 <= i < k ==> #[trigger] s[i] == '<',
    ensures
        vstd::utf8::encode_utf8(s).len() >= k,
        forall|i: int| 0 <= i < k ==> #[trigger] vstd::utf8::encode_utf8(s)[i] == 60u8,
    decreases k,
{
    if k > 0 {
        let rest = s.drop_first();
        assert forall|i: int| 0 <= i < k - 1 implies #[trigger] rest[i] == '<' by {
            assert(rest[i] == s[i + 1]);
        }
        lemma_lt_prefix(rest, (k - 1) as nat);
        assert(s[0] == '<');
        assert(('<' as u32) == 60u32);
        let c: u32 = 60;
        assert(((c & 0x7F) as u8) == 60u8) by (bit_vector)
            requires
                c == 60u32,
        ;
        let head = vstd::utf8::encode_scalar(s[0] as u32);
        assert(head =~= seq![60u8]);
        let e = vstd::utf8::encode_utf8(s);
        assert(e == head + vstd::utf8::encode_utf8(rest));
        assert forall|i: int| 0 <= i < k implies #[trigger] vstd::utf8::encode_utf8(s)[i] == 60u8 by {
            if i > 0 {
                assert(e[i] == vstd::utf8::encode_utf8(rest)[i - 1]);
            }
        }
    }
}

/// A file written with conflict markers still reads as unresolved: it holds
/// the opening marker `<<<<<<<`.
pub proof fn conflict_markers_detected(ours: Seq<char>, theirs: Seq<char>, branch: Seq<char>)
    ensures
        holds_marker(vstd::utf8::encode_utf8(conflict_text(ours, theirs, branch))),
{
    reveal_strlit("<<<<<<< HEAD\n");
    let t = conflict_text(ours, theirs, branch);
    assert forall|i: int| 0 <= i < 7 implies #[trigger] t[i] == '<' by {
        assert(t[i] == "<<<<<<< HEAD\n"@[i]);
    }
    lemma_lt_prefix(t, 7);
    let e = vstd::utf8::encode_utf8(t);
    let w: int = 0;
    assert(e.subrange(w, w + 7) =~= marker_bytes());
    assert(0 <= w && w + 7 <= e.len() && e.subrange(w, w + 7) == marker_bytes());
}

} // verus!

verus! {

/// How `merge` proceeds.
#[derive(Debug, Clone, Copy, PartialEq, Eq)]
pub enum MergeKind {
    /// Nothing to do: the other commit is ours or already in our history.
    AlreadyUpToDate,
    /// Our commit is in the other's history: move to it.
    FastForward,
    /// A three-way merge from the merge base.
    ThreeWay,
}

/// Chooses how to merge `theirs` into `ours`, given whether `theirs` is
/// reachable from `ours` and whether `ours` is reachable from `theirs`.
pub fn merge_kind(ours: &str, theirs: &str, theirs_in_ours: bool, ours_in_theirs: bool) -> (r: MergeKind)
    ensures
        r == (if ours@ == theirs@ || theirs_in_ours {
            MergeKind::AlreadyUpToDate
        } else if ours_in_theirs {
            MergeKind::FastForward
        } else {
            MergeKind::ThreeWay
        }),
{
    if str_eq(ours, theirs) || theirs_in_ours {
        MergeKind::AlreadyUpToDate
    } else if ours_in_theirs {
        MergeKind::FastForward
    } else {
        MergeKind::ThreeWay
    }
}

/// The message of a merge commit.
pub fn merge_message(branch: &str) -> (r: String)
    ensures
        r@ == "Merge branch '"@ + branch@ + seq!['\''],
{
    let mut out: Vec<char> = Vec::new();
    push_str(&mut out, "Merge branch '");
    push_str(&mut out, branch);
    out.push('\'');
    string_of(&out)
}

/// Why `restore` refused a path.
#[derive(Debug, Clone, PartialEq, Eq)]
pub enum RestoreError {
    /// No paths were given.
    NoPaths,
    /// The source has nothing at this path.
    NoMatch(String),
    /// Restoring from HEAD, but there are no commits yet.
    NoHeadCommit(String),
}

/// Which of working tree and index `restore` updates: the working tree when
/// asked or when neither was asked, the index when asked.
pub fn restore_targets(staged: bool, worktree: bool) -> (r: (bool, bool))
    ensures
        r == (worktree || (!staged && !worktree), staged),
{
    (worktree || (!staged && !worktree), staged)
}

/// Where `restore` takes a file's content for the working tree: the given
/// source tree, else HEAD's tree when restoring the index too, else the index.
pub fn restore_worktree_entry(
    path: &str,
    source: Option<&Vec<TreeItem>>,
    staged: bool,
    head: Option<&Vec<TreeItem>>,
    index: &Vec<TreeItem>,
) -> (r: Result<([u8; 20], u32), RestoreError>)
    ensures
        match source {
            Some(s) => match entry_of(s@, path@) {
                Some(e) => r matches Ok(x) && opt_entry(Some(x)) == Some(e),
                None => r matches Err(RestoreError::NoMatch(p)) && p@ == path@,
            },
            None => if staged {
                match head {
                    None => r matches Err(RestoreError::NoHeadCommit(p)) && p@ == path@,
                    Some(h) => match entry_of(h@, path@) {
                        Some(e) => r matches Ok(x) && opt_entry(Some(x)) == Some(e),
                        None => r matches Err(RestoreError::NoMatch(p)) && p@ == path@,
                    },
                }
            } else {
                match entry_of(index@, path@) {
                    Some(e) => r matches Ok(x) && opt_entry(Some(x)) == Some(e),
                    None => r matches Err(RestoreError::NoMatch(p)) && p@ == path@,
                }
            },
        },
{
    let found = match source {
        Some(s) => lookup_entry(s, path),
        None => if staged {
            match head {
                None => {
                    return Err(RestoreError::NoHeadCommit(path.to_string()));
                },
                Some(h) => lookup_entry(h, path),
            }
        } else {
            lookup_entry(index, path)
        },
    };
    match found {
        Some(x) => Ok(x),
        None => Err(RestoreError::NoMatch(path.to_string())),
    }
}

} // verus!

verus! {

pub(crate) proof fn lemma_entry_drop_last(t: Seq<TreeItem>, p: Seq<char>)
    requires
        t.len() > 0,
        p != t.last().path@,
    ensures
        entry_of(t, p) == entry_of(t.drop_last(), p),
    decreases t.len(),
{
    if t.len() > 1 && t[0].path@ != p {
        assert(t.drop_first().last() == t.last());
        lemma_entry_drop_last(t.drop_first(), p);
        assert(t.drop_first().drop_last() =~= t.drop_last().drop_first());
        assert(t.drop_last()[0] == t[0]);
    } else if t.len() == 1 {
        assert(t.drop_first() =~= Seq::<TreeItem>::empty());
        assert(t.drop_last() =~= Seq::<TreeItem>::empty());
    } else {
        assert(t.drop_last()[0] == t[0]);
    }
}

pub(crate) proof fn lemma_entry_none(t: Seq<TreeItem>, p: Seq<char>)
    requires
        !item_paths(t).contains(p),
    ensures
        entry_of(t, p) is None,
    decreases t.len(),
{
    if t.len() > 0 {
        assert(item_paths(t)[0] == t[0].path@);
        assert forall|k: int| 0 <= k < item_paths(t.drop_first()).len() implies item_paths(t.drop_first())[k] != p by {
            assert(item_paths(t.drop_first())[k] == item_paths(t)[k + 1]);
        }
        lemma_entry_none(t.drop_first(), p);
    }
}

pub(crate) proof fn lemma_entry_last(t: Seq<TreeItem>)
    requires
        t.len() > 0,
        tree_wf(t),
    ensures
        entry_of(t, t.last().path@) == Some(item_entry(t.last())),
{
    let p = t.last().path@;
    assert(!item_paths(t.drop_last()).contains(p)) by {
        if item_paths(t.drop_last()).contains(p) {
            let k = choose|k: int| 0 <= k < item_paths(t.drop_last()).len() && item_paths(t.drop_last())[k] == p;
            assert(item_paths(t)[k] == p);
            assert(item_paths(t)[t.len() - 1] == p);
            assert(crate::paths::chars_lt(item_paths(t)[k], item_paths(t)[t.len() - 1]));
        }
    }
    lemma_entry_none(t.drop_last(), p);
    lemma_entry_append(t.drop_last(), t.last());
    assert(t.drop_last().push(t.last()) =~= t);
}

proof fn lemma_entry_append(t: Seq<TreeItem>, it: TreeItem)
    requires
        entry_of(t, it.path@) is None,
    ensures
        entry_of(t.push(it), it.path@) == Some(item_entry(it)),
    decreases t.len(),
{
    if t.len() == 0 {
        assert(t.push(it)[0] == it);
    } else {
        assert(t.push(it).drop_first() =~= t.drop_first().push(it));
        assert(t.push(it)[0] == t[0]);
        lemma_entry_append(t.drop_first(), it);
    }
}

/// Where at every path of `all` the merge takes what `side` records there,
/// the merged tree is `side` and nothing conflicts.
proof fn lemma_merge_follows(
    all: Seq<Seq<char>>,
    base: Seq<TreeItem>,
    ours: Seq<TreeItem>,
    theirs: Seq<TreeItem>,
    side: Seq<TreeItem>,
)
    requires
        tree_wf(side),
        strictly_sorted(all),
        forall|p: Seq<char>| item_paths(side).contains(p) ==> #[trigger] all.contains(p),
        forall|p: Seq<char>|
            #[trigger] all.contains(p) ==> merge_pick(entry_of(base, p), entry_of(ours, p), entry_of(theirs, p))
                == Pick::Take(entry_of(side, p)),
    ensures
        conflict_paths(all, base, ours, theirs).len() == 0,
        merged_entries(all, base, ours, theirs) == side.map_values(|it: TreeItem| item_view(it)),
    decreases all.len(),
{
    if all.len() == 0 {
        assert(side.len() == 0) by {
            if side.len() > 0 {
                assert(item_paths(side)[0] == side[0].path@);
                assert(all.contains(side[0].path@));
            }
        }
        assert(side.map_values(|it: TreeItem| item_view(it)) =~= Seq::<(Seq<char>, EntryView)>::empty());
    } else {
        let x = all.last();
        let a0 = all.drop_last();
        assert(all[all.len() - 1] == x);
        assert(all.contains(x));
        assert forall|i: int, j: int| 0 <= i < j < a0.len() implies crate::paths::chars_lt(
            #[trigger] a0[i],
            #[trigger] a0[j],
        ) by {
            assert(a0[i] == all[i]);
            assert(a0[j] == all[j]);
        }
        assert(!a0.contains(x)) by {
            if a0.contains(x) {
                let m = choose|m: int| 0 <= m < a0.len() && a0[m] == x;
                assert(all[m] == x);
                assert(crate::paths::chars_lt(all[m], all[all.len() - 1]));
                crate::paths::lemma_le_refl(x);
                crate::paths::lemma_le_antisym(x, x);
            }
        }
        assert forall|p: Seq<char>| #[trigger] a0.contains(p) implies all.contains(p) by {
            let m = choose|m: int| 0 <= m < a0.len() && a0[m] == p;
            assert(all[m] == p);
        }
        if item_paths(side).contains(x) {
            let t0 = side.drop_last();
            let lastp = side.last().path@;
            assert(item_paths(side)[side.len() - 1] == lastp);
            assert(all.contains(lastp));
            // the largest path of `all` is the largest path of `side`
            assert(x == lastp) by {
                let k = choose|k: int| 0 <= k < item_paths(side).len() && item_paths(side)[k] == x;
                let m = choose|m: int| 0 <= m < all.len() && all[m] == lastp;
                if x != lastp {
                    assert(k < side.len() - 1);
                    assert(crate::paths::chars_lt(item_paths(side)[k], item_paths(side)[side.len() - 1]));
                    assert(m < all.len() - 1);
                    assert(crate::paths::chars_lt(all[m], all[all.len() - 1]));
                    crate::paths::lemma_le_antisym(x, lastp);
                }
            }
            assert forall|i: int, j: int| 0 <= i < j < item_paths(t0).len() implies crate::paths::chars_lt(
                #[trigger] item_paths(t0)[i],
                #[trigger] item_paths(t0)[j],
            ) by {
                assert(item_paths(t0)[i] == item_paths(side)[i]);
                assert(item_paths(t0)[j] == item_paths(side)[j]);
            }
            assert forall|p: Seq<char>| item_paths(t0).contains(p) implies #[trigger] a0.contains(p) by {
                let k = choose|k: int| 0 <= k < item_paths(t0).len() && item_paths(t0)[k] == p;
                assert(item_paths(side)[k] == p);
                assert(all.contains(p));
                let m = choose|m: int| 0 <= m < all.len() && all[m] == p;
                assert(crate::paths::chars_lt(item_paths(side)[k], item_paths(side)[side.len() - 1]));
                if m == all.len() - 1 {
                    crate::paths::lemma_le_refl(p);
                }
                assert(a0[m] == p);
            }
            assert forall|p: Seq<char>| #[trigger] a0.contains(p) implies merge_pick(
                entry_of(base, p),
                entry_of(ours, p),
                entry_of(theirs, p),
            ) == Pick::Take(entry_of(t0, p)) by {
                assert(all.contains(p));
                lemma_entry_drop_last(side, p);
            }
            lemma_merge_follows(a0, base, ours, theirs, t0);
            lemma_entry_last(side);
            assert(side.map_values(|it: TreeItem| item_view(it)) =~= t0.map_values(|it: TreeItem| item_view(it)).push(
                item_view(side.last()),
            ));
        } else {
            assert forall|p: Seq<char>| item_paths(side).contains(p) implies #[trigger] a0.contains(p) by {
                assert(all.contains(p));
                let m = choose|m: int| 0 <= m < all.len() && all[m] == p;
                assert(m != all.len() - 1);
                assert(a0[m] == p);
            }
            lemma_merge_follows(a0, base, ours, theirs, side);
            lemma_entry_none(side, x);
        }
    }
}

/// Merging when our side is unchanged from the base gives exactly their
/// tree, with no conflicts (over the sorted union of the paths involved).
pub proof fn merge_unchanged_ours(all: Seq<Seq<char>>, base: Seq<TreeItem>, theirs: Seq<TreeItem>)
    requires
        tree_wf(theirs),
        strictly_sorted(all),
        forall|p: Seq<char>| item_paths(theirs).contains(p) ==> #[trigger] all.contains(p),
    ensures
        conflict_paths(all, base, base, theirs).len() == 0,
        merged_entries(all, base, base, theirs) == theirs.map_values(|it: TreeItem| item_view(it)),
{
    lemma_merge_follows(all, base, base, theirs, theirs);
}

/// Merging when their side is unchanged from the base keeps exactly our
/// tree, with no conflicts (over the sorted union of the paths involved).
pub proof fn merge_unchanged_theirs(all: Seq<Seq<char>>, base: Seq<TreeItem>, ours: Seq<TreeItem>)
    requires
        tree_wf(ours),
        strictly_sorted(all),
        forall|p: Seq<char>| item_paths(ours).contains(p) ==> #[trigger] all.contains(p),
    ensures
        conflict_paths(all, base, ours, base).len() == 0,
        merged_entries(all, base, ours, base) == ours.map_values(|it: TreeItem| item_view(it)),
{
    lemma_merge_follows(all, base, ours, base, ours);
}

/// Merging two identical sides gives that tree, with no conflicts, whatever
/// the base (over the sorted union of the paths involved).
pub proof fn merge_same_sides(all: Seq<Seq<char>>, base: Seq<TreeItem>, ours: Seq<TreeItem>)
    requires
        tree_wf(ours),
        strictly_sorted(all),
        forall|p: Seq<char>| item_paths(ours).contains(p) ==> #[trigger] all.contains(p),
    ensures
        conflict_paths(all, base, ours, ours).len() == 0,
        merged_entries(all, base, ours, ours) == ours.map_values(|it: TreeItem| item_view(it)),
{
    lemma_merge_follows(all, base, ours, ours, ours);
}


/// The paths of the conflicts, in order.
pub open spec fn conflict_list(cs: Seq<PathConflict>) -> Seq<Seq<char>> {
    cs.map_values(|c: PathConflict| c.path@)
}

/// The merged items as (path, entry) pairs, in order.
pub open spec fn item_views(items: Seq<TreeItem>) -> Seq<(Seq<char>, EntryView)> {
    items.map_values(|it: TreeItem| item_view(it))
}

/// Both sides changed `p` from the base, and differently (a side that adds,
/// removes or edits `p` changes it).
pub open spec fn both_changed(base: Seq<TreeItem>, ours: Seq<TreeItem>, theirs: Seq<TreeItem>, p: Seq<char>) -> bool {
    entry_of(ours, p) != entry_of(theirs, p) && entry_of(theirs, p) != entry_of(base, p) && entry_of(ours, p)
        != entry_of(base, p)
}

/// What a clean merge keeps for `p`: their version when ours is unchanged
/// from the base, else ours.
pub open spec fn kept_side(base: Seq<TreeItem>, ours: Seq<TreeItem>, theirs: Seq<TreeItem>, p: Seq<char>) -> Option<
    EntryView,
> {
    if entry_of(ours, p) == entry_of(base, p) {
        entry_of(theirs, p)
    } else {
        entry_of(ours, p)
    }
}

proof fn lemma_sorted_drop_last(all: Seq<Seq<char>>)
    requires
        strictly_sorted(all),
        all.len() > 0,
    ensures
        strictly_sorted(all.drop_last()),
        !all.drop_last().contains(all.last()),
{
    let a0 = all.drop_last();
    assert forall|i: int, j: int| 0 <= i < j < a0.len() implies crate::paths::chars_lt(#[trigger] a0[i], #[trigger] a0[j]) by {
        assert(a0[i] == all[i]);
        assert(a0[j] == all[j]);
    }
    if a0.contains(all.last()) {
        let k = choose|k: int| 0 <= k < a0.len() && a0[k] == all.last();
        assert(all[k] == all.last());
        assert(all[all.len() - 1] == all.last());
        assert(crate::paths::chars_lt(all[k], all[all.len() - 1]));
        crate::paths::lemma_le_refl(all.last());
        crate::paths::lemma_le_antisym(all.last(), all.last());
    }
}

proof fn lemma_merged_paths_in(all: Seq<Seq<char>>, base: Seq<TreeItem>, ours: Seq<TreeItem>, theirs: Seq<TreeItem>, p: Seq<char>, e: EntryView)
    ensures
        merged_entries(all, base, ours, theirs).contains((p, e)) ==> all.contains(p),
        conflict_paths(all, base, ours, theirs).contains(p) ==> all.contains(p),
    decreases all.len(),
{
    if all.len() > 0 {
        let a0 = all.drop_last();
        lemma_merged_paths_in(a0, base, ours, theirs, p, e);
        let m0 = merged_entries(a0, base, ours, theirs);
        let c0 = conflict_paths(a0, base, ours, theirs);
        assert(all[all.len() - 1] == all.last());
        if m0.contains((p, e)) {
            let k = choose|k: int| 0 <= k < a0.len() && a0[k] == p;
            assert(all[k] == p);
        }
        if c0.contains(p) {
            let k = choose|k: int| 0 <= k < a0.len() && a0[k] == p;
            assert(all[k] == p);
        }
        if merged_entries(all, base, ours, theirs).contains((p, e)) && !m0.contains((p, e)) {
            let mm = merged_entries(all, base, ours, theirs);
            let k = choose|k: int| 0 <= k < mm.len() && mm[k] == (p, e);
            if k < m0.len() {
                assert(m0[k] == mm[k]);
            }
        }
        if conflict_paths(all, base, ours, theirs).contains(p) && !c0.contains(p) {
            let cc = conflict_paths(all, base, ours, theirs);
            let k = choose|k: int| 0 <= k < cc.len() && cc[k] == p;
            if k < c0.len() {
                assert(c0[k] == cc[k]);
            }
        }
    }
}

/// The three-way merge, path by path: a path of the union conflicts exactly
/// when both sides changed it from the base, differently (also when the
/// base lacks it and both sides add it with different contents); a
/// conflicting path is left out of the merged tree; every other path keeps
/// the side that changed it (their version when ours is unchanged, else
/// ours), and is absent from the merged tree when that side removed it.
pub proof fn merge_by_path(all: Seq<Seq<char>>, base: Seq<TreeItem>, ours: Seq<TreeItem>, theirs: Seq<TreeItem>, p: Seq<char>, e: EntryView)
    requires
        strictly_sorted(all),
    ensures
        conflict_paths(all, base, ours, theirs).contains(p) <==> (all.contains(p) && both_changed(base, ours, theirs, p)),
        merged_entries(all, base, ours, theirs).contains((p, e)) <==> (all.contains(p) && !both_changed(
            base,
            ours,
            theirs,
            p,
        ) && kept_side(base, ours, theirs, p) == Some(e)),
    decreases all.len(),
{
    if all.len() > 0 {
        let a0 = all.drop_last();
        let x = all.last();
        lemma_sorted_drop_last(all);
        merge_by_path(a0, base, ours, theirs, p, e);
        lemma_merged_paths_in(a0, base, ours, theirs, x, e);
        let m0 = merged_entries(a0, base, ours, theirs);
        let c0 = conflict_paths(a0, base, ours, theirs);
        assert(all[all.len() - 1] == x);
        if all.contains(p) && p != x {
            let k = choose|k: int| 0 <= k < all.len() && all[k] == p;
            assert(a0[k] == p);
        }
        if a0.contains(p) {
            let k = choose|k: int| 0 <= k < a0.len() && a0[k] == p;
            assert(all[k] == p);
        }
        let pick = merge_pick(entry_of(base, x), entry_of(ours, x), entry_of(theirs, x));
        match pick {
            Pick::Take(Some(ev)) => {
                assert(merged_entries(all, base, ours, theirs) == m0.push((x, ev)));
                assert(conflict_paths(all, base, ours, theirs) == c0);
                let mm = m0.push((x, ev));
                assert(mm[m0.len() as int] == (x, ev));
                if mm.contains((p, e)) && !m0.contains((p, e)) {
                    let k = choose|k: int| 0 <= k < mm.len() && mm[k] == (p, e);
                    if k < m0.len() {
                        assert(m0[k] == mm[k]);
                    }
                }
                if m0.contains((p, e)) {
                    let k = choose|k: int| 0 <= k < m0.len() && m0[k] == (p, e);
                    assert(mm[k] == (p, e));
                }
            },
            Pick::Take(None) => {
                assert(merged_entries(all, base, ours, theirs) == m0);
                assert(conflict_paths(all, base, ours, theirs) == c0);
            },
            Pick::Conflict => {
                assert(merged_entries(all, base, ours, theirs) == m0);
                assert(conflict_paths(all, base, ours, theirs) == c0.push(x));
                let cc = c0.push(x);
                assert(cc[c0.len() as int] == x);
                if cc.contains(p) && !c0.contains(p) {
                    let k = choose|k: int| 0 <= k < cc.len() && cc[k] == p;
                    if k < c0.len() {
                        assert(c0[k] == cc[k]);
                    }
                }
                if c0.contains(p) {
                    let k = choose|k: int| 0 <= k < c0.len() && c0[k] == p;
                    assert(cc[k] == p);
                }
            },
        }
    }
}

} // verus!
