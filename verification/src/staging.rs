//! Staging files: how a file relates to what the index holds, putting its
//! new entry in place, and the line `add` prints at the end.
use vstd::prelude::*;
use crate::index::IndexEntry;
use crate::text::{push_decimal, push_str, string_of, str_eq};

verus! {

/// How a file stands against the index.
#[derive(Debug, Clone, Copy, PartialEq, Eq)]
pub enum AddKind {
    /// The index has no entry for its path.
    New,
    /// The index has an entry with another hash.
    Modified,
    /// The index already has this content.
    Unchanged,
}

/// The hash of the first entry for `path`, if any.
pub open spec fn staged_hash(es: Seq<IndexEntry>, path: Seq<char>) -> Option<Seq<u8>>
    decreases es.len(),
{
    if es.len() == 0 {
        None
    } else if es[0].path@ == path {
        Some(es[0].hash@)
    } else {
        staged_hash(es.drop_first(), path)
    }
}

/// Classifies a file with content hash `hash` at `path` against the index.
pub fn add_kind(entries: &Vec<IndexEntry>, path: &str, hash: &[u8; 20]) -> (r: AddKind)
    ensures
        r == match staged_hash(entries@, path@) {
            None => AddKind::New,
            Some(h) => if h == hash@ {
                AddKind::Unchanged
            } else {
                AddKind::Modified
            },
        },
{
    let mut i: usize = 0;
    assert(entries@.skip(0) =~= entries@);
    while i < entries.len()
        invariant
            i <= entries@.len(),
            staged_hash(entries@, path@) == staged_hash(entries@.skip(i as int), path@),
        decreases entries@.len() - i,
    {
        let ghost rest = entries@.skip(i as int);
        assert(rest[0] == entries@[i as int]);
        if str_eq(entries[i].path.as_str(), path) {
            if crate::merge::same_hash(&entries[i].hash, hash) {
                return AddKind::Unchanged;
            } else {
                return AddKind::Modified;
            }
        }
        assert(rest.drop_first() =~= entries@.skip(i + 1));
        i += 1;
    }
    AddKind::New
}

/// The entries other than those of `path`, in order.
pub open spec fn without_path(es: Seq<IndexEntry>, path: Seq<char>) -> Seq<IndexEntry>
    decreases es.len(),
{
    if es.len() == 0 {
        seq![]
    } else {
        let r = without_path(es.drop_last(), path);
        if es.last().path@ == path {
            r
        } else {
            r.push(es.last())
        }
    }
}

proof fn lemma_without_path_has(es: Seq<IndexEntry>, path: Seq<char>, x: IndexEntry)
    ensures
        without_path(es, path).contains(x) <==> (es.contains(x) && x.path@ != path),
    decreases es.len(),
{
    if es.len() > 0 {
        let e0 = es.drop_last();
        let r = without_path(e0, path);
        lemma_without_path_has(e0, path, x);
        assert(es[es.len() - 1] == es.last());
        if es.contains(x) && x != es.last() {
            let k = choose|k: int| 0 <= k < es.len() && es[k] == x;
            assert(e0[k] == x);
        }
        if e0.contains(x) {
            let k = choose|k: int| 0 <= k < e0.len() && e0[k] == x;
            assert(es[k] == x);
        }
        if es.last().path@ != path {
            assert(r.push(es.last())[r.len() as int] == es.last());
            if r.push(es.last()).contains(x) && x != es.last() {
                let k = choose|k: int| 0 <= k < r.push(es.last()).len() && r.push(es.last())[k] == x;
                assert(r[k] == x);
            }
            if r.contains(x) {
                let k = choose|k: int| 0 <= k < r.len() && r[k] == x;
                assert(r.push(es.last())[k] == x);
            }
        }
    }
}

proof fn lemma_staged_hash_none(es: Seq<IndexEntry>, path: Seq<char>, e: IndexEntry)
    requires
        forall|k: int| 0 <= k < es.len() ==> (#[trigger] es[k]).path@ != path,
        e.path@ == path,
    ensures
        staged_hash(es.push(e), path) == Some(e.hash@),
    decreases es.len(),
{
    if es.len() > 0 {
        let t = es.drop_first();
        assert forall|k: int| 0 <= k < t.len() implies (#[trigger] t[k]).path@ != path by {
            assert(t[k] == es[k + 1]);
        }
        lemma_staged_hash_none(t, path, e);
        assert(es.push(e).drop_first() =~= t.push(e));
        assert(es.push(e)[0] == es[0]);
    } else {
        assert(es.push(e)[0] == e);
    }
}

/// Replaces whatever the index holds for the entry's path with the entry,
/// which goes last: afterwards the path is staged with the entry's hash, and
/// every other entry is kept.
pub fn stage_entry(entries: Vec<IndexEntry>, e: IndexEntry) -> (r: Vec<IndexEntry>)
    ensures
        r@ == without_path(entries@, e.path@).push(e),
        staged_hash(r@, e.path@) == Some(e.hash@),
        forall|x: IndexEntry| #[trigger] r@.contains(x) <==> (x == e || (entries@.contains(x) && x.path@ != e.path@)),
{
    let ghost es = entries@;
    let mut out = remove_path(entries, e.path.as_str());
    proof {
        let w = without_path(es, e.path@);
        assert forall|k: int| 0 <= k < w.len() implies (#[trigger] w[k]).path@ != e.path@ by {
            lemma_without_path_has(es, e.path@, w[k]);
            assert(w.contains(w[k]));
        }
        lemma_staged_hash_none(w, e.path@, e);
        assert forall|x: IndexEntry| #[trigger] w.push(e).contains(x) <==> (x == e || (es.contains(x) && x.path@
            != e.path@)) by {
            lemma_without_path_has(es, e.path@, x);
            assert(w.push(e)[w.len() as int] == e);
            if w.push(e).contains(x) && x != e {
                let k = choose|k: int| 0 <= k < w.push(e).len() && w.push(e)[k] == x;
                assert(w[k] == x);
            }
            if w.contains(x) {
                let k = choose|k: int| 0 <= k < w.len() && w[k] == x;
                assert(w.push(e)[k] == x);
            }
        }
    }
    out.push(e);
    out
}

/// What `add` prints when it staged something: the counts that are not zero,
/// as `N new`, `N modified`, `N unchanged`, joined by `, `.
pub open spec fn add_summary_text(added: nat, modified: nat, unchanged: nat) -> Seq<char> {
    let parts = (if added > 0 {
        seq![crate::text::decimal(added) + " new"@]
    } else {
        seq![]
    }) + (if modified > 0 {
        seq![crate::text::decimal(modified) + " modified"@]
    } else {
        seq![]
    }) + (if unchanged > 0 {
        seq![crate::text::decimal(unchanged) + " unchanged"@]
    } else {
        seq![]
    });
    if added == 0 && modified == 0 {
        "nothing to add: "@ + crate::text::decimal(unchanged)
            + " file(s) already up to date, no modifications found"@
    } else {
        "Staged files to index ("@ + join_sep(parts, ", "@) + ")."@
    }
}

/// The parts joined with `sep` between them.
pub open spec fn join_sep(parts: Seq<Seq<char>>, sep: Seq<char>) -> Seq<char>
    decreases parts.len(),
{
    if parts.len() == 0 {
        seq![]
    } else if parts.len() == 1 {
        parts[0]
    } else {
        join_sep(parts.drop_last(), sep) + sep + parts.last()
    }
}

fn count_part(n: usize, word: &str) -> (r: String)
    ensures
        r@ == crate::text::decimal(n as nat) + word@,
{
    let mut v: Vec<char> = Vec::new();
    push_decimal(&mut v, n);
    push_str(&mut v, word);
    string_of(&v)
}

/// The line `add` prints after looking at every file.
pub fn add_summary(added: usize, modified: usize, unchanged: usize) -> (r: String)
    ensures
        r@ == add_summary_text(added as nat, modified as nat, unchanged as nat),
{
    if added == 0 && modified == 0 {
        let mut v: Vec<char> = Vec::new();
        push_str(&mut v, "nothing to add: ");
        push_decimal(&mut v, unchanged);
        push_str(&mut v, " file(s) already up to date, no modifications found");
        return string_of(&v);
    }
    let mut parts: Vec<String> = Vec::new();
    if added > 0 {
        parts.push(count_part(added, " new"));
    }
    if modified > 0 {
        parts.push(count_part(modified, " modified"));
    }
    if unchanged > 0 {
        parts.push(count_part(unchanged, " unchanged"));
    }
    let ghost pv = crate::text::string_views(parts@);
    assert(pv =~= (if added > 0 {
        seq![crate::text::decimal(added as nat) + " new"@]
    } else {
        seq![]
    }) + (if modified > 0 {
        seq![crate::text::decimal(modified as nat) + " modified"@]
    } else {
        seq![]
    }) + (if unchanged > 0 {
        seq![crate::text::decimal(unchanged as nat) + " unchanged"@]
    } else {
        seq![]
    }));
    let mut v: Vec<char> = Vec::new();
    push_str(&mut v, "Staged files to index (");
    let ghost base = v@;
    let mut i: usize = 0;
    while i < parts.len()
        invariant
            pv == crate::text::string_views(parts@),
            i <= parts@.len(),
            v@ == base + join_sep(pv.take(i as int), ", "@),
        decreases parts@.len() - i,
    {
        if i > 0 {
            push_str(&mut v, ", ");
        }
        push_str(&mut v, parts[i].as_str());
        proof {
            let t = pv.take(i + 1);
            assert(t.drop_last() =~= pv.take(i as int));
            assert(t.last() == pv[i as int]);
            if i == 0 {
                assert(join_sep(pv.take(0), ", "@) =~= seq![]);
                assert(t.len() == 1);
            }
            assert(v@ =~= base + join_sep(t, ", "@));
        }
        i += 1;
    }
    push_str(&mut v, ").");
    assert(pv.take(i as int) =~= pv);
    string_of(&v)
}

/// Position of the first entry of `path`, or -1.
pub open spec fn entry_pos(es: Seq<IndexEntry>, path: Seq<char>) -> int
    decreases es.len(),
{
    if es.len() == 0 {
        -1
    } else if es[0].path@ == path {
        0
    } else {
        let r = entry_pos(es.drop_first(), path);
        if r < 0 {
            -1
        } else {
            r + 1
        }
    }
}

proof fn lemma_entry_pos_at(es: Seq<IndexEntry>, path: Seq<char>, i: int)
    requires
        0 <= i <= es.len(),
        forall|k: int| 0 <= k < i ==> (#[trigger] es[k]).path@ != path,
        i == es.len() || es[i].path@ == path,
    ensures
        entry_pos(es, path) == (if i == es.len() { -1 } else { i }),
    decreases es.len(),
{
    if es.len() > 0 && i > 0 {
        assert forall|k: int| 0 <= k < i - 1 implies (#[trigger] es.drop_first()[k]).path@ != path by {
            assert(es.drop_first()[k] == es[k + 1]);
        }
        lemma_entry_pos_at(es.drop_first(), path, i - 1);
    }
}

/// Finds the first entry of `path`.
pub fn find_entry(es: &Vec<IndexEntry>, path: &str) -> (r: Option<usize>)
    ensures
        match r {
            Some(k) => entry_pos(es@, path@) == k as int,
            None => entry_pos(es@, path@) == -1,
        },
{
    let mut i: usize = 0;
    while i < es.len()
        invariant
            i <= es@.len(),
            forall|k: int| 0 <= k < i ==> (#[trigger] es@[k]).path@ != path@,
        decreases es@.len() - i,
    {
        if str_eq(es[i].path.as_str(), path) {
            proof {
                lemma_entry_pos_at(es@, path@, i as int);
            }
            return Some(i);
        }
        i += 1;
    }
    proof {
        lemma_entry_pos_at(es@, path@, i as int);
    }
    None
}

/// What `restore --staged` does to the index for one path.
#[derive(Debug, Clone, Copy, PartialEq, Eq)]
pub enum StagedRestore {
    /// Give the entry at this position the source's hash and mode.
    Update(usize, [u8; 20], u32),
    /// Add a new entry with the source's hash and mode.
    Add([u8; 20], u32),
    /// Drop every entry of the path: the source does not have it.
    Remove,
}

/// Decides what `restore --staged` does for `path`, given the tree it
/// restores from (the `--source` tree, else HEAD's; `None` when HEAD has no
/// commits): take the tree's entry, or drop the path from the index when the
/// tree lacks it; a path that neither has is refused.
pub fn restore_staged_plan(index: &Vec<IndexEntry>, path: &str, source: Option<&Vec<crate::merge::TreeItem>>) -> (r:
    Result<StagedRestore, crate::merge::RestoreError>)
    ensures
        ({
            let found = match source {
                Some(s) => crate::merge::entry_of(s@, path@),
                None => None,
            };
            match found {
                Some(e) => if entry_pos(index@, path@) >= 0 {
                    r matches Ok(StagedRestore::Update(k, h, m)) && k == entry_pos(index@, path@) && h@ == e.0
                        && m == e.1
                } else {
                    r matches Ok(StagedRestore::Add(h, m)) && h@ == e.0 && m == e.1
                },
                None => if entry_pos(index@, path@) >= 0 {
                    r == Ok::<StagedRestore, crate::merge::RestoreError>(StagedRestore::Remove)
                } else {
                    r matches Err(crate::merge::RestoreError::NoMatch(p)) && p@ == path@
                },
            }
        }),
{
    let found = match source {
        Some(s) => crate::merge::lookup_entry(s, path),
        None => None,
    };
    let pos = find_entry(index, path);
    match found {
        Some(e) => match pos {
            Some(k) => Ok(StagedRestore::Update(k, e.0, e.1)),
            None => Ok(StagedRestore::Add(e.0, e.1)),
        },
        None => match pos {
            Some(_) => Ok(StagedRestore::Remove),
            None => Err(crate::merge::RestoreError::NoMatch(path.to_string())),
        },
    }
}

/// Carries out a `restore --staged` decision for `path`; `size` is the
/// length of the blob, used for a new entry.
pub fn apply_staged_restore(index: Vec<IndexEntry>, path: &str, plan: StagedRestore, size: u32) -> (r: Vec<IndexEntry>)
    requires
        plan matches StagedRestore::Update(k, _, _) ==> k < index@.len(),
    ensures
        match plan {
            StagedRestore::Update(k, h, m) => r@ == index@.update(
                k as int,
                IndexEntry { hash: h, mode: m, ..index@[k as int] },
            ),
            StagedRestore::Add(h, m) => r@ == index@.push(
                IndexEntry {
                    ctime_secs: 0,
                    ctime_nsecs: 0,
                    mtime_secs: 0,
                    mtime_nsecs: 0,
                    dev: 0,
                    ino: 0,
                    mode: m,
                    uid: 0,
                    gid: 0,
                    size: size,
                    hash: h,
                    path: r@.last().path,
                },
            ) && r@.last().path@ == path@,
            StagedRestore::Remove => r@ == without_path(index@, path@),
        },
{
    match plan {
        StagedRestore::Update(k, h, m) => {
            let mut index = index;
            let old = &index[k];
            let e = IndexEntry {
                ctime_secs: old.ctime_secs,
                ctime_nsecs: old.ctime_nsecs,
                mtime_secs: old.mtime_secs,
                mtime_nsecs: old.mtime_nsecs,
                dev: old.dev,
                ino: old.ino,
                mode: m,
                uid: old.uid,
                gid: old.gid,
                size: old.size,
                hash: h,
                path: old.path.clone(),
            };
            index.set(k, e);
            index
        },
        StagedRestore::Add(h, m) => {
            let mut index = index;
            index.push(
                IndexEntry {
                    ctime_secs: 0,
                    ctime_nsecs: 0,
                    mtime_secs: 0,
                    mtime_nsecs: 0,
                    dev: 0,
                    ino: 0,
                    mode: m,
                    uid: 0,
                    gid: 0,
                    size,
                    hash: h,
                    path: path.to_string(),
                },
            );
            index
        },
        StagedRestore::Remove => remove_path(index, path),
    }
}

/// The entries other than those of `path`.
pub fn remove_path(entries: Vec<IndexEntry>, path: &str) -> (r: Vec<IndexEntry>)
    ensures
        r@ == without_path(entries@, path@),
        forall|x: IndexEntry| #[trigger] r@.contains(x) <==> (entries@.contains(x) && x.path@ != path@),
{
    let mut out: Vec<IndexEntry> = Vec::new();
    let ghost all = entries@;
    let mut i: usize = 0;
    assert(all.take(0) =~= seq![]);
    while i < entries.len()
        invariant
            entries@ == all,
            i <= all.len(),
            out@ == without_path(all.take(i as int), path@),
        decreases all.len() - i,
    {
        proof {
            let t = all.take(i + 1);
            assert(t.drop_last() =~= all.take(i as int));
            assert(t.last() == all[i as int]);
        }
        if !str_eq(entries[i].path.as_str(), path) {
            let x = IndexEntry {
                ctime_secs: entries[i].ctime_secs,
                ctime_nsecs: entries[i].ctime_nsecs,
                mtime_secs: entries[i].mtime_secs,
                mtime_nsecs: entries[i].mtime_nsecs,
                dev: entries[i].dev,
                ino: entries[i].ino,
                mode: entries[i].mode,
                uid: entries[i].uid,
                gid: entries[i].gid,
                size: entries[i].size,
                hash: entries[i].hash,
                path: entries[i].path.clone(),
            };
            out.push(x);
        }
        i += 1;
    }
    assert(all.take(i as int) =~= all);
    proof {
        assert forall|x: IndexEntry| #[trigger] out@.contains(x) <==> (all.contains(x) && x.path@ != path@) by {
            lemma_without_path_has(all, path@, x);
        }
    }
    out
}

/// Why `mv` refused.
#[derive(Debug, Clone, PartialEq, Eq)]
pub enum MvError {
    /// The source is not staged.
    NotTracked(String),
    /// The source is staged but missing from the working tree.
    MissingSource(String),
    /// Source and destination are the same path.
    SameFile(String),
    /// The destination is staged or exists, and `-f` was not given.
    DestinationExists(String),
}

/// Whether `mv` may move `src` to `dest` (both as the index writes paths),
/// given whether the source and the destination exist on disk; on success
/// gives the staged hash and mode of the source (its first entry).
pub fn mv_check(index: &Vec<IndexEntry>, src: &str, dest: &str, src_on_disk: bool, dest_on_disk: bool, force: bool) -> (r:
    Result<([u8; 20], u32), MvError>)
    ensures
        entry_pos(index@, src@) < 0 ==> (r matches Err(MvError::NotTracked(x)) && x@ == src@),
        entry_pos(index@, src@) >= 0 && !src_on_disk ==> (r matches Err(MvError::MissingSource(x)) && x@ == src@),
        entry_pos(index@, src@) >= 0 && src_on_disk && src@ == dest@ ==> (r matches Err(MvError::SameFile(x))
            && x@ == src@),
        entry_pos(index@, src@) >= 0 && src_on_disk && src@ != dest@ && (entry_pos(index@, dest@) >= 0
            || dest_on_disk) && !force ==> (r matches Err(MvError::DestinationExists(x)) && x@ == dest@),
        entry_pos(index@, src@) >= 0 && src_on_disk && src@ != dest@ && (!(entry_pos(index@, dest@) >= 0
            || dest_on_disk) || force) ==> (r matches Ok(e) && e.0 == index@[entry_pos(index@, src@)].hash
            && e.1 == index@[entry_pos(index@, src@)].mode),
{
    let pos = match find_entry(index, src) {
        None => {
            return Err(MvError::NotTracked(src.to_string()));
        },
        Some(k) => k,
    };
    proof {
        lemma_entry_pos_bounds(index@, src@);
    }
    if !src_on_disk {
        return Err(MvError::MissingSource(src.to_string()));
    }
    if str_eq(src, dest) {
        return Err(MvError::SameFile(src.to_string()));
    }
    let dest_staged = find_entry(index, dest).is_some();
    if (dest_staged || dest_on_disk) && !force {
        return Err(MvError::DestinationExists(dest.to_string()));
    }
    Ok((index[pos].hash, index[pos].mode))
}

proof fn lemma_entry_pos_bounds(es: Seq<IndexEntry>, path: Seq<char>)
    ensures
        entry_pos(es, path) < es.len(),
        entry_pos(es, path) >= 0 ==> es[entry_pos(es, path)].path@ == path,
    decreases es.len(),
{
    if es.len() > 0 && es[0].path@ != path {
        lemma_entry_pos_bounds(es.drop_first(), path);
        let r = entry_pos(es.drop_first(), path);
        if r >= 0 {
            assert(es[r + 1] == es.drop_first()[r]);
        }
    }
}

} // verus!
