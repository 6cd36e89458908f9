//! Tree objects built from a flat list of paths. Each directory level is one
//! tree: its files (the last one listed under a name wins) and its
//! subdirectories, ordered by name with a file before a directory of the
//! same name, each subdirectory entry naming the tree built one level down.
use vstd::prelude::*;
use crate::codec::{hex_decode, lemma_hex_roundtrip, sha1_digest};
use crate::index::IndexEntry;
use crate::merge::TreeItem;
use crate::objects::{
    dir_entry_bytes, file_entry_bytes, octal, row_bytes, row_ok, row_view, rows_bytes, tree_entries,
    tree_entry_bytes, TreeRow,
};
use crate::paths::{chars_lt, lemma_le_antisym, lemma_le_total};
use crate::store::{encode_object, object_id, store_bytes, StoredObject};
use crate::text::{find_char, first_index, has_prefix, lemma_first_index_bounds, str_eq, strip_prefix};
use crate::index::chars_le;

verus! {

/// A file of one level: its name, blob hash and mode.
pub type FileSlot = (Seq<char>, Seq<u8>, u32);

/// What paths under the directory `prefix` begin with: nothing at the root,
/// else `prefix/`.
pub open spec fn dir_lead(prefix: Seq<char>) -> Seq<char> {
    if prefix.len() == 0 {
        seq![]
    } else {
        prefix.push('/')
    }
}

/// The directory one level below `prefix` called `name`.
pub open spec fn subdir_prefix(prefix: Seq<char>, name: Seq<char>) -> Seq<char> {
    dir_lead(prefix) + name
}

/// Where `path` falls in the directory `prefix`: outside it (`None`), under
/// the subdirectory `name` (`Some((true, name))`), or as the file `name`
/// directly in it (`Some((false, name))`).
pub open spec fn placement(path: Seq<char>, prefix: Seq<char>) -> Option<(bool, Seq<char>)> {
    let lead = dir_lead(prefix);
    if !has_prefix(path, lead) {
        None
    } else {
        let rel = path.skip(lead.len() as int);
        let k = first_index(rel, '/');
        if k >= 0 {
            Some((true, rel.take(k)))
        } else {
            Some((false, rel))
        }
    }
}

/// `list`, sorted by name, with the file `f` put in its place; a file of the
/// same name is replaced.
pub open spec fn put_file(list: Seq<FileSlot>, f: FileSlot) -> Seq<FileSlot>
    decreases list.len(),
{
    if list.len() == 0 {
        seq![f]
    } else if list[0].0 == f.0 {
        seq![f] + list.drop_first()
    } else if chars_lt(f.0, list[0].0) {
        seq![f] + list
    } else {
        seq![list[0]] + put_file(list.drop_first(), f)
    }
}

/// The sorted name list `list` with `n` added, unless it is there already.
pub open spec fn put_name(list: Seq<Seq<char>>, n: Seq<char>) -> Seq<Seq<char>>
    decreases list.len(),
{
    if list.len() == 0 {
        seq![n]
    } else if list[0] == n {
        list
    } else if chars_lt(n, list[0]) {
        seq![n] + list
    } else {
        seq![list[0]] + put_name(list.drop_first(), n)
    }
}

/// The files directly in the directory `prefix`, by name.
pub open spec fn level_files(items: Seq<TreeItem>, prefix: Seq<char>) -> Seq<FileSlot>
    decreases items.len(),
{
    if items.len() == 0 {
        seq![]
    } else {
        let before = level_files(items.drop_last(), prefix);
        let it = items.last();
        match placement(it.path@, prefix) {
            Some((false, name)) => put_file(before, (name, it.hash@, it.mode)),
            _ => before,
        }
    }
}

/// The names of the subdirectories of `prefix`, sorted, each once.
pub open spec fn level_dirs(items: Seq<TreeItem>, prefix: Seq<char>) -> Seq<Seq<char>>
    decreases items.len(),
{
    if items.len() == 0 {
        seq![]
    } else {
        let before = level_dirs(items.drop_last(), prefix);
        match placement(items.last().path@, prefix) {
            Some((true, name)) => put_name(before, name),
            _ => before,
        }
    }
}

/// The stored form of a file entry.
pub open spec fn file_entry(f: FileSlot) -> Seq<u8> {
    tree_entry_bytes(octal(f.2 as nat), f.0, f.1)
}

/// The mode written for a subdirectory: `40000`.
pub open spec fn dir_mode() -> Seq<u8> {
    seq![52u8, 48u8, 48u8, 48u8, 48u8]
}

/// The bytes of two name-sorted entry lists merged by name; on equal names
/// the entry of `fs` comes first.
pub open spec fn merge_entries(fs: Seq<(Seq<char>, Seq<u8>)>, ds: Seq<(Seq<char>, Seq<u8>)>) -> Seq<u8>
    decreases fs.len() + ds.len(),
{
    if fs.len() == 0 && ds.len() == 0 {
        seq![]
    } else if ds.len() == 0 || (fs.len() > 0 && !chars_lt(ds[0].0, fs[0].0)) {
        fs[0].1 + merge_entries(fs.drop_first(), ds)
    } else {
        ds[0].1 + merge_entries(fs, ds.drop_first())
    }
}

/// The longest path, in characters, below the directory `prefix`.
pub open spec fn deepest(items: Seq<TreeItem>, prefix: Seq<char>) -> nat
    decreases items.len(),
{
    if items.len() == 0 {
        0
    } else {
        let before = deepest(items.drop_last(), prefix);
        let path = items.last().path@;
        let lead = dir_lead(prefix);
        let here: nat = if has_prefix(path, lead) { (path.len() - lead.len()) as nat } else { 0 };
        if here > before { here } else { before }
    }
}

/// The entries of the files `fs`, with their names.
pub open spec fn file_entries(fs: Seq<FileSlot>) -> Seq<(Seq<char>, Seq<u8>)> {
    fs.map_values(|f: FileSlot| (f.0, file_entry(f)))
}

/// The entry of the subdirectory `d` of `prefix`: it names the tree built
/// for `d`, looking at most `depth` levels down.
pub open spec fn dir_entry_of(items: Seq<TreeItem>, prefix: Seq<char>, d: Seq<char>, depth: nat) -> (
    Seq<char>,
    Seq<u8>,
)
    decreases depth, 1nat, 0nat,
{
    (
        d,
        tree_entry_bytes(
            dir_mode(),
            d,
            sha1_digest(store_bytes("tree"@, tree_content(items, subdir_prefix(prefix, d), depth)))@,
        ),
    )
}

/// The entries of the subdirectories `ds` of `prefix`, in order.
pub open spec fn dir_entries(items: Seq<TreeItem>, prefix: Seq<char>, ds: Seq<Seq<char>>, depth: nat) -> Seq<
    (Seq<char>, Seq<u8>),
>
    decreases depth, 2nat, ds.len(),
{
    if ds.len() == 0 {
        seq![]
    } else {
        dir_entries(items, prefix, ds.drop_last(), depth).push(dir_entry_of(items, prefix, ds.last(), depth))
    }
}

/// The content of the tree of the directory `prefix`, looking at most
/// `depth` levels down.
pub open spec fn tree_content(items: Seq<TreeItem>, prefix: Seq<char>, depth: nat) -> Seq<u8>
    decreases depth, 0nat, 0nat,
{
    if depth == 0 {
        seq![]
    } else {
        merge_entries(
            file_entries(level_files(items, prefix)),
            dir_entries(items, prefix, level_dirs(items, prefix), (depth - 1) as nat),
        )
    }
}

/// The contents of the trees written for the subdirectories `ds` of
/// `prefix`, one after the other.
pub open spec fn sub_objects(items: Seq<TreeItem>, prefix: Seq<char>, ds: Seq<Seq<char>>, depth: nat) -> Seq<
    Seq<u8>,
>
    decreases depth, 1nat, ds.len(),
{
    if ds.len() == 0 {
        seq![]
    } else {
        sub_objects(items, prefix, ds.drop_last(), depth) + tree_objects(
            items,
            subdir_prefix(prefix, ds.last()),
            depth,
        )
    }
}

/// The contents of the trees written for the directory `prefix`, in the
/// order they are written: the trees of each subdirectory, in name order,
/// then its own.
pub open spec fn tree_objects(items: Seq<TreeItem>, prefix: Seq<char>, depth: nat) -> Seq<Seq<u8>>
    decreases depth, 0nat, 0nat,
{
    if depth == 0 {
        seq![seq![]]
    } else {
        sub_objects(items, prefix, level_dirs(items, prefix), (depth - 1) as nat).push(
            tree_content(items, prefix, depth),
        )
    }
}

proof fn lemma_dir_entries_at(items: Seq<TreeItem>, prefix: Seq<char>, ds: Seq<Seq<char>>, depth: nat, k: int)
    requires
        0 <= k < ds.len(),
    ensures
        dir_entries(items, prefix, ds, depth).len() == ds.len(),
        dir_entries(items, prefix, ds, depth)[k] == dir_entry_of(items, prefix, ds[k], depth),
    decreases ds.len(),
{
    if k < ds.len() - 1 {
        lemma_dir_entries_at(items, prefix, ds.drop_last(), depth, k);
    } else if ds.len() > 1 {
        lemma_dir_entries_at(items, prefix, ds.drop_last(), depth, 0);
    }
}
/// A file of one level as the library holds it: the name in `path`.
pub open spec fn slot_of(t: TreeItem) -> FileSlot {
    (t.path@, t.hash@, t.mode)
}

pub open spec fn slots(v: Seq<TreeItem>) -> Seq<FileSlot> {
    v.map_values(|t: TreeItem| slot_of(t))
}

proof fn lemma_lt_not_ge(a: Seq<char>, b: Seq<char>)
    requires
        chars_lt(a, b),
    ensures
        !chars_lt(b, a),
        a != b,
{
    if chars_lt(b, a) {
        lemma_le_antisym(a, b);
    }
}

proof fn lemma_not_lt_ne(a: Seq<char>, b: Seq<char>)
    requires
        !chars_lt(a, b),
        a != b,
    ensures
        chars_lt(b, a),
{
    lemma_le_total(a, b);
}

/// Inserting at the first position whose name is not below the new one.
proof fn lemma_put_file_at(list: Seq<FileSlot>, f: FileSlot, i: int)
    requires
        0 <= i <= list.len(),
        forall|k: int| 0 <= k < i ==> chars_lt(#[trigger] list[k].0, f.0),
        i == list.len() || !chars_lt(list[i].0, f.0),
    ensures
        put_file(list, f) == (if i < list.len() && list[i].0 == f.0 {
            list.update(i, f)
        } else {
            list.insert(i, f)
        }),
    decreases i,
{
    if i == 0 {
        if list.len() > 0 && list[0].0 != f.0 {
            lemma_not_lt_ne(list[0].0, f.0);
        }
        if list.len() > 0 && list[0].0 == f.0 {
            assert(seq![f] + list.drop_first() =~= list.update(0, f));
        } else {
            assert(seq![f] + list =~= list.insert(0, f));
        }
    } else {
        lemma_lt_not_ge(list[0].0, f.0);
        let rest = list.drop_first();
        assert forall|k: int| 0 <= k < i - 1 implies chars_lt(#[trigger] rest[k].0, f.0) by {
            assert(rest[k] == list[k + 1]);
        }
        lemma_put_file_at(rest, f, i - 1);
        if i < list.len() && list[i].0 == f.0 {
            assert(seq![list[0]] + rest.update(i - 1, f) =~= list.update(i, f));
        } else {
            assert(seq![list[0]] + rest.insert(i - 1, f) =~= list.insert(i, f));
        }
    }
}

/// Adding a name at the first position whose name is not below it.
proof fn lemma_put_name_at(list: Seq<Seq<char>>, n: Seq<char>, i: int)
    requires
        0 <= i <= list.len(),
        forall|k: int| 0 <= k < i ==> chars_lt(#[trigger] list[k], n),
        i == list.len() || !chars_lt(list[i], n),
    ensures
        put_name(list, n) == (if i < list.len() && list[i] == n {
            list
        } else {
            list.insert(i, n)
        }),
    decreases i,
{
    if i == 0 {
        if list.len() > 0 && list[0] != n {
            lemma_not_lt_ne(list[0], n);
        }
        if !(list.len() > 0 && list[0] == n) {
            assert(seq![n] + list =~= list.insert(0, n));
        }
    } else {
        lemma_lt_not_ge(list[0], n);
        let rest = list.drop_first();
        assert forall|k: int| 0 <= k < i - 1 implies chars_lt(#[trigger] rest[k], n) by {
            assert(rest[k] == list[k + 1]);
        }
        lemma_put_name_at(rest, n, i - 1);
        if i < list.len() && list[i] == n {
            assert(seq![list[0]] + rest =~= list);
        } else {
            assert(seq![list[0]] + rest.insert(i - 1, n) =~= list.insert(i, n));
        }
    }
}

/// Puts the file `f` (its name in `path`) into the name-sorted `list`.
pub(crate) fn insert_file(list: &mut Vec<TreeItem>, f: TreeItem)
    ensures
        slots(final(list)@) == put_file(slots(old(list)@), slot_of(f)),
{
    let ghost sl = slots(list@);
    let mut i: usize = 0;
    while i < list.len() && crate::paths::str_lt(list[i].path.as_str(), f.path.as_str())
        invariant
            sl == slots(list@),
            i <= list@.len(),
            forall|k: int| 0 <= k < i ==> chars_lt(#[trigger] sl[k].0, f.path@),
        decreases list@.len() - i,
    {
        i += 1;
    }
    proof {
        lemma_put_file_at(sl, slot_of(f), i as int);
    }
    if i < list.len() && str_eq(list[i].path.as_str(), f.path.as_str()) {
        list.set(i, f);
        assert(slots(list@) =~= sl.update(i as int, slot_of(f)));
    } else {
        list.insert(i, f);
        assert(slots(list@) =~= sl.insert(i as int, slot_of(f)));
    }
}

/// Adds the name `n` to the sorted name list `list`.
fn insert_name(list: &mut Vec<String>, n: String)
    ensures
        crate::text::string_views(final(list)@) == put_name(crate::text::string_views(old(list)@), n@),
{
    let ghost sl = crate::text::string_views(list@);
    let mut i: usize = 0;
    while i < list.len() && crate::paths::str_lt(list[i].as_str(), n.as_str())
        invariant
            sl == crate::text::string_views(list@),
            i <= list@.len(),
            forall|k: int| 0 <= k < i ==> chars_lt(#[trigger] sl[k], n@),
        decreases list@.len() - i,
    {
        i += 1;
    }
    proof {
        lemma_put_name_at(sl, n@, i as int);
    }
    if i < list.len() && str_eq(list[i].as_str(), n.as_str()) {
    } else {
        list.insert(i, n);
        assert(crate::text::string_views(list@) =~= sl.insert(i as int, n@));
    }
}

/// `dir_lead(prefix)` as a string.
fn lead_of(prefix: &str) -> (r: String)
    ensures
        r@ == dir_lead(prefix@),
{
    let mut v = crate::text::chars_of(prefix);
    if v.len() > 0 {
        v.push('/');
    }
    crate::text::string_of(&v)
}

/// The path-sorted map that `items` make when each is put in turn, a later
/// item of a path replacing an earlier one.
pub open spec fn item_map(items: Seq<TreeItem>) -> Seq<FileSlot>
    decreases items.len(),
{
    if items.len() == 0 {
        seq![]
    } else {
        put_file(item_map(items.drop_last()), slot_of(items.last()))
    }
}


/// The names of a slot list.
pub open spec fn slot_names(l: Seq<FileSlot>) -> Seq<Seq<char>> {
    l.map_values(|f: FileSlot| f.0)
}

proof fn lemma_put_file_sorted(list: Seq<FileSlot>, f: FileSlot)
    requires
        crate::paths::strictly_sorted(slot_names(list)),
    ensures
        crate::paths::strictly_sorted(slot_names(put_file(list, f))),
    decreases list.len(),
{
    let out = put_file(list, f);
    let on = slot_names(out);
    let ln = slot_names(list);
    if list.len() == 0 {
    } else if list[0].0 == f.0 {
        assert forall|i: int, j: int| 0 <= i < j < on.len() implies chars_lt(#[trigger] on[i], #[trigger] on[j]) by {
            assert(on[i] == ln[i]);
            assert(on[j] == ln[j]);
        }
    } else if chars_lt(f.0, list[0].0) {
        assert forall|i: int, j: int| 0 <= i < j < on.len() implies chars_lt(#[trigger] on[i], #[trigger] on[j]) by {
            assert(on[j] == ln[j - 1]);
            if i == 0 {
                if j > 1 {
                    assert(ln[0] == list[0].0);
                    crate::paths::lemma_lt_trans(f.0, ln[0], ln[j - 1]);
                    assert(chars_le(ln[0], ln[j - 1]));
                }
            } else {
                assert(on[i] == ln[i - 1]);
            }
        }
    } else {
        let rest = list.drop_first();
        let rn = slot_names(rest);
        assert forall|i: int, j: int| 0 <= i < j < rn.len() implies chars_lt(#[trigger] rn[i], #[trigger] rn[j]) by {
            assert(rn[i] == ln[i + 1]);
            assert(rn[j] == ln[j + 1]);
        }
        lemma_put_file_sorted(rest, f);
        let t = put_file(rest, f);
        let tn = slot_names(t);
        lemma_not_lt_ne(f.0, list[0].0);
        assert forall|k: int| 0 <= k < tn.len() implies chars_lt(list[0].0, #[trigger] tn[k]) by {
            lemma_put_file_members(rest, f, k);
            if t[k] != f {
                let m = choose|m: int| 0 <= m < rest.len() && rest[m] == t[k];
                assert(rn[m] == t[k].0);
                assert(ln[m + 1] == rest[m].0);
                assert(ln[0] == list[0].0);
            }
        }
        assert forall|i: int, j: int| 0 <= i < j < on.len() implies chars_lt(#[trigger] on[i], #[trigger] on[j]) by {
            assert(on[j] == tn[j - 1]);
            if i == 0 {
                assert(on[0] == list[0].0);
            } else {
                assert(on[i] == tn[i - 1]);
            }
        }
    }
}

/// The map that items make is sorted by path with no path twice.
pub proof fn lemma_item_map_sorted(items: Seq<TreeItem>)
    ensures
        crate::paths::strictly_sorted(slot_names(item_map(items))),
    decreases items.len(),
{
    if items.len() > 0 {
        lemma_item_map_sorted(items.drop_last());
        lemma_put_file_sorted(item_map(items.drop_last()), slot_of(items.last()));
    }
}

proof fn lemma_put_file_keeps(list: Seq<FileSlot>, f: FileSlot, x: FileSlot)
    requires
        list.contains(x) && x.0 != f.0 || x == f,
    ensures
        put_file(list, f).contains(x),
    decreases list.len(),
{
    let out = put_file(list, f);
    if list.len() == 0 {
        assert(out[0] == f);
    } else if list[0].0 == f.0 {
        if x == f {
            assert(out[0] == f);
        } else {
            let k = choose|k: int| 0 <= k < list.len() && list[k] == x;
            assert(k != 0);
            assert(out[k] == list[k]);
        }
    } else if chars_lt(f.0, list[0].0) {
        if x == f {
            assert(out[0] == f);
        } else {
            let k = choose|k: int| 0 <= k < list.len() && list[k] == x;
            assert(out[k + 1] == list[k]);
        }
    } else {
        let rest = list.drop_first();
        if x == list[0] {
            assert(out[0] == x);
        } else {
            if x != f {
                let k = choose|k: int| 0 <= k < list.len() && list[k] == x;
                assert(rest[k - 1] == x);
            }
            lemma_put_file_keeps(rest, f, x);
            let t = put_file(rest, f);
            let m = choose|m: int| 0 <= m < t.len() && t[m] == x;
            assert(out[m + 1] == x);
        }
    }
}

/// Collecting items into a map keeps, for each path, its last item: later
/// items of a path replace earlier ones.
pub proof fn item_map_last_wins(items: Seq<TreeItem>, k: int)
    requires
        0 <= k < items.len(),
        forall|j: int| k < j < items.len() ==> #[trigger] items[j].path@ != items[k].path@,
    ensures
        item_map(items).contains(slot_of(items[k])),
    decreases items.len(),
{
    let n = items.len() - 1;
    if k == n {
        lemma_put_file_keeps(item_map(items.drop_last()), slot_of(items.last()), slot_of(items[k]));
    } else {
        assert forall|j: int| k < j < items.drop_last().len() implies #[trigger] items.drop_last()[j].path@
            != items.drop_last()[k].path@ by {
            assert(items.drop_last()[j] == items[j]);
        }
        assert(items.drop_last()[k] == items[k]);
        item_map_last_wins(items.drop_last(), k);
        assert(items[n].path@ != items[k].path@);
        lemma_put_file_keeps(item_map(items.drop_last()), slot_of(items.last()), slot_of(items[k]));
    }
}

/// Collects items into a path-sorted map, later items winning.
pub fn item_map_of(items: &Vec<TreeItem>) -> (r: Vec<TreeItem>)
    ensures
        slots(r@) == item_map(items@),
        crate::merge::tree_wf(r@),
{
    let mut out: Vec<TreeItem> = Vec::new();
    let mut k: usize = 0;
    assert(slots(out@) =~= seq![]);
    assert(items@.take(0) =~= seq![]);
    while k < items.len()
        invariant
            k <= items@.len(),
            slots(out@) == item_map(items@.take(k as int)),
        decreases items@.len() - k,
    {
        let it = &items[k];
        assert(items@.take(k + 1).drop_last() =~= items@.take(k as int));
        insert_file(&mut out, TreeItem { path: it.path.clone(), hash: it.hash, mode: it.mode });
        k += 1;
    }
    assert(items@.take(k as int) =~= items@);
    proof {
        lemma_item_map_sorted(items@);
        assert(crate::merge::item_paths(out@) =~= slot_names(slots(out@)));
    }
    out
}

/// Whether two item lists hold the same paths, hashes and modes in order.
pub fn same_slots(a: &Vec<TreeItem>, b: &Vec<TreeItem>) -> (r: bool)
    ensures
        r == (slots(a@) == slots(b@)),
{
    if a.len() != b.len() {
        assert(slots(a@).len() != slots(b@).len());
        return false;
    }
    let mut i: usize = 0;
    while i < a.len()
        invariant
            a@.len() == b@.len(),
            i <= a@.len(),
            forall|k: int| 0 <= k < i ==> #[trigger] slots(a@)[k] == slots(b@)[k],
        decreases a@.len() - i,
    {
        let x = &a[i];
        let y = &b[i];
        if !str_eq(x.path.as_str(), y.path.as_str()) || !crate::merge::same_hash(&x.hash, &y.hash) || x.mode != y.mode {
            assert(slots(a@)[i as int] != slots(b@)[i as int]);
            return false;
        }
        assert(slots(a@)[i as int] == slots(b@)[i as int]);
        i += 1;
    }
    assert(slots(a@) =~= slots(b@));
    true
}

/// The files and subdirectory names of the directory `prefix`.
fn collect_level(items: &Vec<TreeItem>, prefix: &str) -> (r: (Vec<TreeItem>, Vec<String>))
    ensures
        slots(r.0@) == level_files(items@, prefix@),
        crate::text::string_views(r.1@) == level_dirs(items@, prefix@),
{
    let lead = lead_of(prefix);
    let mut files: Vec<TreeItem> = Vec::new();
    let mut dirs: Vec<String> = Vec::new();
    let mut k: usize = 0;
    assert(slots(files@) =~= seq![]);
    assert(crate::text::string_views(dirs@) =~= seq![]);
    assert(items@.take(0) =~= seq![]);
    while k < items.len()
        invariant
            lead@ == dir_lead(prefix@),
            k <= items@.len(),
            slots(files@) == level_files(items@.take(k as int), prefix@),
            crate::text::string_views(dirs@) == level_dirs(items@.take(k as int), prefix@),
        decreases items@.len() - k,
    {
        let it = &items[k];
        let ghost pre = items@.take(k as int);
        let ghost now = items@.take(k + 1);
        assert(now.drop_last() =~= pre);
        assert(now.last() == items@[k as int]);
        match strip_prefix(it.path.as_str(), lead.as_str()) {
            None => {},
            Some(rel) => {
                match find_char(rel.as_str(), '/') {
                    Some(j) => {
                        proof {
                            lemma_first_index_bounds(rel@, '/');
                        }
                        let name = crate::text::substring(rel.as_str(), 0, j);
                        assert(name@ =~= rel@.take(j as int));
                        insert_name(&mut dirs, name);
                    },
                    None => {
                        let f = TreeItem { path: rel, hash: it.hash, mode: it.mode };
                        insert_file(&mut files, f);
                    },
                }
            },
        }
        k += 1;
    }
    assert(items@.take(k as int) =~= items@);
    (files, dirs)
}

/// A file of a level as the row its tree lists: mode in octal, name, hash.
pub open spec fn file_row(f: FileSlot) -> TreeRow {
    (octal(f.2 as nat), f.0, f.1)
}

/// The row of the subdirectory `d` of `prefix`: mode `40000`, its name and
/// the digest of its tree built `depth` levels deep.
pub open spec fn dir_row(items: Seq<TreeItem>, prefix: Seq<char>, d: Seq<char>, depth: nat) -> TreeRow {
    (dir_mode(), d, sha1_digest(store_bytes("tree"@, tree_content(items, subdir_prefix(prefix, d), depth)))@)
}

/// Two name-sorted row lists merged by name; on equal names the row of `fs`
/// comes first.
pub open spec fn merge_rows(fs: Seq<TreeRow>, ds: Seq<TreeRow>) -> Seq<TreeRow>
    decreases fs.len() + ds.len(),
{
    if fs.len() == 0 && ds.len() == 0 {
        seq![]
    } else if ds.len() == 0 || (fs.len() > 0 && !chars_lt(ds[0].1, fs[0].1)) {
        seq![fs[0]] + merge_rows(fs.drop_first(), ds)
    } else {
        seq![ds[0]] + merge_rows(fs, ds.drop_first())
    }
}

/// The rows that the tree of the directory `prefix` lists, in order.
pub open spec fn tree_rows(items: Seq<TreeItem>, prefix: Seq<char>, depth: nat) -> Seq<TreeRow> {
    if depth == 0 {
        seq![]
    } else {
        merge_rows(
            level_files(items, prefix).map_values(|f: FileSlot| file_row(f)),
            level_dirs(items, prefix).map_values(|d: Seq<char>| dir_row(items, prefix, d, (depth - 1) as nat)),
        )
    }
}

/// No path of `items` holds a NUL character.
pub open spec fn plain_paths(items: Seq<TreeItem>) -> bool {
    forall|k: int, i: int| 0 <= k < items.len() && 0 <= i < items[k].path@.len() ==> #[trigger] items[k].path@[i] != '\0'
}

proof fn lemma_merge_rows_bytes(
    fe: Seq<(Seq<char>, Seq<u8>)>,
    de: Seq<(Seq<char>, Seq<u8>)>,
    fr: Seq<TreeRow>,
    dr: Seq<TreeRow>,
)
    requires
        fe.len() == fr.len(),
        de.len() == dr.len(),
        forall|i: int| 0 <= i < fe.len() ==> #[trigger] fe[i] == (fr[i].1, row_bytes(fr[i])),
        forall|i: int| 0 <= i < de.len() ==> #[trigger] de[i] == (dr[i].1, row_bytes(dr[i])),
    ensures
        merge_entries(fe, de) == rows_bytes(merge_rows(fr, dr)),
    decreases fe.len() + de.len(),
{
    if fe.len() == 0 && de.len() == 0 {
    } else if de.len() == 0 || (fe.len() > 0 && !chars_lt(de[0].0, fe[0].0)) {
        assert(fe[0] == (fr[0].1, row_bytes(fr[0])));
        if de.len() > 0 {
            assert(de[0] == (dr[0].1, row_bytes(dr[0])));
        }
        assert forall|i: int| 0 <= i < fe.len() - 1 implies #[trigger] fe.drop_first()[i] == (
            fr.drop_first()[i].1,
            row_bytes(fr.drop_first()[i]),
        ) by {
            assert(fe.drop_first()[i] == fe[i + 1]);
            assert(fr.drop_first()[i] == fr[i + 1]);
        }
        lemma_merge_rows_bytes(fe.drop_first(), de, fr.drop_first(), dr);
        let m = merge_rows(fr, dr);
        assert(m == seq![fr[0]] + merge_rows(fr.drop_first(), dr));
        assert(m[0] == fr[0]);
        assert(m.drop_first() =~= merge_rows(fr.drop_first(), dr));
    } else {
        assert(de[0] == (dr[0].1, row_bytes(dr[0])));
        if fe.len() > 0 {
            assert(fe[0] == (fr[0].1, row_bytes(fr[0])));
        }
        assert forall|i: int| 0 <= i < de.len() - 1 implies #[trigger] de.drop_first()[i] == (
            dr.drop_first()[i].1,
            row_bytes(dr.drop_first()[i]),
        ) by {
            assert(de.drop_first()[i] == de[i + 1]);
            assert(dr.drop_first()[i] == dr[i + 1]);
        }
        lemma_merge_rows_bytes(fe, de.drop_first(), fr, dr.drop_first());
        let m = merge_rows(fr, dr);
        assert(m == seq![dr[0]] + merge_rows(fr, dr.drop_first()));
        assert(m[0] == dr[0]);
        assert(m.drop_first() =~= merge_rows(fr, dr.drop_first()));
    }
}

/// The content of a tree is its rows written one after another.
pub proof fn lemma_tree_content_rows(items: Seq<TreeItem>, prefix: Seq<char>, depth: nat)
    ensures
        tree_content(items, prefix, depth) == rows_bytes(tree_rows(items, prefix, depth)),
{
    if depth > 0 {
        let below = (depth - 1) as nat;
        let fs = level_files(items, prefix);
        let ds = level_dirs(items, prefix);
        let fr = fs.map_values(|f: FileSlot| file_row(f));
        let dr = ds.map_values(|d: Seq<char>| dir_row(items, prefix, d, below));
        let de = dir_entries(items, prefix, ds, below);
        if ds.len() > 0 {
            lemma_dir_entries_at(items, prefix, ds, below, 0);
        } else {
            assert(de =~= seq![]);
        }
        assert forall|i: int| 0 <= i < de.len() implies #[trigger] de[i] == (dr[i].1, row_bytes(dr[i])) by {
            lemma_dir_entries_at(items, prefix, ds, below, i);
        }
        lemma_merge_rows_bytes(file_entries(fs), de, fr, dr);
    } else {
        assert(rows_bytes(seq![]) == Seq::<u8>::empty());
    }
}

proof fn lemma_put_file_members(list: Seq<FileSlot>, f: FileSlot, k: int)
    requires
        0 <= k < put_file(list, f).len(),
    ensures
        put_file(list, f)[k] == f || list.contains(put_file(list, f)[k]),
    decreases list.len(),
{
    if list.len() > 0 {
        let x = put_file(list, f)[k];
        if list[0].0 == f.0 {
            if k > 0 {
                assert(x == list[k]);
            }
        } else if chars_lt(f.0, list[0].0) {
            if k > 0 {
                assert(x == list[k - 1]);
            }
        } else if k == 0 {
            assert(x == list[0]);
        } else {
            lemma_put_file_members(list.drop_first(), f, k - 1);
            if x != f {
                let j = choose|j: int| 0 <= j < list.drop_first().len() && list.drop_first()[j] == x;
                assert(list[j + 1] == x);
            }
        }
    }
}

/// Each file slot of a level comes from an item placed there as a file.
proof fn lemma_file_source(items: Seq<TreeItem>, prefix: Seq<char>, j: int)
    requires
        0 <= j < level_files(items, prefix).len(),
    ensures
        exists|k: int|
            0 <= k < items.len() && placement(#[trigger] items[k].path@, prefix) == Some(
                (false, level_files(items, prefix)[j].0),
            ) && level_files(items, prefix)[j].1 == items[k].hash@ && level_files(items, prefix)[j].2
                == items[k].mode,
    decreases items.len(),
{
    let before = level_files(items.drop_last(), prefix);
    let it = items.last();
    let x = level_files(items, prefix)[j];
    let n = items.len() - 1;
    let from_before = before.contains(x);
    match placement(it.path@, prefix) {
        Some((false, name)) => {
            lemma_put_file_members(before, (name, it.hash@, it.mode), j);
            if x == (name, it.hash@, it.mode) {
                assert(placement(items[n].path@, prefix) == Some((false, x.0)));
            } else {
                let i = choose|i: int| 0 <= i < before.len() && before[i] == x;
                lemma_file_source(items.drop_last(), prefix, i);
                let k = choose|k: int|
                    0 <= k < n && placement(#[trigger] items.drop_last()[k].path@, prefix) == Some((false, before[i].0))
                        && before[i].1 == items.drop_last()[k].hash@ && before[i].2 == items.drop_last()[k].mode;
                assert(items[k] == items.drop_last()[k]);
            }
        },
        _ => {
            lemma_file_source(items.drop_last(), prefix, j);
            let k = choose|k: int|
                0 <= k < n && placement(#[trigger] items.drop_last()[k].path@, prefix) == Some((false, before[j].0))
                    && before[j].1 == items.drop_last()[k].hash@ && before[j].2 == items.drop_last()[k].mode;
            assert(items[k] == items.drop_last()[k]);
        },
    }
}

/// A name placed from a plain path holds no NUL.
proof fn lemma_placed_name_plain(items: Seq<TreeItem>, prefix: Seq<char>, k: int, dir: bool, name: Seq<char>)
    requires
        plain_paths(items),
        0 <= k < items.len(),
        placement(items[k].path@, prefix) == Some((dir, name)),
    ensures
        forall|i: int| 0 <= i < name.len() ==> #[trigger] name[i] != '\0',
{
    let path = items[k].path@;
    let lead = dir_lead(prefix);
    let rel = path.skip(lead.len() as int);
    lemma_first_index_bounds(rel, '/');
    assert forall|i: int| 0 <= i < name.len() implies #[trigger] name[i] != '\0' by {
        assert(name[i] == rel[i]);
        assert(rel[i] == path[lead.len() + i]);
        assert(items[k].path@[lead.len() + i] != '\0');
    }
}

proof fn lemma_merge_rows_ok(fr: Seq<TreeRow>, dr: Seq<TreeRow>)
    requires
        forall|i: int| 0 <= i < fr.len() ==> row_ok(#[trigger] fr[i]),
        forall|i: int| 0 <= i < dr.len() ==> row_ok(#[trigger] dr[i]),
    ensures
        forall|i: int| 0 <= i < merge_rows(fr, dr).len() ==> row_ok(#[trigger] merge_rows(fr, dr)[i]),
    decreases fr.len() + dr.len(),
{
    if fr.len() == 0 && dr.len() == 0 {
    } else if dr.len() == 0 || (fr.len() > 0 && !chars_lt(dr[0].1, fr[0].1)) {
        assert forall|i: int| 0 <= i < fr.len() - 1 implies row_ok(#[trigger] fr.drop_first()[i]) by {
            assert(fr.drop_first()[i] == fr[i + 1]);
        }
        lemma_merge_rows_ok(fr.drop_first(), dr);
        let m = merge_rows(fr, dr);
        let t = merge_rows(fr.drop_first(), dr);
        assert(m == seq![fr[0]] + t);
        assert forall|i: int| 0 <= i < m.len() implies row_ok(#[trigger] m[i]) by {
            if i > 0 {
                assert(m[i] == t[i - 1]);
            }
        }
    } else {
        assert forall|i: int| 0 <= i < dr.len() - 1 implies row_ok(#[trigger] dr.drop_first()[i]) by {
            assert(dr.drop_first()[i] == dr[i + 1]);
        }
        lemma_merge_rows_ok(fr, dr.drop_first());
        let m = merge_rows(fr, dr);
        let t = merge_rows(fr, dr.drop_first());
        assert(m == seq![dr[0]] + t);
        assert forall|i: int| 0 <= i < m.len() implies row_ok(#[trigger] m[i]) by {
            if i > 0 {
                assert(m[i] == t[i - 1]);
            }
        }
    }
}

/// Reading back the tree built for a directory lists its rows in order:
/// each file with its mode, name and blob hash, each subdirectory with mode
/// `40000`, its name and the digest of its own tree, merged by name.
pub proof fn built_tree_reads_back(items: Seq<TreeItem>, prefix: Seq<char>, depth: nat)
    requires
        plain_paths(items),
    ensures
        tree_entries(tree_content(items, prefix, depth)) == Some(
            tree_rows(items, prefix, depth).map_values(|r: TreeRow| row_view(r)),
        ),
{
    lemma_tree_content_rows(items, prefix, depth);
    if depth > 0 {
        let below = (depth - 1) as nat;
        let fs = level_files(items, prefix);
        let ds = level_dirs(items, prefix);
        let fr = fs.map_values(|f: FileSlot| file_row(f));
        let dr = ds.map_values(|d: Seq<char>| dir_row(items, prefix, d, below));
        assert forall|i: int| 0 <= i < fr.len() implies row_ok(#[trigger] fr[i]) by {
            lemma_file_source(items, prefix, i);
            let k = choose|k: int|
                0 <= k < items.len() && placement(#[trigger] items[k].path@, prefix) == Some((false, fs[i].0))
                    && fs[i].1 == items[k].hash@;
            lemma_placed_name_plain(items, prefix, k, false, fs[i].0);
            crate::objects::lemma_octal_digits(fs[i].2 as nat);
            assert(fr[i] == file_row(fs[i]));
        }
        assert forall|i: int| 0 <= i < dr.len() implies row_ok(#[trigger] dr[i]) by {
            let d = ds[i];
            assert(ds.contains(d));
            lemma_dir_source(items, prefix, d);
            let k = choose|k: int| 0 <= k < items.len() && placement(#[trigger] items[k].path@, prefix) == Some((true, d));
            lemma_placed_name_plain(items, prefix, k, true, d);
            assert(dr[i] == dir_row(items, prefix, d, below));
        }
        lemma_merge_rows_ok(fr, dr);
    }
    crate::objects::tree_format_roundtrip(tree_rows(items, prefix, depth));
}

/// The paths of `items` are relative: none begins with `/`.
pub open spec fn relative_paths(items: Seq<TreeItem>) -> bool {
    forall|k: int| 0 <= k < items.len() ==> first_index(#[trigger] items[k].path@, '/') != 0
}

/// The number of levels that the trees of `items` span.
pub open spec fn tree_levels(items: Seq<TreeItem>) -> nat {
    deepest(items, seq![]) + 1
}

/// The tree built for `prefix` reads back as its rows, and so does, level
/// after level, the tree of each of its subdirectories (whose digest its
/// row names).
pub open spec fn reads_back_fully(items: Seq<TreeItem>, prefix: Seq<char>, depth: nat) -> bool
    decreases depth,
{
    &&& tree_entries(tree_content(items, prefix, depth)) == Some(
        tree_rows(items, prefix, depth).map_values(|r: TreeRow| row_view(r)),
    )
    &&& (depth > 0 ==> forall|d: Seq<char>|
        #[trigger] level_dirs(items, prefix).contains(d) ==> reads_back_fully(
            items,
            subdir_prefix(prefix, d),
            (depth - 1) as nat,
        ))
}

/// Reading back the whole tree built for a directory: its own rows, and the
/// rows of the tree of every subdirectory, all the way down.
pub proof fn built_tree_reads_back_fully(items: Seq<TreeItem>, prefix: Seq<char>, depth: nat)
    requires
        plain_paths(items),
    ensures
        reads_back_fully(items, prefix, depth),
    decreases depth,
{
    built_tree_reads_back(items, prefix, depth);
    if depth > 0 {
        assert forall|d: Seq<char>| #[trigger] level_dirs(items, prefix).contains(d) implies reads_back_fully(
            items,
            subdir_prefix(prefix, d),
            (depth - 1) as nat,
        ) by {
            built_tree_reads_back_fully(items, subdir_prefix(prefix, d), (depth - 1) as nat);
        }
    }
}

/// `objs` are, in order, the stored tree objects with the contents `contents`.
pub open spec fn stored_all(objs: Seq<StoredObject>, contents: Seq<Seq<u8>>) -> bool {
    &&& objs.len() == contents.len()
    &&& forall|i: int| 0 <= i < objs.len() ==> crate::store::stores(#[trigger] objs[i], "tree"@, contents[i])
}

proof fn lemma_put_name_contains(list: Seq<Seq<char>>, n: Seq<char>, x: Seq<char>)
    ensures
        put_name(list, n).contains(x) <==> (list.contains(x) || x == n),
    decreases list.len(),
{
    if list.len() == 0 {
        assert(seq![n][0] == n);
    } else {
        lemma_put_name_contains(list.drop_first(), n, x);
        if list[0] == n {
            assert(list[0] == n);
        } else if chars_lt(n, list[0]) {
            if list.contains(x) {
                let k = choose|k: int| 0 <= k < list.len() && list[k] == x;
                assert((seq![n] + list)[k + 1] == x);
            }
            if (seq![n] + list).contains(x) && x != n {
                let k = choose|k: int| 0 <= k < list.len() + 1 && (seq![n] + list)[k] == x;
                assert(list[k - 1] == x);
            }
        } else {
            let rest = list.drop_first();
            let out = seq![list[0]] + put_name(rest, n);
            if list.contains(x) && x != list[0] {
                let k = choose|k: int| 0 <= k < list.len() && list[k] == x;
                assert(rest[k - 1] == x);
            }
            if out.contains(x) && x != list[0] {
                let k = choose|k: int| 0 <= k < out.len() && out[k] == x;
                assert(put_name(rest, n)[k - 1] == x);
            }
            if rest.contains(x) {
                let k = choose|k: int| 0 <= k < rest.len() && rest[k] == x;
                assert(list[k + 1] == x);
            }
            if put_name(rest, n).contains(x) {
                let k = choose|k: int| 0 <= k < put_name(rest, n).len() && put_name(rest, n)[k] == x;
                assert(out[k + 1] == x);
            }
            assert(out[0] == list[0]);
            assert(list[0] == list[0]);
        }
    }
}

/// Each subdirectory name comes from an item placed under it.
proof fn lemma_dir_source(items: Seq<TreeItem>, prefix: Seq<char>, d: Seq<char>)
    requires
        level_dirs(items, prefix).contains(d),
    ensures
        exists|k: int| 0 <= k < items.len() && placement(#[trigger] items[k].path@, prefix) == Some((true, d)),
    decreases items.len(),
{
    let before = level_dirs(items.drop_last(), prefix);
    let k = items.len() - 1;
    match placement(items.last().path@, prefix) {
        Some((true, name)) => {
            lemma_put_name_contains(before, name, d);
            if d == name {
                assert(placement(items[k].path@, prefix) == Some((true, d)));
            } else {
                lemma_dir_source(items.drop_last(), prefix, d);
                let j = choose|j: int| 0 <= j < k && placement(#[trigger] items.drop_last()[j].path@, prefix) == Some((true, d));
                assert(items[j] == items.drop_last()[j]);
            }
        },
        _ => {
            lemma_dir_source(items.drop_last(), prefix, d);
            let j = choose|j: int| 0 <= j < k && placement(#[trigger] items.drop_last()[j].path@, prefix) == Some((true, d));
            assert(items[j] == items.drop_last()[j]);
        },
    }
}

/// `deepest` is at least the depth of each item below `prefix`.
proof fn lemma_deepest_ge(items: Seq<TreeItem>, prefix: Seq<char>, k: int)
    requires
        0 <= k < items.len(),
        has_prefix(items[k].path@, dir_lead(prefix)),
    ensures
        deepest(items, prefix) >= items[k].path@.len() - dir_lead(prefix).len(),
    decreases items.len(),
{
    if k < items.len() - 1 {
        assert(items.drop_last()[k] == items[k]);
        lemma_deepest_ge(items.drop_last(), prefix, k);
    }
}

/// Below a subdirectory every path is at least one character shorter.
proof fn lemma_deepest_sub(items: Seq<TreeItem>, prefix: Seq<char>, d: Seq<char>)
    requires
        subdir_prefix(prefix, d).len() > 0,
    ensures
        deepest(items, subdir_prefix(prefix, d)) == 0 || deepest(items, subdir_prefix(prefix, d)) + 1
            <= deepest(items, prefix),
    decreases items.len(),
{
    if items.len() > 0 {
        lemma_deepest_sub(items.drop_last(), prefix, d);
        let path = items.last().path@;
        let lead = dir_lead(prefix);
        let sub = subdir_prefix(prefix, d);
        let slead = dir_lead(sub);
        assert(slead == lead + d + seq!['/']);
        if has_prefix(path, slead) {
            assert(path.subrange(0, lead.len() as int) =~= slead.subrange(0, lead.len() as int));
            assert(slead.subrange(0, lead.len() as int) =~= lead);
            assert(has_prefix(path, lead));
        }
    }
}

/// A subdirectory lies strictly less deep than its parent.
proof fn lemma_sub_shallower(items: Seq<TreeItem>, prefix: Seq<char>, d: Seq<char>)
    requires
        relative_paths(items),
        level_dirs(items, prefix).contains(d),
    ensures
        deepest(items, subdir_prefix(prefix, d)) < deepest(items, prefix),
{
    lemma_dir_source(items, prefix, d);
    let k = choose|k: int| 0 <= k < items.len() && placement(#[trigger] items[k].path@, prefix) == Some((true, d));
    let path = items[k].path@;
    let lead = dir_lead(prefix);
    let rel = path.skip(lead.len() as int);
    lemma_first_index_bounds(rel, '/');
    lemma_deepest_ge(items, prefix, k);
    if prefix.len() == 0 {
        assert(rel =~= path);
        assert(d.len() > 0);
    }
    assert(subdir_prefix(prefix, d).len() > 0);
    lemma_deepest_sub(items, prefix, d);
}

/// The file `(path, hash, mode)` is listed by the tree built for `prefix`,
/// looking `depth` levels down: as a file row of that tree, or, recursively,
/// by the tree of one of its subdirectories.
pub open spec fn lists_file(items: Seq<TreeItem>, prefix: Seq<char>, depth: nat, e: (Seq<char>, Seq<u8>, u32)) -> bool
    decreases depth,
{
    depth > 0 && ((exists|j: int|
        0 <= j < level_files(items, prefix).len() && e == (
            subdir_prefix(prefix, #[trigger] level_files(items, prefix)[j].0),
            level_files(items, prefix)[j].1,
            level_files(items, prefix)[j].2,
        )) || (exists|d: Seq<char>|
        #[trigger] level_dirs(items, prefix).contains(d) && lists_file(
            items,
            subdir_prefix(prefix, d),
            (depth - 1) as nat,
            e,
        )))
}

/// No two items share a path.
pub open spec fn unique_paths(items: Seq<TreeItem>) -> bool {
    forall|i: int, j: int| 0 <= i < j < items.len() ==> items[i].path@ != items[j].path@
}

/// The path of an item placed as the file `name` of `prefix` is `prefix/name`.
proof fn lemma_file_path(path: Seq<char>, prefix: Seq<char>, name: Seq<char>)
    requires
        placement(path, prefix) == Some((false, name)),
    ensures
        path == subdir_prefix(prefix, name),
{
    let lead = dir_lead(prefix);
    assert(path.subrange(0, lead.len() as int) == lead);
    assert(path =~= lead + path.skip(lead.len() as int));
}

/// An item placed under the subdirectory `d` of `prefix` lies inside `prefix/d`.
proof fn lemma_dir_placement(path: Seq<char>, prefix: Seq<char>, d: Seq<char>)
    requires
        placement(path, prefix) == Some((true, d)),
    ensures
        placement(path, subdir_prefix(prefix, d)) is Some,
{
    let lead = dir_lead(prefix);
    let rel = path.skip(lead.len() as int);
    let k = first_index(rel, '/');
    lemma_first_index_bounds(rel, '/');
    let slead = dir_lead(subdir_prefix(prefix, d));
    if subdir_prefix(prefix, d).len() == 0 {
        assert(lead.len() == 0 && d.len() == 0);
        assert(slead.len() == 0);
        assert(path.subrange(0, 0) =~= slead);
    } else {
        assert(slead =~= lead + d + seq!['/']);
        assert(rel.take(k) == d);
        assert(rel[k] == '/');
        assert(path.subrange(0, slead.len() as int) =~= slead) by {
            assert forall|i: int| 0 <= i < slead.len() implies path.subrange(0, slead.len() as int)[i] == slead[i] by {
                if i < lead.len() {
                    assert(path.subrange(0, lead.len() as int)[i] == lead[i]);
                } else if i < lead.len() + d.len() {
                    assert(rel[i - lead.len()] == path[i]);
                } else {
                    assert(rel[k] == path[lead.len() + k]);
                }
            }
        }
    }
}

/// An item placed under the subdirectory `d` of `prefix` lies inside `prefix`.
proof fn lemma_sub_inside(path: Seq<char>, prefix: Seq<char>, d: Seq<char>)
    requires
        placement(path, subdir_prefix(prefix, d)) is Some,
    ensures
        placement(path, prefix) is Some,
{
    let lead = dir_lead(prefix);
    let slead = dir_lead(subdir_prefix(prefix, d));
    if lead.len() > 0 {
        assert(slead.subrange(0, lead.len() as int) =~= lead);
        assert(path.subrange(0, lead.len() as int) =~= slead.subrange(0, lead.len() as int));
    } else {
        assert(path.subrange(0, 0) =~= lead);
    }
}

/// An item placed as a file of `prefix` is the file slot of its name.
proof fn lemma_file_listed(items: Seq<TreeItem>, prefix: Seq<char>, k: int, name: Seq<char>)
    requires
        unique_paths(items),
        0 <= k < items.len(),
        placement(items[k].path@, prefix) == Some((false, name)),
    ensures
        level_files(items, prefix).contains((name, items[k].hash@, items[k].mode)),
    decreases items.len(),
{
    let n = items.len() - 1;
    let f = (name, items[k].hash@, items[k].mode);
    let before = level_files(items.drop_last(), prefix);
    if k == n {
        lemma_put_file_keeps(before, f, f);
    } else {
        assert(items.drop_last()[k] == items[k]);
        assert(unique_paths(items.drop_last())) by {
            assert forall|i: int, j: int| 0 <= i < j < items.drop_last().len() implies items.drop_last()[i].path@
                != items.drop_last()[j].path@ by {
                assert(items.drop_last()[i] == items[i]);
                assert(items.drop_last()[j] == items[j]);
            }
        }
        lemma_file_listed(items.drop_last(), prefix, k, name);
        match placement(items.last().path@, prefix) {
            Some((false, name2)) => {
                if name2 == name {
                    lemma_file_path(items[k].path@, prefix, name);
                    lemma_file_path(items[n].path@, prefix, name2);
                    assert(false);
                }
                lemma_put_file_keeps(before, (name2, items.last().hash@, items.last().mode), f);
            },
            _ => {},
        }
    }
}

/// The tree built for `prefix`, looking deep enough, lists exactly the items
/// inside `prefix`, each with its own path, hash and mode.
proof fn lemma_lists_exactly(items: Seq<TreeItem>, prefix: Seq<char>, depth: nat, e: (Seq<char>, Seq<u8>, u32))
    requires
        relative_paths(items),
        unique_paths(items),
        depth > deepest(items, prefix),
    ensures
        lists_file(items, prefix, depth, e) <==> exists|k: int|
            0 <= k < items.len() && placement(#[trigger] items[k].path@, prefix) is Some && e == (
                items[k].path@,
                items[k].hash@,
                items[k].mode,
            ),
    decreases depth,
{
    let lf = level_files(items, prefix);
    if lists_file(items, prefix, depth, e) {
        if exists|j: int|
            0 <= j < lf.len() && e == (subdir_prefix(prefix, #[trigger] lf[j].0), lf[j].1, lf[j].2) {
            let j = choose|j: int| 0 <= j < lf.len() && e == (subdir_prefix(prefix, #[trigger] lf[j].0), lf[j].1, lf[j].2);
            lemma_file_source(items, prefix, j);
            let k = choose|k: int|
                0 <= k < items.len() && placement(#[trigger] items[k].path@, prefix) == Some((false, lf[j].0))
                    && lf[j].1 == items[k].hash@ && lf[j].2 == items[k].mode;
            lemma_file_path(items[k].path@, prefix, lf[j].0);
        } else {
            let d = choose|d: Seq<char>|
                #[trigger] level_dirs(items, prefix).contains(d) && lists_file(
                    items,
                    subdir_prefix(prefix, d),
                    (depth - 1) as nat,
                    e,
                );
            lemma_sub_shallower(items, prefix, d);
            lemma_lists_exactly(items, subdir_prefix(prefix, d), (depth - 1) as nat, e);
            let k = choose|k: int|
                0 <= k < items.len() && placement(#[trigger] items[k].path@, subdir_prefix(prefix, d)) is Some && e == (
                    items[k].path@,
                    items[k].hash@,
                    items[k].mode,
                );
            lemma_sub_inside(items[k].path@, prefix, d);
        }
    }
    if exists|k: int|
        0 <= k < items.len() && placement(#[trigger] items[k].path@, prefix) is Some && e == (
            items[k].path@,
            items[k].hash@,
            items[k].mode,
        ) {
        let k = choose|k: int|
            0 <= k < items.len() && placement(#[trigger] items[k].path@, prefix) is Some && e == (
                items[k].path@,
                items[k].hash@,
                items[k].mode,
            );
        match placement(items[k].path@, prefix) {
            Some((false, name)) => {
                lemma_file_listed(items, prefix, k, name);
                let j = choose|j: int| 0 <= j < lf.len() && lf[j] == (name, items[k].hash@, items[k].mode);
                lemma_file_path(items[k].path@, prefix, name);
                assert(e == (subdir_prefix(prefix, lf[j].0), lf[j].1, lf[j].2));
            },
            Some((true, d)) => {
                lemma_dir_listed(items, prefix, k, d);
                lemma_sub_shallower(items, prefix, d);
                lemma_dir_placement(items[k].path@, prefix, d);
                lemma_lists_exactly(items, subdir_prefix(prefix, d), (depth - 1) as nat, e);
                assert(lists_file(items, subdir_prefix(prefix, d), (depth - 1) as nat, e));
            },
            None => {},
        }
    }
}

/// An item placed under a subdirectory makes that subdirectory a level entry.
proof fn lemma_dir_listed(items: Seq<TreeItem>, prefix: Seq<char>, k: int, d: Seq<char>)
    requires
        0 <= k < items.len(),
        placement(items[k].path@, prefix) == Some((true, d)),
    ensures
        level_dirs(items, prefix).contains(d),
    decreases items.len(),
{
    let n = items.len() - 1;
    let before = level_dirs(items.drop_last(), prefix);
    if k == n {
        lemma_put_name_contains(before, d, d);
    } else {
        assert(items.drop_last()[k] == items[k]);
        lemma_dir_listed(items.drop_last(), prefix, k, d);
        match placement(items.last().path@, prefix) {
            Some((true, name)) => {
                lemma_put_name_contains(before, name, d);
            },
            _ => {},
        }
    }
}

/// The whole tree built for distinct relative paths lists exactly the items:
/// a file is listed, by the root tree or, level after level, by the tree of a
/// subdirectory, if and only if it is one of the items, with the item's
/// path, hash and mode.
pub proof fn built_tree_lists_items(items: Seq<TreeItem>, e: (Seq<char>, Seq<u8>, u32))
    requires
        relative_paths(items),
        unique_paths(items),
    ensures
        lists_file(items, seq![], tree_levels(items), e) <==> exists|k: int|
            0 <= k < items.len() && e == (#[trigger] items[k].path@, items[k].hash@, items[k].mode),
{
    lemma_lists_exactly(items, seq![], tree_levels(items), e);
    assert forall|k: int| 0 <= k < items.len() implies placement(#[trigger] items[k].path@, seq![]) is Some by {
        assert(dir_lead(Seq::<char>::empty()) =~= Seq::<char>::empty());
        assert(items[k].path@.subrange(0, 0) =~= Seq::<char>::empty());
    }
}

/// Appending stored objects keeps what was already there and extends the
/// stored contents.
proof fn lemma_stored_extend(
    mid: Seq<StoredObject>,
    fin: Seq<StoredObject>,
    base_len: int,
    a: Seq<Seq<u8>>,
    b: Seq<Seq<u8>>,
)
    requires
        0 <= base_len <= mid.len(),
        stored_all(mid.skip(base_len), a),
        fin.take(mid.len() as int) == mid,
        mid.len() <= fin.len(),
        stored_all(fin.skip(mid.len() as int), b),
    ensures
        fin.take(base_len) == mid.take(base_len),
        stored_all(fin.skip(base_len), a + b),
{
    assert(fin.take(base_len) =~= mid.take(base_len)) by {
        assert forall|i: int| 0 <= i < base_len implies fin.take(base_len)[i] == mid.take(base_len)[i] by {
            assert(fin.take(mid.len() as int)[i] == fin[i]);
        }
    }
    let s = fin.skip(base_len);
    let c = a + b;
    assert forall|i: int| 0 <= i < s.len() implies crate::store::stores(#[trigger] s[i], "tree"@, c[i]) by {
        if i < a.len() {
            assert(mid.skip(base_len)[i] == mid[base_len + i]);
            assert(fin.take(mid.len() as int)[base_len + i] == fin[base_len + i]);
        } else {
            assert(fin.skip(mid.len() as int)[i - a.len()] == fin[base_len + i]);
        }
    }
}

/// `subdir_prefix(prefix, name)` as a string.
fn sub_prefix_of(prefix: &str, name: &str) -> (r: String)
    ensures
        r@ == subdir_prefix(prefix@, name@),
{
    let mut v = crate::text::chars_of(prefix);
    if v.len() > 0 {
        v.push('/');
    }
    crate::text::push_str(&mut v, name);
    crate::text::string_of(&v)
}

/// Stores the trees of the directory `prefix` and of everything below it,
/// subdirectories first, and returns the name of its tree.
fn write_level(items: &Vec<TreeItem>, prefix: &str, Ghost(depth): Ghost<nat>, objects: &mut Vec<StoredObject>) -> (r:
    String)
    requires
        relative_paths(items@),
        depth > deepest(items@, prefix@),
    ensures
        r@ == object_id("tree"@, tree_content(items@, prefix@, depth)),
        final(objects)@.take(old(objects)@.len() as int) == old(objects)@,
        old(objects)@.len() <= final(objects)@.len(),
        stored_all(final(objects)@.skip(old(objects)@.len() as int), tree_objects(items@, prefix@, depth)),
        plain_paths(items@) ==> tree_entries(tree_content(items@, prefix@, depth)) == Some(
            tree_rows(items@, prefix@, depth).map_values(|r: TreeRow| row_view(r)),
        ),
    decreases depth,
{
    let ghost base = objects@;
    let ghost below = (depth - 1) as nat;
    let (files, dirs) = collect_level(items, prefix);
    let ghost fs = level_files(items@, prefix@);
    let ghost ds = level_dirs(items@, prefix@);
    let ghost fe = file_entries(fs);
    let ghost de = dir_entries(items@, prefix@, ds, below);
    assert(fs.len() == files@.len());
    assert(ds.len() == dirs@.len());
    let mut fbytes: Vec<Vec<u8>> = Vec::new();
    let mut i: usize = 0;
    while i < files.len()
        invariant
            slots(files@) == fs,
            fe == file_entries(fs),
            i <= files@.len(),
            fbytes@.len() == i,
            forall|j: int| 0 <= j < i ==> (#[trigger] fbytes@[j])@ == fe[j].1,
        decreases files@.len() - i,
    {
        let f = &files[i];
        let b = file_entry_bytes(f.mode, f.path.as_str(), &f.hash);
        proof {
            assert(slots(files@)[i as int] == slot_of(files@[i as int]));
        }
        fbytes.push(b);
        i += 1;
    }
    let mut dbytes: Vec<Vec<u8>> = Vec::new();
    let mut j: usize = 0;
    assert(objects@.skip(base.len() as int) =~= seq![]);
    assert(ds.take(0) =~= seq![]);
    assert(objects@.take(base.len() as int) =~= base);
    while j < dirs.len()
        invariant
            relative_paths(items@),
            depth > deepest(items@, prefix@),
            below == depth - 1,
            crate::text::string_views(dirs@) == ds,
            ds == level_dirs(items@, prefix@),
            de == dir_entries(items@, prefix@, ds, below),
            j <= dirs@.len(),
            dbytes@.len() == j,
            forall|k: int| 0 <= k < j ==> (#[trigger] dbytes@[k])@ == de[k].1,
            base.len() <= objects@.len(),
            objects@.take(base.len() as int) == base,
            stored_all(objects@.skip(base.len() as int), sub_objects(items@, prefix@, ds.take(j as int), below)),
        decreases dirs@.len() - j,
    {
        let name = &dirs[j];
        let ghost d = ds[j as int];
        assert(name@ == d);
        proof {
            assert(ds.contains(d));
            lemma_sub_shallower(items@, prefix@, d);
        }
        let sub = sub_prefix_of(prefix, name.as_str());
        let ghost mid = objects@;
        let h = write_level(items, sub.as_str(), Ghost(below), objects);
        let ghost sub_content = tree_content(items@, subdir_prefix(prefix@, d), below);
        proof {
            lemma_hex_roundtrip(sha1_digest(store_bytes("tree"@, sub_content))@);
            lemma_dir_entries_at(items@, prefix@, ds, below, j as int);
            let t = ds.take(j + 1);
            assert(t.drop_last() =~= ds.take(j as int));
            assert(t.last() == d);
            lemma_stored_extend(
                mid,
                objects@,
                base.len() as int,
                sub_objects(items@, prefix@, ds.take(j as int), below),
                tree_objects(items@, subdir_prefix(prefix@, d), below),
            );
        }
        match hex_decode(h.as_str()) {
            Ok(raw) => {
                let b = dir_entry_bytes(name.as_str(), raw.as_slice());
                dbytes.push(b);
            },
            Err(_) => {},
        }
        j += 1;
    }
    assert(ds.take(j as int) =~= ds);
    let mut content: Vec<u8> = Vec::new();
    let mut a: usize = 0;
    let mut b: usize = 0;
    assert(fe.skip(0) =~= fe);
    assert(de.skip(0) =~= de);
    proof {
        if ds.len() > 0 {
            lemma_dir_entries_at(items@, prefix@, ds, below, 0);
        } else {
            assert(de =~= seq![]);
        }
        assert forall|k: int| 0 <= k < ds.len() implies (#[trigger] de[k]).0 == ds[k] by {
            lemma_dir_entries_at(items@, prefix@, ds, below, k);
        }
    }
    while a < files.len() || b < dirs.len()
        invariant
            slots(files@) == fs,
            crate::text::string_views(dirs@) == ds,
            fe == file_entries(fs),
            de.len() == ds.len(),
            forall|k: int| 0 <= k < ds.len() ==> (#[trigger] de[k]).0 == ds[k],
            fbytes@.len() == files@.len(),
            dbytes@.len() == dirs@.len(),
            forall|k: int| 0 <= k < fbytes@.len() ==> (#[trigger] fbytes@[k])@ == fe[k].1,
            forall|k: int| 0 <= k < dbytes@.len() ==> (#[trigger] dbytes@[k])@ == de[k].1,
            a <= files@.len(),
            b <= dirs@.len(),
            merge_entries(fe, de) == content@ + merge_entries(fe.skip(a as int), de.skip(b as int)),
        decreases files@.len() + dirs@.len() - a - b,
    {
        let ghost fr = fe.skip(a as int);
        let ghost dr = de.skip(b as int);
        let take_file = if b >= dirs.len() {
            true
        } else if a >= files.len() {
            false
        } else {
            !crate::paths::str_lt(dirs[b].as_str(), files[a].path.as_str())
        };
        proof {
            if a < files@.len() {
                assert(fr[0] == fe[a as int]);
                assert(slots(files@)[a as int] == slot_of(files@[a as int]));
            }
            if b < dirs@.len() {
                assert(dr[0] == de[b as int]);
            }
        }
        if take_file {
            crate::bytes::push_all(&mut content, fbytes[a].as_slice());
            proof {
                assert(fr.drop_first() =~= fe.skip(a + 1));
            }
            a += 1;
        } else {
            crate::bytes::push_all(&mut content, dbytes[b].as_slice());
            proof {
                assert(dr.drop_first() =~= de.skip(b + 1));
            }
            b += 1;
        }
    }
    assert(fe.skip(a as int) =~= seq![]);
    assert(de.skip(b as int) =~= seq![]);
    assert(content@ =~= tree_content(items@, prefix@, depth));
    proof {
        if plain_paths(items@) {
            built_tree_reads_back(items@, prefix@, depth);
        }
    }
    let obj = encode_object("tree", content.as_slice());
    let h = obj.hash.clone();
    let ghost mid = objects@;
    objects.push(obj);
    proof {
        assert(objects@.take(base.len() as int) =~= base) by {
            assert forall|i: int| 0 <= i < base.len() implies objects@.take(base.len() as int)[i] == base[i] by {
                assert(mid.take(base.len() as int)[i] == mid[i]);
            }
        }
        let all = sub_objects(items@, prefix@, ds, below).push(content@);
        assert(tree_objects(items@, prefix@, depth) == all);
        let s = objects@.skip(base.len() as int);
        assert forall|i: int| 0 <= i < s.len() implies crate::store::stores(#[trigger] s[i], "tree"@, all[i]) by {
            if i < s.len() - 1 {
                assert(mid.skip(base.len() as int)[i] == s[i]);
            }
        }
    }
    h
}

/// The trees built for a flattened tree: the name of the root tree and every
/// tree object, each subdirectory's before its parent's, the root's last.
pub struct TreeBuild {
    pub hash: String,
    pub objects: Vec<StoredObject>,
}

/// Builds the tree objects for a flattened tree of `(path, hash, mode)`
/// items: one tree per directory, the root's name returned with all of them.
pub fn build_tree_from_map(items: &Vec<TreeItem>) -> (r: TreeBuild)
    requires
        relative_paths(items@),
    ensures
        r.hash@ == object_id("tree"@, tree_content(items@, seq![], tree_levels(items@))),
        stored_all(r.objects@, tree_objects(items@, seq![], tree_levels(items@))),
        plain_paths(items@) ==> reads_back_fully(items@, seq![], tree_levels(items@)),
        unique_paths(items@) ==> forall|e: (Seq<char>, Seq<u8>, u32)|
            #[trigger] lists_file(items@, seq![], tree_levels(items@), e) <==> exists|k: int|
                0 <= k < items@.len() && e == (#[trigger] items@[k].path@, items@[k].hash@, items@[k].mode),
{
    proof {
        if plain_paths(items@) {
            built_tree_reads_back_fully(items@, seq![], tree_levels(items@));
        }
        if unique_paths(items@) {
            assert forall|e: (Seq<char>, Seq<u8>, u32)|
                #[trigger] lists_file(items@, seq![], tree_levels(items@), e) <==> exists|k: int|
                    0 <= k < items@.len() && e == (#[trigger] items@[k].path@, items@[k].hash@, items@[k].mode) by {
                built_tree_lists_items(items@, e);
            }
        }
    }
    let root = String::new();
    let mut objects: Vec<StoredObject> = Vec::new();
    let ghost before = objects@;
    let hash = write_level(items, root.as_str(), Ghost(tree_levels(items@)), &mut objects);
    assert(objects@.skip(0) =~= objects@);
    TreeBuild { hash, objects }
}

/// An index entry as a tree item: its path, hash and mode.
pub open spec fn index_item(e: IndexEntry) -> TreeItem {
    TreeItem { path: e.path, hash: e.hash, mode: e.mode }
}

pub open spec fn index_items(entries: Seq<IndexEntry>) -> Seq<TreeItem> {
    entries.map_values(|e: IndexEntry| index_item(e))
}

/// Builds the tree objects for the staged entries, as `write-tree` does.
pub fn write_tree_from_index(entries: &Vec<IndexEntry>) -> (r: TreeBuild)
    requires
        relative_paths(index_items(entries@)),
    ensures
        r.hash@ == object_id("tree"@, tree_content(index_items(entries@), seq![], tree_levels(index_items(entries@)))),
        stored_all(r.objects@, tree_objects(index_items(entries@), seq![], tree_levels(index_items(entries@)))),
{
    let mut items: Vec<TreeItem> = Vec::new();
    let mut k: usize = 0;
    while k < entries.len()
        invariant
            k <= entries@.len(),
            items@ == index_items(entries@).take(k as int),
        decreases entries@.len() - k,
    {
        let e = &entries[k];
        items.push(TreeItem { path: e.path.clone(), hash: e.hash, mode: e.mode });
        assert(items@ =~= index_items(entries@).take(k + 1));
        k += 1;
    }
    assert(items@ =~= index_items(entries@));
    build_tree_from_map(&items)
}

} // verus!
