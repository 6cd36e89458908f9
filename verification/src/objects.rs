//! Plain data types shared across the library.
use vstd::prelude::*;

verus! {

/// One step of a line-level edit script.
#[derive(Debug, Clone, PartialEq, Eq)]
pub enum DiffOp {
    Keep(String),
    Delete(String),
    Insert(String),
}

/// The value of octal digits, most significant first.
pub open spec fn octal_value(s: Seq<char>) -> nat
    decreases s.len(),
{
    if s.len() == 0 {
        0
    } else {
        octal_value(s.drop_last()) * 8 + ((s.last() as u32) - 48) as nat
    }
}

pub open spec fn octal_digits(s: Seq<char>) -> bool {
    forall|i: int| 0 <= i < s.len() ==> '0' <= #[trigger] s[i] <= '7'
}

/// A tree entry's mode read as octal: at least one digit `0`-`7`, with a
/// value that fits in `u32`.
pub open spec fn mode_value(s: Seq<char>) -> Option<u32> {
    if s.len() > 0 && octal_digits(s) && octal_value(s) <= u32::MAX {
        Some(octal_value(s) as u32)
    } else {
        None
    }
}

proof fn lemma_octal_prefix_mono(s: Seq<char>, i: int)
    requires
        0 <= i <= s.len(),
        octal_digits(s),
    ensures
        octal_value(s.take(i)) <= octal_value(s),
    decreases s.len() - i,
{
    if i < s.len() {
        lemma_octal_prefix_mono(s, i + 1);
        assert(s.take(i + 1).drop_last() =~= s.take(i));
        assert('0' <= s[i] <= '7');
    } else {
        assert(s.take(i) =~= s);
    }
}

/// Reads a mode written in octal.
pub fn parse_mode(s: &str) -> (r: Option<u32>)
    ensures
        r == mode_value(s@),
{
    let cs = crate::text::chars_of(s);
    let n = cs.len();
    if n == 0 {
        return None;
    }
    let mut v: u32 = 0;
    let mut i: usize = 0;
    while i < n
        invariant
            cs@ == s@,
            n == cs@.len(),
            n > 0,
            i <= n,
            octal_digits(s@.take(i as int)),
            v == octal_value(s@.take(i as int)),
        decreases n - i,
    {
        let c = cs[i];
        proof {
            assert(s@.take(i + 1).drop_last() =~= s@.take(i as int));
            assert(s@.take(i + 1).last() == c);
        }
        if c < '0' || c > '7' {
            proof {
                assert(!octal_digits(s@));
            }
            return None;
        }
        let dv = (c as u32) - 48;
        proof {
            assert(octal_digits(s@.take(i + 1)));
            assert(octal_value(s@.take(i + 1)) == v * 8 + dv);
        }
        match v.checked_mul(8) {
            None => {
                proof {
                    if octal_digits(s@) {
                        lemma_octal_prefix_mono(s@, i + 1);
                    }
                }
                return None;
            },
            Some(m) => match m.checked_add(dv) {
                None => {
                    proof {
                        if octal_digits(s@) {
                            lemma_octal_prefix_mono(s@, i + 1);
                        }
                    }
                    return None;
                },
                Some(nv) => {
                    v = nv;
                },
            },
        }
        i += 1;
    }
    assert(s@.take(n as int) =~= s@);
    Some(v)
}

/// One entry of a tree met while flattening it.
#[derive(Debug, Clone)]
pub enum FlatEntry {
    /// A subdirectory: its path and the hash of its tree.
    Dir(String, [u8; 20]),
    /// A file: its path, blob hash and mode.
    File(crate::merge::TreeItem),
}

/// The path of the entry `name` of the tree at `prefix`.
pub open spec fn joined_path(prefix: Seq<char>, name: Seq<char>) -> Seq<char> {
    if prefix.len() == 0 {
        name
    } else {
        prefix + seq!['/'] + name
    }
}

/// How flattening treats an entry of the tree at `prefix`: mode `40000` is a
/// subdirectory, any other mode a file; `None` when the mode is not octal.
pub fn flatten_entry(prefix: &str, e: &TreeEntry) -> (r: Option<FlatEntry>)
    ensures
        e.mode@ == "40000"@ ==> (r matches Some(FlatEntry::Dir(p, h)) && p@ == joined_path(prefix@, e.name@) && h == e.hash),
        e.mode@ != "40000"@ ==> match mode_value(e.mode@) {
            None => r is None,
            Some(m) => r matches Some(FlatEntry::File(it)) && it.path@ == joined_path(prefix@, e.name@) && it.hash == e.hash
                && it.mode == m,
        },
{
    let mut v = crate::text::chars_of(prefix);
    if v.len() > 0 {
        v.push('/');
    }
    crate::text::push_str(&mut v, e.name.as_str());
    let path = crate::text::string_of(&v);
    proof {
        assert(path@ =~= joined_path(prefix@, e.name@));
    }
    if crate::text::str_eq(e.mode.as_str(), "40000") {
        Some(FlatEntry::Dir(path, e.hash))
    } else {
        match parse_mode(e.mode.as_str()) {
            None => None,
            Some(m) => Some(FlatEntry::File(crate::merge::TreeItem { path, hash: e.hash, mode: m })),
        }
    }
}

} // verus!

verus! {

/// One entry of a tree object: mode text, name and hash.
#[derive(Debug, Clone)]
pub struct TreeEntry {
    pub mode: String,
    pub name: String,
    pub hash: [u8; 20],
}

/// The fields of a commit.
#[derive(Debug, Clone)]
pub struct CommitData {
    pub tree_hash: String,
    pub parent_hashes: Vec<String>,
    pub author: String,
    pub message: String,
}

/// A decoded object.
#[derive(Debug, Clone)]
pub enum GitObject {
    Blob(Vec<u8>),
    Tree(Vec<TreeEntry>),
    Commit(CommitData),
}

/// How far `reset` goes: only HEAD, also the index, or also the working tree.
#[derive(Debug, Clone, Copy, PartialEq, Eq)]
pub enum ResetMode {
    Soft,
    Mixed,
    Hard,
}

/// The mode given the `--soft` / `--hard` flags (`--mixed` is the default).
pub fn reset_mode(soft: bool, hard: bool) -> (r: ResetMode)
    ensures
        r == (if soft { ResetMode::Soft } else if hard { ResetMode::Hard } else { ResetMode::Mixed }),
{
    if soft {
        ResetMode::Soft
    } else if hard {
        ResetMode::Hard
    } else {
        ResetMode::Mixed
    }
}

/// The digits of `n` in base 8, without leading zeros.
pub open spec fn octal(n: nat) -> Seq<u8>
    decreases n,
{
    if n < 8 {
        seq![(48 + n) as u8]
    } else {
        octal(n / 8).push((48 + n % 8) as u8)
    }
}

/// Appends the octal digits of `n`.
pub fn push_octal(out: &mut Vec<u8>, n: u32)
    ensures
        final(out)@ == old(out)@ + octal(n as nat),
    decreases n,
{
    if n < 8 {
        out.push(48u8 + n as u8);
    } else {
        push_octal(out, n / 8);
        out.push(48u8 + (n % 8) as u8);
    }
    assert(out@ =~= old(out)@ + octal(n as nat));
}

/// One entry as a tree object stores it: mode, a space, the name, a NUL
/// byte, the 20-byte hash.
pub open spec fn tree_entry_bytes(mode: Seq<u8>, name: Seq<char>, hash: Seq<u8>) -> Seq<u8> {
    mode + seq![32u8] + vstd::utf8::encode_utf8(name) + seq![0u8] + hash
}

/// The stored form of a file entry: its mode in octal, name and hash.
pub fn file_entry_bytes(mode: u32, name: &str, hash: &[u8; 20]) -> (r: Vec<u8>)
    ensures
        r@ == tree_entry_bytes(octal(mode as nat), name@, hash@),
{
    let mut out: Vec<u8> = Vec::new();
    push_octal(&mut out, mode);
    out.push(32u8);
    let nb = crate::codec::utf8_bytes(name);
    crate::bytes::push_all(&mut out, nb.as_slice());
    out.push(0u8);
    crate::bytes::push_all(&mut out, hash.as_slice());
    out
}

/// The stored form of a subdirectory entry: mode `40000`, name and tree hash.
pub fn dir_entry_bytes(name: &str, hash: &[u8]) -> (r: Vec<u8>)
    ensures
        r@ == tree_entry_bytes(seq![52u8, 48u8, 48u8, 48u8, 48u8], name@, hash@),
{
    let mut out: Vec<u8> = Vec::new();
    out.push(52u8);
    out.push(48u8);
    out.push(48u8);
    out.push(48u8);
    out.push(48u8);
    out.push(32u8);
    let nb = crate::codec::utf8_bytes(name);
    crate::bytes::push_all(&mut out, nb.as_slice());
    out.push(0u8);
    crate::bytes::push_all(&mut out, hash);
    assert(out@ =~= tree_entry_bytes(seq![52u8, 48u8, 48u8, 48u8, 48u8], name@, hash@));
    out
}

/// The content of a tree entry.
pub type TreeEntryView = (Seq<char>, Seq<char>, Seq<u8>);

/// The entries of a tree object's content, read in order: the mode up to
/// the first space, the name up to the next NUL, then 20 hash bytes (both
/// texts decoded lossily); `None` when an entry is cut short.
pub open spec fn tree_entries(c: Seq<u8>) -> Option<Seq<TreeEntryView>>
    decreases c.len(),
{
    if c.len() == 0 {
        Some(seq![])
    } else {
        let sp = crate::store::first_byte(c, 32);
        if sp < 0 {
            None
        } else {
            let z = crate::store::first_byte(c.skip(sp), 0);
            if z < 0 || sp + z + 21 > c.len() {
                None
            } else {
                let e = (
                    crate::codec::lossy_decode(c.take(sp)),
                    crate::codec::lossy_decode(c.subrange(sp + 1, sp + z)),
                    c.subrange(sp + z + 1, sp + z + 21),
                );
                match tree_entries(c.skip(sp + z + 21)) {
                    None => None,
                    Some(rest) => Some(seq![e] + rest),
                }
            }
        }
    }
}

pub open spec fn tree_entry_view(e: TreeEntry) -> TreeEntryView {
    (e.mode@, e.name@, e.hash@)
}

/// Why a tree object could not be read.
#[derive(Debug, Clone, Copy, PartialEq, Eq)]
pub enum TreeError {
    /// An entry is cut short (no mode separator, no NUL, or a short hash).
    Truncated,
}

/// An entry about to be written into a tree: mode bytes, name, hash.
pub type TreeRow = (Seq<u8>, Seq<char>, Seq<u8>);

/// The stored form of a row.
pub open spec fn row_bytes(r: TreeRow) -> Seq<u8> {
    tree_entry_bytes(r.0, r.1, r.2)
}

/// The rows written one after another: the content of a tree.
pub open spec fn rows_bytes(rows: Seq<TreeRow>) -> Seq<u8>
    decreases rows.len(),
{
    if rows.len() == 0 {
        seq![]
    } else {
        row_bytes(rows[0]) + rows_bytes(rows.drop_first())
    }
}

/// A row that reads back unchanged: no space in its mode, no NUL in its
/// name, a 20-byte hash.
pub open spec fn row_ok(r: TreeRow) -> bool {
    &&& forall|i: int| 0 <= i < r.0.len() ==> #[trigger] r.0[i] != 32u8
    &&& forall|i: int| 0 <= i < r.1.len() ==> #[trigger] r.1[i] != '\0'
    &&& r.2.len() == 20
}

/// What reading a row back yields.
pub open spec fn row_view(r: TreeRow) -> TreeEntryView {
    (crate::codec::lossy_decode(r.0), r.1, r.2)
}

/// The digits of a mode hold no space.
pub proof fn lemma_octal_digits(n: nat)
    ensures
        octal(n).len() >= 1,
        forall|i: int| 0 <= i < octal(n).len() ==> 48 <= #[trigger] octal(n)[i] <= 55,
    decreases n,
{
    if n >= 8 {
        lemma_octal_digits(n / 8);
    }
}

proof fn lemma_scalar_nonzero(c: u32)
    requires
        c != 0,
        vstd::utf8::is_scalar(c),
    ensures
        forall|i: int| 0 <= i < vstd::utf8::encode_scalar(c).len() ==> #[trigger] vstd::utf8::encode_scalar(c)[i] != 0u8,
{
    let e = vstd::utf8::encode_scalar(c);
    if vstd::utf8::has_width_1_encoding(c) {
        assert(((c & 0x7F) as u8) != 0u8) by (bit_vector)
            requires
                c != 0,
                c <= 0x7F,
        ;
    } else {
        assert(((0xC0u8 | ((c >> 6) & 0x1F) as u8) as u8) != 0u8) by (bit_vector);
        assert(((0xE0u8 | ((c >> 12) & 0x0F) as u8) as u8) != 0u8) by (bit_vector);
        assert(((0xF0u8 | ((c >> 18) & 0x7) as u8) as u8) != 0u8) by (bit_vector);
        assert(((0x80u8 | (c & 0x3F) as u8) as u8) != 0u8) by (bit_vector);
        assert(((0x80u8 | ((c >> 6) & 0x3F) as u8) as u8) != 0u8) by (bit_vector);
        assert(((0x80u8 | ((c >> 12) & 0x3F) as u8) as u8) != 0u8) by (bit_vector);
    }
}

/// A name without NUL encodes to bytes without a zero byte.
pub proof fn lemma_utf8_no_nul(n: Seq<char>)
    requires
        forall|i: int| 0 <= i < n.len() ==> #[trigger] n[i] != '\0',
    ensures
        forall|i: int| 0 <= i < vstd::utf8::encode_utf8(n).len() ==> #[trigger] vstd::utf8::encode_utf8(n)[i] != 0u8,
    decreases n.len(),
{
    if n.len() > 0 {
        let c = n[0];
        vstd::utf8::char_is_scalar(c);
        assert(c != '\0');
        assert((c as u32) != 0) by {
            vstd::utf8::char_u32_cast(c, c as u32);
            if (c as u32) == 0 {
                vstd::utf8::char_u32_cast('\0', 0u32);
            }
        }
        lemma_scalar_nonzero(c as u32);
        let rest = n.drop_first();
        assert forall|i: int| 0 <= i < rest.len() implies #[trigger] rest[i] != '\0' by {
            assert(rest[i] == n[i + 1]);
        }
        lemma_utf8_no_nul(rest);
        let head = vstd::utf8::encode_scalar(c as u32);
        let tail = vstd::utf8::encode_utf8(rest);
        assert forall|i: int| 0 <= i < vstd::utf8::encode_utf8(n).len() implies #[trigger] vstd::utf8::encode_utf8(
            n,
        )[i] != 0u8 by {
            if i < head.len() {
                assert(vstd::utf8::encode_utf8(n)[i] == head[i]);
            } else {
                assert(vstd::utf8::encode_utf8(n)[i] == tail[i - head.len()]);
            }
        }
    }
}

/// Reading back one row followed by more content.
proof fn lemma_row_read_back(r: TreeRow, rest: Seq<u8>)
    requires
        row_ok(r),
    ensures
        tree_entries(row_bytes(r) + rest) == match tree_entries(rest) {
            None => None,
            Some(t) => Some(seq![row_view(r)] + t),
        },
{
    let nb = vstd::utf8::encode_utf8(r.1);
    lemma_utf8_no_nul(r.1);
    vstd::utf8::encode_utf8_decode_utf8(r.1);
    vstd::utf8::encode_utf8_valid_utf8(r.1);
    let c = row_bytes(r) + rest;
    let m = r.0.len() as int;
    assert(c =~= r.0 + (seq![32u8] + nb + seq![0u8] + r.2 + rest));
    assert forall|k: int| 0 <= k < m implies c[k] != 32u8 by {
        assert(c[k] == r.0[k]);
    }
    assert(c[m] == 32u8);
    crate::store::lemma_first_byte_at(c, 32u8, m);
    let after = c.skip(m);
    assert(after =~= seq![32u8] + nb + seq![0u8] + r.2 + rest);
    let z = nb.len() as int + 1;
    assert forall|k: int| 0 <= k < z implies after[k] != 0u8 by {
        if k > 0 {
            assert(after[k] == nb[k - 1]);
        }
    }
    assert(after[z] == 0u8);
    crate::store::lemma_first_byte_at(after, 0u8, z);
    assert(c.take(m) =~= r.0);
    assert(c.subrange(m + 1, m + z) =~= nb);
    assert(c.subrange(m + z + 1, m + z + 21) =~= r.2);
    assert(c.skip(m + z + 21) =~= rest);
}

/// Writing rows as tree content and reading that content back gives each
/// row's mode (as text), name and hash, in order.
pub proof fn tree_format_roundtrip(rows: Seq<TreeRow>)
    requires
        forall|k: int| 0 <= k < rows.len() ==> row_ok(#[trigger] rows[k]),
    ensures
        tree_entries(rows_bytes(rows)) == Some(rows.map_values(|r: TreeRow| row_view(r))),
    decreases rows.len(),
{
    if rows.len() == 0 {
        assert(rows.map_values(|r: TreeRow| row_view(r)) =~= seq![]);
    } else {
        let rest = rows.drop_first();
        assert forall|k: int| 0 <= k < rest.len() implies row_ok(#[trigger] rest[k]) by {
            assert(rest[k] == rows[k + 1]);
        }
        tree_format_roundtrip(rest);
        lemma_row_read_back(rows[0], rows_bytes(rest));
        assert(seq![row_view(rows[0])] + rest.map_values(|r: TreeRow| row_view(r)) =~= rows.map_values(
            |r: TreeRow| row_view(r),
        ));
    }
}

/// Reads the entries of a tree object's content.
pub fn parse_tree(content: &[u8]) -> (r: Result<Vec<TreeEntry>, TreeError>)
    ensures
        match tree_entries(content@) {
            None => r == Err::<Vec<TreeEntry>, TreeError>(TreeError::Truncated),
            Some(es) => r matches Ok(v) && v@.map_values(|e: TreeEntry| tree_entry_view(e)) == es,
        },
{
    let n = content.len();
    let mut pos: usize = 0;
    let mut out: Vec<TreeEntry> = Vec::new();
    assert(content@.skip(0) =~= content@);
    while pos < n
        invariant
            n == content@.len(),
            pos <= n,
            tree_entries(content@) == match tree_entries(content@.skip(pos as int)) {
                None => None,
                Some(rest) => Some(out@.map_values(|e: TreeEntry| tree_entry_view(e)) + rest),
            },
        decreases n - pos,
    {
        let ghost c = content@.skip(pos as int);
        let rest = crate::index::copy_range(content, pos, n);
        assert(rest@ =~= c);
        let sp = match crate::store::find_byte(rest.as_slice(), 32u8) {
            None => {
                return Err(TreeError::Truncated);
            },
            Some(i) => i,
        };
        let after = crate::index::copy_range(rest.as_slice(), sp, rest.len());
        assert(after@ =~= c.skip(sp as int));
        let z = match crate::store::find_byte(after.as_slice(), 0u8) {
            None => {
                return Err(TreeError::Truncated);
            },
            Some(i) => i,
        };
        let rn = rest.len();
        if rn - sp - z < 21 {
            return Err(TreeError::Truncated);
        }
        let mode_bytes = crate::index::copy_range(rest.as_slice(), 0, sp);
        let name_bytes = crate::index::copy_range(rest.as_slice(), sp + 1, sp + z);
        let mut hash = [0u8; 20];
        let mut k: usize = 0;
        while k < 20
            invariant
                k <= 20,
                rn == rest@.len(),
                sp + z + 21 <= rest@.len(),
                forall|j: int| 0 <= j < k ==> hash@[j] == rest@[sp + z + 1 + j],
            decreases 20 - k,
        {
            hash[k] = rest[sp + z + 1 + k];
            k += 1;
        }
        assert(hash@ =~= c.subrange(sp + z + 1, sp + z + 21));
        assert(mode_bytes@ =~= c.take(sp as int));
        let mode = crate::codec::from_utf8_lossy(mode_bytes.as_slice());
        let name = crate::codec::from_utf8_lossy(name_bytes.as_slice());
        let ghost before = out@.map_values(|e: TreeEntry| tree_entry_view(e));
        let entry = TreeEntry { mode, name, hash };
        let ghost ev = tree_entry_view(entry);
        out.push(entry);
        proof {
            assert(out@.map_values(|e: TreeEntry| tree_entry_view(e)) =~= before.push(ev));
            assert(c.skip(sp + z + 21) =~= content@.skip(pos + sp + z + 21));
            match tree_entries(c.skip(sp + z + 21)) {
                None => {},
                Some(r2) => {
                    assert(before + (seq![ev] + r2) =~= before.push(ev) + r2);
                },
            }
        }
        pos = pos + sp + z + 21;
    }
    proof {
        assert(content@.skip(pos as int).len() == 0);
        assert(out@.map_values(|e: TreeEntry| tree_entry_view(e)) + Seq::<TreeEntryView>::empty() =~= out@.map_values(
            |e: TreeEntry| tree_entry_view(e),
        ));
    }
    Ok(out)
}

/// How `ls-tree` shows an entry: the mode padded to six places with zeros,
/// `tree` for mode `40000` and `blob` otherwise, the hash in hex, a tab, the name.
pub open spec fn ls_tree_line(e: TreeEntryView) -> Seq<char> {
    let pad = if e.0.len() < 6 {
        Seq::new((6 - e.0.len()) as nat, |i: int| '0')
    } else {
        seq![]
    };
    pad + e.0 + seq![' '] + (if e.0 == "40000"@ { "tree"@ } else { "blob"@ }) + seq![' '] + crate::codec::hex_lower(
        e.2,
    ) + seq!['\t'] + e.1
}

/// The `ls-tree` line for an entry.
pub fn format_ls_tree_line(e: &TreeEntry) -> (r: String)
    ensures
        r@ == ls_tree_line(tree_entry_view(*e)),
{
    let m = crate::text::chars_of(e.mode.as_str());
    let mut out: Vec<char> = Vec::new();
    let mut k = m.len();
    while k < 6
        invariant
            m.len() <= k <= 6 || (m.len() > 6 && k == m.len()),
            out@ == Seq::new((k - m.len()) as nat, |i: int| '0'),
        decreases 6 - k,
    {
        out.push('0');
        k += 1;
        assert(out@ =~= Seq::new((k - m.len()) as nat, |i: int| '0'));
    }
    let ghost pad = out@;
    crate::text::push_str(&mut out, e.mode.as_str());
    out.push(' ');
    proof {
        reveal_strlit("40000");
    }
    if crate::text::str_eq(e.mode.as_str(), "40000") {
        crate::text::push_str(&mut out, "tree");
    } else {
        crate::text::push_str(&mut out, "blob");
    }
    out.push(' ');
    let hx = crate::codec::hex_encode(e.hash.as_slice());
    crate::text::push_str(&mut out, hx.as_str());
    out.push('\t');
    crate::text::push_str(&mut out, e.name.as_str());
    proof {
        let ev = tree_entry_view(*e);
        let sp = if ev.0.len() < 6 {
            Seq::new((6 - ev.0.len()) as nat, |i: int| '0')
        } else {
            seq![]
        };
        assert(pad =~= sp);
    }
    string_of_chars(&out)
}

fn string_of_chars(v: &Vec<char>) -> (r: String)
    ensures
        r@ == v@,
{
    crate::text::string_of(v)
}

} // verus!
