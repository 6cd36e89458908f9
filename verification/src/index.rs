//! The staging index file: its binary layout (version 2), parsing and writing.
use vstd::prelude::*;
use vstd::utf8::{decode_utf8, encode_utf8, valid_utf8};
use crate::bytes::{be16, be16_at, be32, be32_at, push_all, push_be16, push_be32, read_be16, read_be32};
use crate::codec::{from_utf8_lossy, lossy_decode, sha1_digest, sha1_of, utf8_bytes, utf8_lossy};
use crate::text::chars_of;
use crate::util::reverse_vec;

verus! {

/// One staged file: stat data, mode, blob hash and repository-relative path.
#[derive(Debug, Clone)]
pub struct IndexEntry {
    pub ctime_secs: u32,
    pub ctime_nsecs: u32,
    pub mtime_secs: u32,
    pub mtime_nsecs: u32,
    pub dev: u32,
    pub ino: u32,
    pub mode: u32,
    pub uid: u32,
    pub gid: u32,
    pub size: u32,
    pub hash: [u8; 20],
    pub path: String,
}

/// The content of an index entry.
pub struct EntryView {
    pub ctime_secs: u32,
    pub ctime_nsecs: u32,
    pub mtime_secs: u32,
    pub mtime_nsecs: u32,
    pub dev: u32,
    pub ino: u32,
    pub mode: u32,
    pub uid: u32,
    pub gid: u32,
    pub size: u32,
    pub hash: Seq<u8>,
    pub path: Seq<char>,
}

impl View for IndexEntry {
    type V = EntryView;

    open spec fn view(&self) -> EntryView {
        EntryView {
            ctime_secs: self.ctime_secs,
            ctime_nsecs: self.ctime_nsecs,
            mtime_secs: self.mtime_secs,
            mtime_nsecs: self.mtime_nsecs,
            dev: self.dev,
            ino: self.ino,
            mode: self.mode,
            uid: self.uid,
            gid: self.gid,
            size: self.size,
            hash: self.hash@,
            path: self.path@,
        }
    }
}

pub open spec fn views(es: Seq<IndexEntry>) -> Seq<EntryView> {
    es.map_values(|e: IndexEntry| e@)
}

/// Errors in an index file. `Truncated` is an entry running past the end of the data.
#[derive(Debug, Clone, Copy, PartialEq, Eq)]
pub enum IndexError {
    TooShort,
    BadSignature,
    UnsupportedVersion(u32),
    Truncated,
}

/// The signature `DIRC`.
pub open spec fn signature() -> Seq<u8> {
    seq![68u8, 73u8, 82u8, 67u8]
}

pub open spec fn stat_bytes(e: EntryView) -> Seq<u8> {
    be32(e.ctime_secs) + be32(e.ctime_nsecs) + be32(e.mtime_secs) + be32(e.mtime_nsecs) + be32(e.dev)
        + be32(e.ino) + be32(e.mode) + be32(e.uid) + be32(e.gid) + be32(e.size)
}

/// The 12-bit name-length field: the name's byte length, capped at 0xFFF.
pub open spec fn name_field(len: int) -> u16 {
    if len < 0x0FFF {
        len as u16
    } else {
        0x0FFFu16
    }
}

/// One entry on disk: 40 bytes of stat data, the 20-byte hash, the flags
/// (name length), the UTF-8 name, then 1 to 8 zero bytes of padding.
pub open spec fn entry_bytes(e: EntryView) -> Seq<u8> {
    let nb = encode_utf8(e.path);
    let fixed = stat_bytes(e) + e.hash + be16(name_field(nb.len() as int)) + nb;
    fixed + Seq::new((8 - fixed.len() % 8) as nat, |i: int| 0u8)
}

pub open spec fn entries_bytes(es: Seq<EntryView>) -> Seq<u8>
    decreases es.len(),
{
    if es.len() == 0 {
        seq![]
    } else {
        entries_bytes(es.drop_last()) + entry_bytes(es.last())
    }
}

/// The index without its trailing checksum.
pub open spec fn index_body(es: Seq<EntryView>) -> Seq<u8> {
    signature() + be32(2) + be32(es.len() as u32) + entries_bytes(es)
}

/// The index file: body followed by the SHA-1 of the body.
pub open spec fn index_file(es: Seq<EntryView>) -> Seq<u8> {
    index_body(es) + sha1_digest(index_body(es))@
}

/// The entry at `pos` and where the next one starts, or `None` when it runs past the data.
pub open spec fn entry_at(data: Seq<u8>, pos: int) -> Option<(EntryView, int)> {
    if pos + 62 > data.len() {
        None
    } else {
        let flags = be16_at(data, pos + 60);
        let name_start = if flags & 0x4000u16 != 0 {
            pos + 64
        } else {
            pos + 62
        };
        let name_end = name_start + (flags & 0x0FFFu16) as int;
        if name_end > data.len() {
            None
        } else {
            let entry_len = name_end - pos;
            Some(
                (
                    EntryView {
                        ctime_secs: be32_at(data, pos),
                        ctime_nsecs: be32_at(data, pos + 4),
                        mtime_secs: be32_at(data, pos + 8),
                        mtime_nsecs: be32_at(data, pos + 12),
                        dev: be32_at(data, pos + 16),
                        ino: be32_at(data, pos + 20),
                        mode: be32_at(data, pos + 24),
                        uid: be32_at(data, pos + 28),
                        gid: be32_at(data, pos + 32),
                        size: be32_at(data, pos + 36),
                        hash: data.subrange(pos + 40, pos + 60),
                        path: lossy_decode(data.subrange(name_start, name_end)),
                    },
                    name_end + (8 - entry_len % 8),
                ),
            )
        }
    }
}

/// `count` consecutive entries starting at `pos`.
pub open spec fn entries_from(data: Seq<u8>, pos: int, count: nat) -> Option<Seq<EntryView>>
    decreases count,
{
    if count == 0 {
        Some(seq![])
    } else {
        match entry_at(data, pos) {
            None => None,
            Some((e, next)) => match entries_from(data, next, (count - 1) as nat) {
                None => None,
                Some(rest) => Some(seq![e] + rest),
            },
        }
    }
}

/// What an index file holds; the trailing checksum is not checked.
pub open spec fn parse_index(data: Seq<u8>) -> Result<Seq<EntryView>, IndexError> {
    if data.len() < 12 {
        Err(IndexError::TooShort)
    } else if data.subrange(0, 4) != signature() {
        Err(IndexError::BadSignature)
    } else if be32_at(data, 4) != 2 {
        Err(IndexError::UnsupportedVersion(be32_at(data, 4)))
    } else {
        match entries_from(data, 12, be32_at(data, 8) as nat) {
            None => Err(IndexError::Truncated),
            Some(es) => Ok(es),
        }
    }
}


/// The bytes `data[lo..hi]`.
pub fn copy_range(data: &[u8], lo: usize, hi: usize) -> (r: Vec<u8>)
    requires
        lo <= hi <= data@.len(),
    ensures
        r@ == data@.subrange(lo as int, hi as int),
{
    let mut out: Vec<u8> = Vec::new();
    let mut i = lo;
    while i < hi
        invariant
            lo <= i <= hi <= data@.len(),
            out@ == data@.subrange(lo as int, i as int),
        decreases hi - i,
    {
        out.push(data[i]);
        i += 1;
        assert(out@ =~= data@.subrange(lo as int, i as int));
    }
    out
}

/// The characters `cs[lo..hi]`.
pub fn copy_range_chars(cs: &Vec<char>, lo: usize, hi: usize) -> (r: Vec<char>)
    requires
        lo <= hi <= cs@.len(),
    ensures
        r@ == cs@.subrange(lo as int, hi as int),
{
    let mut out: Vec<char> = Vec::new();
    let mut i = lo;
    while i < hi
        invariant
            lo <= i <= hi <= cs@.len(),
            out@ == cs@.subrange(lo as int, i as int),
        decreases hi - i,
    {
        out.push(cs[i]);
        i += 1;
        assert(out@ =~= cs@.subrange(lo as int, i as int));
    }
    out
}

/// Reads the entry at `pos`, or `None` when it runs past the end of the data.
fn read_entry(data: &[u8], pos: usize) -> (r: Option<(IndexEntry, usize)>)
    requires
        data@.len() + 128 <= usize::MAX,
        pos <= data@.len() + 8,
    ensures
        match entry_at(data@, pos as int) {
            None => r is None,
            Some((e, next)) => r matches Some((x, nx)) && x@ == e && nx == next && nx <= data@.len()
                + 8,
        },
{
    if pos + 62 > data.len() {
        return None;
    }
    let ctime_secs = read_be32(data, pos);
    let ctime_nsecs = read_be32(data, pos + 4);
    let mtime_secs = read_be32(data, pos + 8);
    let mtime_nsecs = read_be32(data, pos + 12);
    let dev = read_be32(data, pos + 16);
    let ino = read_be32(data, pos + 20);
    let mode = read_be32(data, pos + 24);
    let uid = read_be32(data, pos + 28);
    let gid = read_be32(data, pos + 32);
    let size = read_be32(data, pos + 36);

    let mut hash = [0u8; 20];
    let mut i: usize = 0;
    while i < 20
        invariant
            i <= 20,
            pos + 62 <= data@.len(),
            data@.len() + 128 <= usize::MAX,
            forall|j: int| 0 <= j < i ==> hash@[j] == data@[pos + 40 + j],
        decreases 20 - i,
    {
        hash[i] = data[pos + 40 + i];
        i += 1;
    }
    assert(hash@ =~= data@.subrange(pos + 40, pos + 60));

    let flags = read_be16(data, pos + 60);
    let mut name_start = pos + 62;
    if flags & 0x4000u16 != 0 {
        name_start += 2;
    }
    let name_len = (flags & 0x0FFFu16) as usize;
    if name_start > data.len() || name_len > data.len() - name_start {
        return None;
    }
    let name_end = name_start + name_len;
    let name_bytes = copy_range(data, name_start, name_end);
    let path = from_utf8_lossy(name_bytes.as_slice());
    let entry_len = name_end - pos;
    let padding = 8 - (entry_len % 8);
    let entry = IndexEntry {
        ctime_secs,
        ctime_nsecs,
        mtime_secs,
        mtime_nsecs,
        dev,
        ino,
        mode,
        uid,
        gid,
        size,
        hash,
        path,
    };
    Some((entry, name_end + padding))
}

/// Parses the contents of an index file into its entries.
pub fn read_index(data: &[u8]) -> (r: Result<Vec<IndexEntry>, IndexError>)
    requires
        data@.len() + 128 <= usize::MAX,
    ensures
        match parse_index(data@) {
            Ok(es) => r matches Ok(v) && views(v@) == es,
            Err(e) => r == Err::<Vec<IndexEntry>, IndexError>(e),
        },
{
    if data.len() < 12 {
        return Err(IndexError::TooShort);
    }
    let sig: [u8; 4] = [68u8, 73u8, 82u8, 67u8];
    if !crate::bytes::bytes_match_at(data, 0, sig.as_slice()) {
        assert(sig@ =~= signature());
        return Err(IndexError::BadSignature);
    }
    assert(sig@ =~= signature());
    let version = read_be32(data, 4);
    if version != 2 {
        return Err(IndexError::UnsupportedVersion(version));
    }
    let entry_count = read_be32(data, 8) as usize;
    let ghost total = entry_count as nat;

    let mut entries: Vec<IndexEntry> = Vec::new();
    let mut pos: usize = 12;
    let mut c: usize = 0;
    while c < entry_count
        invariant
            data@.len() + 128 <= usize::MAX,
            c <= entry_count,
            total == entry_count,
            parse_index(data@) == match entries_from(data@, 12, total) {
                None => Err(IndexError::Truncated),
                Some(es) => Ok(es),
            },
            pos <= data@.len() + 8,
            entries_from(data@, 12, total) == match entries_from(
                data@,
                pos as int,
                (total - c) as nat,
            ) {
                None => None,
                Some(rest) => Some(views(entries@) + rest),
            },
        decreases entry_count - c,
    {
        match read_entry(data, pos) {
            None => {
                assert(entries_from(data@, pos as int, (total - c) as nat) is None);
                return Err(IndexError::Truncated);
            },
            Some((entry, next)) => {
                let ghost before = views(entries@);
                let ghost ev = entry@;
                entries.push(entry);
                proof {
                    assert(views(entries@) =~= before.push(ev));
                    match entries_from(data@, next as int, (total - c - 1) as nat) {
                        None => {},
                        Some(rest) => {
                            assert(before + (seq![ev] + rest) =~= before.push(ev) + rest);
                        },
                    }
                }
                pos = next;
                c += 1;
            },
        }
    }
    proof {
        assert(views(entries@) + Seq::<EntryView>::empty() =~= views(entries@));
    }
    Ok(entries)
}

/// Lexicographic order of character sequences (by code point).
pub open spec fn chars_le(a: Seq<char>, b: Seq<char>) -> bool
    decreases a.len(),
{
    if a.len() == 0 {
        true
    } else if b.len() == 0 {
        false
    } else if a[0] != b[0] {
        (a[0] as u32) < (b[0] as u32)
    } else {
        chars_le(a.drop_first(), b.drop_first())
    }
}

/// Whether `a` sorts no later than `b`.
pub fn str_le(a: &str, b: &str) -> (r: bool)
    ensures
        r == chars_le(a@, b@),
{
    let x = chars_of(a);
    let y = chars_of(b);
    let mut i: usize = 0;
    assert(a@.skip(0) =~= a@);
    assert(b@.skip(0) =~= b@);
    while i < x.len() && i < y.len()
        invariant
            x@ == a@,
            y@ == b@,
            i <= x@.len(),
            i <= y@.len(),
            chars_le(a@, b@) == chars_le(a@.skip(i as int), b@.skip(i as int)),
        decreases x@.len() - i,
    {
        if x[i] != y[i] {
            return (x[i] as u32) < (y[i] as u32);
        }
        assert(a@.skip(i as int).drop_first() =~= a@.skip(i + 1));
        assert(b@.skip(i as int).drop_first() =~= b@.skip(i + 1));
        i += 1;
    }
    i == x.len()
}

/// Inserts `e` after the last element that sorts no later than it.
pub open spec fn insert_sorted(s: Seq<EntryView>, e: EntryView) -> Seq<EntryView>
    decreases s.len(),
{
    if s.len() == 0 {
        seq![e]
    } else if chars_le(s.last().path, e.path) {
        s.push(e)
    } else {
        insert_sorted(s.drop_last(), e).push(s.last())
    }
}

/// The entries stably sorted by path.
pub open spec fn sort_by_path(s: Seq<EntryView>) -> Seq<EntryView>
    decreases s.len(),
{
    if s.len() == 0 {
        seq![]
    } else {
        insert_sorted(sort_by_path(s.drop_last()), s.last())
    }
}

/// Each entry's path sorts no later than the paths after it.
pub open spec fn path_sorted(s: Seq<EntryView>) -> bool {
    forall|i: int, j: int| 0 <= i < j < s.len() ==> chars_le(#[trigger] s[i].path, #[trigger] s[j].path)
}

proof fn lemma_insert_sorted(s: Seq<EntryView>, e: EntryView)
    requires
        path_sorted(s),
    ensures
        path_sorted(insert_sorted(s, e)),
        insert_sorted(s, e).to_multiset() == s.to_multiset().insert(e),
    decreases s.len(),
{
    broadcast use vstd::seq_lib::group_to_multiset_ensures;
    if s.len() == 0 {
        assert(seq![e] =~= Seq::<EntryView>::empty().push(e));
    } else if chars_le(s.last().path, e.path) {
        let r = s.push(e);
        assert forall|i: int, j: int| 0 <= i < j < r.len() implies chars_le(#[trigger] r[i].path, #[trigger] r[j].path) by {
            if j == s.len() {
                assert(r[i] == s[i]);
                if i < s.len() - 1 {
                    assert(chars_le(s[i].path, s[s.len() - 1].path));
                } else {
                    crate::paths::lemma_le_refl(s.last().path);
                }
                crate::paths::lemma_le_trans(s[i].path, s.last().path, e.path);
            } else {
                assert(r[i] == s[i] && r[j] == s[j]);
            }
        }
    } else {
        let s0 = s.drop_last();
        let l = s.last();
        assert forall|i: int, j: int| 0 <= i < j < s0.len() implies chars_le(#[trigger] s0[i].path, #[trigger] s0[j].path) by {
            assert(s0[i] == s[i] && s0[j] == s[j]);
        }
        lemma_insert_sorted(s0, e);
        let q = insert_sorted(s0, e);
        let r = q.push(l);
        crate::paths::lemma_le_total(l.path, e.path);
        assert(s0.push(l) =~= s);
        assert forall|i: int, j: int| 0 <= i < j < r.len() implies chars_le(#[trigger] r[i].path, #[trigger] r[j].path) by {
            if j == q.len() {
                assert(r[i] == q[i]);
                assert(q.to_multiset().count(q[i]) > 0);
                if q[i] != e {
                    assert(s0.to_multiset().count(q[i]) > 0);
                    let k = choose|k: int| 0 <= k < s0.len() && s0[k] == q[i];
                    assert(s[k] == q[i]);
                    assert(chars_le(s[k].path, s[s.len() - 1].path));
                }
            } else {
                assert(r[i] == q[i] && r[j] == q[j]);
            }
        }
    }
}

/// The stable sort by path orders entries by path and keeps every entry:
/// the result is sorted and holds the same entries, as many times each.
pub proof fn sort_by_path_sorts(s: Seq<EntryView>)
    ensures
        path_sorted(sort_by_path(s)),
        sort_by_path(s).to_multiset() == s.to_multiset(),
    decreases s.len(),
{
    broadcast use vstd::seq_lib::group_to_multiset_ensures;
    if s.len() > 0 {
        sort_by_path_sorts(s.drop_last());
        lemma_insert_sorted(sort_by_path(s.drop_last()), s.last());
        assert(s.drop_last().push(s.last()) =~= s);
    }
}

/// Sorts entries by path, keeping the order of entries with equal paths.
pub fn sort_entries(entries: Vec<IndexEntry>) -> (r: Vec<IndexEntry>)
    ensures
        views(r@) == sort_by_path(views(entries@)),
{
    let ghost orig = views(entries@);
    let n = entries.len();
    let mut src = reverse_vec(entries);
    let mut out: Vec<IndexEntry> = Vec::new();
    while src.len() > 0
        invariant
            src@.len() <= n,
            n == orig.len(),
            views(src@) == orig.subrange(n - src@.len(), n as int).reverse(),
            views(out@) == sort_by_path(orig.subrange(0, n - src@.len())),
        decreases src@.len(),
    {
        let ghost done = n - src@.len();
        let ghost src_before = views(src@);
        let e = src.pop().unwrap();
        proof {
            assert(src_before.last() == e@);
            assert(orig.subrange(n - src_before.len(), n as int).reverse().last() == orig[done]);
            assert(views(src@) =~= src_before.drop_last());
            assert(orig.subrange(n - src@.len(), n as int).reverse() =~= orig.subrange(
                n - src_before.len(),
                n as int,
            ).reverse().drop_last());
        }
        let ghost s0 = views(out@);
        let mut j = out.len();
        assert(s0.subrange(0, j as int) =~= s0);
        assert(insert_sorted(s0, e@) + s0.subrange(j as int, s0.len() as int) =~= insert_sorted(
            s0,
            e@,
        ));
        while j > 0 && !str_le(out[j - 1].path.as_str(), e.path.as_str())
            invariant
                j <= out@.len(),
                s0 == views(out@),
                insert_sorted(s0, e@) == insert_sorted(s0.subrange(0, j as int), e@) + s0.subrange(
                    j as int,
                    s0.len() as int,
                ),
            decreases j,
        {
            proof {
                let t = s0.subrange(0, j as int);
                assert(t.drop_last() =~= s0.subrange(0, j - 1));
                assert(t.last() == s0[j - 1]);
                assert(insert_sorted(t, e@) == insert_sorted(t.drop_last(), e@).push(t.last()));
                assert(insert_sorted(s0.subrange(0, j - 1), e@).push(s0[j - 1]) + s0.subrange(
                    j as int,
                    s0.len() as int,
                ) =~= insert_sorted(s0.subrange(0, j - 1), e@) + s0.subrange(j - 1, s0.len() as int));
            }
            j -= 1;
        }
        proof {
            let t = s0.subrange(0, j as int);
            if j > 0 {
                assert(t.last() == s0[j - 1]);
                assert(insert_sorted(t, e@) == t.push(e@));
            } else {
                assert(t =~= Seq::<EntryView>::empty());
            }
        }
        let ghost ev = e@;
        out.insert(j, e);
        proof {
            assert(views(out@) =~= s0.subrange(0, j as int).push(ev) + s0.subrange(j as int, s0.len() as int));
            let pre = orig.subrange(0, done + 1);
            assert(pre.drop_last() =~= orig.subrange(0, done));
            assert(pre.last() == orig[done]);
        }
    }
    proof {
        assert(orig.subrange(0, n as int) =~= orig);
    }
    out
}

/// Appends one entry in its on-disk form.
fn push_entry(buf: &mut Vec<u8>, entry: &IndexEntry)
    requires
        old(buf)@.len() + encode_utf8(entry.path@).len() + 128 <= usize::MAX,
    ensures
        final(buf)@ == old(buf)@ + entry_bytes(entry@),
{
    let entry_start = buf.len();
    push_be32(buf, entry.ctime_secs);
    push_be32(buf, entry.ctime_nsecs);
    push_be32(buf, entry.mtime_secs);
    push_be32(buf, entry.mtime_nsecs);
    push_be32(buf, entry.dev);
    push_be32(buf, entry.ino);
    push_be32(buf, entry.mode);
    push_be32(buf, entry.uid);
    push_be32(buf, entry.gid);
    push_be32(buf, entry.size);
    push_all(buf, entry.hash.as_slice());

    let name_bytes = utf8_bytes(entry.path.as_str());
    let name_len: u16 = if name_bytes.len() < 0x0FFF {
        name_bytes.len() as u16
    } else {
        0x0FFFu16
    };
    push_be16(buf, name_len);
    push_all(buf, name_bytes.as_slice());

    let ghost fixed = buf@.subrange(entry_start as int, buf@.len() as int);
    let entry_len = buf.len() - entry_start;
    let padding = 8 - (entry_len % 8);
    let ghost before_pad = buf@;
    let mut k: usize = 0;
    while k < padding
        invariant
            k <= padding <= 8,
            buf@.len() == before_pad.len() + k,
            before_pad.len() + 8 <= usize::MAX,
            buf@ == before_pad + Seq::new(k as nat, |i: int| 0u8),
        decreases padding - k,
    {
        buf.push(0u8);
        k += 1;
        assert(buf@ =~= before_pad + Seq::new(k as nat, |i: int| 0u8));
    }
    proof {
        let e = entry@;
        let nb = encode_utf8(e.path);
        assert(fixed =~= stat_bytes(e) + e.hash + be16(name_field(nb.len() as int)) + nb);
        assert(buf@ =~= old(buf)@ + entry_bytes(e));
    }
}

/// Room that one entry may take on disk, with some slack.
pub open spec fn entry_room(e: EntryView) -> nat {
    128 + e.hash.len() + encode_utf8(e.path).len()
}

/// Total room the entries may take on disk.
pub open spec fn entries_room(es: Seq<EntryView>) -> nat
    decreases es.len(),
{
    if es.len() == 0 {
        0
    } else {
        entries_room(es.drop_last()) + entry_room(es.last())
    }
}

proof fn lemma_room_insert(s: Seq<EntryView>, e: EntryView)
    ensures
        entries_room(insert_sorted(s, e)) == entries_room(s) + entry_room(e),
    decreases s.len(),
{
    if s.len() > 0 && !chars_le(s.last().path, e.path) {
        lemma_room_insert(s.drop_last(), e);
        assert(insert_sorted(s, e).drop_last() =~= insert_sorted(s.drop_last(), e));
    } else if s.len() > 0 {
        assert(s.push(e).drop_last() =~= s);
    } else {
        assert(seq![e].drop_last() =~= s);
    }
}

proof fn lemma_room_sort(s: Seq<EntryView>)
    ensures
        entries_room(sort_by_path(s)) == entries_room(s),
    decreases s.len(),
{
    if s.len() > 0 {
        lemma_room_sort(s.drop_last());
        lemma_room_insert(sort_by_path(s.drop_last()), s.last());
    }
}

proof fn lemma_room_prefix(s: Seq<EntryView>, i: int)
    requires
        0 <= i < s.len(),
    ensures
        entries_room(s.subrange(0, i)) + entry_room(s[i]) <= entries_room(s),
        entries_room(s.subrange(0, i + 1)) == entries_room(s.subrange(0, i)) + entry_room(s[i]),
    decreases s.len(),
{
    assert(s.subrange(0, i + 1).drop_last() =~= s.subrange(0, i));
    if i + 1 < s.len() {
        lemma_room_prefix(s.drop_last(), i);
        assert(s.drop_last().subrange(0, i) =~= s.subrange(0, i));
        assert(s.drop_last().subrange(0, i + 1) =~= s.subrange(0, i + 1));
    } else {
        assert(s.subrange(0, i + 1) =~= s);
    }
}

proof fn lemma_entry_len(e: EntryView)
    ensures
        entry_bytes(e).len() <= entry_room(e),
{
    let nb = encode_utf8(e.path);
    let fixed = stat_bytes(e) + e.hash + be16(name_field(nb.len() as int)) + nb;
    assert(stat_bytes(e).len() == 40);
    assert(fixed.len() == 62 + e.hash.len() - 20 + nb.len());
}

proof fn lemma_entries_len(s: Seq<EntryView>)
    ensures
        entries_bytes(s).len() <= entries_room(s),
    decreases s.len(),
{
    if s.len() > 0 {
        lemma_entries_len(s.drop_last());
        lemma_entry_len(s.last());
    }
}

/// Sorts the entries by path and returns the index file for them: header,
/// entries and the SHA-1 checksum of everything before it.
pub fn write_index(entries: &mut Vec<IndexEntry>) -> (r: Vec<u8>)
    requires
        entries_room(views(old(entries)@)) + 64 <= usize::MAX,
    ensures
        views(final(entries)@) == sort_by_path(views(old(entries)@)),
        r@ == index_file(views(final(entries)@)),
        (forall|i: int| 0 <= i < old(entries)@.len() ==> storable(#[trigger] views(old(entries)@)[i]))
            && old(entries)@.len() < 0x1_0000_0000 ==> parse_index(r@) == Ok::<Seq<EntryView>, IndexError>(
            views(final(entries)@),
        ),
{
    let mut taken: Vec<IndexEntry> = Vec::new();
    std::mem::swap(&mut taken, entries);
    let sorted = sort_entries(taken);
    *entries = sorted;
    let ghost es = views(entries@);
    proof {
        lemma_room_sort(views(old(entries)@));
    }
    let mut buf: Vec<u8> = Vec::new();
    buf.push(68u8);
    buf.push(73u8);
    buf.push(82u8);
    buf.push(67u8);
    push_be32(&mut buf, 2u32);
    let n = entries.len();
    push_be32(&mut buf, n as u32);
    proof {
        assert(buf@ =~= signature() + be32(2) + be32(es.len() as u32) + entries_bytes(
            es.subrange(0, 0),
        ));
    }
    let mut i: usize = 0;
    while i < n
        invariant
            n == entries@.len(),
            es == views(entries@),
            i <= n,
            entries_room(es) + 64 <= usize::MAX,
            buf@ == signature() + be32(2) + be32(es.len() as u32) + entries_bytes(
                es.subrange(0, i as int),
            ),
        decreases n - i,
    {
        proof {
            lemma_room_prefix(es, i as int);
            lemma_entries_len(es.subrange(0, i as int));
            assert(es[i as int] == entries@[i as int]@);
        }
        push_entry(&mut buf, &entries[i]);
        proof {
            let pre = es.subrange(0, i + 1);
            assert(pre.drop_last() =~= es.subrange(0, i as int));
            assert(pre.last() == es[i as int]);
        }
        i += 1;
    }
    proof {
        assert(es.subrange(0, n as int) =~= es);
        lemma_entries_len(es);
        assert(buf@ == index_body(es));
    }
    let digest = sha1_of(buf.as_slice());
    push_all(&mut buf, digest.as_slice());
    proof {
        let ov = views(old(entries)@);
        if (forall|i: int| 0 <= i < ov.len() ==> storable(#[trigger] ov[i])) && ov.len() < 0x1_0000_0000 {
            lemma_sort_storable(ov);
            index_roundtrip(es);
        }
    }
    buf
}

proof fn lemma_insert_storable(s: Seq<EntryView>, e: EntryView)
    ensures
        insert_sorted(s, e).len() == s.len() + 1,
        (forall|i: int| 0 <= i < s.len() ==> storable(#[trigger] s[i])) && storable(e) ==> forall|i: int|
            0 <= i < insert_sorted(s, e).len() ==> storable(#[trigger] insert_sorted(s, e)[i]),
    decreases s.len(),
{
    if s.len() > 0 && !chars_le(s.last().path, e.path) {
        lemma_insert_storable(s.drop_last(), e);
        let t = insert_sorted(s.drop_last(), e);
        if (forall|i: int| 0 <= i < s.len() ==> storable(#[trigger] s[i])) && storable(e) {
            assert forall|i: int| 0 <= i < s.drop_last().len() implies storable(#[trigger] s.drop_last()[i]) by {
                assert(s.drop_last()[i] == s[i]);
            }
            assert forall|i: int| 0 <= i < t.push(s.last()).len() implies storable(#[trigger] t.push(s.last())[i]) by {
                if i < t.len() {
                    assert(t.push(s.last())[i] == t[i]);
                }
            }
        }
    } else if s.len() > 0 {
        if (forall|i: int| 0 <= i < s.len() ==> storable(#[trigger] s[i])) && storable(e) {
            assert forall|i: int| 0 <= i < s.push(e).len() implies storable(#[trigger] s.push(e)[i]) by {
                if i < s.len() {
                    assert(s.push(e)[i] == s[i]);
                }
            }
        }
    }
}

proof fn lemma_sort_storable(s: Seq<EntryView>)
    ensures
        sort_by_path(s).len() == s.len(),
        (forall|i: int| 0 <= i < s.len() ==> storable(#[trigger] s[i])) ==> forall|i: int|
            0 <= i < sort_by_path(s).len() ==> storable(#[trigger] sort_by_path(s)[i]),
    decreases s.len(),
{
    if s.len() > 0 {
        lemma_sort_storable(s.drop_last());
        lemma_insert_storable(sort_by_path(s.drop_last()), s.last());
        if forall|i: int| 0 <= i < s.len() ==> storable(#[trigger] s[i]) {
            assert forall|i: int| 0 <= i < s.drop_last().len() implies storable(#[trigger] s.drop_last()[i]) by {
                assert(s.drop_last()[i] == s[i]);
            }
            assert(storable(s[s.len() - 1]));
        }
    }
}

/// An entry whose fields an index file can hold exactly.
pub open spec fn storable(e: EntryView) -> bool {
    e.hash.len() == 20 && encode_utf8(e.path).len() < 0x0FFF
}

proof fn lemma_be32_read(data: Seq<u8>, p: int, v: u32)
    requires
        0 <= p,
        p + 4 <= data.len(),
        data.subrange(p, p + 4) == be32(v),
    ensures
        be32_at(data, p) == v,
{
    crate::bytes::lemma_be32_roundtrip(v);
    assert(data[p] == data.subrange(p, p + 4)[0]);
    assert(data[p + 1] == data.subrange(p, p + 4)[1]);
    assert(data[p + 2] == data.subrange(p, p + 4)[2]);
    assert(data[p + 3] == data.subrange(p, p + 4)[3]);
}

proof fn lemma_be16_read(data: Seq<u8>, p: int, v: u16)
    requires
        0 <= p,
        p + 2 <= data.len(),
        data.subrange(p, p + 2) == be16(v),
    ensures
        be16_at(data, p) == v,
{
    crate::bytes::lemma_be16_roundtrip(v);
    assert(data[p] == data.subrange(p, p + 2)[0]);
    assert(data[p + 1] == data.subrange(p, p + 2)[1]);
}

proof fn lemma_field(data: Seq<u8>, pos: int, eb: Seq<u8>, a: int, b: int, part: Seq<u8>)
    requires
        0 <= pos,
        0 <= a <= b <= eb.len(),
        pos + eb.len() <= data.len(),
        data.subrange(pos, pos + eb.len()) == eb,
        eb.subrange(a, b) == part,
    ensures
        data.subrange(pos + a, pos + b) == part,
{
    assert(data.subrange(pos + a, pos + b) =~= eb.subrange(a, b));
}

/// An entry written by `entry_bytes` reads back as itself.
proof fn lemma_entry_roundtrip(data: Seq<u8>, pos: int, e: EntryView)
    requires
        0 <= pos,
        storable(e),
        pos + entry_bytes(e).len() <= data.len(),
        data.subrange(pos, pos + entry_bytes(e).len()) == entry_bytes(e),
    ensures
        entry_at(data, pos) == Some((e, pos + entry_bytes(e).len())),
{
    let eb = entry_bytes(e);
    let nb = encode_utf8(e.path);
    let st = stat_bytes(e);
    let nl = name_field(nb.len() as int);
    let fixed = st + e.hash + be16(nl) + nb;
    assert(st.len() == 40);
    assert(fixed.len() == 62 + nb.len());
    assert(eb.subrange(0, 4) =~= be32(e.ctime_secs));
    assert(eb.subrange(4, 8) =~= be32(e.ctime_nsecs));
    assert(eb.subrange(8, 12) =~= be32(e.mtime_secs));
    assert(eb.subrange(12, 16) =~= be32(e.mtime_nsecs));
    assert(eb.subrange(16, 20) =~= be32(e.dev));
    assert(eb.subrange(20, 24) =~= be32(e.ino));
    assert(eb.subrange(24, 28) =~= be32(e.mode));
    assert(eb.subrange(28, 32) =~= be32(e.uid));
    assert(eb.subrange(32, 36) =~= be32(e.gid));
    assert(eb.subrange(36, 40) =~= be32(e.size));
    assert(eb.subrange(40, 60) =~= e.hash);
    assert(eb.subrange(60, 62) =~= be16(nl));
    assert(eb.subrange(62, 62 + nb.len() as int) =~= nb);
    lemma_field(data, pos, eb, 0, 4, be32(e.ctime_secs));
    lemma_field(data, pos, eb, 4, 8, be32(e.ctime_nsecs));
    lemma_field(data, pos, eb, 8, 12, be32(e.mtime_secs));
    lemma_field(data, pos, eb, 12, 16, be32(e.mtime_nsecs));
    lemma_field(data, pos, eb, 16, 20, be32(e.dev));
    lemma_field(data, pos, eb, 20, 24, be32(e.ino));
    lemma_field(data, pos, eb, 24, 28, be32(e.mode));
    lemma_field(data, pos, eb, 28, 32, be32(e.uid));
    lemma_field(data, pos, eb, 32, 36, be32(e.gid));
    lemma_field(data, pos, eb, 36, 40, be32(e.size));
    lemma_field(data, pos, eb, 40, 60, e.hash);
    lemma_field(data, pos, eb, 60, 62, be16(nl));
    lemma_field(data, pos, eb, 62, 62 + nb.len() as int, nb);
    lemma_be32_read(data, pos, e.ctime_secs);
    lemma_be32_read(data, pos + 4, e.ctime_nsecs);
    lemma_be32_read(data, pos + 8, e.mtime_secs);
    lemma_be32_read(data, pos + 12, e.mtime_nsecs);
    lemma_be32_read(data, pos + 16, e.dev);
    lemma_be32_read(data, pos + 20, e.ino);
    lemma_be32_read(data, pos + 24, e.mode);
    lemma_be32_read(data, pos + 28, e.uid);
    lemma_be32_read(data, pos + 32, e.gid);
    lemma_be32_read(data, pos + 36, e.size);
    lemma_be16_read(data, pos + 60, nl);
    assert(nl == nb.len());
    assert(nl < 0x0FFFu16 ==> nl & 0x4000u16 == 0u16 && nl & 0x0FFFu16 == nl) by (bit_vector);
    vstd::utf8::encode_utf8_valid_utf8(e.path);
    vstd::utf8::encode_utf8_decode_utf8(e.path);
    match entry_at(data, pos) {
        Some((x, next)) => {
            assert(x.path == e.path);
            assert(x == e);
            assert(next == pos + eb.len());
        },
        None => {},
    }
}

proof fn lemma_entries_front(e: EntryView, rest: Seq<EntryView>)
    ensures
        entries_bytes(seq![e] + rest) == entry_bytes(e) + entries_bytes(rest),
    decreases rest.len(),
{
    let whole = seq![e] + rest;
    if rest.len() == 0 {
        assert(whole =~= seq![e]);
        assert(whole.drop_last() =~= Seq::<EntryView>::empty());
        assert(entries_bytes(whole) == entries_bytes(whole.drop_last()) + entry_bytes(whole.last()));
        assert(entries_bytes(Seq::<EntryView>::empty()) == Seq::<u8>::empty());
        assert(entry_bytes(e) + entries_bytes(rest) =~= entry_bytes(e));
        assert(Seq::<u8>::empty() + entry_bytes(e) =~= entry_bytes(e));
    } else {
        lemma_entries_front(e, rest.drop_last());
        assert(whole.drop_last() =~= seq![e] + rest.drop_last());
        assert(whole.last() == rest.last());
        assert(entries_bytes(whole) == entries_bytes(whole.drop_last()) + entry_bytes(whole.last()));
        assert(entries_bytes(rest) == entries_bytes(rest.drop_last()) + entry_bytes(rest.last()));
        assert(entry_bytes(e) + entries_bytes(rest.drop_last()) + entry_bytes(rest.last())
            =~= entry_bytes(e) + entries_bytes(rest));
    }
}

#[verifier::spinoff_prover]
proof fn lemma_entries_roundtrip(data: Seq<u8>, pos: int, es: Seq<EntryView>)
    requires
        0 <= pos,
        forall|i: int| 0 <= i < es.len() ==> storable(#[trigger] es[i]),
        pos + entries_bytes(es).len() <= data.len(),
        data.subrange(pos, pos + entries_bytes(es).len()) == entries_bytes(es),
    ensures
        entries_from(data, pos, es.len()) == Some(es),
    decreases es.len(),
{
    if es.len() > 0 {
        let e = es[0];
        let rest = es.drop_first();
        assert(es =~= seq![e] + rest);
        lemma_entries_front(e, rest);
        let eb = entry_bytes(e);
        let rb = entries_bytes(rest);
        assert(storable(es[0]));
        assert(entries_bytes(es) == eb + rb);
        assert(data.subrange(pos, pos + eb.len()) =~= (eb + rb).subrange(0, eb.len() as int));
        assert((eb + rb).subrange(0, eb.len() as int) =~= eb);
        lemma_entry_roundtrip(data, pos, e);
        assert(data.subrange(pos + eb.len(), pos + eb.len() + rb.len()) =~= (eb + rb).subrange(
            eb.len() as int,
            (eb.len() + rb.len()) as int,
        ));
        assert((eb + rb).subrange(eb.len() as int, (eb.len() + rb.len()) as int) =~= rb);
        assert forall|i: int| 0 <= i < rest.len() implies storable(#[trigger] rest[i]) by {
            assert(rest[i] == es[i + 1]);
        }
        lemma_entries_roundtrip(data, pos + eb.len(), rest);
        assert(seq![e] + rest =~= es);
    }
}

/// Reading back a written index gives the entries that were written: for
/// entries whose hash is 20 bytes and whose path takes fewer than 0xFFF bytes
/// of UTF-8, and fewer than 2^32 of them, `parse_index(index_file(es)) == Ok(es)`.
pub proof fn index_roundtrip(es: Seq<EntryView>)
    requires
        forall|i: int| 0 <= i < es.len() ==> storable(#[trigger] es[i]),
        es.len() < 0x1_0000_0000,
    ensures
        parse_index(index_file(es)) == Ok::<Seq<EntryView>, IndexError>(es),
{
    let body = index_body(es);
    let data = index_file(es);
    let eb = entries_bytes(es);
    let n = es.len() as u32;
    assert(data.subrange(0, 4) =~= signature());
    assert(data.subrange(4, 8) =~= be32(2));
    assert(data.subrange(8, 12) =~= be32(n));
    lemma_be32_read(data, 4, 2);
    lemma_be32_read(data, 8, n);
    assert(data.subrange(12, 12 + eb.len() as int) =~= eb);
    lemma_entries_roundtrip(data, 12, es);
}

/// The file-system facts an entry records, as read from a file's metadata.
#[derive(Debug, Clone, Copy)]
pub struct StatInfo {
    pub ctime_secs: u32,
    pub ctime_nsecs: u32,
    pub mtime_secs: u32,
    pub mtime_nsecs: u32,
    pub dev: u32,
    pub ino: u32,
    pub uid: u32,
    pub gid: u32,
    pub executable: bool,
}

/// The index entry for `rel_path` holding blob `hash`: mode 100755 for an
/// executable file, else 100644; the size is the file length truncated to 32 bits.
pub fn build_entry(rel_path: &str, hash: [u8; 20], stat: &StatInfo, file_len: u64) -> (r: IndexEntry)
    ensures
        r.mode == (if stat.executable { 0o100755u32 } else { 0o100644u32 }),
        r.size == file_len as u32,
        r.hash == hash,
        r.path@ == rel_path@,
        r.ctime_secs == stat.ctime_secs,
        r.ctime_nsecs == stat.ctime_nsecs,
        r.mtime_secs == stat.mtime_secs,
        r.mtime_nsecs == stat.mtime_nsecs,
        r.dev == stat.dev,
        r.ino == stat.ino,
        r.uid == stat.uid,
        r.gid == stat.gid,
{
    let mode: u32 = if stat.executable { 0o100755u32 } else { 0o100644u32 };
    IndexEntry {
        ctime_secs: stat.ctime_secs,
        ctime_nsecs: stat.ctime_nsecs,
        mtime_secs: stat.mtime_secs,
        mtime_nsecs: stat.mtime_nsecs,
        dev: stat.dev,
        ino: stat.ino,
        mode,
        uid: stat.uid,
        gid: stat.gid,
        size: file_len as u32,
        hash,
        path: rel_path.to_string(),
    }
}
} // verus!
