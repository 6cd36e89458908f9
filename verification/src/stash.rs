//! Stash bookkeeping: the stash list file, `stash@{N}` references, and the
//! label a stash message gives the current `HEAD`.
use vstd::prelude::*;
use vstd::utf8::{decode_utf8, encode_utf8, valid_utf8};
use crate::refs::{head_view, HeadState, HeadView};
use crate::text::{
    chars_of, first_index, has_prefix, has_suffix, lines_of, push_str, split_lines, string_of,
    string_views, trim, trim_ws,
};

verus! {

/// One stash: the hash of its working-tree commit and its message.
#[derive(Debug, Clone)]
pub struct StashEntry {
    pub hash: String,
    pub message: String,
}

pub open spec fn digit_value(c: char) -> int {
    (c as u32) - 48
}

pub open spec fn all_digits(s: Seq<char>) -> bool {
    forall|i: int| 0 <= i < s.len() ==> '0' <= #[trigger] s[i] <= '9'
}

/// The number spelled by decimal digits.
pub open spec fn digits_value(s: Seq<char>) -> nat
    decreases s.len(),
{
    if s.len() == 0 {
        0
    } else {
        (digits_value(s.drop_last()) * 10 + digit_value(s.last())) as nat
    }
}

/// What `str::parse::<usize>` accepts: an optional `+` and at least one
/// decimal digit, with a value that fits in `usize`.
pub open spec fn parse_usize(s: Seq<char>) -> Option<nat> {
    let d = if s.len() > 0 && s[0] == '+' {
        s.skip(1)
    } else {
        s
    };
    if d.len() > 0 && all_digits(d) && digits_value(d) <= usize::MAX {
        Some(digits_value(d))
    } else {
        None
    }
}

/// The decimal text of a number is made of digits, has no leading zero and
/// spells that number; so parsing it gives the number back whenever it fits
/// in `usize`.
pub proof fn decimal_reads_back(n: nat)
    ensures
        all_digits(crate::text::decimal(n)),
        digits_value(crate::text::decimal(n)) == n,
        n > 0 ==> crate::text::decimal(n)[0] != '0',
        n <= usize::MAX ==> parse_usize(crate::text::decimal(n)) == Some(n),
    decreases n,
{
    let d = crate::text::decimal(n);
    if n < 10 {
        let c = crate::text::digit_char(n as int);
        assert(d == seq![c]);
        assert('0' <= c <= '9' && digit_value(c) == n) by {
            if n == 0 {} else if n == 1 {} else if n == 2 {} else if n == 3 {} else if n == 4 {}
            else if n == 5 {} else if n == 6 {} else if n == 7 {} else if n == 8 {} else {}
        }
        assert(d.drop_last() =~= Seq::<char>::empty());
        assert(d.last() == c);
        assert(digits_value(d) == digits_value(d.drop_last()) * 10 + digit_value(c));
        assert(digits_value(d) == n);
    } else {
        decimal_reads_back(n / 10);
        let h = crate::text::decimal(n / 10);
        let m = (n % 10) as int;
        let c = crate::text::digit_char(m);
        assert(d == h.push(c));
        assert('0' <= c <= '9' && digit_value(c) == m) by {
            if m == 0 {} else if m == 1 {} else if m == 2 {} else if m == 3 {} else if m == 4 {}
            else if m == 5 {} else if m == 6 {} else if m == 7 {} else if m == 8 {} else {}
        }
        assert(h.push(c).drop_last() =~= h);
        assert(h.push(c)[0] == h[0]);
        assert(d.last() == c);
        assert(digits_value(d) == digits_value(h) * 10 + m);
        assert((n / 10) * 10 + n % 10 == n);
        assert(digits_value(d) == n);
        assert forall|i: int| 0 <= i < d.len() implies '0' <= #[trigger] d[i] <= '9' by {
            if i < h.len() {
                assert(d[i] == h[i]);
            }
        }
    }
    if n <= usize::MAX {
        assert(d.len() > 0);
        assert(d[0] != '+') by {
            assert('0' <= d[0] <= '9');
        }
    }
}

proof fn lemma_digits_prefix_mono(s: Seq<char>, i: int)
    requires
        0 <= i <= s.len(),
        all_digits(s),
    ensures
        digits_value(s.take(i)) <= digits_value(s),
    decreases s.len() - i,
{
    if i < s.len() {
        lemma_digits_prefix_mono(s, i + 1);
        assert(s.take(i + 1).drop_last() =~= s.take(i));
        assert('0' <= s[i] <= '9');
    } else {
        assert(s.take(i) =~= s);
    }
}

/// Parses a decimal `usize` as `str::parse` does.
pub fn parse_usize_str(s: &str) -> (r: Option<usize>)
    ensures
        match parse_usize(s@) {
            None => r is None,
            Some(v) => r == Some(v as usize),
        },
{
    let cs = chars_of(s);
    let n = cs.len();
    let start: usize = if n > 0 && cs[0] == '+' { 1 } else { 0 };
    let ghost d = if s@.len() > 0 && s@[0] == '+' { s@.skip(1) } else { s@ };
    assert(cs@.skip(start as int) =~= d);
    if start == n {
        return None;
    }
    let mut v: usize = 0;
    let mut i = start;
    while i < n
        invariant
            cs@ == s@,
            n == cs@.len(),
            start <= i <= n,
            d == cs@.skip(start as int),
            d == (if s@.len() > 0 && s@[0] == '+' { s@.skip(1) } else { s@ }),
            d.len() > 0,
            all_digits(d.take(i - start)),
            v == digits_value(d.take(i - start)),
        decreases n - i,
    {
        let c = cs[i];
        proof {
            assert(d.take(i - start + 1).drop_last() =~= d.take(i - start));
            assert(d[i - start] == c);
        }
        if c < '0' || c > '9' {
            proof {
                assert(!('0' <= d[i - start] && d[i - start] <= '9'));
                assert(!all_digits(d));
            }
            return None;
        }
        let dv = (c as u32 - 48) as usize;
        proof {
            assert(all_digits(d.take(i - start + 1)));
            assert(digits_value(d.take(i - start + 1)) == v * 10 + dv);
        }
        let m = v.checked_mul(10);
        match m {
            None => {
                proof {
                    if all_digits(d) {
                        lemma_digits_prefix_mono(d, i - start + 1);
                    }
                }
                return None;
            },
            Some(m) => match m.checked_add(dv) {
                None => {
                    proof {
                        if all_digits(d) {
                            lemma_digits_prefix_mono(d, i - start + 1);
                        }
                    }
                    return None;
                },
                Some(nv) => {
                    v = nv;
                },
            },
        }
        i += 1;
    }
    assert(d.take(n - start) =~= d);
    Some(v)
}

/// The part of a stash reference that names the index: the inside of
/// `stash@{...}`, or the whole (trimmed) text.
pub open spec fn stash_ref_inner(t: Seq<char>) -> Seq<char> {
    if has_prefix(t, "stash@{"@) && has_suffix(t.skip(7), seq!['}']) {
        t.skip(7).drop_last()
    } else {
        t
    }
}

/// Why a stash reference was refused.
#[derive(Debug, Clone, PartialEq, Eq)]
pub enum StashError {
    /// Not `stash@{N}` or `N`; holds the reference as given.
    InvalidReference(String),
    /// The stash list is empty.
    NoEntries,
    /// `stash@{N}` names no entry; holds `N`.
    NoSuchEntry(usize),
    /// The entry's commit is not a commit with two parents; holds its index.
    Corrupted(usize),
}

/// The stash index that a reference names: `None` means `stash@{0}`;
/// otherwise `stash@{N}` or a bare `N`, surrounding whitespace ignored.
pub fn parse_stash_index(s: Option<&str>) -> (r: Result<usize, StashError>)
    ensures
        match s {
            None => r == Ok::<usize, StashError>(0),
            Some(raw) => match parse_usize(stash_ref_inner(trim_ws(raw@))) {
                Some(v) => r == Ok::<usize, StashError>(v as usize),
                None => r matches Err(StashError::InvalidReference(x)) && x@ == raw@,
            },
        },
{
    match s {
        None => Ok(0),
        Some(raw) => {
            proof {
                reveal_strlit("stash@{");
            }
            let t = trim(raw);
            let inner = match crate::text::strip_prefix(t.as_str(), "stash@{") {
                Some(rest) => {
                    if crate::text::ends_with(rest.as_str(), "}") {
                        proof {
                            reveal_strlit("}");
                            assert("}"@ =~= seq!['}']);
                        }
                        let k = rest.unicode_len();
                        crate::text::substring(rest.as_str(), 0, k - 1)
                    } else {
                        proof {
                            reveal_strlit("}");
                            assert("}"@ =~= seq!['}']);
                        }
                        t
                    }
                },
                None => t,
            };
            assert(inner@ =~= stash_ref_inner(trim_ws(raw@)));
            match parse_usize_str(inner.as_str()) {
                Some(v) => Ok(v),
                None => Err(StashError::InvalidReference(raw.to_string())),
            }
        },
    }
}

/// A stash-list line: the hash is everything before the first space, the
/// message everything after it (empty when there is no space).
pub open spec fn stash_line_entry(line: Seq<char>) -> (Seq<char>, Seq<char>) {
    let i = first_index(line, ' ');
    if i < 0 {
        (line, seq![])
    } else {
        (line.take(i), line.skip(i + 1))
    }
}

/// The non-empty lines as entries, oldest first.
pub open spec fn stash_lines(ls: Seq<Seq<char>>) -> Seq<(Seq<char>, Seq<char>)>
    decreases ls.len(),
{
    if ls.len() == 0 {
        seq![]
    } else {
        let r = stash_lines(ls.drop_last());
        if ls.last().len() == 0 {
            r
        } else {
            r.push(stash_line_entry(ls.last()))
        }
    }
}

pub open spec fn stash_views(es: Seq<StashEntry>) -> Seq<(Seq<char>, Seq<char>)> {
    es.map_values(|e: StashEntry| (e.hash@, e.message@))
}

fn split_at_space(line: &str) -> (r: StashEntry)
    ensures
        (r.hash@, r.message@) == stash_line_entry(line@),
{
    let cs = chars_of(line);
    let n = cs.len();
    let mut i: usize = 0;
    while i < n && cs[i] != ' '
        invariant
            cs@ == line@,
            n == cs@.len(),
            i <= n,
            forall|k: int| 0 <= k < i ==> cs@[k] != ' ',
        decreases n - i,
    {
        i += 1;
    }
    proof {
        crate::text::lemma_first_index_at(line@, ' ', i as int);
    }
    if i == n {
        let e = String::new();
        assert(e@ =~= Seq::<char>::empty());
        assert(line@.take(n as int) =~= line@);
        StashEntry { hash: line.to_string(), message: e }
    } else {
        let h = crate::text::substring(line, 0, i);
        let m = crate::text::substring(line, i + 1, n);
        assert(h@ =~= line@.take(i as int));
        assert(m@ =~= line@.skip(i + 1));
        StashEntry { hash: h, message: m }
    }
}

/// The stash list file's content as entries, newest first (`stash@{0}` first).
pub fn read_stash_list(content: &str) -> (r: Vec<StashEntry>)
    ensures
        stash_views(r@) == stash_lines(lines_of(content@)).reverse(),
{
    let lines = split_lines(content);
    let ghost lv = string_views(lines@);
    let mut oldest_first: Vec<StashEntry> = Vec::new();
    let mut i: usize = 0;
    assert(lv.take(0) =~= Seq::<Seq<char>>::empty());
    while i < lines.len()
        invariant
            lv == string_views(lines@),
            i <= lv.len(),
            stash_views(oldest_first@) == stash_lines(lv.take(i as int)),
        decreases lv.len() - i,
    {
        proof {
            let t = lv.take(i + 1);
            assert(t.drop_last() =~= lv.take(i as int));
            assert(t.last() == lines@[i as int]@);
        }
        if lines[i].unicode_len() > 0 {
            let e = split_at_space(lines[i].as_str());
            let ghost before = stash_views(oldest_first@);
            let ghost ev = (e.hash@, e.message@);
            oldest_first.push(e);
            assert(stash_views(oldest_first@) =~= before.push(ev));
        }
        i += 1;
    }
    assert(lv.take(lv.len() as int) =~= lv);
    assert(lv == lines_of(content@));
    let r = crate::util::reverse_vec(oldest_first);
    assert(stash_views(r@) =~= stash_views(oldest_first@).reverse());
    r
}

/// One stash-list line for an entry: hash, a space, message.
pub open spec fn stash_line(e: (Seq<char>, Seq<char>)) -> Seq<char> {
    e.0 + seq![' '] + e.1
}

/// The stash list file for `entries` (newest first): one line per entry,
/// oldest first, each ended by a newline.
pub open spec fn stash_file(entries: Seq<(Seq<char>, Seq<char>)>) -> Seq<char>
    decreases entries.len(),
{
    if entries.len() == 0 {
        seq![]
    } else {
        stash_file(entries.drop_first()) + stash_line(entries[0]) + seq!['\n']
    }
}

/// The content written for the stash list (newest first); empty for an
/// empty list, in which case the file is removed instead.
pub fn write_stash_list(entries: &Vec<StashEntry>) -> (r: String)
    ensures
        r@ == stash_file(stash_views(entries@)),
{
    let ghost ev = stash_views(entries@);
    let mut out: Vec<char> = Vec::new();
    let n = entries.len();
    let mut k: usize = n;
    assert(ev.skip(n as int) =~= Seq::<(Seq<char>, Seq<char>)>::empty());
    while k > 0
        invariant
            ev == stash_views(entries@),
            n == ev.len(),
            k <= n,
            out@ == stash_file(ev.skip(k as int)),
        decreases k,
    {
        k -= 1;
        push_str(&mut out, entries[k].hash.as_str());
        out.push(' ');
        push_str(&mut out, entries[k].message.as_str());
        out.push('\n');
        proof {
            let s = ev.skip(k as int);
            assert(s.drop_first() =~= ev.skip(k + 1));
            assert(s[0] == ev[k as int]);
        }
    }
    assert(ev.skip(0) =~= ev);
    string_of(&out)
}

/// The label of `HEAD` in a stash message: the branch name, or
/// `(detached HEAD at <first 7 bytes of the hash>)`.
pub open spec fn branch_label(head: HeadView) -> Seq<char> {
    match head {
        HeadView::Branch(b) => b,
        HeadView::Detached(h) => "(detached HEAD at "@ + short_of(h) + seq![')'],
    }
}

/// The first seven bytes of `h` (all of it when shorter), as text.
pub open spec fn short_of(h: Seq<char>) -> Seq<char> {
    let b = encode_utf8(h);
    decode_utf8(b.take(if b.len() < 7 { b.len() as int } else { 7 }))
}

/// Whether the first seven bytes of `h` end on a character boundary.
pub open spec fn short_ok(h: Seq<char>) -> bool {
    let b = encode_utf8(h);
    valid_utf8(b.take(if b.len() < 7 { b.len() as int } else { 7 }))
}

/// The abbreviated form of a hash: its first seven bytes.
pub fn short_hash(h: &str) -> (r: String)
    requires
        short_ok(h@),
    ensures
        r@ == short_of(h@),
{
    let b = crate::codec::utf8_bytes(h);
    let k: usize = if b.len() < 7 { b.len() } else { 7 };
    let part = crate::index::copy_range(b.as_slice(), 0, k);
    assert(part@ =~= b@.take(k as int));
    crate::codec::from_utf8_lossy(part.as_slice())
}

/// The label of `HEAD` used in stash messages.
pub fn current_branch_label(head: &HeadState) -> (r: String)
    requires
        head_view(*head) matches HeadView::Detached(h) ==> short_ok(h),
    ensures
        r@ == branch_label(head_view(*head)),
{
    match head {
        HeadState::Branch(b) => b.clone(),
        HeadState::Detached(h) => {
            let s = short_hash(h.as_str());
            let mut out: Vec<char> = Vec::new();
            push_str(&mut out, "(detached HEAD at ");
            push_str(&mut out, s.as_str());
            out.push(')');
            string_of(&out)
        },
    }
}

/// Picks the entry `index` of a stash list of `count` entries, as `apply`,
/// `pop` and `drop` do: an empty list and an index past its end are refused.
pub fn select_stash(index: usize, count: usize) -> (r: Result<usize, StashError>)
    ensures
        count == 0 ==> r == Err::<usize, StashError>(StashError::NoEntries),
        count > 0 && index >= count ==> r == Err::<usize, StashError>(StashError::NoSuchEntry(index)),
        count > 0 && index < count ==> r == Ok::<usize, StashError>(index),
{
    if count == 0 {
        Err(StashError::NoEntries)
    } else if index >= count {
        Err(StashError::NoSuchEntry(index))
    } else {
        Ok(index)
    }
}

/// The two parents a stash commit records: `HEAD` when it was made, then
/// the commit of the index; `None` when it has fewer than two.
pub open spec fn stash_parents_of(text: Seq<char>) -> Option<(Seq<char>, Seq<char>)> {
    let ps = crate::commit::prefixed(crate::commit::header_lines(lines_of(text)), crate::commit::parent_prefix());
    if ps.len() < 2 {
        None
    } else {
        Some((ps[0], ps[1]))
    }
}

/// Reads the commit of the stash entry `index`: it must be a commit with at
/// least two parents; returns the first two.
pub fn stash_commit_parents(index: usize, kind: &str, content: &[u8]) -> (r: Result<(String, String), StashError>)
    ensures
        kind@ != "commit"@ ==> r == Err::<(String, String), StashError>(StashError::Corrupted(index)),
        kind@ == "commit"@ ==> match stash_parents_of(crate::codec::lossy_decode(content@)) {
            None => r == Err::<(String, String), StashError>(StashError::Corrupted(index)),
            Some(pp) => r matches Ok(x) && x.0@ == pp.0 && x.1@ == pp.1,
        },
{
    if !crate::text::str_eq(kind, "commit") {
        return Err(StashError::Corrupted(index));
    }
    let text = crate::codec::from_utf8_lossy(content);
    let ps = crate::commit::commit_parents(text.as_str());
    if ps.len() < 2 {
        return Err(StashError::Corrupted(index));
    }
    assert(string_views(ps@)[0] == ps@[0]@);
    assert(string_views(ps@)[1] == ps@[1]@);
    Ok((ps[0].clone(), ps[1].clone()))
}

/// The message of the index commit of a stash.
pub open spec fn index_message(label: Seq<char>, short_head: Seq<char>, subject: Seq<char>) -> Seq<char> {
    "index on "@ + label + ": "@ + short_head + seq![' '] + subject
}

/// The message of a stash: `On <label>: <message>` when one is given, else
/// `WIP on <label>: <short head> <subject>`.
pub open spec fn stash_message(label: Seq<char>, short_head: Seq<char>, subject: Seq<char>, message: Option<
    Seq<char>,
>) -> Seq<char> {
    match message {
        Some(m) => "On "@ + label + ": "@ + m,
        None => "WIP on "@ + label + ": "@ + short_head + seq![' '] + subject,
    }
}

/// The index-commit message and the stash message of `stash push`.
pub fn stash_messages(label: &str, short_head: &str, subject: &str, message: Option<&str>) -> (r: (String, String))
    ensures
        r.0@ == index_message(label@, short_head@, subject@),
        r.1@ == stash_message(label@, short_head@, subject@, match message {
            Some(m) => Some(m@),
            None => None,
        }),
{
    let mut a: Vec<char> = Vec::new();
    push_str(&mut a, "index on ");
    push_str(&mut a, label);
    push_str(&mut a, ": ");
    push_str(&mut a, short_head);
    a.push(' ');
    push_str(&mut a, subject);
    let mut b: Vec<char> = Vec::new();
    match message {
        Some(m) => {
            push_str(&mut b, "On ");
            push_str(&mut b, label);
            push_str(&mut b, ": ");
            push_str(&mut b, m);
        },
        None => {
            push_str(&mut b, "WIP on ");
            push_str(&mut b, label);
            push_str(&mut b, ": ");
            push_str(&mut b, short_head);
            b.push(' ');
            push_str(&mut b, subject);
        },
    }
    proof {
        assert(a@ =~= index_message(label@, short_head@, subject@));
    }
    (string_of(&a), string_of(&b))
}

} // verus!

verus! {

/// An entry whose line reads back as itself: a non-empty hash without
/// spaces or newlines, a message without newlines that does not end in a
/// carriage return.
pub open spec fn storable_entry(e: (Seq<char>, Seq<char>)) -> bool {
    e.0.len() > 0 && !e.0.contains(' ') && !e.0.contains('\n') && !e.1.contains('\n') && (e.1.len() == 0
        || e.1.last() != '\r')
}

proof fn lemma_file_last_first(es: Seq<(Seq<char>, Seq<char>)>)
    requires
        es.len() > 0,
    ensures
        stash_file(es) == stash_line(es.last()) + seq!['\n'] + stash_file(es.drop_last()),
    decreases es.len(),
{
    if es.len() == 1 {
        assert(es.drop_first() =~= Seq::<(Seq<char>, Seq<char>)>::empty());
        assert(es.drop_last() =~= Seq::<(Seq<char>, Seq<char>)>::empty());
        assert(stash_file(es) =~= stash_line(es.last()) + seq!['\n'] + stash_file(es.drop_last()));
    } else {
        lemma_file_last_first(es.drop_first());
        assert(es.drop_first().last() == es.last());
        assert(es.drop_first().drop_last() =~= es.drop_last().drop_first());
        assert(es.drop_last()[0] == es[0]);
        assert(stash_file(es) =~= stash_line(es.last()) + seq!['\n'] + stash_file(es.drop_last()));
    }
}

/// The lines of the stash file, in file order (oldest first).
pub open spec fn stash_file_lines(es: Seq<(Seq<char>, Seq<char>)>) -> Seq<Seq<char>> {
    es.reverse().map_values(|e: (Seq<char>, Seq<char>)| stash_line(e))
}

proof fn lemma_file_lines(es: Seq<(Seq<char>, Seq<char>)>)
    requires
        forall|i: int| 0 <= i < es.len() ==> storable_entry(#[trigger] es[i]),
    ensures
        lines_of(stash_file(es)) == stash_file_lines(es),
    decreases es.len(),
{
    if es.len() == 0 {
        assert(stash_file_lines(es) =~= Seq::<Seq<char>>::empty());
    } else {
        let e = es.last();
        assert(storable_entry(es[es.len() - 1]));
        lemma_file_last_first(es);
        assert forall|i: int| 0 <= i < es.drop_last().len() implies storable_entry(#[trigger] es.drop_last()[i]) by {
            assert(es.drop_last()[i] == es[i]);
        }
        lemma_file_lines(es.drop_last());
        let l = stash_line(e);
        assert(!l.contains('\n')) by {
            if l.contains('\n') {
                let k = choose|k: int| 0 <= k < l.len() && l[k] == '\n';
                if k < e.0.len() {
                    assert(e.0[k] == '\n');
                    assert(e.0.contains('\n'));
                } else if k > e.0.len() {
                    assert(e.1[k - e.0.len() - 1] == '\n');
                    assert(e.1.contains('\n'));
                }
            }
        }
        assert(l.len() == 0 || l.last() != '\r') by {
            if e.1.len() == 0 {
                assert(l.last() == ' ');
            } else {
                assert(l.last() == e.1.last());
            }
        }
        crate::text::lemma_lines_cons(l, stash_file(es.drop_last()));
        assert(stash_file_lines(es) =~= seq![l] + stash_file_lines(es.drop_last()));
    }
}

proof fn lemma_line_entry(e: (Seq<char>, Seq<char>))
    requires
        storable_entry(e),
    ensures
        stash_line_entry(stash_line(e)) == e,
{
    let l = stash_line(e);
    assert forall|k: int| 0 <= k < e.0.len() implies l[k] != ' ' by {
        assert(l[k] == e.0[k]);
        if e.0[k] == ' ' {
            assert(e.0.contains(' '));
        }
    }
    crate::text::lemma_first_index_at(l, ' ', e.0.len() as int);
    assert(l.take(e.0.len() as int) =~= e.0);
    assert(l.skip(e.0.len() + 1int) =~= e.1);
}

proof fn lemma_lines_entries(ls: Seq<Seq<char>>, es: Seq<(Seq<char>, Seq<char>)>)
    requires
        ls.len() == es.len(),
        forall|i: int| 0 <= i < es.len() ==> storable_entry(#[trigger] es[i]),
        forall|i: int| 0 <= i < ls.len() ==> #[trigger] ls[i] == stash_line(es[i]),
    ensures
        stash_lines(ls) == es,
    decreases ls.len(),
{
    if ls.len() > 0 {
        let n = ls.len() - 1;
        assert(storable_entry(es[n]));
        assert(ls[n] == stash_line(es[n]));
        assert forall|i: int| 0 <= i < ls.drop_last().len() implies #[trigger] ls.drop_last()[i] == stash_line(
            es.drop_last()[i],
        ) by {
            assert(ls[i] == stash_line(es[i]));
        }
        assert forall|i: int| 0 <= i < es.drop_last().len() implies storable_entry(#[trigger] es.drop_last()[i]) by {
            assert(es.drop_last()[i] == es[i]);
        }
        lemma_lines_entries(ls.drop_last(), es.drop_last());
        lemma_line_entry(es[n]);
        assert(ls.last().len() > 0);
        assert(stash_lines(ls) =~= es);
    } else {
        assert(es =~= Seq::<(Seq<char>, Seq<char>)>::empty());
    }
}

/// Writing a stash list and reading it back gives the same entries, newest
/// first, for entries whose hash is non-empty with no space or newline and
/// whose message has no newline and does not end in a carriage return.
pub proof fn stash_list_roundtrip(es: Seq<(Seq<char>, Seq<char>)>)
    requires
        forall|i: int| 0 <= i < es.len() ==> storable_entry(#[trigger] es[i]),
    ensures
        stash_lines(lines_of(stash_file(es))).reverse() == es,
{
    lemma_file_lines(es);
    let rev = es.reverse();
    assert forall|i: int| 0 <= i < rev.len() implies storable_entry(#[trigger] rev[i]) by {
        assert(rev[i] == es[es.len() - 1 - i]);
    }
    lemma_lines_entries(stash_file_lines(es), rev);
    assert(rev.reverse() =~= es);
}


/// Whether `stash push` has nothing to save: the staged tree and the working
/// tree both equal the tree of `HEAD`'s commit.
pub fn no_local_changes(head_tree: &str, index_tree: &str, working_tree: &str) -> (r: bool)
    ensures
        r == (index_tree@ == head_tree@ && working_tree@ == head_tree@),
{
    crate::text::str_eq(index_tree, head_tree) && crate::text::str_eq(working_tree, head_tree)
}

} // verus!
