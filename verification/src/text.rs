//! Character-level helpers shared by the text-processing modules.
use vstd::prelude::*;
use vstd::std_specs::iter::IteratorSpec;

verus! {

/// The characters of `s`, in order.
pub fn chars_of(s: &str) -> (r: Vec<char>)
    ensures
        r@ == s@,
{
    let mut out: Vec<char> = Vec::new();
    let mut it = s.chars();
    broadcast use vstd::string::group_string_axioms;
    loop
        invariant
            it.remaining() == s@.subrange(out@.len() as int, s@.len() as int),
            out@ == s@.subrange(0, out@.len() as int),
            out@.len() <= s@.len(),
        ensures
            out@ == s@,
        decreases s@.len() - out@.len(),
    {
        let ghost before = it.remaining();
        let nx = it.next();
        match nx {
            Some(c) => {
                assert(before.len() > 0);
                out.push(c);
                assert(out@ =~= s@.subrange(0, out@.len() as int));
            },
            None => {
                assert(before.len() == 0);
                assert(out@ =~= s@);
                break;
            },
        }
    }
    out
}

/// Collects a character vector into a `String` (std's `FromIterator<char>`).
#[verifier::external_body]
pub(crate) fn string_of(v: &Vec<char>) -> (r: String)
    ensures
        r@ == v@,
{
    v.iter().collect()
}

} // verus!

verus! {

/// Whether both strings hold the same characters.
pub(crate) fn str_eq(a: &str, b: &str) -> (r: bool)
    ensures
        r == (a@ == b@),
{
    let ca = chars_of(a);
    let cb = chars_of(b);
    if ca.len() != cb.len() {
        return false;
    }
    let mut i: usize = 0;
    while i < ca.len()
        invariant
            ca@ == a@,
            cb@ == b@,
            ca@.len() == cb@.len(),
            i <= ca@.len(),
            forall|k: int| 0 <= k < i ==> ca@[k] == cb@[k],
        decreases ca@.len() - i,
    {
        if ca[i] != cb[i] {
            return false;
        }
        i += 1;
    }
    assert(ca@ =~= cb@);
    true
}

} // verus!

verus! {

/// Appends the characters of `s`.
pub fn push_str(out: &mut Vec<char>, s: &str)
    ensures
        final(out)@ == old(out)@ + s@,
{
    let cs = chars_of(s);
    let mut i: usize = 0;
    while i < cs.len()
        invariant
            cs@ == s@,
            i <= cs@.len(),
            out@ == old(out)@ + cs@.subrange(0, i as int),
        decreases cs@.len() - i,
    {
        out.push(cs[i]);
        i += 1;
        assert(out@ =~= old(out)@ + cs@.subrange(0, i as int));
    }
    assert(cs@.subrange(0, cs@.len() as int) =~= cs@);
}

/// The character of a decimal digit.
pub open spec fn digit_char(d: int) -> char {
    if d == 0 {
        '0'
    } else if d == 1 {
        '1'
    } else if d == 2 {
        '2'
    } else if d == 3 {
        '3'
    } else if d == 4 {
        '4'
    } else if d == 5 {
        '5'
    } else if d == 6 {
        '6'
    } else if d == 7 {
        '7'
    } else if d == 8 {
        '8'
    } else {
        '9'
    }
}

/// The decimal representation of `n`, without leading zeros.
pub open spec fn decimal(n: nat) -> Seq<char>
    decreases n,
{
    if n < 10 {
        seq![digit_char(n as int)]
    } else {
        decimal(n / 10).push(digit_char((n % 10) as int))
    }
}

fn digit_of(d: usize) -> (c: char)
    requires
        d < 10,
    ensures
        c == digit_char(d as int),
{
    if d == 0 {
        '0'
    } else if d == 1 {
        '1'
    } else if d == 2 {
        '2'
    } else if d == 3 {
        '3'
    } else if d == 4 {
        '4'
    } else if d == 5 {
        '5'
    } else if d == 6 {
        '6'
    } else if d == 7 {
        '7'
    } else if d == 8 {
        '8'
    } else {
        '9'
    }
}

/// Appends the decimal representation of `n`.
pub fn push_decimal(out: &mut Vec<char>, n: usize)
    ensures
        final(out)@ == old(out)@ + decimal(n as nat),
    decreases n,
{
    if n < 10 {
        out.push(digit_of(n));
    } else {
        push_decimal(out, n / 10);
        out.push(digit_of(n % 10));
    }
    assert(out@ =~= old(out)@ + decimal(n as nat)) by {
        if n >= 10 {
            assert(decimal(n as nat) == decimal((n / 10) as nat).push(digit_char((n % 10) as int)));
        }
    }
}

} // verus!

verus! {

/// Position of the first `c` in `s`, or -1.
pub open spec fn first_index(s: Seq<char>, c: char) -> int
    decreases s.len(),
{
    if s.len() == 0 {
        -1
    } else if s[0] == c {
        0
    } else {
        let r = first_index(s.drop_first(), c);
        if r < 0 {
            -1
        } else {
            r + 1
        }
    }
}

/// A line with one trailing carriage return removed.
pub open spec fn strip_cr(l: Seq<char>) -> Seq<char> {
    if l.len() > 0 && l.last() == '\r' {
        l.drop_last()
    } else {
        l
    }
}

/// The lines of `s` as `str::lines` yields them: split at `\n`, a `\r` right
/// before a `\n` dropped, and no empty line after a final `\n`.
pub open spec fn lines_of(s: Seq<char>) -> Seq<Seq<char>>
    decreases s.len(),
{
    if s.len() == 0 {
        seq![]
    } else {
        let i = first_index(s, '\n');
        if i < 0 {
            seq![s]
        } else {
            proof {
                lemma_first_index_bounds(s, '\n');
            }
            seq![strip_cr(s.subrange(0, i))] + lines_of(s.subrange(i + 1, s.len() as int))
        }
    }
}

pub proof fn lemma_first_index_bounds(s: Seq<char>, c: char)
    ensures
        -1 <= first_index(s, c) < s.len(),
        first_index(s, c) >= 0 ==> s[first_index(s, c)] == c,
        forall|k: int| 0 <= k < s.len() && (first_index(s, c) < 0 || k < first_index(s, c)) ==> s[k]
            != c,
    decreases s.len(),
{
    if s.len() > 0 {
        lemma_first_index_bounds(s.drop_first(), c);
        assert forall|k: int|
            0 <= k < s.len() && (first_index(s, c) < 0 || k < first_index(s, c)) implies s[k] != c by {
            if k > 0 {
                assert(s[k] == s.drop_first()[k - 1]);
            }
        }
    }
}

/// The position of the first `c` in `s`, if any.
pub fn find_char(s: &str, c: char) -> (r: Option<usize>)
    ensures
        match r {
            Some(i) => first_index(s@, c) == i as int,
            None => first_index(s@, c) == -1,
        },
{
    let cs = chars_of(s);
    let mut i: usize = 0;
    while i < cs.len()
        invariant
            cs@ == s@,
            i <= cs@.len(),
            forall|k: int| 0 <= k < i ==> cs@[k] != c,
        decreases cs@.len() - i,
    {
        if cs[i] == c {
            proof {
                lemma_first_index_at(s@, c, i as int);
            }
            return Some(i);
        }
        i += 1;
    }
    proof {
        lemma_first_index_at(s@, c, i as int);
    }
    None
}

/// `first_index` is the first position holding `c`.
pub proof fn lemma_first_index_at(s: Seq<char>, c: char, i: int)
    requires
        0 <= i <= s.len(),
        forall|k: int| 0 <= k < i ==> s[k] != c,
        i == s.len() || s[i] == c,
    ensures
        first_index(s, c) == (if i == s.len() { -1 } else { i }),
    decreases s.len(),
{
    if s.len() > 0 && i > 0 {
        assert forall|k: int| 0 <= k < i - 1 implies s.drop_first()[k] != c by {
            assert(s.drop_first()[k] == s[k + 1]);
        }
        lemma_first_index_at(s.drop_first(), c, i - 1);
    }
}

fn collect_range(cs: &Vec<char>, lo: usize, hi: usize) -> (r: Vec<char>)
    requires
        lo <= hi <= cs@.len(),
    ensures
        r@ == cs@.subrange(lo as int, hi as int),
{
    let mut out: Vec<char> = Vec::new();
    let mut i = lo;
    while i < hi
        invariant
            lo <= i <= hi <= cs@.len(),
            out@ == cs@.subrange(lo as int, i as int),
        decreases hi - i,
    {
        out.push(cs[i]);
        i += 1;
        assert(out@ =~= cs@.subrange(lo as int, i as int));
    }
    out
}

/// The lines of `s`, as `str::lines` yields them.
pub fn split_lines(s: &str) -> (r: Vec<String>)
    ensures
        r@.map_values(|l: String| l@) == lines_of(s@),
{
    let cs = chars_of(s);
    let n = cs.len();
    let mut out: Vec<String> = Vec::new();
    let mut start: usize = 0;
    let mut i: usize = 0;
    assert(s@.subrange(0, n as int) =~= s@);
    assert(out@.map_values(|l: String| l@) + lines_of(s@) =~= lines_of(s@));
    while i < n
        invariant
            cs@ == s@,
            n == cs@.len(),
            start <= i <= n,
            forall|k: int| start <= k < i ==> cs@[k] != '\n',
            lines_of(s@) == out@.map_values(|l: String| l@) + lines_of(s@.subrange(start as int, n as int)),
        decreases n - i,
    {
        if cs[i] == '\n' {
            let ghost rest = s@.subrange(start as int, n as int);
            proof {
                lemma_first_index_at(rest, '\n', i - start);
                assert(rest.subrange(0, i - start) =~= s@.subrange(start as int, i as int));
                assert(rest.subrange(i - start + 1, rest.len() as int) =~= s@.subrange(i + 1, n as int));
            }
            let mut end = i;
            if end > start && cs[end - 1] == '\r' {
                end = end - 1;
            }
            let line = collect_range(&cs, start, end);
            proof {
                assert(line@ == strip_cr(s@.subrange(start as int, i as int)));
            }
            let ghost before = out@.map_values(|l: String| l@);
            out.push(string_of(&line));
            proof {
                assert(out@.map_values(|l: String| l@) =~= before.push(line@));
                assert(before.push(line@) + lines_of(s@.subrange(i + 1, n as int)) =~= before + (seq![
                    line@,
                ] + lines_of(s@.subrange(i + 1, n as int))));
            }
            start = i + 1;
        }
        i += 1;
    }
    if start < n {
        let ghost rest = s@.subrange(start as int, n as int);
        proof {
            lemma_first_index_at(rest, '\n', n - start);
        }
        let line = collect_range(&cs, start, n);
        let ghost before = out@.map_values(|l: String| l@);
        out.push(string_of(&line));
        proof {
            assert(out@.map_values(|l: String| l@) =~= before.push(line@));
            assert(before + seq![rest] =~= before.push(line@));
        }
    } else {
        proof {
            assert(s@.subrange(start as int, n as int).len() == 0);
            assert(out@.map_values(|l: String| l@) + Seq::<Seq<char>>::empty() =~= out@.map_values(
                |l: String| l@,
            ));
        }
    }
    out
}

} // verus!

verus! {

/// Whether `s` begins with `p`.
pub open spec fn has_prefix(s: Seq<char>, p: Seq<char>) -> bool {
    p.len() <= s.len() && s.subrange(0, p.len() as int) == p
}

/// Whether `s` ends with `p`.
pub open spec fn has_suffix(s: Seq<char>, p: Seq<char>) -> bool {
    p.len() <= s.len() && s.subrange(s.len() - p.len(), s.len() as int) == p
}

/// Whether `s` begins with `p`.
pub fn starts_with(s: &str, p: &str) -> (r: bool)
    ensures
        r == has_prefix(s@, p@),
{
    let a = chars_of(s);
    let b = chars_of(p);
    if b.len() > a.len() {
        return false;
    }
    let mut i: usize = 0;
    while i < b.len()
        invariant
            a@ == s@,
            b@ == p@,
            b@.len() <= a@.len(),
            i <= b@.len(),
            forall|k: int| 0 <= k < i ==> a@[k] == b@[k],
        decreases b@.len() - i,
    {
        if a[i] != b[i] {
            assert(s@.subrange(0, p@.len() as int)[i as int] != p@[i as int]);
            return false;
        }
        i += 1;
    }
    assert(s@.subrange(0, p@.len() as int) =~= p@);
    true
}

/// Whether `s` ends with `p`.
pub fn ends_with(s: &str, p: &str) -> (r: bool)
    ensures
        r == has_suffix(s@, p@),
{
    let a = chars_of(s);
    let b = chars_of(p);
    if b.len() > a.len() {
        return false;
    }
    let na = a.len();
    let off = na - b.len();
    let mut i: usize = 0;
    while i < b.len()
        invariant
            a@ == s@,
            b@ == p@,
            na == a@.len(),
            off + b@.len() == a@.len(),
            i <= b@.len(),
            forall|k: int| 0 <= k < i ==> a@[off + k] == b@[k],
        decreases b@.len() - i,
    {
        if a[off + i] != b[i] {
            assert(s@.subrange(off as int, s@.len() as int)[i as int] != p@[i as int]);
            return false;
        }
        i += 1;
    }
    assert(s@.subrange(off as int, s@.len() as int) =~= p@);
    true
}

/// The characters `s[lo..hi]` as a `String`.
pub fn substring(s: &str, lo: usize, hi: usize) -> (r: String)
    requires
        lo <= hi <= s@.len(),
    ensures
        r@ == s@.subrange(lo as int, hi as int),
{
    let cs = chars_of(s);
    let part = collect_range(&cs, lo, hi);
    string_of(&part)
}

/// `s` without its prefix `p`, when it has that prefix.
pub fn strip_prefix(s: &str, p: &str) -> (r: Option<String>)
    ensures
        r is Some <==> has_prefix(s@, p@),
        r matches Some(x) ==> x@ == s@.skip(p@.len() as int),
{
    if starts_with(s, p) {
        let n = s.unicode_len();
        let k = p.unicode_len();
        let rest = substring(s, k, n);
        assert(rest@ =~= s@.skip(p@.len() as int));
        Some(rest)
    } else {
        None
    }
}

/// The lines joined with `\n` between them.
pub open spec fn join_lines(ls: Seq<Seq<char>>) -> Seq<char>
    decreases ls.len(),
{
    if ls.len() == 0 {
        seq![]
    } else if ls.len() == 1 {
        ls[0]
    } else {
        join_lines(ls.drop_last()) + seq!['\n'] + ls.last()
    }
}

/// The view of each string.
pub open spec fn string_views(v: Seq<String>) -> Seq<Seq<char>> {
    v.map_values(|l: String| l@)
}

/// Joins `parts[from..]` with `\n` between them.
pub fn join_newline(parts: &Vec<String>, from: usize) -> (r: String)
    requires
        from <= parts@.len(),
    ensures
        r@ == join_lines(string_views(parts@).skip(from as int)),
{
    let mut out: Vec<char> = Vec::new();
    let mut i = from;
    let ghost vs = string_views(parts@);
    assert(vs.subrange(from as int, from as int) =~= Seq::<Seq<char>>::empty());
    while i < parts.len()
        invariant
            vs == string_views(parts@),
            from <= i <= parts@.len(),
            out@ == join_lines(vs.subrange(from as int, i as int)),
        decreases parts@.len() - i,
    {
        let ghost prev = vs.subrange(from as int, i as int);
        if i > from {
            out.push('\n');
        }
        push_str(&mut out, parts[i].as_str());
        proof {
            let next = vs.subrange(from as int, i + 1);
            assert(next.drop_last() =~= prev);
            assert(next.last() == parts@[i as int]@);
            if i == from {
                assert(out@ =~= next[0]);
            }
        }
        i += 1;
    }
    assert(vs.subrange(from as int, parts@.len() as int) =~= vs.skip(from as int));
    string_of(&out)
}

} // verus!

verus! {

/// The decimal representation of `n` (a `u64`).
pub fn push_decimal_u64(out: &mut Vec<char>, n: u64)
    ensures
        final(out)@ == old(out)@ + decimal(n as nat),
    decreases n,
{
    if n < 10 {
        out.push(digit_of((n % 10) as usize));
    } else {
        push_decimal_u64(out, n / 10);
        out.push(digit_of((n % 10) as usize));
    }
    assert(out@ =~= old(out)@ + decimal(n as nat)) by {
        if n >= 10 {
            assert(decimal(n as nat) == decimal((n / 10) as nat).push(digit_char((n % 10) as int)));
        }
    }
}

} // verus!

verus! {

/// The pieces of `s` between occurrences of `c` (as `str::split` yields them).
pub open spec fn split_char(s: Seq<char>, c: char) -> Seq<Seq<char>>
    decreases s.len(),
{
    let i = first_index(s, c);
    if i < 0 {
        seq![s]
    } else {
        proof {
            lemma_first_index_bounds(s, c);
        }
        seq![s.subrange(0, i)] + split_char(s.subrange(i + 1, s.len() as int), c)
    }
}

/// Splits `s` at every `c`.
pub fn split_on(s: &str, c: char) -> (r: Vec<String>)
    ensures
        string_views(r@) == split_char(s@, c),
{
    let cs = chars_of(s);
    let n = cs.len();
    let mut out: Vec<String> = Vec::new();
    let mut start: usize = 0;
    let mut i: usize = 0;
    assert(s@.subrange(0, n as int) =~= s@);
    assert(string_views(out@) + split_char(s@, c) =~= split_char(s@, c));
    while i < n
        invariant
            cs@ == s@,
            n == cs@.len(),
            start <= i <= n,
            forall|k: int| start <= k < i ==> cs@[k] != c,
            split_char(s@, c) == string_views(out@) + split_char(s@.subrange(start as int, n as int), c),
        decreases n - i,
    {
        if cs[i] == c {
            let ghost rest = s@.subrange(start as int, n as int);
            proof {
                lemma_first_index_at(rest, c, i - start);
                assert(rest.subrange(0, i - start) =~= s@.subrange(start as int, i as int));
                assert(rest.subrange(i - start + 1, rest.len() as int) =~= s@.subrange(i + 1, n as int));
            }
            let piece = collect_range(&cs, start, i);
            let ghost before = string_views(out@);
            out.push(string_of(&piece));
            proof {
                assert(string_views(out@) =~= before.push(piece@));
                assert(before.push(piece@) + split_char(s@.subrange(i + 1, n as int), c) =~= before + (seq![
                    piece@,
                ] + split_char(s@.subrange(i + 1, n as int), c)));
            }
            start = i + 1;
        }
        i += 1;
    }
    let ghost rest = s@.subrange(start as int, n as int);
    proof {
        lemma_first_index_at(rest, c, n - start);
    }
    let piece = collect_range(&cs, start, n);
    let ghost before = string_views(out@);
    out.push(string_of(&piece));
    proof {
        assert(string_views(out@) =~= before.push(piece@));
        assert(before + seq![rest] =~= before.push(piece@));
    }
    out
}

/// The pieces joined with `c` between them.
pub open spec fn join_char(ls: Seq<Seq<char>>, c: char) -> Seq<char>
    decreases ls.len(),
{
    if ls.len() == 0 {
        seq![]
    } else if ls.len() == 1 {
        ls[0]
    } else {
        join_char(ls.drop_last(), c) + seq![c] + ls.last()
    }
}

/// Joins the strings with `c` between them.
pub fn join_with(parts: &Vec<String>, c: char) -> (r: String)
    ensures
        r@ == join_char(string_views(parts@), c),
{
    let mut out: Vec<char> = Vec::new();
    let mut i: usize = 0;
    let ghost vs = string_views(parts@);
    assert(vs.take(0) =~= Seq::<Seq<char>>::empty());
    while i < parts.len()
        invariant
            vs == string_views(parts@),
            i <= parts@.len(),
            out@ == join_char(vs.take(i as int), c),
        decreases parts@.len() - i,
    {
        let ghost prev = vs.take(i as int);
        if i > 0 {
            out.push(c);
        }
        push_str(&mut out, parts[i].as_str());
        proof {
            let next = vs.take(i + 1);
            assert(next.drop_last() =~= prev);
            assert(next.last() == parts@[i as int]@);
            if i == 0 {
                assert(out@ =~= next[0]);
            }
        }
        i += 1;
    }
    assert(vs.take(parts@.len() as int) =~= vs);
    string_of(&out)
}

/// A Unicode `White_Space` character.
pub open spec fn is_ws(c: char) -> bool {
    ('\t' <= c <= '\r') || c == ' ' || c == '\u{85}' || c == '\u{a0}' || c == '\u{1680}' || ('\u{2000}'
        <= c <= '\u{200a}') || c == '\u{2028}' || c == '\u{2029}' || c == '\u{202f}' || c == '\u{205f}'
        || c == '\u{3000}'
}

/// Whether `c` is a Unicode `White_Space` character (as `char::is_whitespace`).
pub fn is_whitespace(c: char) -> (r: bool)
    ensures
        r == is_ws(c),
{
    ('\t' <= c && c <= '\r') || c == ' ' || c == '\u{85}' || c == '\u{a0}' || c == '\u{1680}' || ('\u{2000}'
        <= c && c <= '\u{200a}') || c == '\u{2028}' || c == '\u{2029}' || c == '\u{202f}' || c == '\u{205f}'
        || c == '\u{3000}'
}

/// `s` without leading whitespace.
pub open spec fn trim_start_ws(s: Seq<char>) -> Seq<char>
    decreases s.len(),
{
    if s.len() > 0 && is_ws(s[0]) {
        trim_start_ws(s.drop_first())
    } else {
        s
    }
}

/// `s` without trailing whitespace.
pub open spec fn trim_end_ws(s: Seq<char>) -> Seq<char>
    decreases s.len(),
{
    if s.len() > 0 && is_ws(s.last()) {
        trim_end_ws(s.drop_last())
    } else {
        s
    }
}

/// `s` without leading and trailing whitespace (as `str::trim`).
pub open spec fn trim_ws(s: Seq<char>) -> Seq<char> {
    trim_end_ws(trim_start_ws(s))
}

/// `s` without leading and trailing whitespace.
pub fn trim(s: &str) -> (r: String)
    ensures
        r@ == trim_ws(s@),
{
    let cs = chars_of(s);
    let n = cs.len();
    let mut a: usize = 0;
    assert(s@.skip(0) =~= s@);
    while a < n && is_whitespace(cs[a])
        invariant
            cs@ == s@,
            n == cs@.len(),
            a <= n,
            trim_start_ws(s@) == trim_start_ws(s@.skip(a as int)),
        decreases n - a,
    {
        assert(s@.skip(a as int).drop_first() =~= s@.skip(a + 1));
        a += 1;
    }
    proof {
        if a == n {
            assert(s@.skip(a as int).len() == 0);
        }
    }
    let ghost mid = s@.skip(a as int);
    assert(trim_start_ws(s@) == mid);
    let mut b: usize = n;
    assert(mid.subrange(0, (b - a) as int) =~= mid);
    while b > a && is_whitespace(cs[b - 1])
        invariant
            cs@ == s@,
            n == cs@.len(),
            a <= b <= n,
            mid == s@.skip(a as int),
            trim_end_ws(mid) == trim_end_ws(mid.subrange(0, (b - a) as int)),
        decreases b,
    {
        assert(mid.subrange(0, (b - a) as int).drop_last() =~= mid.subrange(0, (b - 1 - a) as int));
        b -= 1;
    }
    let part = collect_range(&cs, a, b);
    assert(part@ =~= mid.subrange(0, (b - a) as int));
    string_of(&part)
}

} // verus!

verus! {

/// Splitting always gives at least one piece.
pub proof fn lemma_split_nonempty(s: Seq<char>, c: char)
    ensures
        split_char(s, c).len() >= 1,
    decreases s.len(),
{
    let i = first_index(s, c);
    if i >= 0 {
        lemma_first_index_bounds(s, c);
        lemma_split_nonempty(s.subrange(i + 1, s.len() as int), c);
    }
}

} // verus!

verus! {

/// A line without a newline (and not ending in a carriage return) followed
/// by a newline reads back as that line, then the rest.
pub proof fn lemma_lines_cons(x: Seq<char>, rest: Seq<char>)
    requires
        !x.contains('\n'),
        x.len() == 0 || x.last() != '\r',
    ensures
        lines_of(x + seq!['\n'] + rest) == seq![x] + lines_of(rest),
{
    let s = x + seq!['\n'] + rest;
    assert forall|k: int| 0 <= k < x.len() implies s[k] != '\n' by {
        assert(s[k] == x[k]);
        if x[k] == '\n' {
            assert(x.contains('\n'));
        }
    }
    assert(s[x.len() as int] == '\n');
    lemma_first_index_at(s, '\n', x.len() as int);
    assert(s.subrange(0, x.len() as int) =~= x);
    assert(s.subrange(x.len() + 1int, s.len() as int) =~= rest);
}


/// Splitting at the first newline: the first line loses one trailing
/// carriage return.
pub proof fn lemma_lines_cons_cr(x: Seq<char>, rest: Seq<char>)
    requires
        !x.contains('\n'),
    ensures
        lines_of(x + seq!['\n'] + rest) == seq![strip_cr(x)] + lines_of(rest),
{
    let s = x + seq!['\n'] + rest;
    assert forall|k: int| 0 <= k < x.len() implies s[k] != '\n' by {
        assert(s[k] == x[k]);
        if x[k] == '\n' {
            assert(x.contains('\n'));
        }
    }
    assert(s[x.len() as int] == '\n');
    lemma_first_index_at(s, '\n', x.len() as int);
    assert(s.subrange(0, x.len() as int) =~= x);
    assert(s.subrange(x.len() + 1int, s.len() as int) =~= rest);
}

proof fn lemma_join_cons(x: Seq<char>, ls: Seq<Seq<char>>)
    requires
        ls.len() >= 1,
    ensures
        join_lines(seq![x] + ls) == x + seq!['\n'] + join_lines(ls),
    decreases ls.len(),
{
    let all = seq![x] + ls;
    assert(all.drop_last() =~= seq![x] + ls.drop_last());
    assert(all.last() == ls.last());
    if ls.len() == 1 {
        assert(all.drop_last() =~= seq![x]);
        assert(join_lines(all.drop_last()) == x);
    } else {
        lemma_join_cons(x, ls.drop_last());
        assert(x + seq!['\n'] + join_lines(ls.drop_last()) + seq!['\n'] + ls.last() =~= x + seq!['\n'] + (
        join_lines(ls.drop_last()) + seq!['\n'] + ls.last()));
    }
}

/// A text without carriage returns, followed by a newline, splits into lines
/// that join back to the text.
pub proof fn lemma_join_lines_of(m: Seq<char>)
    requires
        !m.contains('\r'),
    ensures
        lines_of(m + seq!['\n']).len() >= 1,
        join_lines(lines_of(m + seq!['\n'])) == m,
    decreases m.len(),
{
    let i = first_index(m, '\n');
    lemma_first_index_bounds(m, '\n');
    if i < 0 {
        assert(!m.contains('\n')) by {
            if m.contains('\n') {
                let k = choose|k: int| 0 <= k < m.len() && m[k] == '\n';
            }
        }
        if m.len() > 0 {
            assert(m.contains(m.last()));
        }
        lemma_lines_cons(m, Seq::<char>::empty());
        assert(m + seq!['\n'] + Seq::<char>::empty() =~= m + seq!['\n']);
        assert(lines_of(Seq::<char>::empty()) =~= Seq::<Seq<char>>::empty());
        assert(seq![m] + Seq::<Seq<char>>::empty() =~= seq![m]);
    } else {
        let x = m.subrange(0, i);
        let y = m.subrange(i + 1, m.len() as int);
        assert(!x.contains('\n')) by {
            if x.contains('\n') {
                let k = choose|k: int| 0 <= k < x.len() && x[k] == '\n';
                assert(m[k] == '\n');
            }
        }
        if x.len() > 0 {
            assert(m[x.len() - 1] == x.last());
            assert(m.contains(x.last()));
        }
        assert(!y.contains('\r')) by {
            if y.contains('\r') {
                let k = choose|k: int| 0 <= k < y.len() && y[k] == '\r';
                assert(m[i + 1 + k] == '\r');
            }
        }
        assert(m + seq!['\n'] =~= x + seq!['\n'] + (y + seq!['\n']));
        lemma_lines_cons(x, y + seq!['\n']);
        lemma_join_lines_of(y);
        lemma_join_cons(x, lines_of(y + seq!['\n']));
        assert(x + seq!['\n'] + y =~= m);
    }
}

} // verus!
