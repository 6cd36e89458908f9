//! Ignore rules: glob matching, parsing `.gitignore` lines, deciding whether
//! a path is ignored, and normalising paths.
use vstd::prelude::*;
use crate::text::{
    chars_of, has_prefix, join_char, split_char, split_on, str_eq, string_of, string_views, trim,
    trim_ws,
};

verus! {

/// The pattern after a leading `**` and an optional `/`.
pub open spec fn double_star_rest(p: Seq<char>) -> Seq<char> {
    if p.len() >= 3 && p[2] == '/' {
        p.skip(3)
    } else {
        p.skip(2)
    }
}

/// Glob matching: `*` matches any run of characters within one path segment,
/// `**` (optionally followed by `/`) any run at all, `?` one character other
/// than `/`, and every other character itself.
pub open spec fn glob(p: Seq<char>, t: Seq<char>) -> bool
    decreases p.len(), t.len() + 2,
{
    if p.len() == 0 {
        t.len() == 0
    } else if p.len() >= 2 && p[0] == '*' && p[1] == '*' {
        glob_any_from(double_star_rest(p), t, 0)
    } else if p[0] == '*' {
        glob_segment_from(p.skip(1), t, 0)
    } else if t.len() == 0 {
        false
    } else if p[0] == '?' {
        t[0] != '/' && glob(p.skip(1), t.skip(1))
    } else {
        p[0] == t[0] && glob(p.skip(1), t.skip(1))
    }
}

/// Whether `rest` matches some suffix `t[i..]`, `t[i + 1..]`, ... of `t`.
pub open spec fn glob_any_from(rest: Seq<char>, t: Seq<char>, i: int) -> bool
    decreases rest.len() + 1, t.len() + 1 - i,
{
    if i < 0 || i > t.len() {
        false
    } else {
        glob(rest, t.skip(i)) || glob_any_from(rest, t, i + 1)
    }
}

/// Whether `rest` matches `t[j..]` for some `j >= i` with no `/` in `t[i..j]`.
pub open spec fn glob_segment_from(rest: Seq<char>, t: Seq<char>, i: int) -> bool
    decreases rest.len() + 1, t.len() + 1 - i,
{
    if i < 0 || i > t.len() {
        false
    } else {
        glob(rest, t.skip(i)) || (i < t.len() && t[i] != '/' && glob_segment_from(rest, t, i + 1))
    }
}

fn glob_match_slice(pat: &Vec<char>, pi: usize, text: &Vec<char>, ti: usize) -> (r: bool)
    requires
        pi <= pat@.len(),
        ti <= text@.len(),
    ensures
        r == glob(pat@.skip(pi as int), text@.skip(ti as int)),
    decreases pat@.len() - pi,
{
    let ghost p = pat@.skip(pi as int);
    let ghost t = text@.skip(ti as int);
    let plen = pat.len();
    let tlen = text.len();
    if pi == plen {
        return ti == tlen;
    }
    if pi + 1 < plen && pat[pi] == '*' && pat[pi + 1] == '*' {
        let mut rest = pi + 2;
        if rest < plen && pat[rest] == '/' {
            rest = rest + 1;
        }
        proof {
            if p.len() >= 3 && p[2] == '/' {
                assert(p.skip(3) =~= pat@.skip(rest as int));
            } else {
                assert(p.skip(2) =~= pat@.skip(rest as int));
            }
        }
        let ghost rp = pat@.skip(rest as int);
        let mut i = ti;
        loop
            invariant
                ti <= i <= tlen,
                tlen == text@.len(),
                pi < rest <= pat@.len(),
                rp == pat@.skip(rest as int),
                p == pat@.skip(pi as int),
                t == text@.skip(ti as int),
                p.len() >= 2 && p[0] == '*' && p[1] == '*',
                rp == double_star_rest(p),
                glob(p, t) == glob_any_from(rp, t, i - ti),
            decreases tlen - i,
        {
            assert(t.skip(i - ti) =~= text@.skip(i as int));
            if glob_match_slice(pat, rest, text, i) {
                return true;
            }
            if i == tlen {
                assert(!glob_any_from(rp, t, i - ti + 1));
                return false;
            }
            i += 1;
        }
    }
    if pat[pi] == '*' {
        let ghost rp = pat@.skip(pi + 1);
        assert(p.skip(1) =~= rp);
        assert(pi + 1 <= plen);
        let mut i = ti;
        loop
            invariant
                ti <= i <= tlen,
                tlen == text@.len(),
                plen == pat@.len(),
                pi < pat@.len(),
                rp == pat@.skip(pi + 1),
                p == pat@.skip(pi as int),
                t == text@.skip(ti as int),
                p[0] == '*',
                !(p.len() >= 2 && p[1] == '*'),
                p.skip(1) == rp,
                glob(p, t) == glob_segment_from(rp, t, i - ti),
            decreases tlen - i,
        {
            assert(t.skip(i - ti) =~= text@.skip(i as int));
            if glob_match_slice(pat, pi + 1, text, i) {
                return true;
            }
            if i == tlen || text[i] == '/' {
                return false;
            }
            i += 1;
        }
    }
    if ti == tlen {
        return false;
    }
    assert(p.skip(1) =~= pat@.skip(pi + 1));
    assert(t.skip(1) =~= text@.skip(ti + 1));
    if pat[pi] == '?' {
        if text[ti] != '/' {
            return glob_match_slice(pat, pi + 1, text, ti + 1);
        } else {
            return false;
        }
    }
    if pat[pi] == text[ti] {
        return glob_match_slice(pat, pi + 1, text, ti + 1);
    }
    false
}

/// Whether `text` matches the glob `pattern`.
pub fn glob_match(pattern: &str, text: &str) -> (r: bool)
    ensures
        r == glob(pattern@, text@),
{
    let p = chars_of(pattern);
    let t = chars_of(text);
    assert(p@.skip(0) =~= p@);
    assert(t@.skip(0) =~= t@);
    glob_match_slice(&p, 0, &t, 0)
}

} // verus!

verus! {

/// One parsed ignore rule, remembering the directory whose `.gitignore` it came from.
#[derive(Clone, Debug, PartialEq, Eq)]
pub struct GitIgnoreRule {
    pub pattern: String,
    pub base_dir: String,
    pub negated: bool,
    pub dir_only: bool,
    pub has_slash: bool,
}

/// The content of a rule.
pub struct RuleView {
    pub pattern: Seq<char>,
    pub base_dir: Seq<char>,
    pub negated: bool,
    pub dir_only: bool,
    pub has_slash: bool,
}

impl View for GitIgnoreRule {
    type V = RuleView;

    open spec fn view(&self) -> RuleView {
        RuleView {
            pattern: self.pattern@,
            base_dir: self.base_dir@,
            negated: self.negated,
            dir_only: self.dir_only,
            has_slash: self.has_slash,
        }
    }
}

/// What a `.gitignore` line says, for rules from `base_dir`: after trimming
/// whitespace, an empty line or a `#` comment says nothing; a leading `!`
/// negates, a trailing `/` restricts to directories, and a pattern with a `/`
/// (a leading one is dropped) is matched against the whole path below the base.
pub open spec fn parse_rule(line: Seq<char>, base_dir: Seq<char>) -> Option<RuleView> {
    let t0 = trim_ws(line);
    if t0.len() == 0 || t0[0] == '#' {
        None
    } else {
        let negated = t0[0] == '!';
        let t1 = if negated {
            t0.skip(1)
        } else {
            t0
        };
        let dir_only = t1.len() > 0 && t1.last() == '/';
        let t2 = if dir_only {
            t1.drop_last()
        } else {
            t1
        };
        let leading = t2.len() > 0 && t2[0] == '/';
        Some(
            RuleView {
                pattern: if leading {
                    t2.skip(1)
                } else {
                    t2
                },
                base_dir,
                negated,
                dir_only,
                has_slash: leading || t2.contains('/'),
            },
        )
    }
}

fn contains_char(s: &Vec<char>, c: char) -> (r: bool)
    ensures
        r == s@.contains(c),
{
    let mut i: usize = 0;
    while i < s.len()
        invariant
            i <= s@.len(),
            forall|k: int| 0 <= k < i ==> s@[k] != c,
        decreases s@.len() - i,
    {
        if s[i] == c {
            return true;
        }
        i += 1;
    }
    false
}

/// Parses one line of a `.gitignore` file found in `base_dir`.
pub fn parse_gitignore_line(line: &str, base_dir: &str) -> (r: Option<GitIgnoreRule>)
    ensures
        match parse_rule(line@, base_dir@) {
            None => r is None,
            Some(v) => r matches Some(rule) && rule@ == v,
        },
{
    let t0 = trim(line);
    let cs = chars_of(t0.as_str());
    let n = cs.len();
    if n == 0 || cs[0] == '#' {
        return None;
    }
    let negated = cs[0] == '!';
    let mut lo: usize = if negated { 1 } else { 0 };
    let mut hi: usize = n;
    let dir_only = hi > lo && cs[hi - 1] == '/';
    if dir_only {
        hi = hi - 1;
    }
    let ghost t1 = if negated { t0@.skip(1) } else { t0@ };
    let ghost t2 = if dir_only { t1.drop_last() } else { t1 };
    assert(cs@.subrange(lo as int, hi as int) =~= t2);
    let leading = hi > lo && cs[lo] == '/';
    if leading {
        lo = lo + 1;
    }
    let mid = crate::index::copy_range_chars(&cs, lo, hi);
    let slash_inside = contains_char(&mid, '/');
    proof {
        if leading {
            assert(mid@ =~= t2.skip(1));
        } else {
            assert(mid@ =~= t2);
        }
        if leading {
            assert(t2.contains('/'));
        } else {
            assert(mid@ == t2);
        }
    }
    Some(
        GitIgnoreRule {
            pattern: string_of(&mid),
            base_dir: base_dir.to_string(),
            negated,
            dir_only,
            has_slash: leading || slash_inside,
        },
    )
}

/// The path below `base_dir` that a rule from there is matched against:
/// the whole path for the top directory, empty for the base itself, `None`
/// for a path outside it.
pub open spec fn subpath(base_dir: Seq<char>, rel: Seq<char>) -> Option<Seq<char>> {
    if base_dir.len() == 0 {
        Some(rel)
    } else if rel == base_dir {
        Some(seq![])
    } else if has_prefix(rel, base_dir.push('/')) {
        Some(rel.skip(base_dir.len() + 1int))
    } else {
        None
    }
}

/// The path's segments that name something: not empty and not `.`.
pub open spec fn named_segments(parts: Seq<Seq<char>>) -> Seq<Seq<char>>
    decreases parts.len(),
{
    if parts.len() == 0 {
        seq![]
    } else {
        let r = named_segments(parts.drop_last());
        if parts.last().len() == 0 || parts.last() == seq!['.'] {
            r
        } else {
            r.push(parts.last())
        }
    }
}

/// The final name of a path (as `Path::file_name`), empty when the path has
/// none or ends in `..`.
pub open spec fn file_name(rel: Seq<char>) -> Seq<char> {
    let segs = named_segments(split_char(rel, '/'));
    if segs.len() == 0 || segs.last() == seq!['.', '.'] {
        seq![]
    } else {
        segs.last()
    }
}

/// Whether some `/`-separated piece of `sub` matches `pattern`.
pub open spec fn some_segment_matches(pattern: Seq<char>, sub: Seq<char>) -> bool {
    exists|k: int| 0 <= k < split_char(sub, '/').len() && glob(pattern, #[trigger] split_char(sub, '/')[k])
}

/// Whether `rule` matches `rel` (a directory when `is_dir`).
pub open spec fn rule_matches(rule: RuleView, rel: Seq<char>, is_dir: bool) -> bool {
    if rule.dir_only && !is_dir {
        false
    } else {
        match subpath(rule.base_dir, rel) {
            None => false,
            Some(sub) => if rule.has_slash {
                glob(rule.pattern, sub)
            } else {
                glob(rule.pattern, file_name(rel)) || some_segment_matches(rule.pattern, sub)
            },
        }
    }
}

/// Whether `rel` is ignored: the last rule that matches it decides, and a
/// negated rule un-ignores.
pub open spec fn ignored_by(rules: Seq<RuleView>, rel: Seq<char>, is_dir: bool) -> bool
    decreases rules.len(),
{
    if rules.len() == 0 {
        false
    } else if rule_matches(rules.last(), rel, is_dir) {
        !rules.last().negated
    } else {
        ignored_by(rules.drop_last(), rel, is_dir)
    }
}

pub open spec fn rule_views(rules: Seq<GitIgnoreRule>) -> Seq<RuleView> {
    rules.map_values(|r: GitIgnoreRule| r@)
}

fn name_segments(parts: &Vec<String>) -> (r: Vec<String>)
    ensures
        string_views(r@) == named_segments(string_views(parts@)),
{
    let ghost ps = string_views(parts@);
    let mut out: Vec<String> = Vec::new();
    let mut i: usize = 0;
    assert(ps.take(0) =~= Seq::<Seq<char>>::empty());
    while i < parts.len()
        invariant
            ps == string_views(parts@),
            i <= parts@.len(),
            string_views(out@) == named_segments(ps.take(i as int)),
        decreases parts@.len() - i,
    {
        proof {
            let t = ps.take(i + 1);
            assert(t.drop_last() =~= ps.take(i as int));
            assert(t.last() == parts@[i as int]@);
        }
        if !(parts[i].unicode_len() == 0 || str_eq(parts[i].as_str(), ".")) {
            let ghost before = string_views(out@);
            out.push(parts[i].clone());
            proof {
                reveal_strlit(".");
                assert("."@ =~= seq!['.']);
                assert(string_views(out@) =~= before.push(parts@[i as int]@));
            }
        } else {
            proof {
                reveal_strlit(".");
                assert("."@ =~= seq!['.']);
            }
        }
        i += 1;
    }
    assert(ps.take(parts@.len() as int) =~= ps);
    out
}

/// The final name of `rel`, empty when it has none.
pub fn path_file_name(rel: &str) -> (r: String)
    ensures
        r@ == file_name(rel@),
{
    let parts = split_on(rel, '/');
    let segs = name_segments(&parts);
    if segs.len() == 0 {
        let e = String::new();
        assert(e@ =~= Seq::<char>::empty());
        return e;
    }
    let last = segs[segs.len() - 1].clone();
    proof {
        reveal_strlit("..");
        assert(".."@ =~= seq!['.', '.']);
        assert(last@ == string_views(segs@).last());
    }
    if str_eq(last.as_str(), "..") {
        let e = String::new();
        assert(e@ =~= Seq::<char>::empty());
        e
    } else {
        last
    }
}

fn rule_subpath(base_dir: &str, rel: &str) -> (r: Option<String>)
    ensures
        match subpath(base_dir@, rel@) {
            None => r is None,
            Some(s) => r matches Some(x) && x@ == s,
        },
{
    if base_dir.unicode_len() == 0 {
        return Some(rel.to_string());
    }
    if str_eq(rel, base_dir) {
        let e = String::new();
        assert(e@ =~= Seq::<char>::empty());
        return Some(e);
    }
    let mut prefix: Vec<char> = chars_of(base_dir);
    prefix.push('/');
    let p = string_of(&prefix);
    crate::text::strip_prefix(rel, p.as_str())
}

/// Whether `rule` matches `rel_path` (a directory when `is_dir`).
pub fn rule_applies(rule: &GitIgnoreRule, rel_path: &str, is_dir: bool) -> (r: bool)
    ensures
        r == rule_matches(rule@, rel_path@, is_dir),
{
    if rule.dir_only && !is_dir {
        return false;
    }
    let sub = match rule_subpath(rule.base_dir.as_str(), rel_path) {
        None => {
            return false;
        },
        Some(s) => s,
    };
    if rule.has_slash {
        return glob_match(rule.pattern.as_str(), sub.as_str());
    }
    let name = path_file_name(rel_path);
    if glob_match(rule.pattern.as_str(), name.as_str()) {
        return true;
    }
    let parts = split_on(sub.as_str(), '/');
    let mut k: usize = 0;
    while k < parts.len()
        invariant
            string_views(parts@) == split_char(sub@, '/'),
            subpath(rule@.base_dir, rel_path@) == Some(sub@),
            !rule@.has_slash,
            !(rule@.dir_only && !is_dir),
            k <= parts@.len(),
            forall|j: int| 0 <= j < k ==> !glob(rule@.pattern, #[trigger] split_char(sub@, '/')[j]),
        decreases parts@.len() - k,
    {
        if glob_match(rule.pattern.as_str(), parts[k].as_str()) {
            assert(split_char(sub@, '/')[k as int] == parts@[k as int]@);
            assert(glob(rule@.pattern, split_char(sub@, '/')[k as int]));
            assert(k < split_char(sub@, '/').len());
            assert(some_segment_matches(rule@.pattern, sub@));
            return true;
        }
        assert(split_char(sub@, '/')[k as int] == parts@[k as int]@);
        k += 1;
    }
    false
}

/// Whether `rel_path` is ignored by `rules`, taken in order, the last
/// matching rule deciding.
pub fn is_path_ignored(rules: &[GitIgnoreRule], rel_path: &str, is_dir: bool) -> (r: bool)
    ensures
        r == ignored_by(rule_views(rules@), rel_path@, is_dir),
{
    let mut ignored = false;
    let mut i: usize = 0;
    let ghost rv = rule_views(rules@);
    assert(rv.take(0) =~= Seq::<RuleView>::empty());
    while i < rules.len()
        invariant
            rv == rule_views(rules@),
            i <= rules@.len(),
            ignored == ignored_by(rv.take(i as int), rel_path@, is_dir),
        decreases rules@.len() - i,
    {
        proof {
            let t = rv.take(i + 1);
            assert(t.drop_last() =~= rv.take(i as int));
            assert(t.last() == rules@[i as int]@);
        }
        if rule_applies(&rules[i], rel_path, is_dir) {
            ignored = !rules[i].negated;
        }
        i += 1;
    }
    assert(rv.take(rules@.len() as int) =~= rv);
    ignored
}

/// The segments of a path that name something (not empty, `.` or `..`).
pub open spec fn normal_segments(parts: Seq<Seq<char>>) -> Seq<Seq<char>>
    decreases parts.len(),
{
    if parts.len() == 0 {
        seq![]
    } else {
        let r = normal_segments(parts.drop_last());
        let l = parts.last();
        if l.len() == 0 || l == seq!['.'] || l == seq!['.', '.'] {
            r
        } else {
            r.push(l)
        }
    }
}

/// A path as a relative, `/`-separated string of its named components.
pub fn normalize_path(path: &str) -> (r: String)
    ensures
        r@ == join_char(normal_segments(split_char(path@, '/')), '/'),
{
    let parts = split_on(path, '/');
    let ghost ps = string_views(parts@);
    let mut out: Vec<String> = Vec::new();
    let mut i: usize = 0;
    assert(ps.take(0) =~= Seq::<Seq<char>>::empty());
    while i < parts.len()
        invariant
            ps == string_views(parts@),
            i <= parts@.len(),
            string_views(out@) == normal_segments(ps.take(i as int)),
        decreases parts@.len() - i,
    {
        proof {
            let t = ps.take(i + 1);
            assert(t.drop_last() =~= ps.take(i as int));
            assert(t.last() == parts@[i as int]@);
            reveal_strlit(".");
            reveal_strlit("..");
            assert("."@ =~= seq!['.']);
            assert(".."@ =~= seq!['.', '.']);
        }
        let p = parts[i].as_str();
        if !(p.unicode_len() == 0 || str_eq(p, ".") || str_eq(p, "..")) {
            let ghost before = string_views(out@);
            out.push(parts[i].clone());
            assert(string_views(out@) =~= before.push(parts@[i as int]@));
        }
        i += 1;
    }
    assert(ps.take(parts@.len() as int) =~= ps);
    crate::text::join_with(&out, '/')
}


/// A pattern with no `*` and no `?` matches exactly the text equal to it.
pub proof fn glob_literal_matches_itself(p: Seq<char>, t: Seq<char>)
    requires
        forall|i: int| 0 <= i < p.len() ==> #[trigger] p[i] != '*' && p[i] != '?',
    ensures
        glob(p, t) <==> p == t,
    decreases p.len(),
{
    if p.len() == 0 {
        if t.len() == 0 {
            assert(p =~= t);
        }
    } else if t.len() > 0 {
        assert forall|i: int| 0 <= i < p.skip(1).len() implies #[trigger] p.skip(1)[i] != '*' && p.skip(1)[i]
            != '?' by {
            assert(p.skip(1)[i] == p[i + 1]);
        }
        glob_literal_matches_itself(p.skip(1), t.skip(1));
        if p[0] == t[0] && p.skip(1) == t.skip(1) {
            assert forall|i: int| 0 <= i < p.len() implies p[i] == t[i] by {
                if i > 0 {
                    assert(p[i] == p.skip(1)[i - 1]);
                    assert(t[i] == t.skip(1)[i - 1]);
                }
            }
            assert(p =~= t);
        }
        if p == t {
            assert(p.skip(1) =~= t.skip(1));
        }
    }
}

proof fn lemma_segment_from(t: Seq<char>, i: int)
    requires
        0 <= i <= t.len(),
    ensures
        glob_segment_from(seq![], t, i) <==> forall|j: int| i <= j < t.len() ==> #[trigger] t[j] != '/',
    decreases t.len() - i,
{
    assert(glob(seq![], t.skip(i)) <==> i == t.len());
    if i < t.len() {
        lemma_segment_from(t, i + 1);
        if t[i] != '/' && forall|j: int| i + 1 <= j < t.len() ==> #[trigger] t[j] != '/' {
            assert forall|j: int| i <= j < t.len() implies #[trigger] t[j] != '/' by {
                if j > i {
                }
            }
        }
    }
}

/// A lone `*` matches exactly the texts without a `/` (one path segment).
pub proof fn glob_star_stays_in_segment(t: Seq<char>)
    ensures
        glob(seq!['*'], t) <==> !t.contains('/'),
{
    assert(seq!['*'].skip(1) =~= Seq::<char>::empty());
    lemma_segment_from(t, 0);
    if t.contains('/') {
        let j = choose|j: int| 0 <= j < t.len() && t[j] == '/';
        assert(t[j] == '/');
    }
}

proof fn lemma_any_from_end(rest: Seq<char>, t: Seq<char>, i: int)
    requires
        0 <= i <= t.len(),
        glob(rest, t.skip(t.len() as int)),
    ensures
        glob_any_from(rest, t, i),
    decreases t.len() - i,
{
    if i < t.len() {
        lemma_any_from_end(rest, t, i + 1);
    }
}

/// `**` matches every text, `/` included.
pub proof fn glob_double_star_matches_all(t: Seq<char>)
    ensures
        glob(seq!['*', '*'], t),
{
    assert(double_star_rest(seq!['*', '*']) =~= Seq::<char>::empty());
    assert(t.skip(t.len() as int) =~= Seq::<char>::empty());
    lemma_any_from_end(seq![], t, 0);
}

/// A lone `?` matches exactly one character other than `/`.
pub proof fn glob_question_one_char(t: Seq<char>)
    ensures
        glob(seq!['?'], t) <==> (t.len() == 1 && t[0] != '/'),
{
    let q = seq!['?'];
    assert(q.len() == 1 && q[0] == '?');
    assert(q.skip(1) =~= Seq::<char>::empty());
    if t.len() > 0 {
        assert(glob(q, t) == (t[0] != '/' && glob(q.skip(1), t.skip(1))));
    }
}

/// The last rule that matches a path decides whether it is ignored (a
/// negated rule un-ignores it); a path no rule matches is not ignored.
pub proof fn last_matching_rule_decides(rules: Seq<RuleView>, rel: Seq<char>, is_dir: bool)
    ensures
        ignored_by(rules, rel, is_dir) <==> exists|k: int|
            #![trigger rules[k]]
            0 <= k < rules.len() && rule_matches(rules[k], rel, is_dir) && !rules[k].negated && forall|j: int|
                k < j < rules.len() ==> !rule_matches(#[trigger] rules[j], rel, is_dir),
        (forall|k: int| 0 <= k < rules.len() ==> !rule_matches(#[trigger] rules[k], rel, is_dir)) ==> !ignored_by(
            rules,
            rel,
            is_dir,
        ),
    decreases rules.len(),
{
    if rules.len() > 0 {
        let n = rules.len() - 1;
        let front = rules.drop_last();
        last_matching_rule_decides(front, rel, is_dir);
        if rule_matches(rules[n], rel, is_dir) {
            if ignored_by(rules, rel, is_dir) {
                assert(rules[n] == rules.last());
            }
            if exists|k: int|
                #![trigger rules[k]]
                0 <= k < rules.len() && rule_matches(rules[k], rel, is_dir) && !rules[k].negated && forall|j: int|
                    k < j < rules.len() ==> !rule_matches(#[trigger] rules[j], rel, is_dir) {
                let k = choose|k: int|
                    #![trigger rules[k]]
                    0 <= k < rules.len() && rule_matches(rules[k], rel, is_dir) && !rules[k].negated && forall|j: int|
                        k < j < rules.len() ==> !rule_matches(#[trigger] rules[j], rel, is_dir);
                if k < n {
                    assert(!rule_matches(rules[n], rel, is_dir));
                }
            }
        } else {
            if ignored_by(rules, rel, is_dir) {
                let k = choose|k: int|
                    #![trigger front[k]]
                    0 <= k < front.len() && rule_matches(front[k], rel, is_dir) && !front[k].negated && forall|j: int|
                        k < j < front.len() ==> !rule_matches(#[trigger] front[j], rel, is_dir);
                assert(rules[k] == front[k]);
                assert forall|j: int| k < j < rules.len() implies !rule_matches(#[trigger] rules[j], rel, is_dir) by {
                    if j < n {
                        assert(rules[j] == front[j]);
                    }
                }
            }
            if exists|k: int|
                #![trigger rules[k]]
                0 <= k < rules.len() && rule_matches(rules[k], rel, is_dir) && !rules[k].negated && forall|j: int|
                    k < j < rules.len() ==> !rule_matches(#[trigger] rules[j], rel, is_dir) {
                let k = choose|k: int|
                    #![trigger rules[k]]
                    0 <= k < rules.len() && rule_matches(rules[k], rel, is_dir) && !rules[k].negated && forall|j: int|
                        k < j < rules.len() ==> !rule_matches(#[trigger] rules[j], rel, is_dir);
                assert(k < n);
                assert(front[k] == rules[k]);
                assert forall|j: int| k < j < front.len() implies !rule_matches(#[trigger] front[j], rel, is_dir) by {
                    assert(front[j] == rules[j]);
                }
            }
            if forall|k: int| 0 <= k < rules.len() ==> !rule_matches(#[trigger] rules[k], rel, is_dir) {
                assert forall|k: int| 0 <= k < front.len() implies !rule_matches(#[trigger] front[k], rel, is_dir) by {
                    assert(front[k] == rules[k]);
                }
            }
        }
    }
}

} // verus!
