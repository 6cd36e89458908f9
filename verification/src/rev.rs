//! Revision expressions: `<name>~<n>` and walking first parents.
use vstd::prelude::*;
use crate::codec::{from_utf8_lossy, lossy_decode};
use crate::commit::{parent_prefix, prefixed, CommitError};
use crate::stash::{parse_usize, parse_usize_str};
use crate::text::{chars_of, first_index, lines_of, split_lines, str_eq, string_of, string_views, strip_prefix};

verus! {

/// A revision split at its first `~`: the name before it and the number of
/// first-parent steps after it (1 when that part is not a number); no `~`
/// means no steps.
pub open spec fn rev_parts(s: Seq<char>) -> (Seq<char>, nat) {
    let i = first_index(s, '~');
    if i < 0 {
        (s, 0)
    } else {
        (
            s.take(i),
            match parse_usize(s.skip(i + 1)) {
                Some(n) => n,
                None => 1,
            },
        )
    }
}

/// Splits a revision into its name and number of first-parent steps.
pub fn parse_rev(source: &str) -> (r: (String, usize))
    ensures
        (r.0@, r.1 as nat) == rev_parts(source@),
{
    let cs = chars_of(source);
    let n = cs.len();
    let mut i: usize = 0;
    while i < n && cs[i] != '~'
        invariant
            cs@ == source@,
            n == cs@.len(),
            i <= n,
            forall|k: int| 0 <= k < i ==> cs@[k] != '~',
        decreases n - i,
    {
        i += 1;
    }
    proof {
        crate::text::lemma_first_index_at(source@, '~', i as int);
    }
    if i == n {
        return (source.to_string(), 0);
    }
    let base = crate::text::substring(source, 0, i);
    let num = crate::text::substring(source, i + 1, n);
    assert(base@ =~= source@.take(i as int));
    assert(num@ =~= source@.skip(i + 1));
    let steps = match parse_usize_str(num.as_str()) {
        Some(v) => v,
        None => 1,
    };
    (base, steps)
}

/// `s` equals `HEAD` ignoring ASCII case.
pub open spec fn is_head_spelling(s: Seq<char>) -> bool {
    s.len() == 4 && (s[0] == 'h' || s[0] == 'H') && (s[1] == 'e' || s[1] == 'E') && (s[2] == 'a' || s[2]
        == 'A') && (s[3] == 'd' || s[3] == 'D')
}

/// Whether a revision name means `HEAD` (any ASCII case).
pub fn is_head_name(s: &str) -> (r: bool)
    ensures
        r == is_head_spelling(s@),
{
    let cs = chars_of(s);
    cs.len() == 4 && (cs[0] == 'h' || cs[0] == 'H') && (cs[1] == 'e' || cs[1] == 'E') && (cs[2] == 'a'
        || cs[2] == 'A') && (cs[3] == 'd' || cs[3] == 'D')
}

/// The first parent named in a commit's header (its first header line that
/// starts with `parent `), if any.
pub open spec fn first_parent_of(text: Seq<char>) -> Option<Seq<char>> {
    let ps = prefixed(crate::commit::header_lines(lines_of(text)), parent_prefix());
    if ps.len() == 0 {
        None
    } else {
        Some(ps[0])
    }
}

/// One step of `~`: the first parent of a stored commit, given the object's
/// kind and content; refused for an object that is not a commit.
pub fn first_parent(kind: &str, content: &[u8]) -> (r: Result<Option<String>, CommitError>)
    ensures
        kind@ != "commit"@ ==> r == Err::<Option<String>, CommitError>(CommitError::NotACommit),
        kind@ == "commit"@ ==> match first_parent_of(lossy_decode(content@)) {
            None => r == Ok::<Option<String>, CommitError>(None),
            Some(p) => r matches Ok(Some(x)) && x@ == p,
        },
{
    if !str_eq(kind, "commit") {
        return Err(CommitError::NotACommit);
    }
    let text = from_utf8_lossy(content);
    let ps = crate::commit::commit_parents(text.as_str());
    if ps.len() == 0 {
        Ok(None)
    } else {
        assert(string_views(ps@)[0] == ps@[0]@);
        Ok(Some(ps[0].clone()))
    }
}

/// Why a name did not resolve to a commit.
#[derive(Debug, Clone, PartialEq, Eq)]
pub enum RevError {
    /// The object of that name is not a commit; holds the name and its kind.
    NotACommit(String, String),
    /// Neither a branch nor an object has that name.
    NotFound(String),
}

/// The commit a name stands for: the branch's commit when `ref_hash` (the
/// content of `refs/heads/<name>`) is there, else the name itself when it
/// names a stored commit; `kind` is the kind of the object of that name, if
/// one is stored.
pub fn resolve_name(name: &str, ref_hash: Option<&str>, kind: Option<&str>) -> (r: Result<String, RevError>)
    ensures
        match ref_hash {
            Some(h) => r matches Ok(x) && x@ == h@,
            None => match kind {
                None => r matches Err(RevError::NotFound(x)) && x@ == name@,
                Some(k) => if k@ == "commit"@ {
                    r matches Ok(x) && x@ == name@
                } else {
                    r matches Err(RevError::NotACommit(x, y)) && x@ == name@ && y@ == k@
                },
            },
        },
{
    match ref_hash {
        Some(h) => Ok(h.to_string()),
        None => match kind {
            None => Err(RevError::NotFound(name.to_string())),
            Some(k) => {
                if str_eq(k, "commit") {
                    Ok(name.to_string())
                } else {
                    Err(RevError::NotACommit(name.to_string(), k.to_string()))
                }
            },
        },
    }
}

} // verus!
