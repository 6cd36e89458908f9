//! References: what `HEAD` holds, branch refs, branch names, and listing branches.
use vstd::prelude::*;
use crate::index::{chars_le, str_le};
use crate::text::{
    chars_of, has_prefix, has_suffix, push_str, split_char, split_on, starts_with, ends_with, str_eq,
    string_of, string_views, strip_prefix, trim, trim_ws, is_ws, trim_start_ws, trim_end_ws,
};

verus! {

/// Where `HEAD` points: a branch by name, or a commit directly.
#[derive(Debug, Clone)]
pub enum HeadState {
    Branch(String),
    Detached(String),
}

/// The content of a `HeadState`.
pub enum HeadView {
    Branch(Seq<char>),
    Detached(Seq<char>),
}

pub open spec fn head_view(h: HeadState) -> HeadView {
    match h {
        HeadState::Branch(b) => HeadView::Branch(b@),
        HeadState::Detached(c) => HeadView::Detached(c@),
    }
}

/// What the text of `.git/HEAD` says: after trimming, `ref: <ref>` names a
/// branch (`refs/heads/` dropped from the ref when present); anything else
/// is a detached commit hash.
pub open spec fn head_of(content: Seq<char>) -> HeadView {
    let t = trim_ws(content);
    if has_prefix(t, "ref: "@) {
        let r = t.skip(5);
        if has_prefix(r, "refs/heads/"@) {
            HeadView::Branch(r.skip(11))
        } else {
            HeadView::Branch(r)
        }
    } else {
        HeadView::Detached(t)
    }
}

/// Reads the text of `.git/HEAD`.
pub fn parse_head(content: &str) -> (r: HeadState)
    ensures
        head_view(r) == head_of(content@),
{
    proof {
        reveal_strlit("ref: ");
        reveal_strlit("refs/heads/");
    }
    let t = trim(content);
    match strip_prefix(t.as_str(), "ref: ") {
        Some(r) => match strip_prefix(r.as_str(), "refs/heads/") {
            Some(b) => HeadState::Branch(b),
            None => HeadState::Branch(r),
        },
        None => HeadState::Detached(t),
    }
}

/// The ref `.git/HEAD` names (`ref: <ref>` after trimming), if it names one.
pub open spec fn head_ref_of(content: Seq<char>) -> Option<Seq<char>> {
    let t = trim_ws(content);
    if has_prefix(t, "ref: "@) {
        Some(t.skip(5))
    } else {
        None
    }
}

/// The ref that `.git/HEAD` names, or `None` for a detached `HEAD`.
pub fn current_branch_ref(head_content: &str) -> (r: Option<String>)
    ensures
        match head_ref_of(head_content@) {
            None => r is None,
            Some(x) => r matches Some(y) && y@ == x,
        },
{
    proof {
        reveal_strlit("ref: ");
    }
    let t = trim(head_content);
    strip_prefix(t.as_str(), "ref: ")
}

/// `refs/heads/<name>`.
pub open spec fn branch_ref(name: Seq<char>) -> Seq<char> {
    "refs/heads/"@ + name
}

/// The ref of the branch `name`.
pub fn branch_ref_path(name: &str) -> (r: String)
    ensures
        r@ == branch_ref(name@),
{
    let mut out: Vec<char> = Vec::new();
    push_str(&mut out, "refs/heads/");
    push_str(&mut out, name);
    string_of(&out)
}

/// The commit `HEAD` stands for, given what the current branch's ref file
/// holds (`None` when it does not exist): a detached `HEAD`'s hash, else the
/// trimmed content of the branch ref.
pub fn resolve_head_commit(head: &HeadState, branch_ref_content: Option<&str>) -> (r: Option<String>)
    ensures
        match head_view(*head) {
            HeadView::Detached(c) => r matches Some(x) && x@ == c,
            HeadView::Branch(_) => match branch_ref_content {
                None => r is None,
                Some(s) => r matches Some(x) && x@ == trim_ws(s@),
            },
        },
{
    match head {
        HeadState::Detached(h) => Some(h.clone()),
        HeadState::Branch(_) => match branch_ref_content {
            None => None,
            Some(s) => Some(trim(s)),
        },
    }
}

/// The text written to `.git/HEAD` to point it at a branch.
pub fn head_content_for_branch(name: &str) -> (r: String)
    ensures
        r@ == "ref: refs/heads/"@ + name@ + seq!['\n'],
{
    let mut out: Vec<char> = Vec::new();
    push_str(&mut out, "ref: refs/heads/");
    push_str(&mut out, name);
    out.push('\n');
    string_of(&out)
}

/// The text of a ref file (or a detached `.git/HEAD`) holding `hash`.
pub fn ref_content(hash: &str) -> (r: String)
    ensures
        r@ == hash@ + seq!['\n'],
{
    let mut out: Vec<char> = Vec::new();
    push_str(&mut out, hash);
    out.push('\n');
    string_of(&out)
}

/// A character no branch name may hold: ASCII control characters, space,
/// `~ ^ : ? * [ \`.
pub open spec fn bad_branch_char(c: char) -> bool {
    (c as u32) < 32 || c == '\u{7f}' || c == ' ' || c == '~' || c == '^' || c == ':' || c == '?' || c
        == '*' || c == '[' || c == '\\'
}

/// A `/`-separated component of a branch name that is allowed: not empty,
/// not starting with `.`, not ending with `.lock`.
pub open spec fn good_component(c: Seq<char>) -> bool {
    c.len() > 0 && c[0] != '.' && !has_suffix(c, ".lock"@)
}

/// The rules for branch names (a subset of `git check-ref-format`).
pub open spec fn valid_branch_name(s: Seq<char>) -> bool {
    &&& s.len() > 0
    &&& !has_suffix(s, ".lock"@)
    &&& s.last() != '.'
    &&& s != "@"@
    &&& s[0] != '.'
    &&& forall|i: int| 0 <= i < s.len() ==> !bad_branch_char(#[trigger] s[i])
    &&& forall|i: int|
        1 <= i < s.len() ==> !(s[i] == '.' && s[i - 1] == '.') && !(s[i] == '/' && s[i - 1] == '/') && !(
        s[i] == '{' && s[i - 1] == '@') && #[trigger] s[i] == s[i]
    &&& s[0] != '/'
    &&& s.last() != '/'
    &&& forall|k: int| 0 <= k < split_char(s, '/').len() ==> good_component(#[trigger] split_char(s, '/')[k])
}

/// Whether `name` may be used as a branch name.
pub fn is_valid_branch_name(name: &str) -> (r: bool)
    ensures
        r == valid_branch_name(name@),
{
    proof {
        reveal_strlit(".lock");
        reveal_strlit("@");
    }
    let cs = chars_of(name);
    let n = cs.len();
    if n == 0 {
        return false;
    }
    if ends_with(name, ".lock") || cs[n - 1] == '.' || str_eq(name, "@") || cs[0] == '.' {
        return false;
    }
    let mut i: usize = 0;
    while i < n
        invariant
            cs@ == name@,
            n == cs@.len(),
            i <= n,
            forall|k: int| 0 <= k < i ==> !bad_branch_char(#[trigger] cs@[k]),
            forall|k: int|
                1 <= k < i ==> !(cs@[k] == '.' && cs@[k - 1] == '.') && !(cs@[k] == '/' && cs@[k - 1]
                    == '/') && !(cs@[k] == '{' && cs@[k - 1] == '@') && #[trigger] cs@[k] == cs@[k],
        decreases n - i,
    {
        let c = cs[i];
        if (c as u32) < 32 || c == '\u{7f}' || c == ' ' || c == '~' || c == '^' || c == ':' || c == '?'
            || c == '*' || c == '[' || c == '\\' {
            return false;
        }
        if i > 0 {
            let p = cs[i - 1];
            if (c == '.' && p == '.') || (c == '/' && p == '/') || (c == '{' && p == '@') {
                return false;
            }
        }
        i += 1;
    }
    if cs[0] == '/' || cs[n - 1] == '/' {
        return false;
    }
    let parts = split_on(name, '/');
    let mut k: usize = 0;
    while k < parts.len()
        invariant
            string_views(parts@) == split_char(name@, '/'),
            k <= parts@.len(),
            forall|j: int| 0 <= j < k ==> good_component(#[trigger] split_char(name@, '/')[j]),
        decreases parts@.len() - k,
    {
        let part = parts[k].as_str();
        assert(split_char(name@, '/')[k as int] == part@);
        if part.unicode_len() == 0 {
            return false;
        }
        if starts_with(part, ".") || ends_with(part, ".lock") {
            proof {
                reveal_strlit(".");
                if has_prefix(part@, "."@) {
                    assert(part@[0] == "."@[0]);
                }
            }
            return false;
        }
        proof {
            reveal_strlit(".");
            if part@[0] == '.' {
                assert(part@.subrange(0, 1) =~= "."@);
            }
        }
        k += 1;
    }
    true
}

/// The branch names as `git branch` lists them: each prefixed with `* ` for
/// the current branch and two spaces otherwise; with no branches at all, just
/// the current branch (when `HEAD` names one).
pub open spec fn branch_lines(branches: Seq<Seq<char>>, current: Option<Seq<char>>) -> Seq<Seq<char>> {
    if branches.len() == 0 {
        match current {
            Some(c) => seq!["* "@ + c],
            None => seq![],
        }
    } else {
        Seq::new(
            branches.len(),
            |i: int|
                if current == Some(branches[i]) {
                    "* "@ + branches[i]
                } else {
                    "  "@ + branches[i]
                },
        )
    }
}

/// The lines `branch` prints when listing `branches` (already sorted).
pub fn format_branch_list(branches: &Vec<String>, current: Option<&str>) -> (r: Vec<String>)
    ensures
        string_views(r@) == branch_lines(
            string_views(branches@),
            match current {
                Some(c) => Some(c@),
                None => None,
            },
        ),
{
    let ghost cur = match current {
        Some(c) => Some(c@),
        None => None::<Seq<char>>,
    };
    let mut out: Vec<String> = Vec::new();
    if branches.len() == 0 {
        match current {
            Some(c) => {
                let mut line: Vec<char> = Vec::new();
                push_str(&mut line, "* ");
                push_str(&mut line, c);
                out.push(string_of(&line));
                assert(string_views(out@) =~= branch_lines(string_views(branches@), cur));
            },
            None => {
                assert(string_views(out@) =~= branch_lines(string_views(branches@), cur));
            },
        }
        return out;
    }
    let ghost bv = string_views(branches@);
    let mut i: usize = 0;
    while i < branches.len()
        invariant
            bv == string_views(branches@),
            bv.len() > 0,
            i <= bv.len(),
            cur == match current {
                Some(c) => Some(c@),
                None => None::<Seq<char>>,
            },
            string_views(out@) == branch_lines(bv, cur).take(i as int),
        decreases bv.len() - i,
    {
        let mut line: Vec<char> = Vec::new();
        let is_current = match current {
            Some(c) => str_eq(branches[i].as_str(), c),
            None => false,
        };
        if is_current {
            push_str(&mut line, "* ");
        } else {
            push_str(&mut line, "  ");
        }
        push_str(&mut line, branches[i].as_str());
        let ghost before = string_views(out@);
        out.push(string_of(&line));
        proof {
            assert(string_views(out@) =~= before.push(line@));
            assert(branch_lines(bv, cur)[i as int] == line@);
            assert(branch_lines(bv, cur).take(i + 1) =~= branch_lines(bv, cur).take(i as int).push(line@));
        }
        i += 1;
    }
    assert(branch_lines(bv, cur).take(bv.len() as int) =~= branch_lines(bv, cur));
    out
}

/// Inserts `x` after the last element that sorts no later than it.
pub open spec fn insert_name(s: Seq<Seq<char>>, x: Seq<char>) -> Seq<Seq<char>>
    decreases s.len(),
{
    if s.len() == 0 {
        seq![x]
    } else if chars_le(s.last(), x) {
        s.push(x)
    } else {
        insert_name(s.drop_last(), x).push(s.last())
    }
}

/// The names in sorted order.
pub open spec fn sort_names(s: Seq<Seq<char>>) -> Seq<Seq<char>>
    decreases s.len(),
{
    if s.len() == 0 {
        seq![]
    } else {
        insert_name(sort_names(s.drop_last()), s.last())
    }
}

proof fn lemma_insert_name(s: Seq<Seq<char>>, x: Seq<char>)
    requires
        forall|i: int, j: int| 0 <= i < j < s.len() ==> chars_le(#[trigger] s[i], #[trigger] s[j]),
    ensures
        forall|i: int, j: int|
            0 <= i < j < insert_name(s, x).len() ==> chars_le(#[trigger] insert_name(s, x)[i], #[trigger] insert_name(s, x)[j]),
        insert_name(s, x).to_multiset() == s.to_multiset().insert(x),
    decreases s.len(),
{
    broadcast use vstd::seq_lib::group_to_multiset_ensures;
    if s.len() == 0 {
        assert(seq![x] =~= Seq::<Seq<char>>::empty().push(x));
    } else if chars_le(s.last(), x) {
        let r = s.push(x);
        assert forall|i: int, j: int| 0 <= i < j < r.len() implies chars_le(#[trigger] r[i], #[trigger] r[j]) by {
            if j == s.len() {
                assert(r[i] == s[i]);
                if i < s.len() - 1 {
                    assert(chars_le(s[i], s[s.len() - 1]));
                } else {
                    crate::paths::lemma_le_refl(s.last());
                }
                crate::paths::lemma_le_trans(s[i], s.last(), x);
            } else {
                assert(r[i] == s[i] && r[j] == s[j]);
            }
        }
    } else {
        let s0 = s.drop_last();
        let l = s.last();
        assert forall|i: int, j: int| 0 <= i < j < s0.len() implies chars_le(#[trigger] s0[i], #[trigger] s0[j]) by {
            assert(s0[i] == s[i] && s0[j] == s[j]);
        }
        lemma_insert_name(s0, x);
        let q = insert_name(s0, x);
        let r = q.push(l);
        crate::paths::lemma_le_total(l, x);
        assert(s0.push(l) =~= s);
        assert forall|i: int, j: int| 0 <= i < j < r.len() implies chars_le(#[trigger] r[i], #[trigger] r[j]) by {
            if j == q.len() {
                assert(r[i] == q[i]);
                assert(q.to_multiset().count(q[i]) > 0);
                if q[i] != x {
                    assert(s0.to_multiset().count(q[i]) > 0);
                    let k = choose|k: int| 0 <= k < s0.len() && s0[k] == q[i];
                    assert(s[k] == q[i]);
                    assert(chars_le(s[k], s[s.len() - 1]));
                }
            } else {
                assert(r[i] == q[i] && r[j] == q[j]);
            }
        }
    }
}

/// Sorting names puts them in order and keeps every name: the result is
/// sorted and holds the same names, as many times each.
pub proof fn sort_names_sorts(s: Seq<Seq<char>>)
    ensures
        forall|i: int, j: int| 0 <= i < j < sort_names(s).len() ==> chars_le(#[trigger] sort_names(s)[i], #[trigger] sort_names(s)[j]),
        sort_names(s).to_multiset() == s.to_multiset(),
    decreases s.len(),
{
    broadcast use vstd::seq_lib::group_to_multiset_ensures;
    if s.len() > 0 {
        sort_names_sorts(s.drop_last());
        lemma_insert_name(sort_names(s.drop_last()), s.last());
        assert(s.drop_last().push(s.last()) =~= s);
    }
}

/// Sorts branch names (as `list_branches` returns them).
pub fn list_branches(names: Vec<String>) -> (r: Vec<String>)
    ensures
        string_views(r@) == sort_names(string_views(names@)),
{
    let ghost orig = string_views(names@);
    let mut out: Vec<String> = Vec::new();
    let mut i: usize = 0;
    assert(orig.take(0) =~= Seq::<Seq<char>>::empty());
    while i < names.len()
        invariant
            orig == string_views(names@),
            i <= orig.len(),
            string_views(out@) == sort_names(orig.take(i as int)),
        decreases orig.len() - i,
    {
        let e = names[i].clone();
        let ghost s0 = string_views(out@);
        let mut j = out.len();
        assert(s0.subrange(0, j as int) =~= s0);
        assert(insert_name(s0, e@) + s0.subrange(j as int, s0.len() as int) =~= insert_name(s0, e@));
        while j > 0 && !str_le(out[j - 1].as_str(), e.as_str())
            invariant
                j <= out@.len(),
                s0 == string_views(out@),
                insert_name(s0, e@) == insert_name(s0.subrange(0, j as int), e@) + s0.subrange(
                    j as int,
                    s0.len() as int,
                ),
            decreases j,
        {
            proof {
                let t = s0.subrange(0, j as int);
                assert(t.drop_last() =~= s0.subrange(0, j - 1));
                assert(t.last() == s0[j - 1]);
                assert(insert_name(s0.subrange(0, j - 1), e@).push(s0[j - 1]) + s0.subrange(
                    j as int,
                    s0.len() as int,
                ) =~= insert_name(s0.subrange(0, j - 1), e@) + s0.subrange(j - 1, s0.len() as int));
            }
            j -= 1;
        }
        proof {
            let t = s0.subrange(0, j as int);
            if j > 0 {
                assert(t.last() == s0[j - 1]);
                assert(insert_name(t, e@) == t.push(e@));
            } else {
                assert(t =~= Seq::<Seq<char>>::empty());
            }
        }
        let ghost ev = e@;
        out.insert(j, e);
        proof {
            assert(string_views(out@) =~= s0.subrange(0, j as int).push(ev) + s0.subrange(
                j as int,
                s0.len() as int,
            ));
            let pre = orig.take(i + 1);
            assert(pre.drop_last() =~= orig.take(i as int));
            assert(pre.last() == names@[i as int]@);
        }
        i += 1;
    }
    assert(orig.take(orig.len() as int) =~= orig);
    out
}

/// Why a branch could not be created.
#[derive(Debug, Clone, PartialEq, Eq)]
pub enum BranchError {
    /// The name breaks the branch-name rules.
    InvalidName,
    /// A branch of that name exists.
    AlreadyExists,
    /// A branch named by a leading part of the name exists (a file is in the way).
    ParentIsBranch(String),
    /// No branch of that name exists.
    NotFound(String),
    /// The branch is the one checked out.
    CheckedOut(String),
    /// The branch's tip is not reachable from `HEAD`.
    NotFullyMerged(String),
}

/// The leading `/`-separated parts of a branch name, longest first:
/// `a/b/c` gives `a/b`, then `a`.
pub open spec fn name_ancestors(name: Seq<char>) -> Seq<Seq<char>> {
    let parts = split_char(name, '/');
    Seq::new(
        (parts.len() - 1) as nat,
        |k: int| crate::text::join_char(parts.take(parts.len() - 1 - k), '/'),
    )
}

/// The branch names that would have to be directories for `name` to be created.
pub fn branch_ancestors(name: &str) -> (r: Vec<String>)
    ensures
        string_views(r@) == name_ancestors(name@),
{
    let parts = split_on(name, '/');
    let ghost pv = string_views(parts@);
    proof {
        assert(pv.len() >= 1) by {
            crate::text::lemma_split_nonempty(name@, '/');
        }
    }
    let n = parts.len();
    let mut out: Vec<String> = Vec::new();
    let mut k: usize = 0;
    while k + 1 < n
        invariant
            pv == string_views(parts@),
            pv == split_char(name@, '/'),
            n == pv.len(),
            n >= 1,
            k <= n - 1,
            string_views(out@) == name_ancestors(name@).take(k as int),
        decreases n - k,
    {
        let mut prefix: Vec<String> = Vec::new();
        let mut j: usize = 0;
        let upto = n - 1 - k;
        while j < upto
            invariant
                pv == string_views(parts@),
                n == pv.len(),
                upto <= n,
                j <= upto,
                string_views(prefix@) == pv.take(j as int),
            decreases upto - j,
        {
            let ghost before = prefix@;
            let c = parts[j].clone();
            assert(string_views(prefix@).len() == prefix@.len());
            prefix.push(c);
            assert(prefix@ == before.push(c));
            assert(string_views(prefix@).len() == prefix@.len());
            assert(string_views(prefix@)[j as int] == c@);
            assert(string_views(prefix@) =~= pv.take(j + 1));
            j += 1;
        }
        let joined = crate::text::join_with(&prefix, '/');
        let ghost before = string_views(out@);
        out.push(joined);
        proof {
            assert(string_views(out@) =~= before.push(joined@));
            assert(name_ancestors(name@)[k as int] == joined@);
            assert(name_ancestors(name@).take(k + 1) =~= name_ancestors(name@).take(k as int).push(joined@));
        }
        k += 1;
    }
    assert(name_ancestors(name@).take(k as int) =~= name_ancestors(name@));
    out
}

/// Decides whether branch `name` may be created, given whether its ref
/// exists and the first of its ancestors (longest first) that is itself a
/// branch; on success gives the ref to write.
pub fn create_branch(name: &str, exists: bool, ancestor_branch: Option<&str>) -> (r: Result<String, BranchError>)
    ensures
        !valid_branch_name(name@) ==> r == Err::<String, BranchError>(BranchError::InvalidName),
        valid_branch_name(name@) && exists ==> r == Err::<String, BranchError>(BranchError::AlreadyExists),
        valid_branch_name(name@) && !exists ==> match ancestor_branch {
            Some(a) => r matches Err(BranchError::ParentIsBranch(x)) && x@ == a@,
            None => r matches Ok(p) && p@ == branch_ref(name@),
        },
{
    if !is_valid_branch_name(name) {
        return Err(BranchError::InvalidName);
    }
    if exists {
        return Err(BranchError::AlreadyExists);
    }
    match ancestor_branch {
        Some(a) => Err(BranchError::ParentIsBranch(a.to_string())),
        None => Ok(branch_ref_path(name)),
    }
}

/// Whether `branch -d`/`-D` may delete `name`: never the checked-out
/// branch; with `-d` (not `force`) only a branch whose tip `HEAD` reaches.
/// `tip_merged` is `None` when the branch has no ref, else whether its tip
/// is reachable from the commit of `HEAD`.
pub fn check_branch_delete(name: &str, head: &HeadState, force: bool, tip_merged: Option<bool>) -> (r: Result<
    (),
    BranchError,
>)
    ensures
        head_view(*head) == HeadView::Branch(name@) ==> (r matches Err(BranchError::CheckedOut(x)) && x@ == name@),
        head_view(*head) != HeadView::Branch(name@) ==> match tip_merged {
            None => r matches Err(BranchError::NotFound(x)) && x@ == name@,
            Some(false) => if force {
                r is Ok
            } else {
                r matches Err(BranchError::NotFullyMerged(x)) && x@ == name@
            },
            Some(true) => r is Ok,
        },
{
    match head {
        HeadState::Branch(b) => {
            if str_eq(b.as_str(), name) {
                return Err(BranchError::CheckedOut(name.to_string()));
            }
        },
        HeadState::Detached(_) => {},
    }
    match tip_merged {
        None => Err(BranchError::NotFound(name.to_string())),
        Some(m) => {
            if !m && !force {
                Err(BranchError::NotFullyMerged(name.to_string()))
            } else {
                Ok(())
            }
        },
    }
}

/// Whether branch `old` may be renamed to `new`, given which of their refs
/// exist; on success gives the old and the new ref.
pub fn check_branch_rename(old: &str, new: &str, old_exists: bool, new_exists: bool) -> (r: Result<
    (String, String),
    BranchError,
>)
    ensures
        !valid_branch_name(new@) ==> r == Err::<(String, String), BranchError>(BranchError::InvalidName),
        valid_branch_name(new@) && !old_exists ==> (r matches Err(BranchError::NotFound(x)) && x@ == old@),
        valid_branch_name(new@) && old_exists && new_exists ==> r == Err::<(String, String), BranchError>(
            BranchError::AlreadyExists,
        ),
        valid_branch_name(new@) && old_exists && !new_exists ==> (r matches Ok(p) && p.0@ == branch_ref(old@)
            && p.1@ == branch_ref(new@)),
{
    if !is_valid_branch_name(new) {
        return Err(BranchError::InvalidName);
    }
    if !old_exists {
        return Err(BranchError::NotFound(old.to_string()));
    }
    if new_exists {
        return Err(BranchError::AlreadyExists);
    }
    Ok((branch_ref_path(old), branch_ref_path(new)))
}

/// No whitespace at either end of `s`.
pub open spec fn bare(s: Seq<char>) -> bool {
    s.len() == 0 || (!is_ws(s[0]) && !is_ws(s.last()))
}

proof fn lemma_trim_line(x: Seq<char>)
    requires
        bare(x),
    ensures
        trim_ws(x + seq!['\n']) == x,
{
    let y = x + seq!['\n'];
    assert(is_ws('\n'));
    if x.len() == 0 {
        assert(y.drop_first() =~= Seq::<char>::empty());
        assert(trim_start_ws(y) == trim_start_ws(y.drop_first()));
    } else {
        assert(y[0] == x[0]);
        assert(trim_start_ws(y) == y);
        assert(y.drop_last() =~= x);
        assert(trim_end_ws(y) == trim_end_ws(x));
    }
}

/// Pointing `HEAD` at a branch and reading it back gives that branch, for a
/// name without whitespace at its ends.
pub proof fn head_branch_roundtrip(name: Seq<char>)
    requires
        bare(name),
    ensures
        head_of("ref: refs/heads/"@ + name + seq!['\n']) == HeadView::Branch(name),
{
    reveal_strlit("ref: refs/heads/");
    reveal_strlit("ref: ");
    reveal_strlit("refs/heads/");
    let x = "ref: refs/heads/"@ + name;
    assert(x[0] == 'r');
    if name.len() == 0 {
        assert(x.last() == '/');
    } else {
        assert(x.last() == name.last());
    }
    assert(!is_ws('r'));
    assert(!is_ws('/'));
    lemma_trim_line(x);
    assert(x + seq!['\n'] =~= "ref: refs/heads/"@ + name + seq!['\n']);
    assert(x.subrange(0, 5) =~= "ref: "@);
    let r = x.skip(5);
    assert(r =~= "refs/heads/"@ + name);
    assert(r.subrange(0, 11) =~= "refs/heads/"@);
    assert(r.skip(11) =~= name);
}

/// Writing a hash into a ref and reading the ref back gives the hash, for a
/// hash without whitespace at its ends.
pub proof fn ref_roundtrip(hash: Seq<char>)
    requires
        bare(hash),
    ensures
        trim_ws(hash + seq!['\n']) == hash,
{
    lemma_trim_line(hash);
}

/// Detaching `HEAD` at a hash and reading it back gives that hash, for a
/// hash without whitespace at its ends that does not begin with `ref: `.
pub proof fn detached_head_roundtrip(hash: Seq<char>)
    requires
        bare(hash),
        !has_prefix(hash, "ref: "@),
    ensures
        head_of(hash + seq!['\n']) == HeadView::Detached(hash),
{
    lemma_trim_line(hash);
}


/// The ref of the tag `name`.
pub open spec fn tag_ref(name: Seq<char>) -> Seq<char> {
    "refs/tags/"@ + name
}

/// The ref of the tag `name`.
pub fn tag_ref_path(name: &str) -> (r: String)
    ensures
        r@ == tag_ref(name@),
{
    let mut out: Vec<char> = Vec::new();
    push_str(&mut out, "refs/tags/");
    push_str(&mut out, name);
    string_of(&out)
}

/// `p` occurs in `t` as a run of consecutive characters.
pub open spec fn contains_text(t: Seq<char>, p: Seq<char>) -> bool {
    exists|i: int| 0 <= i && i + p.len() <= t.len() && #[trigger] t.subrange(i, i + p.len()) == p
}

/// The tags that `tag -l [<pattern>]` lists: all of them, or those holding
/// the pattern, in order.
pub open spec fn tags_matching(tags: Seq<Seq<char>>, pattern: Option<Seq<char>>) -> Seq<Seq<char>>
    decreases tags.len(),
{
    if tags.len() == 0 {
        seq![]
    } else {
        let r = tags_matching(tags.drop_last(), pattern);
        match pattern {
            Some(p) => if contains_text(tags.last(), p) {
                r.push(tags.last())
            } else {
                r
            },
            None => r.push(tags.last()),
        }
    }
}

/// Whether `p` occurs in `t`.
pub fn text_contains(t: &str, p: &str) -> (r: bool)
    ensures
        r == contains_text(t@, p@),
{
    let a = crate::text::chars_of(t);
    let b = crate::text::chars_of(p);
    if b.len() > a.len() {
        proof {
            assert forall|i: int| 0 <= i && i + p@.len() <= t@.len() implies #[trigger] t@.subrange(i, i + p@.len()) != p@ by {}
        }
        return false;
    }
    let mut i: usize = 0;
    while i <= a.len() - b.len()
        invariant
            a@ == t@,
            b@ == p@,
            b@.len() <= a@.len(),
            i <= a@.len() - b@.len() + 1,
            forall|k: int| 0 <= k < i ==> #[trigger] t@.subrange(k, k + p@.len()) != p@,
        decreases a@.len() - b@.len() + 1 - i,
    {
        let mut j: usize = 0;
        let mut same = true;
        let n = a.len();
        while j < b.len()
            invariant
                n == a@.len(),
                a@ == t@,
                b@ == p@,
                i + b@.len() <= a@.len(),
                j <= b@.len(),
                same <==> forall|m: int| 0 <= m < j ==> a@[i + m] == b@[m],
            decreases b@.len() - j,
        {
            if a[i + j] != b[j] {
                same = false;
            }
            j += 1;
        }
        if same {
            assert(t@.subrange(i as int, i + p@.len()) =~= p@);
            return true;
        }
        proof {
            let m = choose|m: int| 0 <= m < j && a@[i + m] != b@[m];
            assert(t@.subrange(i as int, i + p@.len())[m] != p@[m]);
        }
        i += 1;
    }
    false
}

/// The tags `tag -l` prints: all of `tags`, or with a pattern only those
/// that contain it, keeping their order.
pub fn filter_tags(tags: &Vec<String>, pattern: Option<&str>) -> (r: Vec<String>)
    ensures
        string_views(r@) == tags_matching(
            string_views(tags@),
            match pattern {
                Some(p) => Some(p@),
                None => None,
            },
        ),
{
    let ghost pv = match pattern {
        Some(p) => Some(p@),
        None => None,
    };
    let ghost tv = string_views(tags@);
    let mut out: Vec<String> = Vec::new();
    let mut i: usize = 0;
    assert(tv.take(0) =~= Seq::<Seq<char>>::empty());
    while i < tags.len()
        invariant
            tv == string_views(tags@),
            pv == (match pattern {
                Some(p) => Some(p@),
                None => None,
            }),
            i <= tags@.len(),
            string_views(out@) == tags_matching(tv.take(i as int), pv),
        decreases tags@.len() - i,
    {
        let keep = match pattern {
            Some(p) => text_contains(tags[i].as_str(), p),
            None => true,
        };
        proof {
            let t = tv.take(i + 1);
            assert(t.drop_last() =~= tv.take(i as int));
            assert(t.last() == tags@[i as int]@);
        }
        if keep {
            let ghost before = string_views(out@);
            out.push(tags[i].clone());
            assert(string_views(out@) =~= before.push(tags@[i as int]@));
        }
        i += 1;
    }
    assert(tv.take(tags@.len() as int) =~= tv);
    out
}

} // verus!
