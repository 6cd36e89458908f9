//! Commit objects: the text a commit is stored as, and reading its header
//! fields and message back.
use vstd::prelude::*;
use crate::codec::{from_utf8_lossy, lossy_decode};
use crate::store::{encode_object, object_id, StoredObject};
use crate::text::{
    decimal, has_prefix, join_lines, join_newline, lines_of, push_decimal_u64, push_str,
    split_lines, str_eq, string_of, string_views, strip_prefix,
};

verus! {

/// The suffixes of the lines that begin with `p`, in order.
pub open spec fn prefixed(ls: Seq<Seq<char>>, p: Seq<char>) -> Seq<Seq<char>>
    decreases ls.len(),
{
    if ls.len() == 0 {
        seq![]
    } else {
        let rest = prefixed(ls.drop_last(), p);
        if has_prefix(ls.last(), p) {
            rest.push(ls.last().skip(p.len() as int))
        } else {
            rest
        }
    }
}

/// Index of the first empty line, or -1.
pub open spec fn first_empty(ls: Seq<Seq<char>>) -> int
    decreases ls.len(),
{
    if ls.len() == 0 {
        -1
    } else if ls[0].len() == 0 {
        0
    } else {
        let r = first_empty(ls.drop_first());
        if r < 0 {
            -1
        } else {
            r + 1
        }
    }
}

proof fn lemma_first_empty_at(ls: Seq<Seq<char>>, i: int)
    requires
        0 <= i <= ls.len(),
        forall|k: int| 0 <= k < i ==> #[trigger] ls[k].len() != 0,
        i == ls.len() || ls[i].len() == 0,
    ensures
        first_empty(ls) == (if i == ls.len() { -1 } else { i }),
    decreases ls.len(),
{
    if ls.len() > 0 && i > 0 {
        assert forall|k: int| 0 <= k < i - 1 implies #[trigger] ls.drop_first()[k].len() != 0 by {
            assert(ls.drop_first()[k] == ls[k + 1]);
        }
        lemma_first_empty_at(ls.drop_first(), i - 1);
    }
}

/// The header lines of a commit: those before the first empty line.
pub open spec fn header_lines(ls: Seq<Seq<char>>) -> Seq<Seq<char>> {
    if first_empty(ls) < 0 {
        ls
    } else {
        ls.take(first_empty(ls))
    }
}

/// The message lines of a commit: those after the first empty line.
pub open spec fn message_lines(ls: Seq<Seq<char>>) -> Seq<Seq<char>> {
    if first_empty(ls) < 0 {
        seq![]
    } else {
        ls.skip(first_empty(ls) + 1)
    }
}

pub open spec fn parent_prefix() -> Seq<char> {
    "parent "@
}

pub open spec fn tree_prefix() -> Seq<char> {
    "tree "@
}

fn collect_prefixed(lines: &Vec<String>, upto: usize, p: &str) -> (r: Vec<String>)
    requires
        upto <= lines@.len(),
    ensures
        string_views(r@) == prefixed(string_views(lines@).take(upto as int), p@),
{
    let mut out: Vec<String> = Vec::new();
    let mut i: usize = 0;
    let ghost ls = string_views(lines@);
    assert(ls.take(0) =~= Seq::<Seq<char>>::empty());
    while i < upto
        invariant
            ls == string_views(lines@),
            i <= upto <= lines@.len(),
            string_views(out@) == prefixed(ls.take(i as int), p@),
        decreases upto - i,
    {
        let ghost before = string_views(out@);
        let stripped = strip_prefix(lines[i].as_str(), p);
        proof {
            let t = ls.take(i + 1);
            assert(t.drop_last() =~= ls.take(i as int));
            assert(t.last() == lines@[i as int]@);
        }
        match stripped {
            Some(x) => {
                out.push(x);
                assert(string_views(out@) =~= before.push(x@));
            },
            None => {},
        }
        i += 1;
    }
    out
}

fn first_empty_of(lines: &Vec<String>) -> (r: Option<usize>)
    ensures
        match r {
            None => first_empty(string_views(lines@)) == -1,
            Some(i) => first_empty(string_views(lines@)) == i && i < lines@.len(),
        },
{
    let ghost ls = string_views(lines@);
    let mut i: usize = 0;
    while i < lines.len()
        invariant
            ls == string_views(lines@),
            i <= lines@.len(),
            forall|k: int| 0 <= k < i ==> #[trigger] ls[k].len() != 0,
        decreases lines@.len() - i,
    {
        if lines[i].unicode_len() == 0 {
            proof {
                lemma_first_empty_at(ls, i as int);
            }
            return Some(i);
        }
        i += 1;
    }
    proof {
        lemma_first_empty_at(ls, ls.len() as int);
    }
    None
}

/// The parent hashes of a commit, in order: the rest of each `parent ` line
/// of its header (the lines before the first empty line).
pub fn commit_parents(commit_text: &str) -> (r: Vec<String>)
    ensures
        string_views(r@) == prefixed(header_lines(lines_of(commit_text@)), parent_prefix()),
{
    let lines = split_lines(commit_text);
    let upto = match first_empty_of(&lines) {
        None => lines.len(),
        Some(i) => i,
    };
    let r = collect_prefixed(&lines, upto, "parent ");
    proof {
        let ls = string_views(lines@);
        if first_empty(ls) < 0 {
            assert(ls.take(upto as int) =~= ls);
        }
    }
    r
}

/// The tree hash named in a commit's header: the rest of its first line that
/// starts with `tree `, if there is one.
pub fn commit_tree_hash(commit_text: &str) -> (r: Option<String>)
    ensures
        match r {
            None => prefixed(header_lines(lines_of(commit_text@)), tree_prefix()).len() == 0,
            Some(t) => prefixed(header_lines(lines_of(commit_text@)), tree_prefix()).len() > 0 && t@
                == prefixed(header_lines(lines_of(commit_text@)), tree_prefix())[0],
        },
{
    let lines = split_lines(commit_text);
    let upto = match first_empty_of(&lines) {
        None => lines.len(),
        Some(i) => i,
    };
    let mut trees = collect_prefixed(&lines, upto, "tree ");
    proof {
        let ls = string_views(lines@);
        if first_empty(ls) < 0 {
            assert(ls.take(upto as int) =~= ls);
        }
    }
    if trees.len() == 0 {
        None
    } else {
        Some(trees.remove(0))
    }
}

/// The message of a commit: the lines after the first empty line, joined with
/// `\n` (empty when there is no empty line).
pub fn extract_commit_message(commit_text: &str) -> (r: String)
    ensures
        r@ == join_lines(message_lines(lines_of(commit_text@))),
{
    let lines = split_lines(commit_text);
    let n = lines.len();
    match first_empty_of(&lines) {
        None => {
            let r = String::new();
            assert(r@ =~= join_lines(Seq::<Seq<char>>::empty()));
            r
        },
        Some(i) => join_newline(&lines, i + 1),
    }
}

/// The first message line of a commit's text, or empty when the message is empty.
pub open spec fn subject_of(text: Seq<char>) -> Seq<char> {
    let ms = message_lines(lines_of(text));
    if ms.len() == 0 {
        seq![]
    } else {
        ms[0]
    }
}

/// Why commit data could not be read.
#[derive(Debug, Clone, Copy, PartialEq, Eq)]
pub enum CommitError {
    /// The object is not a commit.
    NotACommit,
}

/// The subject line of a stored commit, given the object's kind and content.
pub fn commit_subject_line(kind: &str, content: &[u8]) -> (r: Result<String, CommitError>)
    ensures
        kind@ != "commit"@ ==> r == Err::<String, CommitError>(CommitError::NotACommit),
        kind@ == "commit"@ ==> (r matches Ok(s) && s@ == subject_of(lossy_decode(content@))),
{
    if !str_eq(kind, "commit") {
        return Err(CommitError::NotACommit);
    }
    let text = from_utf8_lossy(content);
    let lines = split_lines(text.as_str());
    match first_empty_of(&lines) {
        None => Ok(String::new()),
        Some(i) => {
            if i < lines.len() - 1 {
                let s = lines[i + 1].clone();
                Ok(s)
            } else {
                Ok(String::new())
            }
        },
    }
}

/// The author and committer of every commit this tool writes.
pub open spec fn author_ident() -> Seq<char> {
    "rgit <rgit@example.com>"@
}

/// The `parent` lines for the given parents.
pub open spec fn parent_block(parents: Seq<Seq<char>>) -> Seq<char>
    decreases parents.len(),
{
    if parents.len() == 0 {
        seq![]
    } else {
        parent_block(parents.drop_last()) + parent_prefix() + parents.last() + seq!['\n']
    }
}

/// The text of a commit: its tree, its parents, author and committer with the
/// timestamp in seconds, an empty line, then the message and a newline.
pub open spec fn commit_text(tree: Seq<char>, parents: Seq<Seq<char>>, timestamp: nat, message: Seq<char>) -> Seq<char> {
    let stamp = author_ident() + seq![' '] + decimal(timestamp) + " +0000\n"@;
    tree_prefix() + tree + seq!['\n'] + parent_block(parents) + "author "@ + stamp + "committer "@ + stamp
        + seq!['\n'] + message + seq!['\n']
}

fn push_stamp(out: &mut Vec<char>, timestamp: u64)
    ensures
        final(out)@ == old(out)@ + author_ident() + seq![' '] + decimal(timestamp as nat) + " +0000\n"@,
{
    push_str(out, "rgit <rgit@example.com>");
    out.push(' ');
    push_decimal_u64(out, timestamp);
    push_str(out, " +0000\n");
}

/// The commit text for `tree`, `parents`, `timestamp` and `message`.
pub fn commit_content(tree: &str, parents: &Vec<String>, timestamp: u64, message: &str) -> (r: String)
    ensures
        r@ == commit_text(tree@, string_views(parents@), timestamp as nat, message@),
{
    let mut out: Vec<char> = Vec::new();
    push_str(&mut out, "tree ");
    push_str(&mut out, tree);
    out.push('\n');
    let ghost head = out@;
    let ghost ps = string_views(parents@);
    let mut i: usize = 0;
    assert(ps.take(0) =~= Seq::<Seq<char>>::empty());
    assert(out@ =~= head + parent_block(ps.take(0)));
    while i < parents.len()
        invariant
            ps == string_views(parents@),
            i <= parents@.len(),
            out@ == head + parent_block(ps.take(i as int)),
        decreases parents@.len() - i,
    {
        push_str(&mut out, "parent ");
        push_str(&mut out, parents[i].as_str());
        out.push('\n');
        proof {
            let t = ps.take(i + 1);
            assert(t.drop_last() =~= ps.take(i as int));
            assert(t.last() == parents@[i as int]@);
            assert(out@ =~= head + parent_block(t));
        }
        i += 1;
    }
    assert(ps.take(parents@.len() as int) =~= ps);
    push_str(&mut out, "author ");
    push_stamp(&mut out, timestamp);
    push_str(&mut out, "committer ");
    push_stamp(&mut out, timestamp);
    out.push('\n');
    push_str(&mut out, message);
    out.push('\n');
    let r = string_of(&out);
    assert(r@ =~= commit_text(tree@, ps, timestamp as nat, message@));
    r
}

/// Builds the commit object for `tree_hash` with an optional parent, stamped
/// with `timestamp` (seconds since the epoch).
pub fn build_commit(tree_hash: &str, parent_hash: Option<&str>, message: &str, timestamp: u64) -> (r:
    StoredObject)
    ensures
        ({
            let ps = match parent_hash {
                None => Seq::<Seq<char>>::empty(),
                Some(p) => seq![p@],
            };
            let text = commit_text(tree_hash@, ps, timestamp as nat, message@);
            &&& r.hash@ == object_id("commit"@, vstd::utf8::encode_utf8(text))
            &&& crate::codec::zlib_decompress(r.data@) == Some(
                crate::store::store_bytes("commit"@, vstd::utf8::encode_utf8(text)),
            )
        }),
{
    let mut parents: Vec<String> = Vec::new();
    match parent_hash {
        None => {},
        Some(p) => {
            parents.push(p.to_string());
        },
    }
    let ghost ps = string_views(parents@);
    proof {
        match parent_hash {
            None => assert(ps =~= Seq::<Seq<char>>::empty()),
            Some(p) => assert(ps =~= seq![p@]),
        }
    }
    let text = commit_content(tree_hash, &parents, timestamp, message);
    let bytes = crate::codec::utf8_bytes(text.as_str());
    encode_object("commit", bytes.as_slice())
}

/// Builds the two-parent commit object that records a merge.
pub fn build_merge_commit(tree_hash: &str, parent1: &str, parent2: &str, message: &str, timestamp: u64) -> (r:
    StoredObject)
    ensures
        ({
            let text = commit_text(tree_hash@, seq![parent1@, parent2@], timestamp as nat, message@);
            &&& r.hash@ == object_id("commit"@, vstd::utf8::encode_utf8(text))
            &&& crate::codec::zlib_decompress(r.data@) == Some(
                crate::store::store_bytes("commit"@, vstd::utf8::encode_utf8(text)),
            )
        }),
{
    let mut parents: Vec<String> = Vec::new();
    parents.push(parent1.to_string());
    parents.push(parent2.to_string());
    assert(string_views(parents@) =~= seq![parent1@, parent2@]);
    let text = commit_content(tree_hash, &parents, timestamp, message);
    let bytes = crate::codec::utf8_bytes(text.as_str());
    encode_object("commit", bytes.as_slice())
}

/// The lines `log` prints for one commit: with `oneline`, the short hash and
/// the subject; otherwise a blank line unless it is the first commit shown,
/// `commit <hash>`, the last `author` header line as `Author: ..`, a blank
/// line and the message lines indented by four spaces.
pub open spec fn log_lines(hash: Seq<char>, text: Seq<char>, oneline: bool, first: bool) -> Seq<Seq<char>> {
    let ls = lines_of(text);
    let msg = message_lines(ls);
    let authors = prefixed(header_lines(ls), "author "@);
    if oneline {
        seq![crate::stash::short_of(hash) + seq![' '] + subject_of(text)]
    } else {
        (if first {
            seq![]
        } else {
            seq![seq![]]
        }) + seq!["commit "@ + hash] + (if authors.len() > 0 {
            seq!["Author: "@ + authors.last()]
        } else {
            seq![]
        }) + seq![seq![]] + msg.map_values(|l: Seq<char>| "    "@ + l)
    }
}

/// What `log` prints for the stored object `hash`; refused for an object
/// that is not a commit.
pub fn log_entry(hash: &str, kind: &str, content: &[u8], oneline: bool, first: bool) -> (r: Result<Vec<String>, CommitError>)
    requires
        oneline ==> crate::stash::short_ok(hash@),
    ensures
        kind@ != "commit"@ ==> r matches Err(CommitError::NotACommit),
        kind@ == "commit"@ ==> (r matches Ok(ls) && string_views(ls@) == log_lines(
            hash@,
            lossy_decode(content@),
            oneline,
            first,
        )),
{
    if !str_eq(kind, "commit") {
        return Err(CommitError::NotACommit);
    }
    let text = from_utf8_lossy(content);
    let ghost t = text@;
    let lines = split_lines(text.as_str());
    let ghost ls = string_views(lines@);
    assert(ls == lines_of(t));
    let n = lines.len();
    let fe = first_empty_of(&lines);
    let upto = match fe {
        None => n,
        Some(i) => i,
    };
    proof {
        if first_empty(ls) < 0 {
            assert(ls.take(upto as int) =~= ls);
        }
    }
    let authors = collect_prefixed(&lines, upto, "author ");
    let mut out: Vec<String> = Vec::new();
    if oneline {
        let subject = match commit_subject_line(kind, content) {
            Ok(s) => s,
            Err(_) => String::new(),
        };
        let short = crate::stash::short_hash(hash);
        let mut v: Vec<char> = Vec::new();
        push_str(&mut v, short.as_str());
        v.push(' ');
        push_str(&mut v, subject.as_str());
        let line = string_of(&v);
        assert(subject@ == subject_of(t));
        assert(line@ =~= crate::stash::short_of(hash@) + seq![' '] + subject_of(t));
        out.push(line);
        assert(string_views(out@) =~= seq![line@]);
        assert(string_views(out@) =~= log_lines(hash@, t, oneline, first));
    } else {
        if !first {
            out.push(String::new());
        }
        let mut c: Vec<char> = Vec::new();
        push_str(&mut c, "commit ");
        push_str(&mut c, hash);
        out.push(string_of(&c));
        if authors.len() > 0 {
            let mut a: Vec<char> = Vec::new();
            push_str(&mut a, "Author: ");
            push_str(&mut a, authors[authors.len() - 1].as_str());
            out.push(string_of(&a));
        }
        out.push(String::new());
        let ghost head = string_views(out@);
        let ghost msg = message_lines(ls);
        let start = match fe {
            None => n,
            Some(i) => i + 1,
        };
        assert(msg =~= ls.skip(start as int));
        let mut k = start;
        while k < n
            invariant
                ls == string_views(lines@),
                n == lines@.len(),
                start <= k <= n,
                msg == ls.skip(start as int),
                string_views(out@) == head + msg.take(k - start).map_values(|l: Seq<char>| "    "@ + l),
            decreases n - k,
        {
            let mut m: Vec<char> = Vec::new();
            push_str(&mut m, "    ");
            push_str(&mut m, lines[k].as_str());
            let ghost before = string_views(out@);
            out.push(string_of(&m));
            proof {
                assert(string_views(out@) =~= before.push("    "@ + ls[k as int]));
                assert(msg.take(k + 1 - start) =~= msg.take(k - start).push(ls[k as int]));
                assert(msg.take(k + 1 - start).map_values(|l: Seq<char>| "    "@ + l) =~= msg.take(k - start).map_values(
                    |l: Seq<char>| "    "@ + l,
                ).push("    "@ + ls[k as int]));
            }
            k += 1;
        }
        assert(msg.take(n - start) =~= msg);
        proof {
            let authors_v = prefixed(header_lines(ls), "author "@);
            assert(string_views(authors@) == authors_v);
            if authors_v.len() > 0 {
                assert(string_views(authors@).last() == authors@[authors@.len() - 1]@);
            }
            assert(string_views(out@) =~= log_lines(hash@, t, oneline, first));
        }
    }
    Ok(out)
}

/// The line `commit` prints: `[<branch or (detached HEAD)>` with
/// ` (root-commit)` for a first commit, the short hash, `]` and the message.
pub open spec fn commit_summary_text(head: crate::refs::HeadView, root: bool, short: Seq<char>, message: Seq<char>) -> Seq<
    char,
> {
    let label = match head {
        crate::refs::HeadView::Branch(b) => b,
        crate::refs::HeadView::Detached(_) => "(detached HEAD)"@,
    };
    seq!['['] + label + (if root {
        " (root-commit)"@
    } else {
        seq![]
    }) + seq![' '] + short + "] "@ + message
}

/// The summary line printed after a commit.
pub fn commit_summary(head: &crate::refs::HeadState, root: bool, short: &str, message: &str) -> (r: String)
    ensures
        r@ == commit_summary_text(crate::refs::head_view(*head), root, short@, message@),
{
    let mut v: Vec<char> = Vec::new();
    v.push('[');
    match head {
        crate::refs::HeadState::Branch(b) => push_str(&mut v, b.as_str()),
        crate::refs::HeadState::Detached(_) => push_str(&mut v, "(detached HEAD)"),
    }
    if root {
        push_str(&mut v, " (root-commit)");
    }
    v.push(' ');
    push_str(&mut v, short);
    push_str(&mut v, "] ");
    push_str(&mut v, message);
    proof {
        let label = match crate::refs::head_view(*head) {
            crate::refs::HeadView::Branch(b) => b,
            crate::refs::HeadView::Detached(_) => "(detached HEAD)"@,
        };
        assert(v@ =~= commit_summary_text(crate::refs::head_view(*head), root, short@, message@));
    }
    string_of(&v)
}

/// The `author` header lines of a commit's text, without the prefix, in order.
pub fn header_authors(commit_text: &str) -> (r: Vec<String>)
    ensures
        string_views(r@) == prefixed(header_lines(lines_of(commit_text@)), "author "@),
{
    let lines = split_lines(commit_text);
    let upto = match first_empty_of(&lines) {
        None => lines.len(),
        Some(i) => i,
    };
    let r = collect_prefixed(&lines, upto, "author ");
    proof {
        let ls = string_views(lines@);
        if first_empty(ls) < 0 {
            assert(ls.take(upto as int) =~= ls);
        }
    }
    r
}

} // verus!

verus! {

/// Text that can stand on one line of a commit: no newline, and no carriage
/// return at its end.
pub open spec fn one_line(x: Seq<char>) -> bool {
    !x.contains('\n') && (x.len() == 0 || x.last() != '\r')
}

/// The `parent` lines for the given parents (without their newlines).
pub open spec fn parent_lines(ps: Seq<Seq<char>>) -> Seq<Seq<char>> {
    ps.map_values(|p: Seq<char>| parent_prefix() + p)
}

proof fn lemma_digit_char(d: int)
    requires
        0 <= d < 10,
    ensures
        crate::text::digit_char(d) != '\n',
        crate::text::digit_char(d) != '\r',
{
}

pub(crate) proof fn lemma_decimal_digits(n: nat)
    ensures
        !decimal(n).contains('\n'),
        decimal(n).last() != '\r',
        decimal(n).len() > 0,
    decreases n,
{
    if n >= 10 {
        lemma_decimal_digits(n / 10);
        lemma_digit_char((n % 10) as int);
        let d = decimal(n / 10);
        let x = crate::text::digit_char((n % 10) as int);
        assert(decimal(n) == d.push(x));
        if d.push(x).contains('\n') {
            let k = choose|k: int| 0 <= k < d.push(x).len() && d.push(x)[k] == '\n';
            if k < d.len() {
                assert(d[k] == '\n');
            }
        }
    } else {
        lemma_digit_char(n as int);
        if decimal(n).contains('\n') {
            let k = choose|k: int| 0 <= k < decimal(n).len() && decimal(n)[k] == '\n';
        }
    }
}

proof fn lemma_one_line_concat(a: Seq<char>, b: Seq<char>)
    requires
        !a.contains('\n'),
        one_line(b),
        b.len() > 0,
    ensures
        one_line(a + b),
{
    assert((a + b).last() == b.last());
    if (a + b).contains('\n') {
        let k = choose|k: int| 0 <= k < (a + b).len() && (a + b)[k] == '\n';
        if k < a.len() {
            assert(a[k] == '\n');
            assert(a.contains('\n'));
        } else {
            assert(b[k - a.len()] == '\n');
            assert(b.contains('\n'));
        }
    }
}

proof fn lemma_parent_block_lines(ps: Seq<Seq<char>>, rest: Seq<char>)
    requires
        forall|i: int| 0 <= i < ps.len() ==> one_line(#[trigger] ps[i]),
    ensures
        lines_of(parent_block(ps) + rest) == parent_lines(ps) + lines_of(rest),
    decreases ps.len(),
{
    reveal_strlit("parent ");
    if ps.len() == 0 {
        assert(parent_block(ps) + rest =~= rest);
        assert(parent_lines(ps) + lines_of(rest) =~= lines_of(rest));
    } else {
        let p = ps.last();
        assert(one_line(ps[ps.len() - 1]));
        let l = parent_prefix() + p;
        assert(!parent_prefix().contains('\n')) by {
            if parent_prefix().contains('\n') {
                let k = choose|k: int| 0 <= k < parent_prefix().len() && parent_prefix()[k] == '\n';
            }
        }
        if p.len() > 0 {
            lemma_one_line_concat(parent_prefix(), p);
        } else {
            assert(l =~= parent_prefix());
        }
        let rest2 = l + seq!['\n'] + rest;
        assert forall|i: int| 0 <= i < ps.drop_last().len() implies one_line(#[trigger] ps.drop_last()[i]) by {
            assert(ps.drop_last()[i] == ps[i]);
        }
        lemma_parent_block_lines(ps.drop_last(), rest2);
        assert(parent_block(ps) + rest =~= parent_block(ps.drop_last()) + rest2);
        crate::text::lemma_lines_cons(l, rest);
        assert(parent_lines(ps) =~= parent_lines(ps.drop_last()).push(l));
        assert(parent_lines(ps.drop_last()) + (seq![l] + lines_of(rest)) =~= parent_lines(ps) + lines_of(rest));
    }
}

proof fn lemma_prefixed_concat(a: Seq<Seq<char>>, b: Seq<Seq<char>>, p: Seq<char>)
    ensures
        prefixed(a + b, p) == prefixed(a, p) + prefixed(b, p),
    decreases b.len(),
{
    if b.len() == 0 {
        assert(a + b =~= a);
        assert(prefixed(a, p) + prefixed(b, p) =~= prefixed(a, p));
    } else {
        lemma_prefixed_concat(a, b.drop_last(), p);
        assert((a + b).drop_last() =~= a + b.drop_last());
        assert((a + b).last() == b.last());
    }
}

proof fn lemma_prefixed_one(l: Seq<char>, p: Seq<char>)
    ensures
        prefixed(seq![l], p) == (if has_prefix(l, p) {
            seq![l.skip(p.len() as int)]
        } else {
            Seq::<Seq<char>>::empty()
        }),
{
    assert(seq![l].drop_last() =~= Seq::<Seq<char>>::empty());
    assert(seq![l].last() == l);
    assert(prefixed(Seq::<Seq<char>>::empty(), p) == Seq::<Seq<char>>::empty());
    assert(Seq::<Seq<char>>::empty().push(l.skip(p.len() as int)) =~= seq![l.skip(p.len() as int)]);
}

proof fn lemma_prefixed_parents(ps: Seq<Seq<char>>)
    ensures
        prefixed(parent_lines(ps), parent_prefix()) == ps,
        prefixed(parent_lines(ps), tree_prefix()) == Seq::<Seq<char>>::empty(),
    decreases ps.len(),
{
    reveal_strlit("parent ");
    reveal_strlit("tree ");
    if ps.len() > 0 {
        lemma_prefixed_parents(ps.drop_last());
        let l = parent_prefix() + ps.last();
        assert(parent_lines(ps).drop_last() =~= parent_lines(ps.drop_last()));
        assert(parent_lines(ps).last() == l);
        assert(l.subrange(0, 7) =~= parent_prefix());
        assert(l.skip(7) =~= ps.last());
        assert(!has_prefix(l, tree_prefix())) by {
            assert(l[0] == 'p');
            assert(tree_prefix()[0] == 't');
            if has_prefix(l, tree_prefix()) {
                assert(l.subrange(0, 5)[0] == l[0]);
            }
        }
        assert(prefixed(parent_lines(ps), parent_prefix()) =~= ps);
    } else {
        assert(parent_lines(ps) =~= Seq::<Seq<char>>::empty());
    }
}

/// A commit written by this tool reads back with the parents and the
/// message it was written with, when the tree hash has no newline and the
/// parent hashes are one-line texts: its header's `parent` lines name the
/// parents, in order, and a message without carriage returns reads back as
/// written. When the tree hash does not end in a carriage return either, the
/// header's `tree` line names it.
pub proof fn commit_header_roundtrip(tree: Seq<char>, parents: Seq<Seq<char>>, timestamp: nat, message: Seq<char>)
    requires
        !tree.contains('\n'),
        forall|i: int| 0 <= i < parents.len() ==> one_line(#[trigger] parents[i]),
    ensures
        prefixed(header_lines(lines_of(commit_text(tree, parents, timestamp, message))), parent_prefix())
            == parents,
        one_line(tree) ==> prefixed(header_lines(lines_of(commit_text(tree, parents, timestamp, message))), tree_prefix()) == seq![
            tree,
        ],
        !message.contains('\r') ==> join_lines(message_lines(lines_of(commit_text(tree, parents, timestamp, message))))
            == message,
{
    reveal_strlit("tree ");
    reveal_strlit("parent ");
    reveal_strlit("author ");
    reveal_strlit("committer ");
    reveal_strlit("rgit <rgit@example.com>");
    reveal_strlit(" +0000\n");
    let dec = decimal(timestamp);
    lemma_decimal_digits(timestamp);
    let tl = tree_prefix() + tree;
    let al = "author "@ + author_ident() + seq![' '] + dec + " +0000"@;
    let cl = "committer "@ + author_ident() + seq![' '] + dec + " +0000"@;
    reveal_strlit(" +0000");
    let tail = message + seq!['\n'];
    let rest3 = seq!['\n'] + tail;
    let rest2 = cl + seq!['\n'] + rest3;
    let rest1 = al + seq!['\n'] + rest2;
    let text = commit_text(tree, parents, timestamp, message);
    assert(text =~= tl + seq!['\n'] + (parent_block(parents) + rest1));
    // each header line is a one-line text
    assert(!tree_prefix().contains('\n')) by {
        if tree_prefix().contains('\n') {
            let k = choose|k: int| 0 <= k < tree_prefix().len() && tree_prefix()[k] == '\n';
        }
    }
    assert(!tl.contains('\n')) by {
        if tl.contains('\n') {
            let k = choose|k: int| 0 <= k < tl.len() && tl[k] == '\n';
            if k >= 5 {
                assert(tree[k - 5] == '\n');
                assert(tree.contains('\n'));
            } else {
                assert(tl[k] == tree_prefix()[k]);
                assert(tree_prefix().contains('\n'));
            }
        }
    }
    let hl = crate::text::strip_cr(tl);
    assert(hl.len() >= 5 && hl[0] == 't') by {
        assert(tl[0] == 't');
        if tree.len() == 0 {
            assert(tl =~= tree_prefix());
            assert(tl.last() == ' ');
        }
    }
    if one_line(tree) {
        if tree.len() > 0 {
            assert(tl.last() == tree.last());
        } else {
            assert(tl =~= tree_prefix());
        }
        assert(hl == tl);
    }
    assert(one_line(al)) by {
        if al.contains('\n') {
            let k = choose|k: int| 0 <= k < al.len() && al[k] == '\n';
            let pre = "author "@ + author_ident() + seq![' '];
            if k >= pre.len() && k < pre.len() + dec.len() {
                assert(al[k] == dec[k - pre.len()]);
            }
        }
    }
    assert(one_line(cl)) by {
        if cl.contains('\n') {
            let k = choose|k: int| 0 <= k < cl.len() && cl[k] == '\n';
            let pre = "committer "@ + author_ident() + seq![' '];
            if k >= pre.len() && k < pre.len() + dec.len() {
                assert(cl[k] == dec[k - pre.len()]);
            }
        }
    }
    crate::text::lemma_lines_cons(Seq::<char>::empty(), tail);
    assert(rest3 =~= Seq::<char>::empty() + seq!['\n'] + tail);
    crate::text::lemma_lines_cons(cl, rest3);
    crate::text::lemma_lines_cons(al, rest2);
    lemma_parent_block_lines(parents, rest1);
    crate::text::lemma_lines_cons_cr(tl, parent_block(parents) + rest1);
    let pl = parent_lines(parents);
    let ls = lines_of(text);
    let head = seq![hl] + pl + seq![al, cl];
    assert(ls =~= head + (seq![Seq::<char>::empty()] + lines_of(tail)));
    assert forall|k: int| 0 <= k < head.len() implies #[trigger] ls[k].len() != 0 by {
        assert(ls[k] == head[k]);
        if 1 <= k < 1 + pl.len() {
            assert(head[k] == parent_prefix() + parents[k - 1]);
        }
    }
    assert(ls[head.len() as int].len() == 0);
    lemma_first_empty_at(ls, head.len() as int);
    assert(header_lines(ls) =~= head);
    lemma_prefixed_concat(seq![hl] + pl, seq![al, cl], parent_prefix());
    lemma_prefixed_concat(seq![hl], pl, parent_prefix());
    lemma_prefixed_concat(seq![hl] + pl, seq![al, cl], tree_prefix());
    lemma_prefixed_concat(seq![hl], pl, tree_prefix());
    lemma_prefixed_parents(parents);
    assert(seq![hl].drop_last() =~= Seq::<Seq<char>>::empty());
    assert(seq![al, cl].drop_last() =~= seq![al]);
    assert(seq![al].drop_last() =~= Seq::<Seq<char>>::empty());
    assert(!has_prefix(hl, parent_prefix())) by {
        if has_prefix(hl, parent_prefix()) {
            assert(hl.subrange(0, 7)[0] == hl[0]);
        }
    }
    assert(!has_prefix(al, parent_prefix())) by {
        if has_prefix(al, parent_prefix()) {
            assert(al.subrange(0, 7)[0] == al[0]);
        }
    }
    assert(!has_prefix(cl, parent_prefix())) by {
        if has_prefix(cl, parent_prefix()) {
            assert(cl.subrange(0, 7)[0] == cl[0]);
        }
    }
    assert(!has_prefix(al, tree_prefix())) by {
        if has_prefix(al, tree_prefix()) {
            assert(al.subrange(0, 5)[0] == al[0]);
        }
    }
    assert(!has_prefix(cl, tree_prefix())) by {
        if has_prefix(cl, tree_prefix()) {
            assert(cl.subrange(0, 5)[0] == cl[0]);
        }
    }
    assert(tl.subrange(0, 5) =~= tree_prefix());
    assert(tl.skip(5) =~= tree);
    lemma_prefixed_one(hl, tree_prefix());
    lemma_prefixed_one(hl, parent_prefix());
    lemma_prefixed_one(al, tree_prefix());
    lemma_prefixed_one(al, parent_prefix());
    lemma_prefixed_one(cl, tree_prefix());
    lemma_prefixed_one(cl, parent_prefix());
    assert(seq![al, cl] =~= seq![al] + seq![cl]);
    lemma_prefixed_concat(seq![al], seq![cl], parent_prefix());
    lemma_prefixed_concat(seq![al], seq![cl], tree_prefix());
    assert(prefixed(seq![al, cl], parent_prefix()) =~= Seq::<Seq<char>>::empty());
    assert(prefixed(seq![al, cl], tree_prefix()) =~= Seq::<Seq<char>>::empty());
    assert(Seq::<Seq<char>>::empty() + parents + Seq::<Seq<char>>::empty() =~= parents);
    assert(seq![tree] + Seq::<Seq<char>>::empty() + Seq::<Seq<char>>::empty() =~= seq![tree]);
    if !message.contains('\r') {
        crate::text::lemma_join_lines_of(message);
        assert(message_lines(ls) =~= lines_of(tail));
    }
}


/// What `commit` writes, given the current commit (if any), the commit a
/// pending merge records (if any) and whether the staged tree equals the
/// current commit's tree.
#[derive(Debug, Clone, PartialEq, Eq)]
pub enum CommitPlan {
    /// A plain commit whose tree matches its parent's: refused.
    NothingToCommit,
    /// A commit with this parent (none for the first commit).
    Single(Option<String>),
    /// A merge commit with these two parents.
    Merge(String, String),
}

/// Decides what `commit` writes: a merge commit when a merge is pending on
/// top of a current commit; otherwise a plain commit, refused when there is
/// a current commit and the staged tree is unchanged from it.
pub fn commit_plan(parent: Option<&str>, merge_head: Option<&str>, tree_unchanged: bool) -> (r: CommitPlan)
    ensures
        match (parent, merge_head) {
            (Some(p1), Some(p2)) => r matches CommitPlan::Merge(a, b) && a@ == p1@ && b@ == p2@,
            (Some(p), None) => if tree_unchanged {
                r == CommitPlan::NothingToCommit
            } else {
                r matches CommitPlan::Single(Some(a)) && a@ == p@
            },
            (None, _) => r == CommitPlan::Single(None),
        },
{
    match (parent, merge_head) {
        (Some(p1), Some(p2)) => CommitPlan::Merge(p1.to_string(), p2.to_string()),
        (Some(p), None) => if tree_unchanged {
            CommitPlan::NothingToCommit
        } else {
            CommitPlan::Single(Some(p.to_string()))
        },
        (None, _) => CommitPlan::Single(None),
    }
}

} // verus!
