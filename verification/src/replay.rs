//! Replaying single commits (cherry-pick, revert, rebase): which parent is
//! the base, the messages written, and the small state files they keep.
use vstd::prelude::*;
use crate::merge::{conflict_paths, item_paths, item_view, merged_entries, tree_wf, TreeItem};
use crate::paths::strictly_sorted;
use crate::text::{
    join_lines, lines_of, push_str, split_lines, string_of, string_views, trim, trim_ws,
};

verus! {

/// Why a commit cannot be replayed.
#[derive(Debug, Clone, Copy, PartialEq, Eq)]
pub enum ReplayError {
    /// It has more than one parent.
    MergeCommit,
}

/// The parent a replayed commit is compared against: its only parent, none
/// for a root commit; a merge commit is refused.
pub fn replay_base(parents: &Vec<String>) -> (r: Result<Option<String>, ReplayError>)
    ensures
        parents@.len() > 1 ==> r == Err::<Option<String>, ReplayError>(ReplayError::MergeCommit),
        parents@.len() == 1 ==> (r matches Ok(Some(p)) && p@ == parents@[0]@),
        parents@.len() == 0 ==> r == Ok::<Option<String>, ReplayError>(None),
{
    if parents.len() > 1 {
        Err(ReplayError::MergeCommit)
    } else if parents.len() == 1 {
        Ok(Some(parents[0].clone()))
    } else {
        Ok(None)
    }
}

/// The first line of `s` (empty when it has none).
pub open spec fn first_line_of(s: Seq<char>) -> Seq<char> {
    if lines_of(s).len() == 0 {
        seq![]
    } else {
        lines_of(s)[0]
    }
}

/// The first line of `s`.
pub fn first_line(s: &str) -> (r: String)
    ensures
        r@ == first_line_of(s@),
{
    let ls = split_lines(s);
    if ls.len() == 0 {
        let e = String::new();
        assert(e@ =~= Seq::<char>::empty());
        e
    } else {
        assert(string_views(ls@)[0] == ls@[0]@);
        ls[0].clone()
    }
}

/// The message of a cherry-picked commit.
pub open spec fn cherry_pick_text(message: Seq<char>, commit: Seq<char>) -> Seq<char> {
    message + "\n\n(cherry picked from commit "@ + commit + seq![')']
}

/// The message of a cherry-picked commit: the picked commit's message and a line
/// naming the picked commit.
pub fn cherry_pick_message(message: &str, commit: &str) -> (r: String)
    ensures
        r@ == cherry_pick_text(message@, commit@),
{
    let mut out: Vec<char> = Vec::new();
    push_str(&mut out, message);
    push_str(&mut out, "\n\n(cherry picked from commit ");
    push_str(&mut out, commit);
    out.push(')');
    string_of(&out)
}

/// The message of a revert commit.
pub open spec fn revert_text(subject: Seq<char>, commit: Seq<char>) -> Seq<char> {
    "Revert \""@ + subject + seq!['"'] + "\n\nThis reverts commit "@ + commit + seq!['.']
}

/// The message of a revert commit: `Revert "<subject>"`, an empty line, and
/// a line naming the reverted commit.
pub fn revert_message(subject: &str, commit: &str) -> (r: String)
    ensures
        r@ == revert_text(subject@, commit@),
{
    let mut out: Vec<char> = Vec::new();
    push_str(&mut out, "Revert \"");
    push_str(&mut out, subject);
    out.push('"');
    push_str(&mut out, "\n\nThis reverts commit ");
    push_str(&mut out, commit);
    out.push('.');
    string_of(&out)
}

/// The trimmed, non-empty lines of a state file.
pub open spec fn line_set(ls: Seq<Seq<char>>) -> Seq<Seq<char>>
    decreases ls.len(),
{
    if ls.len() == 0 {
        seq![]
    } else {
        let r = line_set(ls.drop_last());
        if trim_ws(ls.last()).len() == 0 {
            r
        } else {
            r.push(trim_ws(ls.last()))
        }
    }
}

/// The entries of a one-item-per-line state file (the rebase to-do list, the
/// bisect good and skip lists): each line trimmed, empty lines dropped.
pub fn read_lines_set(content: &str) -> (r: Vec<String>)
    ensures
        string_views(r@) == line_set(lines_of(content@)),
{
    let lines = split_lines(content);
    let ghost lv = string_views(lines@);
    let mut out: Vec<String> = Vec::new();
    let mut i: usize = 0;
    assert(lv.take(0) =~= Seq::<Seq<char>>::empty());
    while i < lines.len()
        invariant
            lv == string_views(lines@),
            i <= lv.len(),
            string_views(out@) == line_set(lv.take(i as int)),
        decreases lv.len() - i,
    {
        proof {
            let t = lv.take(i + 1);
            assert(t.drop_last() =~= lv.take(i as int));
            assert(t.last() == lines@[i as int]@);
        }
        let t = trim(lines[i].as_str());
        if t.unicode_len() > 0 {
            let ghost before = string_views(out@);
            out.push(t);
            assert(string_views(out@) =~= before.push(trim_ws(lines@[i as int]@)));
        }
        i += 1;
    }
    assert(lv.take(lv.len() as int) =~= lv);
    out
}

/// A one-item-per-line state file: the items joined with newlines, plus a
/// final newline.
pub fn lines_file(items: &Vec<String>) -> (r: String)
    ensures
        r@ == join_lines(string_views(items@)) + seq!['\n'],
{
    let body = crate::text::join_newline(items, 0);
    assert(string_views(items@).skip(0) =~= string_views(items@));
    let mut out = crate::text::chars_of(body.as_str());
    out.push('\n');
    string_of(&out)
}


/// Whether a replay applies a commit (`cherry-pick`) or undoes it (`revert`).
#[derive(Debug, Clone, Copy, PartialEq, Eq)]
pub enum ReplayMode {
    Pick,
    Revert,
}

/// The base and the "theirs" tree of a replay, given the replayed commit's
/// parent tree and its own tree: a pick merges in the change from the parent
/// to the commit; a revert merges in the change from the commit back to its
/// parent.
pub fn replay_sides(mode: ReplayMode, parent_tree: Vec<TreeItem>, commit_tree: Vec<TreeItem>) -> (r: (
    Vec<TreeItem>,
    Vec<TreeItem>,
))
    ensures
        mode == ReplayMode::Pick ==> r.0@ == parent_tree@ && r.1@ == commit_tree@,
        mode == ReplayMode::Revert ==> r.0@ == commit_tree@ && r.1@ == parent_tree@,
{
    match mode {
        ReplayMode::Pick => (parent_tree, commit_tree),
        ReplayMode::Revert => (commit_tree, parent_tree),
    }
}

/// What a replay does once its merge is computed.
#[derive(Debug, Clone, Copy, PartialEq, Eq)]
pub enum ReplayStep {
    /// Some paths conflict: write the conflict files and stop.
    Conflicted,
    /// The result leaves `HEAD`'s tree as it was: nothing to commit.
    Empty,
    /// Stage the result without committing (`--no-commit`).
    Staged,
    /// Commit the result on top of `HEAD`.
    Commit,
}

/// Decides a replay's next step: conflicts first, then an unchanged tree,
/// then `--no-commit`; otherwise commit.
pub fn replay_step(has_conflicts: bool, tree_unchanged: bool, no_commit: bool) -> (r: ReplayStep)
    ensures
        r == (if has_conflicts {
            ReplayStep::Conflicted
        } else if tree_unchanged {
            ReplayStep::Empty
        } else if no_commit {
            ReplayStep::Staged
        } else {
            ReplayStep::Commit
        }),
{
    if has_conflicts {
        ReplayStep::Conflicted
    } else if tree_unchanged {
        ReplayStep::Empty
    } else if no_commit {
        ReplayStep::Staged
    } else {
        ReplayStep::Commit
    }
}

/// Reverting the commit that `HEAD` stands at (so that our tree is the
/// reverted commit's tree) undoes it: the merge of a revert gives exactly the
/// parent's tree, with no conflicts (over the sorted union of the paths).
pub proof fn revert_of_head_restores_parent(
    all: Seq<Seq<char>>,
    parent_tree: Seq<TreeItem>,
    commit_tree: Seq<TreeItem>,
)
    requires
        tree_wf(parent_tree),
        strictly_sorted(all),
        forall|p: Seq<char>| item_paths(parent_tree).contains(p) ==> #[trigger] all.contains(p),
    ensures
        conflict_paths(all, commit_tree, commit_tree, parent_tree).len() == 0,
        merged_entries(all, commit_tree, commit_tree, parent_tree) == parent_tree.map_values(
            |it: TreeItem| item_view(it),
        ),
{
    crate::merge::merge_unchanged_ours(all, commit_tree, parent_tree);
}

/// Cherry-picking a commit onto its own parent (our tree is the picked
/// commit's parent tree) gives exactly the picked commit's tree, with no
/// conflicts (over the sorted union of the paths).
pub proof fn pick_onto_parent_gives_commit(
    all: Seq<Seq<char>>,
    parent_tree: Seq<TreeItem>,
    commit_tree: Seq<TreeItem>,
)
    requires
        tree_wf(commit_tree),
        strictly_sorted(all),
        forall|p: Seq<char>| item_paths(commit_tree).contains(p) ==> #[trigger] all.contains(p),
    ensures
        conflict_paths(all, parent_tree, parent_tree, commit_tree).len() == 0,
        merged_entries(all, parent_tree, parent_tree, commit_tree) == commit_tree.map_values(
            |it: TreeItem| item_view(it),
        ),
{
    crate::merge::merge_unchanged_ours(all, parent_tree, commit_tree);
}

} // verus!
