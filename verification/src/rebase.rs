//! Rebase: whether there is anything to replay, walking back from the tip
//! to the merge base, the commits it replays, and where the branch is kept
//! while the replay runs.
use vstd::prelude::*;
use crate::codec::lossy_decode;
use crate::commit::{parent_prefix, prefixed};
use crate::refs::{head_view, HeadState, HeadView};
use crate::text::{lines_of, str_eq, string_views};

verus! {

/// What a rebase onto `upstream` has to do.
#[derive(Debug, Clone, Copy, PartialEq, Eq)]
pub enum RebaseKind {
    /// The upstream is already in our history.
    UpToDate,
    /// Our commit is in the upstream's history: move to it.
    FastForward,
    /// Replay our commits after the merge base onto the upstream.
    Replay,
}

/// Chooses what a rebase does, given our commit, the upstream's and their
/// merge base.
pub fn rebase_kind(ours: &str, upstream: &str, base: &str) -> (r: RebaseKind)
    ensures
        r == (if base@ == upstream@ {
            RebaseKind::UpToDate
        } else if base@ == ours@ {
            RebaseKind::FastForward
        } else {
            RebaseKind::Replay
        }),
{
    if str_eq(base, upstream) {
        RebaseKind::UpToDate
    } else if str_eq(base, ours) {
        RebaseKind::FastForward
    } else {
        RebaseKind::Replay
    }
}

/// Why a rebase cannot go on.
#[derive(Debug, Clone, PartialEq, Eq)]
pub enum RebaseError {
    /// The object is not a commit; holds its name.
    NotACommit(String),
    /// The commit has more than one parent; holds its name.
    MergeCommit(String),
    /// The walk reached a root commit before the merge base; holds its name.
    UnrelatedRoot(String),
}

/// The parents named in a commit's header.
pub open spec fn parents_in_text(content: Seq<u8>) -> Seq<Seq<char>> {
    prefixed(crate::commit::header_lines(lines_of(lossy_decode(content))), parent_prefix())
}

/// One step of the walk from the tip back to the merge base: the commit
/// `current` must be a commit with exactly one parent, which is where the
/// walk goes next.
pub fn replay_walk_step(current: &str, kind: &str, content: &[u8]) -> (r: Result<String, RebaseError>)
    ensures
        kind@ != "commit"@ ==> (r matches Err(RebaseError::NotACommit(x)) && x@ == current@),
        kind@ == "commit"@ ==> ({
            let ps = parents_in_text(content@);
            if ps.len() > 1 {
                r matches Err(RebaseError::MergeCommit(x)) && x@ == current@
            } else if ps.len() == 0 {
                r matches Err(RebaseError::UnrelatedRoot(x)) && x@ == current@
            } else {
                r matches Ok(p) && p@ == ps[0]
            }
        }),
{
    if !str_eq(kind, "commit") {
        return Err(RebaseError::NotACommit(current.to_string()));
    }
    let text = crate::codec::from_utf8_lossy(content);
    let ps = crate::commit::commit_parents(text.as_str());
    if ps.len() > 1 {
        Err(RebaseError::MergeCommit(current.to_string()))
    } else if ps.len() == 0 {
        Err(RebaseError::UnrelatedRoot(current.to_string()))
    } else {
        assert(string_views(ps@)[0] == ps@[0]@);
        Ok(ps[0].clone())
    }
}

/// A commit the rebase replays: its message, its subject and the parent it
/// is compared against (none for a root commit).
pub struct PickInfo {
    pub message: String,
    pub subject: String,
    pub parent: Option<String>,
}

/// Reads a commit that the rebase replays; a merge commit is refused.
pub fn rebase_pick(hash: &str, kind: &str, content: &[u8]) -> (r: Result<PickInfo, RebaseError>)
    ensures
        kind@ != "commit"@ ==> (r matches Err(RebaseError::NotACommit(x)) && x@ == hash@),
        kind@ == "commit"@ ==> ({
            let text = lossy_decode(content@);
            let ps = parents_in_text(content@);
            if ps.len() > 1 {
                r matches Err(RebaseError::MergeCommit(x)) && x@ == hash@
            } else {
                r matches Ok(info) && info.message@ == crate::text::join_lines(
                    crate::commit::message_lines(lines_of(text)),
                ) && info.subject@ == crate::replay::first_line_of(info.message@) && match info.parent {
                    None => ps.len() == 0,
                    Some(p) => ps.len() == 1 && p@ == ps[0],
                }
            }
        }),
{
    if !str_eq(kind, "commit") {
        return Err(RebaseError::NotACommit(hash.to_string()));
    }
    let text = crate::codec::from_utf8_lossy(content);
    let ps = crate::commit::commit_parents(text.as_str());
    if ps.len() > 1 {
        return Err(RebaseError::MergeCommit(hash.to_string()));
    }
    let message = crate::commit::extract_commit_message(text.as_str());
    let subject = crate::replay::first_line(message.as_str());
    let parent = if ps.len() == 0 {
        None
    } else {
        assert(string_views(ps@)[0] == ps@[0]@);
        Some(ps[0].clone())
    };
    Ok(PickInfo { message, subject, parent })
}

/// What the rebase records as the branch to update at the end: the branch's
/// ref, or `HEAD` when it started detached.
pub open spec fn marker_of(head: HeadView) -> Seq<char> {
    match head {
        HeadView::Branch(b) => crate::refs::branch_ref(b),
        HeadView::Detached(_) => "HEAD"@,
    }
}

/// The marker written to `.git/REBASE_BRANCH`.
pub fn branch_marker(head: &HeadState) -> (r: String)
    ensures
        r@ == marker_of(head_view(*head)),
{
    match head {
        HeadState::Branch(b) => crate::refs::branch_ref_path(b.as_str()),
        HeadState::Detached(_) => "HEAD".to_string(),
    }
}

/// The branch a marker names: `None` for `HEAD`, else the marker without
/// `refs/heads/` (when it has that prefix).
pub fn marker_branch(marker: &str) -> (r: Option<String>)
    ensures
        marker@ == "HEAD"@ ==> r is None,
        marker@ != "HEAD"@ ==> (r matches Some(b) && b@ == (if crate::text::has_prefix(marker@, "refs/heads/"@) {
            marker@.skip(11)
        } else {
            marker@
        })),
{
    if str_eq(marker, "HEAD") {
        return None;
    }
    proof {
        reveal_strlit("refs/heads/");
    }
    match crate::text::strip_prefix(marker, "refs/heads/") {
        Some(b) => Some(b),
        None => Some(marker.to_string()),
    }
}

} // verus!
