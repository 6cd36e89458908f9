//! The command line, as plain data: each subcommand with its options.
use vstd::prelude::*;

verus! {

/// The parsed command line.
#[derive(Debug, Clone)]
pub struct Cli {
    pub command: Commands,
}

/// The subcommands and their options (paths are kept as given).
#[derive(Debug, Clone)]
pub enum Commands {
    Init,
    HashObject { write: bool, file: String },
    CatFile { pretty_print: bool, object_hash: String },
    WriteTree,
    Add { paths: Vec<String> },
    LsTree { name_only: bool, tree_hash: String },
    CommitTree { tree_hash: String, parent_hash: Option<String>, message: String },
    Commit { message: String },
    Log { oneline: bool },
    Status,
    Branch { name: Option<String>, delete: bool, force_delete: bool, rename: Option<String> },
    Switch { branch: String, create: bool, detach: bool, force: bool },
    Checkout { target: Option<String>, create_branch: Option<String>, detach: bool, force: bool },
    Restore { files: Vec<String>, staged: bool, worktree: bool, source: Option<String> },
    Diff { staged: bool, commits: Vec<String>, paths: Vec<String> },
    Merge { branch: String },
    Rm { files: Vec<String>, force: bool, cached: bool, recursive: bool },
    Reset { commit: Option<String>, soft: bool, mixed: bool, hard: bool, paths: Vec<String> },
    Clean { dry_run: bool, force: bool, dirs: bool, ignored: bool, only_ignored: bool },
    CherryPick { commit: Option<String>, no_commit: bool, cont: bool, abort: bool },
    Revert { commit: Option<String>, no_commit: bool, cont: bool, abort: bool },
    Stash { action: Option<StashAction> },
    Bisect { action: BisectAction },
}

/// `bisect` subcommands.
#[derive(Debug, Clone)]
pub enum BisectAction {
    Start { bad: Option<String>, good: Vec<String> },
    Bad { rev: Option<String> },
    Good { rev: Option<String> },
    Skip { revs: Vec<String> },
    Reset { commit: Option<String> },
    Log,
    Run { command: Vec<String> },
}

/// `stash` subcommands.
#[derive(Debug, Clone)]
pub enum StashAction {
    Push { message: Option<String> },
    Pop { stash: Option<String> },
    Apply { stash: Option<String> },
    List,
    Drop { stash: Option<String> },
    Show { stash: Option<String> },
    Clear,
}

/// `diff` was given more than two commits.
#[derive(Debug, Clone, Copy, PartialEq, Eq)]
pub struct DiffUsageError;

/// The commits `diff` compares: none, one, or two of them.
pub fn diff_commit_args(commits: &Vec<String>) -> (r: Result<(Option<String>, Option<String>), DiffUsageError>)
    ensures
        commits@.len() == 0 ==> r matches Ok((None, None)),
        commits@.len() == 1 ==> (r matches Ok((Some(a), None)) && a@ == commits@[0]@),
        commits@.len() == 2 ==> (r matches Ok((Some(a), Some(b))) && a@ == commits@[0]@ && b@ == commits@[1]@),
        commits@.len() > 2 ==> r == Err::<(Option<String>, Option<String>), DiffUsageError>(DiffUsageError),
{
    if commits.len() == 0 {
        Ok((None, None))
    } else if commits.len() == 1 {
        Ok((Some(commits[0].clone()), None))
    } else if commits.len() == 2 {
        Ok((Some(commits[0].clone()), Some(commits[1].clone())))
    } else {
        Err(DiffUsageError)
    }
}

} // verus!
