//! `clean`: which untracked files and directories it removes.
use vstd::prelude::*;
use crate::text::{join_char, split_char, split_on, string_views};

verus! {

/// Which untracked entries `clean` considers.
#[derive(Debug, Clone, Copy, PartialEq, Eq)]
pub enum CleanMode {
    /// Untracked entries that are not ignored.
    Normal,
    /// All untracked entries (`-x`).
    IncludeIgnored,
    /// Only ignored ones (`-X`).
    IgnoredOnly,
}

impl CleanMode {
    /// Whether an entry, ignored or not, is one this mode removes.
    pub fn wants(&self, ignored: bool) -> (r: bool)
        ensures
            r == match *self {
                CleanMode::Normal => !ignored,
                CleanMode::IncludeIgnored => true,
                CleanMode::IgnoredOnly => ignored,
            },
    {
        match self {
            CleanMode::Normal => !ignored,
            CleanMode::IncludeIgnored => true,
            CleanMode::IgnoredOnly => ignored,
        }
    }
}

/// Why `clean` refused its options.
#[derive(Debug, Clone, Copy, PartialEq, Eq)]
pub enum CleanError {
    /// `-x` and `-X` together.
    ConflictingIgnoreFlags,
    /// Neither `-n` nor `-f`.
    ForceRequired,
}

/// The mode for `clean`'s flags, or why they are refused.
pub fn clean_mode(dry_run: bool, force: bool, ignored: bool, only_ignored: bool) -> (r: Result<CleanMode, CleanError>)
    ensures
        ignored && only_ignored ==> r == Err::<CleanMode, CleanError>(CleanError::ConflictingIgnoreFlags),
        !(ignored && only_ignored) && !dry_run && !force ==> r == Err::<CleanMode, CleanError>(CleanError::ForceRequired),
        !(ignored && only_ignored) && (dry_run || force) ==> r == Ok::<CleanMode, CleanError>(
            if only_ignored {
                CleanMode::IgnoredOnly
            } else if ignored {
                CleanMode::IncludeIgnored
            } else {
                CleanMode::Normal
            },
        ),
{
    if ignored && only_ignored {
        return Err(CleanError::ConflictingIgnoreFlags);
    }
    if !dry_run && !force {
        return Err(CleanError::ForceRequired);
    }
    if only_ignored {
        Ok(CleanMode::IgnoredOnly)
    } else if ignored {
        Ok(CleanMode::IncludeIgnored)
    } else {
        Ok(CleanMode::Normal)
    }
}

/// The directories holding `path`, outermost first: each leading run of its
/// `/`-separated parts, the last part excluded.
pub open spec fn ancestor_dirs(path: Seq<char>) -> Seq<Seq<char>> {
    let parts = split_char(path, '/');
    Seq::new((parts.len() - 1) as nat, |k: int| join_char(parts.take(k + 1), '/'))
}

/// The directories holding each staged path, path by path.
pub open spec fn all_ancestor_dirs(paths: Seq<Seq<char>>) -> Seq<Seq<char>>
    decreases paths.len(),
{
    if paths.len() == 0 {
        seq![]
    } else {
        all_ancestor_dirs(paths.drop_last()) + ancestor_dirs(paths.last())
    }
}

/// Every directory that holds a staged path (a directory may repeat).
pub fn staged_dirs(paths: &Vec<String>) -> (r: Vec<String>)
    ensures
        string_views(r@) == all_ancestor_dirs(string_views(paths@)),
{
    let ghost tv = string_views(paths@);
    let mut out: Vec<String> = Vec::new();
    let mut i: usize = 0;
    assert(tv.take(0) =~= Seq::<Seq<char>>::empty());
    while i < paths.len()
        invariant
            tv == string_views(paths@),
            i <= tv.len(),
            string_views(out@) == all_ancestor_dirs(tv.take(i as int)),
        decreases tv.len() - i,
    {
        let parts = split_on(paths[i].as_str(), '/');
        let ghost pv = string_views(parts@);
        let ghost out0 = string_views(out@);
        let ghost ad = ancestor_dirs(tv[i as int]);
        proof {
            crate::text::lemma_split_nonempty(paths@[i as int]@, '/');
            assert(tv[i as int] == paths@[i as int]@);
        }
        let np = parts.len();
        let mut k: usize = 1;
        let mut prefix: Vec<String> = Vec::new();
        prefix.push(parts[0].clone());
        assert(string_views(prefix@) =~= pv.take(1));
        assert(ad.take(0) =~= Seq::<Seq<char>>::empty());
        while k < np
            invariant
                pv == string_views(parts@),
                pv == split_char(tv[i as int], '/'),
                ad == ancestor_dirs(tv[i as int]),
                np == pv.len(),
                1 <= k <= np,
                string_views(prefix@) == pv.take(k as int),
                string_views(out@) == out0 + ad.take(k - 1),
            decreases np - k,
        {
            let dir = crate::text::join_with(&prefix, '/');
            let ghost before = string_views(out@);
            out.push(dir);
            proof {
                assert(ad[k - 1] == join_char(pv.take(k as int), '/'));
                assert(string_views(out@) =~= before.push(dir@));
                assert(ad.take(k as int) =~= ad.take(k - 1).push(ad[k - 1]));
            }
            let ghost pb = prefix@;
            let c = parts[k].clone();
            assert(string_views(prefix@).len() == prefix@.len());
            prefix.push(c);
            proof {
                assert(prefix@ == pb.push(c));
                assert(string_views(prefix@).len() == prefix@.len());
                assert(string_views(prefix@)[k as int] == c@);
                assert(string_views(prefix@) =~= pv.take(k + 1));
            }
            k += 1;
        }
        proof {
            assert(ad.take(np - 1) =~= ad);
            let t = tv.take(i + 1);
            assert(t.drop_last() =~= tv.take(i as int));
            assert(t.last() == tv[i as int]);
        }
        i += 1;
    }
    assert(tv.take(tv.len() as int) =~= tv);
    out
}

/// What `clean` does with a directory.
#[derive(Debug, Clone, Copy, PartialEq, Eq)]
pub enum DirAction {
    /// Remove it with everything in it.
    Remove,
    /// Leave it alone.
    Skip,
    /// Look at its entries one by one.
    Descend,
}

/// `clean`'s choice for a directory: with `-d`, an untracked directory (not
/// the top) that the mode wants goes whole, and an ignored one it does not
/// want is left alone; otherwise an ignored directory the mode does not want
/// is left alone, and anything else is walked.
pub open spec fn dir_action(remove_dirs: bool, has_staged: bool, is_top: bool, ignored: bool, mode: CleanMode) -> DirAction {
    let wants = match mode {
        CleanMode::Normal => !ignored,
        CleanMode::IncludeIgnored => true,
        CleanMode::IgnoredOnly => ignored,
    };
    let wants_ignored = match mode {
        CleanMode::Normal => false,
        CleanMode::IncludeIgnored => true,
        CleanMode::IgnoredOnly => true,
    };
    if remove_dirs && !has_staged && !is_top && wants {
        DirAction::Remove
    } else if remove_dirs && !has_staged && !is_top && ignored {
        DirAction::Skip
    } else if ignored && !wants_ignored {
        DirAction::Skip
    } else {
        DirAction::Descend
    }
}

/// Decides what `clean` does with a directory.
pub fn clean_dir_action(remove_dirs: bool, has_staged: bool, is_top: bool, ignored: bool, mode: CleanMode) -> (r: DirAction)
    ensures
        r == dir_action(remove_dirs, has_staged, is_top, ignored, mode),
{
    if remove_dirs && !has_staged && !is_top {
        if mode.wants(ignored) {
            return DirAction::Remove;
        }
        if ignored {
            return DirAction::Skip;
        }
    }
    if ignored && !mode.wants(true) {
        return DirAction::Skip;
    }
    DirAction::Descend
}

} // verus!
