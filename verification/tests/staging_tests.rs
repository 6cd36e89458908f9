use rgit::index::IndexEntry;
use rgit::merge::{RestoreError, TreeItem};
use rgit::staging::{add_kind, add_summary, apply_staged_restore, restore_staged_plan, stage_entry, AddKind, StagedRestore};

fn entry(path: &str, b: u8) -> IndexEntry {
    IndexEntry {
        ctime_secs: 0,
        ctime_nsecs: 0,
        mtime_secs: 0,
        mtime_nsecs: 0,
        dev: 0,
        ino: 0,
        mode: 0o100644,
        uid: 0,
        gid: 0,
        size: 0,
        hash: [b; 20],
        path: path.to_string(),
    }
}

#[test]
fn classifying_files_against_the_index() {
    let es = vec![entry("a", 1), entry("b", 2)];
    assert_eq!(add_kind(&es, "a", &[1; 20]), AddKind::Unchanged);
    assert_eq!(add_kind(&es, "b", &[9; 20]), AddKind::Modified);
    assert_eq!(add_kind(&es, "c", &[1; 20]), AddKind::New);
}

#[test]
fn staging_replaces_the_old_entry() {
    let es = vec![entry("a", 1), entry("b", 2), entry("a", 3)];
    let r = stage_entry(es, entry("a", 7));
    let v: Vec<(&str, u8)> = r.iter().map(|e| (e.path.as_str(), e.hash[0])).collect();
    assert_eq!(v, vec![("b", 2), ("a", 7)]);
}

#[test]
fn add_summary_lines() {
    assert_eq!(add_summary(2, 1, 3), "Staged files to index (2 new, 1 modified, 3 unchanged).");
    assert_eq!(add_summary(0, 4, 0), "Staged files to index (4 modified).");
    assert_eq!(add_summary(1, 0, 0), "Staged files to index (1 new).");
    assert_eq!(add_summary(0, 0, 5), "nothing to add: 5 file(s) already up to date, no modifications found");
}

#[test]
fn restoring_the_index_from_a_tree() {
    let es = vec![entry("a", 1), entry("b", 2)];
    let tree = vec![TreeItem { path: "a".to_string(), hash: [5; 20], mode: 0o100755 }, TreeItem { path: "c".to_string(), hash: [6; 20], mode: 0o100644 }];
    assert_eq!(restore_staged_plan(&es, "a", Some(&tree)), Ok(StagedRestore::Update(0, [5; 20], 0o100755)));
    assert_eq!(restore_staged_plan(&es, "c", Some(&tree)), Ok(StagedRestore::Add([6; 20], 0o100644)));
    assert_eq!(restore_staged_plan(&es, "b", Some(&tree)), Ok(StagedRestore::Remove));
    assert_eq!(restore_staged_plan(&es, "zz", Some(&tree)), Err(RestoreError::NoMatch("zz".to_string())));
    assert_eq!(restore_staged_plan(&es, "b", None), Ok(StagedRestore::Remove));
    let updated = apply_staged_restore(es.clone(), "a", StagedRestore::Update(0, [5; 20], 0o100755), 0);
    assert_eq!(updated[0].hash, [5; 20]);
    assert_eq!(updated[0].mode, 0o100755);
    let added = apply_staged_restore(es.clone(), "c", StagedRestore::Add([6; 20], 0o100644), 42);
    assert_eq!(added.len(), 3);
    assert_eq!(added[2].path, "c");
    assert_eq!(added[2].size, 42);
    let removed = apply_staged_restore(es, "b", StagedRestore::Remove, 0);
    assert_eq!(removed.len(), 1);
}
