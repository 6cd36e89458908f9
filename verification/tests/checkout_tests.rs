use rgit::checkout::{ensure_working_tree_clean, index_after_switch, DirtyError};
use rgit::index::IndexEntry;
use rgit::merge::TreeItem;
use rgit::tree::item_map_of;

fn h(b: u8) -> [u8; 20] {
    [b; 20]
}

fn item(path: &str, b: u8) -> TreeItem {
    TreeItem { path: path.to_string(), hash: h(b), mode: 0o100644 }
}

fn entry(path: &str, b: u8) -> IndexEntry {
    IndexEntry {
        ctime_secs: 0,
        ctime_nsecs: 0,
        mtime_secs: 0,
        mtime_nsecs: 0,
        dev: 0,
        ino: 0,
        mode: 0o100644,
        uid: 0,
        gid: 0,
        size: 0,
        hash: h(b),
        path: path.to_string(),
    }
}

#[test]
fn item_map_sorts_and_keeps_the_last() {
    let m = item_map_of(&vec![item("b", 1), item("a", 2), item("b", 3)]);
    let paths: Vec<&str> = m.iter().map(|i| i.path.as_str()).collect();
    assert_eq!(paths, vec!["a", "b"]);
    assert_eq!(m[1].hash, h(3));
}

#[test]
fn clean_tree_passes() {
    let head = vec![item("a", 1), item("b", 2)];
    let index = vec![item("b", 2), item("a", 1)];
    assert_eq!(ensure_working_tree_clean(&head, &index, &vec![Some(h(1)), Some(h(2))]), Ok(()));
}

#[test]
fn staged_changes_are_refused() {
    let head = vec![item("a", 1)];
    let index = vec![item("a", 9)];
    assert_eq!(ensure_working_tree_clean(&head, &index, &vec![Some(h(1))]), Err(DirtyError::StagedChanges));
    let index2 = vec![item("a", 1), item("new", 4)];
    assert_eq!(ensure_working_tree_clean(&head, &index2, &vec![Some(h(1))]), Err(DirtyError::StagedChanges));
}

#[test]
fn missing_and_modified_files_are_refused_in_path_order() {
    let head = vec![item("a", 1), item("b", 2)];
    let index = head.clone();
    assert_eq!(
        ensure_working_tree_clean(&head, &index, &vec![Some(h(1)), None]),
        Err(DirtyError::Missing("b".to_string()))
    );
    assert_eq!(
        ensure_working_tree_clean(&head, &index, &vec![Some(h(7)), None]),
        Err(DirtyError::Modified("a".to_string()))
    );
}

#[test]
fn index_after_switch_keeps_target_paths_and_appends_fresh_entries() {
    let index = vec![entry("a", 1), entry("gone", 2), entry("c", 3)];
    let target = vec![item("a", 1), item("c", 5), item("d", 6)];
    let fresh = vec![entry("c", 5), entry("d", 6)];
    let r = index_after_switch(index, &target, fresh);
    let paths: Vec<&str> = r.iter().map(|e| e.path.as_str()).collect();
    assert_eq!(paths, vec!["a", "c", "d"]);
    assert_eq!(r[1].hash, h(5));
}
