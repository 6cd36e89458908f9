use rgit::index::IndexEntry;
use rgit::merge::TreeItem;
use rgit::store::decode_object;
use rgit::tree::{build_tree_from_map, write_tree_from_index};

fn unhex(s: &str) -> Vec<u8> {
    (0..s.len() / 2).map(|i| u8::from_str_radix(&s[2 * i..2 * i + 2], 16).unwrap()).collect()
}

fn hash20(s: &str) -> [u8; 20] {
    let v = unhex(s);
    let mut a = [0u8; 20];
    a.copy_from_slice(&v);
    a
}

fn item(path: &str, hash: [u8; 20], mode: u32) -> TreeItem {
    TreeItem { path: path.to_string(), hash, mode }
}

fn counting() -> [u8; 20] {
    let mut a = [0u8; 20];
    for (i, b) in a.iter_mut().enumerate() {
        *b = i as u8;
    }
    a
}

const HELLO: &str = "ce013625030ba8dba906f756967f9e9ca394464a";

#[test]
fn empty_tree_has_the_well_known_name() {
    let r = build_tree_from_map(&Vec::new());
    assert_eq!(r.hash, "4b825dc642cb6eb9a060e54bf8d69288fbee4904");
    assert_eq!(r.objects.len(), 1);
    let (kind, content) = decode_object(&r.objects[0].data).unwrap();
    assert_eq!(kind, "tree");
    assert!(content.is_empty());
}

#[test]
fn one_file_tree() {
    let r = build_tree_from_map(&vec![item("a.txt", hash20(HELLO), 0o100644)]);
    assert_eq!(r.hash, "2e81171448eb9f2ee3821e3d447aa6b2fe3ddba1");
    assert_eq!(r.objects.len(), 1);
    assert_eq!(r.objects[0].hash, r.hash);
    let (_, content) = decode_object(&r.objects[0].data).unwrap();
    assert_eq!(content, unhex("31303036343420612e74787400ce013625030ba8dba906f756967f9e9ca394464a"));
}

#[test]
fn nested_directories_are_written_before_their_parents() {
    let items = vec![
        item("README", hash20(HELLO), 0o100644),
        item("src/lib/x.rs", hash20(HELLO), 0o100644),
        item("src/main.rs", counting(), 0o100755),
    ];
    let r = build_tree_from_map(&items);
    assert_eq!(r.hash, "8c1c8a1077e19c645b99a0266eb211ed652d334f");
    assert_eq!(r.objects.len(), 3);
    let contents: Vec<Vec<u8>> = r.objects.iter().map(|o| decode_object(&o.data).unwrap().1).collect();
    assert_eq!(contents[0], unhex("31303036343420782e727300ce013625030ba8dba906f756967f9e9ca394464a"));
    assert_eq!(
        contents[1],
        unhex("3430303030206c69620038274cc7d9689198764f4935774776dd583b641c313030373535206d61696e2e727300000102030405060708090a0b0c0d0e0f10111213")
    );
    assert_eq!(
        contents[2],
        unhex("31303036343420524541444d4500ce013625030ba8dba906f756967f9e9ca394464a34303030302073726300cd39677986022ddac52754e7e9d6c6d095bea99f")
    );
    assert_eq!(r.objects[2].hash, r.hash);
}

#[test]
fn file_comes_before_directory_of_the_same_name() {
    let items = vec![item("a/b", hash20(HELLO), 0o100644), item("a", counting(), 0o100644)];
    let r = build_tree_from_map(&items);
    assert_eq!(r.hash, "b1f15ef6117d38caf18634a4e5031d7f782293ec");
    assert_eq!(r.objects.len(), 2);
}

#[test]
fn later_item_of_the_same_path_wins() {
    let items = vec![item("a.txt", counting(), 0o100755), item("a.txt", hash20(HELLO), 0o100644)];
    let r = build_tree_from_map(&items);
    assert_eq!(r.hash, "2e81171448eb9f2ee3821e3d447aa6b2fe3ddba1");
}

#[test]
fn index_entries_give_the_same_tree() {
    let e = IndexEntry {
        ctime_secs: 1,
        ctime_nsecs: 2,
        mtime_secs: 3,
        mtime_nsecs: 4,
        dev: 5,
        ino: 6,
        mode: 0o100644,
        uid: 7,
        gid: 8,
        size: 6,
        hash: hash20(HELLO),
        path: "a.txt".to_string(),
    };
    let r = write_tree_from_index(&vec![e]);
    assert_eq!(r.hash, "2e81171448eb9f2ee3821e3d447aa6b2fe3ddba1");
}

#[test]
fn built_tree_reads_back_as_its_rows() {
    let items = vec![
        item("README", hash20(HELLO), 0o100644),
        item("src/main.rs", counting(), 0o100755),
    ];
    let r = build_tree_from_map(&items);
    let (_, root) = decode_object(&r.objects[r.objects.len() - 1].data).unwrap();
    let entries = rgit::objects::parse_tree(&root).unwrap();
    assert_eq!(entries.len(), 2);
    assert_eq!(entries[0].mode, "100644");
    assert_eq!(entries[0].name, "README");
    assert_eq!(entries[0].hash.to_vec(), unhex(HELLO));
    assert_eq!(entries[1].mode, "40000");
    assert_eq!(entries[1].name, "src");
    assert_eq!(entries[1].hash.to_vec(), unhex(&r.objects[0].hash));
}

fn flatten_all(
    objects: &[rgit::store::StoredObject],
    hash: &str,
    prefix: &str,
    out: &mut Vec<(String, [u8; 20], u32)>,
) {
    let obj = objects.iter().find(|o| o.hash == hash).expect("tree object written");
    let (kind, content) = decode_object(&obj.data).unwrap();
    assert_eq!(kind, "tree");
    for e in rgit::objects::parse_tree(&content).unwrap() {
        match rgit::objects::flatten_entry(prefix, &e).unwrap() {
            rgit::objects::FlatEntry::Dir(p, h) => {
                let hx: String = h.iter().map(|b| format!("{:02x}", b)).collect();
                flatten_all(objects, &hx, &p, out);
            }
            rgit::objects::FlatEntry::File(it) => out.push((it.path, it.hash, it.mode)),
        }
    }
}

#[test]
fn nested_tree_flattens_back_to_its_items() {
    let items = vec![
        item("a.txt", [1; 20], 0o100644),
        item("d/b.txt", [2; 20], 0o100755),
        item("d/e/c.txt", [3; 20], 0o100644),
        item("z", [4; 20], 0o100644),
    ];
    let built = build_tree_from_map(&items);
    let mut out = Vec::new();
    flatten_all(&built.objects, &built.hash, "", &mut out);
    out.sort();
    let mut want: Vec<(String, [u8; 20], u32)> = items.iter().map(|i| (i.path.clone(), i.hash, i.mode)).collect();
    want.sort();
    assert_eq!(out, want);
}
