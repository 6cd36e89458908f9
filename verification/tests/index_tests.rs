use rgit::index::{build_entry, read_index, write_index, IndexEntry, IndexError, StatInfo};

fn entry(path: &str, fill: u8) -> IndexEntry {
    IndexEntry {
        ctime_secs: 1,
        ctime_nsecs: 2,
        mtime_secs: 3,
        mtime_nsecs: 4,
        dev: 5,
        ino: 6,
        mode: 0o100644,
        uid: 7,
        gid: 8,
        size: 9,
        hash: [fill; 20],
        path: path.to_string(),
    }
}

#[test]
fn write_then_read_gives_sorted_entries() {
    let mut es = vec![entry("b/c.txt", 2), entry("a.txt", 1), entry("b.txt", 3)];
    let bytes = write_index(&mut es);
    let paths: Vec<&str> = es.iter().map(|e| e.path.as_str()).collect();
    assert_eq!(paths, vec!["a.txt", "b.txt", "b/c.txt"]);
    let back = read_index(&bytes).unwrap();
    assert_eq!(back.len(), 3);
    for (x, y) in back.iter().zip(es.iter()) {
        assert_eq!(x.path, y.path);
        assert_eq!(x.hash, y.hash);
        assert_eq!(x.mode, y.mode);
        assert_eq!(x.ctime_secs, y.ctime_secs);
        assert_eq!(x.size, y.size);
    }
}

#[test]
fn index_layout_for_one_entry() {
    let mut es = vec![entry("a.txt", 0xab)];
    let bytes = write_index(&mut es);
    assert_eq!(&bytes[0..4], b"DIRC");
    assert_eq!(&bytes[4..8], &[0, 0, 0, 2]);
    assert_eq!(&bytes[8..12], &[0, 0, 0, 1]);
    // 62 fixed bytes + 5 name bytes, padded with 5 zeros to 72
    assert_eq!(bytes.len(), 12 + 72 + 20);
    assert_eq!(&bytes[12 + 60..12 + 62], &[0, 5]);
    assert_eq!(&bytes[12 + 62..12 + 67], b"a.txt");
    assert_eq!(&bytes[12 + 67..12 + 72], &[0, 0, 0, 0, 0]);
}

#[test]
fn padding_is_never_empty() {
    // 62 + 2 = 64 bytes: a full 8 bytes of padding follow
    let mut es = vec![entry("ab", 0)];
    let bytes = write_index(&mut es);
    assert_eq!(bytes.len(), 12 + 72 + 20);
}

#[test]
fn empty_index_roundtrip() {
    let mut es: Vec<IndexEntry> = Vec::new();
    let bytes = write_index(&mut es);
    assert_eq!(bytes.len(), 32);
    assert_eq!(read_index(&bytes).unwrap().len(), 0);
}

#[test]
fn index_errors() {
    assert_eq!(read_index(b"DIRC").unwrap_err(), IndexError::TooShort);
    assert_eq!(read_index(b"XXXX\0\0\0\x02\0\0\0\0").unwrap_err(), IndexError::BadSignature);
    assert_eq!(
        read_index(b"DIRC\0\0\0\x03\0\0\0\0").unwrap_err(),
        IndexError::UnsupportedVersion(3)
    );
    assert_eq!(read_index(b"DIRC\0\0\0\x02\0\0\0\x01").unwrap_err(), IndexError::Truncated);
}

#[test]
fn build_entry_modes() {
    let stat = StatInfo {
        ctime_secs: 10,
        ctime_nsecs: 11,
        mtime_secs: 12,
        mtime_nsecs: 13,
        dev: 14,
        ino: 15,
        uid: 16,
        gid: 17,
        executable: true,
    };
    let e = build_entry("bin/run", [9; 20], &stat, 0x1_0000_0005);
    assert_eq!(e.mode, 0o100755);
    assert_eq!(e.size, 5);
    assert_eq!(e.path, "bin/run");
    let plain = StatInfo { executable: false, ..stat };
    assert_eq!(build_entry("x", [0; 20], &plain, 3).mode, 0o100644);
}
