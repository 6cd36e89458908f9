use std::io::Write;
use rgit::store::{decode_object, encode_object, frame_object, hash_object_id, object_path, ObjectError};

#[test]
fn empty_blob_has_the_well_known_name() {
    assert_eq!(hash_object_id("blob", b""), "e69de29bb2d1d6434b8b29ae775ad8c2e48c5391");
}

#[test]
fn hello_blob_name() {
    assert_eq!(hash_object_id("blob", b"hello\n"), "ce013625030ba8dba906f756967f9e9ca394464a");
}

#[test]
fn framing() {
    assert_eq!(frame_object("blob", b"abc"), b"blob 3\0abc".to_vec());
    assert_eq!(frame_object("tree", &[0u8; 12]).len(), 8 + 12);
}

#[test]
fn stored_object_reads_back() {
    let obj = encode_object("commit", b"tree x\n\nmsg\n");
    assert_eq!(obj.hash, hash_object_id("commit", b"tree x\n\nmsg\n"));
    let (kind, content) = decode_object(&obj.data).unwrap();
    assert_eq!(kind, "commit");
    assert_eq!(content, b"tree x\n\nmsg\n".to_vec());
}

#[test]
fn decode_errors() {
    assert_eq!(decode_object(b"not zlib at all").unwrap_err(), ObjectError::BadCompression);
    let mut enc = flate2::write::ZlibEncoder::new(Vec::new(), flate2::Compression::default());
    enc.write_all(b"blob 3 abc").unwrap();
    let data = enc.finish().unwrap();
    assert_eq!(decode_object(&data).unwrap_err(), ObjectError::MissingHeader);
}

#[test]
fn kind_is_the_header_up_to_its_space() {
    let mut enc = flate2::write::ZlibEncoder::new(Vec::new(), flate2::Compression::default());
    enc.write_all(b"tag\0xy").unwrap();
    let data = enc.finish().unwrap();
    let (kind, content) = decode_object(&data).unwrap();
    assert_eq!(kind, "tag");
    assert_eq!(content, b"xy".to_vec());
}

#[test]
fn object_path_splits_the_name() {
    assert_eq!(
        object_path("ce013625030ba8dba906f756967f9e9ca394464a"),
        ".git/objects/ce/013625030ba8dba906f756967f9e9ca394464a"
    );
}
