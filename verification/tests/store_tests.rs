use objstore::hashing::{split_digest, to_hex};
use objstore::kind::Kind;
use objstore::object::{parse_object, serialize_object, ObjectError};
use objstore::store::{read_object_file, store_blob, store_object};
use std::io::Write;

#[test]
fn blob_digest_is_sha1_of_serialized_form() {
    let o = store_blob(&b"hello\n".to_vec());
    assert_eq!(to_hex(&o.digest), "ce013625030ba8dba906f756967f9e9ca394464a");
}

#[test]
fn empty_blob_digest() {
    let o = store_blob(&Vec::new());
    assert_eq!(to_hex(&o.digest), "e69de29bb2d1d6434b8b29ae775ad8c2e48c5391");
}

#[test]
fn blob_round_trip() {
    let content = b"some bytes \x00\x01\x02 with a NUL inside".to_vec();
    let o = store_blob(&content);
    let (kind, payload) = read_object_file(&o.file).unwrap();
    assert_eq!(kind, Kind::Blob);
    assert_eq!(payload, content);
}

#[test]
fn commit_round_trip() {
    let text = b"tree ce013625030ba8dba906f756967f9e9ca394464a\n\nmessage\n".to_vec();
    let o = store_object(Kind::Commit, &text);
    let (kind, payload) = read_object_file(&o.file).unwrap();
    assert_eq!(kind, Kind::Commit);
    assert_eq!(payload, text);
}

#[test]
fn storing_twice_is_deterministic() {
    let a = store_blob(&b"same content".to_vec());
    let b = store_blob(&b"same content".to_vec());
    assert_eq!(a.digest, b.digest);
    assert_eq!(a.file, b.file);
}

#[test]
fn serialized_form_is_header_then_payload() {
    let s = serialize_object(Kind::Blob, &b"hello\n".to_vec());
    assert_eq!(s, b"blob 6\0hello\n".to_vec());
}

#[test]
fn parse_accepts_leading_zeros_in_size() {
    let r = parse_object(&b"blob 006\0hello\n".to_vec()).unwrap();
    assert_eq!(r.0, Kind::Blob);
    assert_eq!(r.1, b"hello\n".to_vec());
}

#[test]
fn truncated_declared_size_is_trailing_error() {
    assert_eq!(
        parse_object(&b"blob 3\0hello\n".to_vec()),
        Err(ObjectError::TrailingPayload)
    );
}

#[test]
fn inflated_declared_size_is_short_error() {
    assert_eq!(
        parse_object(&b"blob 9\0hello\n".to_vec()),
        Err(ObjectError::ShortPayload)
    );
}

#[test]
fn unknown_kind_tag_is_rejected() {
    assert_eq!(
        parse_object(&b"zork 3\0abc".to_vec()),
        Err(ObjectError::UnknownKind)
    );
}

#[test]
fn header_without_space_is_rejected() {
    assert_eq!(
        parse_object(&b"blob3\0abc".to_vec()),
        Err(ObjectError::HeaderNoSpace)
    );
}

#[test]
fn header_without_terminator_is_rejected() {
    assert_eq!(
        parse_object(&b"blob 3".to_vec()),
        Err(ObjectError::UnterminatedHeader)
    );
}

#[test]
fn non_decimal_size_is_rejected() {
    assert_eq!(
        parse_object(&b"blob x\0abc".to_vec()),
        Err(ObjectError::InvalidSize)
    );
    assert_eq!(
        parse_object(&b"blob \0abc".to_vec()),
        Err(ObjectError::InvalidSize)
    );
}

#[test]
fn corrupt_compressed_object_is_detected() {
    let mut enc = flate2::write::ZlibEncoder::new(Vec::new(), flate2::Compression::default());
    enc.write_all(b"blob 3\0hello\n").unwrap();
    let file = enc.finish().unwrap();
    assert_eq!(read_object_file(&file), Err(ObjectError::TrailingPayload));

    let mut enc = flate2::write::ZlibEncoder::new(Vec::new(), flate2::Compression::default());
    enc.write_all(b"blob 9\0hello\n").unwrap();
    let file = enc.finish().unwrap();
    assert_eq!(read_object_file(&file), Err(ObjectError::ShortPayload));
}

#[test]
fn non_zlib_file_is_invalid_compression() {
    assert_eq!(
        read_object_file(&b"this is not a zlib stream".to_vec()),
        Err(ObjectError::InvalidCompression)
    );
}

#[test]
fn hex_rendering_is_lowercase_two_digits_per_byte() {
    assert_eq!(to_hex(&vec![0x00, 0x0f, 0xa5, 0xff]), "000fa5ff");
}

#[test]
fn digest_name_splits_two_then_thirty_eight() {
    let h: Vec<u8> = b"ce013625030ba8dba906f756967f9e9ca394464a".to_vec();
    let (dir, file) = split_digest(&h).unwrap();
    assert_eq!(dir, b"ce".to_vec());
    assert_eq!(file, b"013625030ba8dba906f756967f9e9ca394464a".to_vec());
    assert!(split_digest(&b"b6fc".to_vec()).is_none());
}
