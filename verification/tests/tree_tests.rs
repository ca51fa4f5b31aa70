use objstore::decimal::{parse_decimal, u64_to_decimal};
use objstore::hashing::to_hex;
use objstore::kind::Kind;
use objstore::object::ObjectError;
use objstore::store::{read_object_file, store_blob, store_root_tree, store_tree};
use objstore::tree::{
    decode_entries, encode_entries, is_reserved, mode_for_entry, mode_is_tree, name_compare,
    sort_entries, Mode, TreeEntry,
};

fn entry(mode: Mode, name: &str, fill: u8) -> TreeEntry {
    TreeEntry {
        mode,
        name: name.as_bytes().to_vec(),
        digest: vec![fill; 20],
    }
}

#[test]
fn directory_sorts_with_virtual_trailing_slash() {
    // "foo" as a directory sorts as "foo/": after "foo.txt" ('.' < '/'),
    // before "foobar" ('/' < 'b').
    let entries = vec![
        entry(Mode::Directory, "foo", 1),
        entry(Mode::Regular, "foo.txt", 2),
        entry(Mode::Regular, "foobar", 3),
    ];
    let sorted = sort_entries(entries);
    let names: Vec<&[u8]> = sorted.iter().map(|e| e.name.as_slice()).collect();
    assert_eq!(names, vec![&b"foo.txt"[..], &b"foo"[..], &b"foobar"[..]]);
}

#[test]
fn name_compare_pairs() {
    assert_eq!(name_compare(&b"foo.txt".to_vec(), false, &b"foo".to_vec(), true), -1);
    assert_eq!(name_compare(&b"foo".to_vec(), true, &b"foo.txt".to_vec(), false), 1);
    assert_eq!(name_compare(&b"foo".to_vec(), true, &b"foobar".to_vec(), false), -1);
    assert_eq!(name_compare(&b"foo".to_vec(), false, &b"foobar".to_vec(), false), -1);
    assert_eq!(name_compare(&b"a".to_vec(), false, &b"b".to_vec(), false), -1);
    assert_eq!(name_compare(&b"same".to_vec(), false, &b"same".to_vec(), false), 0);
}

#[test]
fn encode_then_decode_returns_entries() {
    let entries = vec![
        entry(Mode::Regular, "a.txt", 0xaa),
        entry(Mode::Directory, "sub", 0xbb),
    ];
    let payload = encode_entries(&entries);
    let decoded = decode_entries(&payload).unwrap();
    assert_eq!(decoded.len(), 2);
    assert_eq!(decoded[0].mode, b"100644".to_vec());
    assert_eq!(decoded[0].name, b"a.txt".to_vec());
    assert_eq!(decoded[0].digest, vec![0xaa; 20]);
    assert_eq!(decoded[1].mode, b"40000".to_vec());
    assert_eq!(decoded[1].name, b"sub".to_vec());
    assert_eq!(decoded[1].digest, vec![0xbb; 20]);
}

#[test]
fn name_with_space_survives_round_trip() {
    let entries = vec![entry(Mode::Regular, "with space.txt", 0x11)];
    let payload = encode_entries(&entries);
    let decoded = decode_entries(&payload).unwrap();
    assert_eq!(decoded[0].mode, b"100644".to_vec());
    assert_eq!(decoded[0].name, b"with space.txt".to_vec());
}

#[test]
fn decode_of_empty_payload_is_no_entries() {
    let decoded = decode_entries(&Vec::new()).unwrap();
    assert_eq!(decoded.len(), 0);
}

#[test]
fn entry_without_space_is_malformed() {
    let mut payload = b"100644a.txt\0".to_vec();
    payload.extend(vec![0u8; 20]);
    assert_eq!(
        decode_entries(&payload),
        Err(ObjectError::MalformedTreeEntry)
    );
}

#[test]
fn entry_with_short_digest_is_truncated() {
    let mut payload = b"100644 a.txt\0".to_vec();
    payload.extend(vec![0u8; 7]);
    assert_eq!(
        decode_entries(&payload),
        Err(ObjectError::TruncatedTreeEntry)
    );
}

#[test]
fn entry_without_terminator_is_truncated() {
    assert_eq!(
        decode_entries(&b"100644 a.txt".to_vec()),
        Err(ObjectError::TruncatedTreeEntry)
    );
}

#[test]
fn empty_entry_list_yields_no_tree_object() {
    assert!(store_tree(Vec::new()).is_none());
}

#[test]
fn empty_root_is_an_error() {
    assert!(matches!(
        store_root_tree(Vec::new()),
        Err(ObjectError::EmptyTree)
    ));
}

#[test]
fn single_file_tree_round_trip() {
    let blob = store_blob(&b"hello\n".to_vec());
    assert_eq!(to_hex(&blob.digest), "ce013625030ba8dba906f756967f9e9ca394464a");
    let e = TreeEntry {
        mode: Mode::Regular,
        name: b"a.txt".to_vec(),
        digest: blob.digest.clone(),
    };
    let tree = store_tree(vec![e]).unwrap();
    let (kind, payload) = read_object_file(&tree.file).unwrap();
    assert_eq!(kind, Kind::Tree);
    let entries = decode_entries(&payload).unwrap();
    assert_eq!(entries.len(), 1);
    assert_eq!(entries[0].mode, b"100644".to_vec());
    assert_eq!(entries[0].name, b"a.txt".to_vec());
    assert_eq!(entries[0].digest, blob.digest);
}

#[test]
fn mode_selection_from_metadata() {
    assert_eq!(mode_for_entry(true, false, false), Mode::Directory);
    assert_eq!(mode_for_entry(true, true, true), Mode::Directory);
    assert_eq!(mode_for_entry(false, true, false), Mode::Symlink);
    assert_eq!(mode_for_entry(false, false, true), Mode::Executable);
    assert_eq!(mode_for_entry(false, false, false), Mode::Regular);
}

#[test]
fn only_directory_mode_names_a_tree() {
    assert!(mode_is_tree(&b"40000".to_vec()));
    assert!(!mode_is_tree(&b"100644".to_vec()));
    assert!(!mode_is_tree(&b"120000".to_vec()));
}

#[test]
fn reserved_names_are_recognized() {
    let reserved = vec![b".git".to_vec(), b"target".to_vec()];
    assert!(is_reserved(&b".git".to_vec(), &reserved));
    assert!(is_reserved(&b"target".to_vec(), &reserved));
    assert!(!is_reserved(&b"src".to_vec(), &reserved));
}

#[test]
fn decimal_codec_edges() {
    assert_eq!(u64_to_decimal(0), b"0".to_vec());
    assert_eq!(u64_to_decimal(12340), b"12340".to_vec());
    assert_eq!(u64_to_decimal(u64::MAX), b"18446744073709551615".to_vec());
    assert_eq!(parse_decimal(&b"18446744073709551615".to_vec()), Some(u64::MAX));
    assert_eq!(parse_decimal(&b"18446744073709551616".to_vec()), None);
    assert_eq!(parse_decimal(&b"007".to_vec()), Some(7));
    assert_eq!(parse_decimal(&b"".to_vec()), None);
    assert_eq!(parse_decimal(&b"1x2".to_vec()), None);
}
