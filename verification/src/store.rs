//! The store's write and read paths on in-memory bytes: serialize, hash and
//! compress an object; decompress and parse one back.

use vstd::prelude::*;
use crate::compress::{deflate_of, zlib_compress, zlib_decompress};
use crate::hashing::{digest_of, sha1_of};
use crate::kind::Kind;
use crate::object::{obj_bytes, parse_obj, parse_obj_err, parse_object, serialize_object,
    ObjectError};
use crate::tree::{enc_entries, sorted_entries, tree_payload, wf_entry, TreeEntry};

verus! {

/// A fully prepared object: the compressed bytes to persist and the digest
/// that names them.
pub struct StoredObject {
    /// The zlib-compressed serialized object, the file's contents.
    pub file: Vec<u8>,
    /// The 20-byte SHA-1 digest of the serialized object, its address.
    pub digest: Vec<u8>,
}

/// Serializes an object, hashes the serialized form and compresses it. The
/// digest and the file contents are functions of kind and payload alone, so
/// storing the same content twice yields the same object.
pub fn store_object(k: Kind, payload: &Vec<u8>) -> (r: StoredObject)
    ensures
        r.file@ == deflate_of(obj_bytes(k, payload@)),
        r.digest@ == sha1_of(obj_bytes(k, payload@)),
        r.digest@.len() == 20,
{
    let serialized = serialize_object(k, payload);
    let digest = digest_of(&serialized);
    let file = zlib_compress(&serialized);
    StoredObject { file, digest }
}

/// Stores raw bytes as a blob.
pub fn store_blob(content: &Vec<u8>) -> (r: StoredObject)
    ensures
        r.file@ == deflate_of(obj_bytes(Kind::Blob, content@)),
        r.digest@ == sha1_of(obj_bytes(Kind::Blob, content@)),
        r.digest@.len() == 20,
{
    store_object(Kind::Blob, content)
}

/// Reads an object back from a stored file's bytes: decompresses them and
/// parses kind and payload, verifying that the declared size matches the
/// payload exactly.
pub fn read_object_file(file: &Vec<u8>) -> (r: Result<(Kind, Vec<u8>), ObjectError>)
    ensures
        forall|x: Seq<u8>|
            file@ == deflate_of(x) ==> match parse_obj(x) {
                Some(kp) => r matches Ok(o) && o.0 == kp.0 && o.1@ == kp.1,
                None => r matches Err(e) && e == parse_obj_err(x),
            },
{
    match zlib_decompress(file) {
        None => Err(ObjectError::InvalidCompression),
        Some(raw) => parse_object(&raw),
    }
}

/// What a stored tree promises of its entries: some canonical reordering `s`
/// of the given entries is what the object's payload encodes.
pub open spec fn stored_tree_of(o: StoredObject, entries: Seq<TreeEntry>) -> bool {
    exists|s: Seq<TreeEntry>|
        {
            &&& sorted_entries(s)
            &&& s.to_multiset() == entries.to_multiset()
            &&& o.file@ == deflate_of(obj_bytes(Kind::Tree, enc_entries(s)))
            &&& o.digest@ == sha1_of(obj_bytes(Kind::Tree, enc_entries(s)))
        }
}

/// Stores a directory's entries as a tree object: sorts them canonically,
/// encodes, and stores. `None` exactly when the list is empty — an empty
/// subtree yields no object and vanishes from its parent.
pub fn store_tree(entries: Vec<TreeEntry>) -> (r: Option<StoredObject>)
    requires
        forall|i: int| 0 <= i < entries@.len() ==> wf_entry(#[trigger] entries@[i]),
    ensures
        match r {
            None => entries@.len() == 0,
            Some(o) => entries@.len() > 0 && o.digest@.len() == 20 && stored_tree_of(o, entries@),
        },
{
    match tree_payload(entries) {
        None => None,
        Some(payload) => {
            let o = store_object(Kind::Tree, &payload);
            proof {
                let s = choose|s: Seq<TreeEntry>|
                    {
                        &&& sorted_entries(s)
                        &&& s.to_multiset() == entries@.to_multiset()
                        &&& payload@ == enc_entries(s)
                    };
                assert(sorted_entries(s) && s.to_multiset() == entries@.to_multiset() && o.file@
                    == deflate_of(obj_bytes(Kind::Tree, enc_entries(s))) && o.digest@ == sha1_of(
                    obj_bytes(Kind::Tree, enc_entries(s)),
                ));
            }
            Some(o)
        },
    }
}

/// Stores the root tree of a build. An empty root is a hard error: no tree
/// object can describe it.
pub fn store_root_tree(entries: Vec<TreeEntry>) -> (r: Result<StoredObject, ObjectError>)
    requires
        forall|i: int| 0 <= i < entries@.len() ==> wf_entry(#[trigger] entries@[i]),
    ensures
        match r {
            Err(e) => entries@.len() == 0 && e == ObjectError::EmptyTree,
            Ok(o) => entries@.len() > 0 && o.digest@.len() == 20 && stored_tree_of(o, entries@),
        },
{
    match store_tree(entries) {
        None => Err(ObjectError::EmptyTree),
        Some(o) => Ok(o),
    }
}

/// Determinism of the store: equal kind and payload give equal serialized
/// bytes, hence an equal digest and equal file contents.
pub proof fn lemma_store_deterministic(k1: Kind, p1: Seq<u8>, k2: Kind, p2: Seq<u8>)
    requires
        k1 == k2,
        p1 == p2,
    ensures
        sha1_of(obj_bytes(k1, p1)) == sha1_of(obj_bytes(k2, p2)),
        deflate_of(obj_bytes(k1, p1)) == deflate_of(obj_bytes(k2, p2)),
{
}

/// Round trip of the store: the file written for kind `k` and payload `p`
/// reads back as exactly `k` and `p`.
pub proof fn lemma_store_round_trip(k: Kind, p: Seq<u8>)
    requires
        p.len() <= u64::MAX,
    ensures
        parse_obj(obj_bytes(k, p)) == Some((k, p)),
{
    crate::object::lemma_parse_obj_bytes(k, p);
}

} // verus!
