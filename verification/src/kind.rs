//! The object kinds and the tag bytes that name them in an object header.

use vstd::prelude::*;
use crate::bytes::bytes_eq;

verus! {

/// The three kinds of stored object.
#[derive(Clone, Copy, Debug, PartialEq, Eq, Structural)]
pub enum Kind {
    Blob,
    Tree,
    Commit,
}

/// The tag bytes that name a kind in an object header: `blob`, `tree` or
/// `commit` in ASCII.
pub open spec fn kind_tag(k: Kind) -> Seq<u8> {
    match k {
        Kind::Blob => seq![98u8, 108u8, 111u8, 98u8],
        Kind::Tree => seq![116u8, 114u8, 101u8, 101u8],
        Kind::Commit => seq![99u8, 111u8, 109u8, 109u8, 105u8, 116u8],
    }
}

/// The kind named by `s`, if `s` is exactly one of the three tags.
pub open spec fn tag_kind(s: Seq<u8>) -> Option<Kind> {
    if s == kind_tag(Kind::Blob) {
        Some(Kind::Blob)
    } else if s == kind_tag(Kind::Tree) {
        Some(Kind::Tree)
    } else if s == kind_tag(Kind::Commit) {
        Some(Kind::Commit)
    } else {
        None
    }
}

/// Every tag is nonempty ASCII text free of NUL and space, so a tag never
/// collides with the header's separators.
pub proof fn lemma_kind_tag_clean(k: Kind)
    ensures
        kind_tag(k).len() >= 4,
        forall|i: int| 0 <= i < kind_tag(k).len() ==> kind_tag(k)[i] != 0 && kind_tag(k)[i] != 32,
{
}

/// Reading a tag back yields the kind it was written for.
pub proof fn lemma_tag_kind_of_tag(k: Kind)
    ensures
        tag_kind(kind_tag(k)) == Some(k),
{
    match k {
        Kind::Blob => {},
        Kind::Tree => {
            assert(kind_tag(Kind::Tree)[0] != kind_tag(Kind::Blob)[0]);
        },
        Kind::Commit => {
            assert(kind_tag(Kind::Commit).len() != kind_tag(Kind::Blob).len());
            assert(kind_tag(Kind::Commit).len() != kind_tag(Kind::Tree).len());
        },
    }
}

/// The tag bytes of `k`, as a vector.
pub fn tag_bytes(k: Kind) -> (r: Vec<u8>)
    ensures
        r@ == kind_tag(k),
{
    let mut v: Vec<u8> = Vec::new();
    match k {
        Kind::Blob => {
            v.push(98);
            v.push(108);
            v.push(111);
            v.push(98);
        },
        Kind::Tree => {
            v.push(116);
            v.push(114);
            v.push(101);
            v.push(101);
        },
        Kind::Commit => {
            v.push(99);
            v.push(111);
            v.push(109);
            v.push(109);
            v.push(105);
            v.push(116);
        },
    }
    proof {
        assert(v@ =~= kind_tag(k));
    }
    v
}

/// Parses a tag, accepting exactly the three known kind names.
pub fn kind_of_tag(s: &Vec<u8>) -> (r: Option<Kind>)
    ensures
        r == tag_kind(s@),
{
    let blob = tag_bytes(Kind::Blob);
    let tree = tag_bytes(Kind::Tree);
    let commit = tag_bytes(Kind::Commit);
    if bytes_eq(s, &blob) {
        Some(Kind::Blob)
    } else if bytes_eq(s, &tree) {
        Some(Kind::Tree)
    } else if bytes_eq(s, &commit) {
        Some(Kind::Commit)
    } else {
        None
    }
}

} // verus!
