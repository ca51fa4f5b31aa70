//! Content hashing and hex rendering of digests.

use vstd::prelude::*;
use sha1::Digest;

verus! {

/// The SHA-1 digest of a byte sequence. The digest is a pure function of the
/// bytes; its 20-byte length is stated where the hash is computed.
pub uninterp spec fn sha1_of(data: Seq<u8>) -> Seq<u8>;

/// Relies on sha1::Sha1 through the sha1::Digest trait: the 20-byte SHA-1
/// digest depends on the input bytes alone.
#[verifier::external_body]
fn sha1_digest(data: &Vec<u8>) -> (r: Vec<u8>)
    ensures
        r@ == sha1_of(data@),
        r@.len() == 20,
{
    let mut hasher = sha1::Sha1::new();
    hasher.update(data.as_slice());
    hasher.finalize().to_vec()
}

/// The SHA-1 digest of `data`, as 20 raw bytes.
pub fn digest_of(data: &Vec<u8>) -> (r: Vec<u8>)
    ensures
        r@ == sha1_of(data@),
        r@.len() == 20,
{
    sha1_digest(data)
}

/// The lowercase hex character for a value below 16.
pub open spec fn nibble_char(n: u8) -> char {
    if n == 0 {
        '0'
    } else if n == 1 {
        '1'
    } else if n == 2 {
        '2'
    } else if n == 3 {
        '3'
    } else if n == 4 {
        '4'
    } else if n == 5 {
        '5'
    } else if n == 6 {
        '6'
    } else if n == 7 {
        '7'
    } else if n == 8 {
        '8'
    } else if n == 9 {
        '9'
    } else if n == 10 {
        'a'
    } else if n == 11 {
        'b'
    } else if n == 12 {
        'c'
    } else if n == 13 {
        'd'
    } else if n == 14 {
        'e'
    } else if n == 15 {
        'f'
    } else {
        '0'
    }
}

/// Lowercase hex text for a byte sequence: two characters per byte, high
/// nibble first.
pub open spec fn hex_of(data: Seq<u8>) -> Seq<char>
    decreases data.len(),
{
    if data.len() == 0 {
        Seq::empty()
    } else {
        seq![nibble_char(data[0] / 16), nibble_char(data[0] % 16)] + hex_of(data.drop_first())
    }
}

/// Hex text is twice as long as the bytes it renders.
pub proof fn lemma_hex_of_len(data: Seq<u8>)
    ensures
        hex_of(data).len() == 2 * data.len(),
    decreases data.len(),
{
    if data.len() > 0 {
        lemma_hex_of_len(data.drop_first());
    }
}

/// Relies on hex::encode: lowercase hex, two digits per byte, high nibble
/// first, as its documentation states.
#[verifier::external_body]
fn hex_encode(data: &Vec<u8>) -> (r: String)
    ensures
        r@ == hex_of(data@),
{
    hex::encode(data.as_slice())
}

/// Renders bytes as lowercase hex text: a 20-byte digest becomes its
/// 40-character name.
pub fn to_hex(data: &Vec<u8>) -> (r: String)
    ensures
        r@ == hex_of(data@),
        r@.len() == 2 * data@.len(),
{
    let r = hex_encode(data);
    proof {
        lemma_hex_of_len(data@);
    }
    r
}

/// Splits a 40-byte hex digest name into the store's directory part (first
/// two bytes) and file part (remaining 38); rejects any other length.
pub fn split_digest(h: &Vec<u8>) -> (r: Option<(Vec<u8>, Vec<u8>)>)
    ensures
        match r {
            Some(parts) => {
                &&& h@.len() == 40
                &&& parts.0@ == h@.subrange(0, 2)
                &&& parts.1@ == h@.subrange(2, 40)
            },
            None => h@.len() != 40,
        },
{
    if h.len() != 40 {
        return None;
    }
    let dir = crate::bytes::subvec(h, 0, 2);
    let file = crate::bytes::subvec(h, 2, 40);
    Some((dir, file))
}

} // verus!
