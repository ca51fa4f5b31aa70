//! Streaming compression of stored objects, taken on trust from flate2.

use vstd::prelude::*;
use std::io::Read;
use std::io::Write;

verus! {

/// The zlib stream that compressing a byte sequence at the default level
/// produces. Compression is a pure function of the input bytes.
pub uninterp spec fn deflate_of(data: Seq<u8>) -> Seq<u8>;

/// Relies on flate2::write::ZlibEncoder with Compression::default(): the
/// compressed stream depends on the input bytes alone, and writing into a
/// Vec cannot fail.
#[verifier::external_body]
pub(crate) fn zlib_compress(data: &Vec<u8>) -> (r: Vec<u8>)
    ensures
        r@ == deflate_of(data@),
{
    let mut enc = flate2::write::ZlibEncoder::new(Vec::new(), flate2::Compression::default());
    enc.write_all(data.as_slice()).expect("writing to a Vec cannot fail");
    enc.finish().expect("finishing a Vec-backed encoder cannot fail")
}

/// Relies on flate2::read::ZlibDecoder: inflating a stream that ZlibEncoder
/// produced yields exactly the bytes that were compressed; other input may
/// yield anything or fail.
#[verifier::external_body]
pub(crate) fn zlib_decompress(data: &Vec<u8>) -> (r: Option<Vec<u8>>)
    ensures
        match r {
            Some(v) => forall|x: Seq<u8>| data@ == deflate_of(x) ==> v@ == x,
            None => forall|x: Seq<u8>| data@ != deflate_of(x),
        },
{
    let mut dec = flate2::read::ZlibDecoder::new(data.as_slice());
    let mut out = Vec::new();
    match dec.read_to_end(&mut out) {
        Ok(_) => Some(out),
        Err(_) => None,
    }
}

} // verus!
