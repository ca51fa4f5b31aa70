//! The serialized object form `"<kind> <size>\0<payload>"`, its parser, and
//! the proof that parsing inverts serialization.

use vstd::prelude::*;
use crate::bytes::{find_from, first_index_of, lemma_first_index_of_at, lemma_first_index_of_none,
    subvec};
use crate::decimal::{all_digits, dec_rep, dec_val, lemma_dec_rep_digits, lemma_dec_val_rep,
    parse_decimal, u64_to_decimal};
use crate::kind::{kind_of_tag, kind_tag, lemma_kind_tag_clean, lemma_tag_kind_of_tag, tag_bytes,
    tag_kind, Kind};

verus! {

/// Why a stored object or a tree payload was rejected.
#[derive(Clone, Copy, Debug, PartialEq, Eq, Structural)]
pub enum ObjectError {
    /// The decompressed bytes hold no NUL, so no header ends.
    UnterminatedHeader,
    /// The header holds no space between kind tag and size.
    HeaderNoSpace,
    /// The kind tag is none of `blob`, `tree`, `commit`.
    UnknownKind,
    /// The declared size is empty, not decimal digits, or too large to represent.
    InvalidSize,
    /// The payload holds more bytes than the header declared.
    TrailingPayload,
    /// The payload holds fewer bytes than the header declared.
    ShortPayload,
    /// A tree entry's mode/name segment holds no space.
    MalformedTreeEntry,
    /// A tree payload ends inside an entry: header without NUL or digest cut short.
    TruncatedTreeEntry,
    /// A tree was requested for an entry list that is empty after elision.
    EmptyTree,
    /// The stored bytes are not a zlib stream.
    InvalidCompression,
}

/// The serialized form of an object: kind tag, a space, the payload length in
/// decimal, a NUL, then the payload itself.
pub open spec fn obj_bytes(k: Kind, payload: Seq<u8>) -> Seq<u8> {
    kind_tag(k) + seq![32u8] + dec_rep(payload.len()) + seq![0u8] + payload
}

/// Parses a decompressed object file: `Some((kind, payload))` exactly when the
/// header is well formed and declares the payload's precise length.
pub open spec fn parse_obj(s: Seq<u8>) -> Option<(Kind, Seq<u8>)> {
    let i = first_index_of(s, 0);
    if i < 0 {
        None
    } else {
        let header = s.take(i);
        let j = first_index_of(header, 32);
        if j < 0 {
            None
        } else {
            let tagb = header.take(j);
            let sizeb = header.skip(j + 1);
            match tag_kind(tagb) {
                None => None,
                Some(k) => {
                    if sizeb.len() > 0 && all_digits(sizeb) && dec_val(sizeb) <= u64::MAX {
                        let payload = s.skip(i + 1);
                        if payload.len() == dec_val(sizeb) {
                            Some((k, payload))
                        } else {
                            None
                        }
                    } else {
                        None
                    }
                },
            }
        }
    }
}

/// The error a failing parse reports, mirroring `parse_obj` step by step.
pub open spec fn parse_obj_err(s: Seq<u8>) -> ObjectError {
    let i = first_index_of(s, 0);
    if i < 0 {
        ObjectError::UnterminatedHeader
    } else {
        let header = s.take(i);
        let j = first_index_of(header, 32);
        if j < 0 {
            ObjectError::HeaderNoSpace
        } else {
            let tagb = header.take(j);
            let sizeb = header.skip(j + 1);
            match tag_kind(tagb) {
                None => ObjectError::UnknownKind,
                Some(k) => {
                    if sizeb.len() > 0 && all_digits(sizeb) && dec_val(sizeb) <= u64::MAX {
                        if s.skip(i + 1).len() > dec_val(sizeb) {
                            ObjectError::TrailingPayload
                        } else {
                            ObjectError::ShortPayload
                        }
                    } else {
                        ObjectError::InvalidSize
                    }
                },
            }
        }
    }
}

/// Serializes an object: header then payload.
pub fn serialize_object(k: Kind, payload: &Vec<u8>) -> (r: Vec<u8>)
    ensures
        r@ == obj_bytes(k, payload@),
{
    let mut r = tag_bytes(k);
    r.push(32);
    let mut size = u64_to_decimal(payload.len() as u64);
    r.append(&mut size);
    r.push(0);
    let mut i: usize = 0;
    let ghost head = r@;
    while i < payload.len()
        invariant
            i <= payload@.len(),
            r@ == head + payload@.take(i as int),
        decreases payload@.len() - i,
    {
        r.push(payload[i]);
        proof {
            assert(head + payload@.take(i + 1) =~= (head + payload@.take(i as int)).push(
                payload@[i as int]));
        }
        i = i + 1;
    }
    proof {
        assert(payload@.take(payload@.len() as int) =~= payload@);
        assert(r@ =~= obj_bytes(k, payload@));
    }
    r
}

/// Parses a decompressed object file into its kind and payload, reporting the
/// exact reason when the bytes are not a well-formed object.
pub fn parse_object(s: &Vec<u8>) -> (r: Result<(Kind, Vec<u8>), ObjectError>)
    ensures
        match parse_obj(s@) {
            Some(kp) => r matches Ok(o) && o.0 == kp.0 && o.1@ == kp.1,
            None => r matches Err(e) && e == parse_obj_err(s@),
        },
{
    let nul = match find_from(s, 0, 0) {
        None => {
            proof {
                lemma_first_index_of_none(s@, 0);
            }
            return Err(ObjectError::UnterminatedHeader);
        },
        Some(i) => i,
    };
    proof {
        lemma_first_index_of_at(s@, 0, nul as int);
    }
    let ghost header = s@.take(nul as int);
    let sp = match find_from(s, 0, 32) {
        None => {
            proof {
                assert(forall|j: int| 0 <= j < header.len() ==> header[j] == s@[j]);
                lemma_first_index_of_none(header, 32);
            }
            return Err(ObjectError::HeaderNoSpace);
        },
        Some(j) => j,
    };
    if sp > nul {
        // the first space lies beyond the header: the header itself has none
        proof {
            assert(forall|j: int| 0 <= j < header.len() ==> header[j] == s@[j]);
            lemma_first_index_of_none(header, 32);
        }
        return Err(ObjectError::HeaderNoSpace);
    }
    proof {
        assert(s@[sp as int] == 32 && s@[nul as int] == 0);
        assert(sp != nul);
        assert(forall|j: int| 0 <= j < header.len() ==> header[j] == s@[j]);
        lemma_first_index_of_at(header, 32, sp as int);
    }
    let tagb = subvec(s, 0, sp);
    let sizeb = subvec(s, sp + 1, nul);
    proof {
        assert(tagb@ =~= header.take(sp as int));
        assert(sizeb@ =~= header.skip(sp + 1));
    }
    let k = match kind_of_tag(&tagb) {
        None => {
            return Err(ObjectError::UnknownKind);
        },
        Some(k) => k,
    };
    let size = match parse_decimal(&sizeb) {
        None => {
            return Err(ObjectError::InvalidSize);
        },
        Some(v) => v,
    };
    let total = s.len();
    let payload = subvec(s, nul + 1, total);
    proof {
        assert(payload@ =~= s@.skip(nul + 1));
    }
    if (payload.len() as u64) < size {
        return Err(ObjectError::ShortPayload);
    }
    if (payload.len() as u64) > size {
        return Err(ObjectError::TrailingPayload);
    }
    Ok((k, payload))
}

/// Round trip: parsing a serialized object yields back its kind and payload.
/// The length bound is the machine limit on a declared size.
pub proof fn lemma_parse_obj_bytes(k: Kind, payload: Seq<u8>)
    requires
        payload.len() <= u64::MAX,
    ensures
        parse_obj(obj_bytes(k, payload)) == Some((k, payload)),
{
    let s = obj_bytes(k, payload);
    let tag = kind_tag(k);
    let size = dec_rep(payload.len());
    let header = tag + seq![32u8] + size;
    lemma_kind_tag_clean(k);
    lemma_dec_rep_digits(payload.len());
    lemma_dec_val_rep(payload.len());
    let i = header.len() as int;
    assert(s[i] == 0);
    assert forall|j: int| 0 <= j < i implies s[j] != 0 by {
        if j < tag.len() {
            assert(s[j] == tag[j]);
        } else if j == tag.len() {
            assert(s[j] == 32);
        } else {
            assert(s[j] == size[j - tag.len() - 1]);
        }
    }
    lemma_first_index_of_at(s, 0, i);
    assert(s.take(i) =~= header);
    let j = tag.len() as int;
    assert(header[j] == 32);
    assert forall|l: int| 0 <= l < j implies header[l] != 32 by {
        assert(header[l] == tag[l]);
    }
    lemma_first_index_of_at(header, 32, j);
    assert(header.take(j) =~= tag);
    lemma_tag_kind_of_tag(k);
    assert(header.skip(j + 1) =~= size);
    assert(s.skip(i + 1) =~= payload);
}

} // verus!
