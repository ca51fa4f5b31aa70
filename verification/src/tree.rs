//! Tree objects: the entry list, its binary encoding, and the canonical
//! ordering that tree building must reproduce byte for byte.

use vstd::prelude::*;
use vstd::multiset::Multiset;
use crate::bytes::{bytes_eq, find_from, first_index_of, lemma_first_index_of_at, subvec};
use crate::object::ObjectError;

verus! {

/// The filesystem class of a tree entry, written as its octal mode tag.
#[derive(Clone, Copy, Debug, PartialEq, Eq, Structural)]
pub enum Mode {
    Directory,
    Regular,
    Executable,
    Symlink,
}

/// The ASCII mode tag of an entry: `40000`, `100644`, `100755` or `120000`.
pub open spec fn mode_tag(m: Mode) -> Seq<u8> {
    match m {
        Mode::Directory => seq![52u8, 48u8, 48u8, 48u8, 48u8],
        Mode::Regular => seq![49u8, 48u8, 48u8, 54u8, 52u8, 52u8],
        Mode::Executable => seq![49u8, 48u8, 48u8, 55u8, 53u8, 53u8],
        Mode::Symlink => seq![49u8, 50u8, 48u8, 48u8, 48u8, 48u8],
    }
}

/// Every mode tag is nonempty and free of NUL and space.
pub proof fn lemma_mode_tag_clean(m: Mode)
    ensures
        mode_tag(m).len() >= 5,
        forall|i: int| 0 <= i < mode_tag(m).len() ==> mode_tag(m)[i] != 0 && mode_tag(m)[i] != 32,
{
}

/// The mode tag of `m`, as a vector.
pub fn mode_bytes(m: Mode) -> (r: Vec<u8>)
    ensures
        r@ == mode_tag(m),
{
    let mut v: Vec<u8> = Vec::new();
    match m {
        Mode::Directory => {
            v.push(52);
            v.push(48);
            v.push(48);
            v.push(48);
            v.push(48);
        },
        Mode::Regular => {
            v.push(49);
            v.push(48);
            v.push(48);
            v.push(54);
            v.push(52);
            v.push(52);
        },
        Mode::Executable => {
            v.push(49);
            v.push(48);
            v.push(48);
            v.push(55);
            v.push(53);
            v.push(53);
        },
        Mode::Symlink => {
            v.push(49);
            v.push(50);
            v.push(48);
            v.push(48);
            v.push(48);
            v.push(48);
        },
    }
    proof {
        assert(v@ =~= mode_tag(m));
    }
    v
}

/// Chooses an entry's mode from its filesystem metadata: directories first,
/// then symlinks, then the execute permission.
pub fn mode_for_entry(is_dir: bool, is_symlink: bool, executable: bool) -> (m: Mode)
    ensures
        m == (if is_dir {
            Mode::Directory
        } else if is_symlink {
            Mode::Symlink
        } else if executable {
            Mode::Executable
        } else {
            Mode::Regular
        }),
{
    if is_dir {
        Mode::Directory
    } else if is_symlink {
        Mode::Symlink
    } else if executable {
        Mode::Executable
    } else {
        Mode::Regular
    }
}

/// Whether a raw decoded mode tag names a directory, hence a child tree
/// rather than a blob.
pub fn mode_is_tree(mode: &Vec<u8>) -> (r: bool)
    ensures
        r <==> mode@ == mode_tag(Mode::Directory),
{
    let dir = mode_bytes(Mode::Directory);
    bytes_eq(mode, &dir)
}

/// One entry of a tree under construction: mode, entry name, and the 20-byte
/// digest of the child object.
pub struct TreeEntry {
    pub mode: Mode,
    pub name: Vec<u8>,
    pub digest: Vec<u8>,
}

/// A well-formed entry: the digest is 20 bytes, and the name is a single
/// path component, so it holds neither NUL (the encoding's terminator) nor
/// a slash (which no directory entry name can contain).
pub open spec fn wf_entry(e: TreeEntry) -> bool {
    &&& e.digest@.len() == 20
    &&& forall|i: int| 0 <= i < e.name@.len() ==> e.name@[i] != 0 && e.name@[i] != 47
}

/// Whether the entry names a child directory.
pub open spec fn entry_is_dir(e: TreeEntry) -> bool {
    e.mode == Mode::Directory
}

/// The canonical name ordering, comparing `a` (a directory iff `a_dir`)
/// against `b`: names compare byte by byte over the shared prefix; when one
/// name runs out, a directory contributes a virtual trailing slash and a
/// file contributes nothing, and nothing sorts before any byte. Returns -1,
/// 0 or 1.
pub open spec fn name_cmp(a: Seq<u8>, a_dir: bool, b: Seq<u8>, b_dir: bool) -> int
    decreases a.len(),
{
    if a.len() > 0 && b.len() > 0 {
        if a[0] < b[0] {
            -1
        } else if a[0] > b[0] {
            1
        } else {
            name_cmp(a.drop_first(), a_dir, b.drop_first(), b_dir)
        }
    } else {
        let ca: Option<u8> = if a.len() > 0 {
            Some(a[0])
        } else if a_dir {
            Some(47)
        } else {
            None
        };
        let cb: Option<u8> = if b.len() > 0 {
            Some(b[0])
        } else if b_dir {
            Some(47)
        } else {
            None
        };
        match (ca, cb) {
            (None, None) => 0,
            (None, Some(_)) => -1,
            (Some(_), None) => 1,
            (Some(x), Some(y)) => if x < y {
                -1
            } else if x > y {
                1
            } else {
                0
            },
        }
    }
}

/// The ordering on entries.
pub open spec fn entry_cmp(a: TreeEntry, b: TreeEntry) -> int {
    name_cmp(a.name@, entry_is_dir(a), b.name@, entry_is_dir(b))
}

/// `a` sorts no later than `b`.
pub open spec fn entry_le(a: TreeEntry, b: TreeEntry) -> bool {
    entry_cmp(a, b) <= 0
}

/// The entries stand in canonical order.
pub open spec fn sorted_entries(s: Seq<TreeEntry>) -> bool {
    forall|i: int, j: int| 0 <= i < j < s.len() ==> entry_le(#[trigger] s[i], #[trigger] s[j])
}

/// A name free of the slash byte.
pub open spec fn slash_free(s: Seq<u8>) -> bool {
    forall|i: int| 0 <= i < s.len() ==> s[i] != 47
}

/// The comparison is antisymmetric: swapping the sides flips the sign.
pub proof fn lemma_name_cmp_antisym(a: Seq<u8>, a_dir: bool, b: Seq<u8>, b_dir: bool)
    ensures
        name_cmp(a, a_dir, b, b_dir) == -name_cmp(b, b_dir, a, a_dir),
    decreases a.len(),
{
    if a.len() > 0 && b.len() > 0 && a[0] == b[0] {
        lemma_name_cmp_antisym(a.drop_first(), a_dir, b.drop_first(), b_dir);
    }
}

/// The ordering is transitive over slash-free names.
pub proof fn lemma_name_cmp_trans(
    a: Seq<u8>,
    a_dir: bool,
    b: Seq<u8>,
    b_dir: bool,
    c: Seq<u8>,
    c_dir: bool,
)
    requires
        slash_free(a),
        slash_free(b),
        slash_free(c),
        name_cmp(a, a_dir, b, b_dir) <= 0,
        name_cmp(b, b_dir, c, c_dir) <= 0,
    ensures
        name_cmp(a, a_dir, c, c_dir) <= 0,
    decreases a.len() + b.len() + c.len(),
{
    let ab_rec = a.len() > 0 && b.len() > 0 && a[0] == b[0];
    let bc_rec = b.len() > 0 && c.len() > 0 && b[0] == c[0];
    if ab_rec && bc_rec {
        assert(slash_free(a.drop_first()) && slash_free(b.drop_first()) && slash_free(
            c.drop_first())) by {
            assert(forall|i: int|
                0 <= i < a.drop_first().len() ==> a.drop_first()[i] == a[i + 1]);
            assert(forall|i: int|
                0 <= i < b.drop_first().len() ==> b.drop_first()[i] == b[i + 1]);
            assert(forall|i: int|
                0 <= i < c.drop_first().len() ==> c.drop_first()[i] == c[i + 1]);
        }
        lemma_name_cmp_trans(
            a.drop_first(),
            a_dir,
            b.drop_first(),
            b_dir,
            c.drop_first(),
            c_dir,
        );
    } else if ab_rec {
        // b and c decided without recursion; a[0] == b[0]
        if c.len() > 0 {
            assert(b[0] < c[0]);
        } else {
            assert(c_dir && b[0] <= 47);
            assert(b[0] != 47);
        }
    } else if bc_rec {
        // a and b decided without recursion; b[0] == c[0]
        if a.len() > 0 {
            assert(a[0] < b[0]);
        } else {
            if a_dir {
                assert(47 <= b[0]);
                assert(b[0] != 47);
            }
        }
    } else {
        // all three comparisons decided at the option level
        if a.len() > 0 && c.len() > 0 && a[0] == c[0] {
            // would recurse: show it cannot happen
            if b.len() > 0 {
                assert(a[0] <= b[0] <= c[0]);
                assert(a[0] == b[0]);
                assert(false);
            } else {
                assert(b_dir && a[0] <= 47 && 47 <= c[0]);
                assert(a[0] != 47 && c[0] != 47);
                assert(false);
            }
        }
    }
}

/// Transitivity lifted to entries.
pub proof fn lemma_entry_le_trans(a: TreeEntry, b: TreeEntry, c: TreeEntry)
    requires
        wf_entry(a),
        wf_entry(b),
        wf_entry(c),
        entry_le(a, b),
        entry_le(b, c),
    ensures
        entry_le(a, c),
{
    lemma_name_cmp_trans(
        a.name@,
        entry_is_dir(a),
        b.name@,
        entry_is_dir(b),
        c.name@,
        entry_is_dir(c),
    );
}

/// Compares two names with their directory flags, returning -1, 0 or 1 as
/// the canonical ordering does.
pub fn name_compare(a: &Vec<u8>, a_dir: bool, b: &Vec<u8>, b_dir: bool) -> (r: i8)
    ensures
        r as int == name_cmp(a@, a_dir, b@, b_dir),
{
    let mut i: usize = 0;
    proof {
        assert(a@.skip(0) =~= a@);
        assert(b@.skip(0) =~= b@);
    }
    while i < a.len() && i < b.len()
        invariant
            i <= a@.len() && i <= b@.len(),
            name_cmp(a@, a_dir, b@, b_dir) == name_cmp(
                a@.skip(i as int),
                a_dir,
                b@.skip(i as int),
                b_dir,
            ),
            forall|j: int| 0 <= j < i ==> a@[j] == b@[j],
        decreases a@.len() - i,
    {
        if a[i] < b[i] {
            proof {
                assert(a@.skip(i as int)[0] == a@[i as int]);
                assert(b@.skip(i as int)[0] == b@[i as int]);
            }
            return -1;
        }
        if a[i] > b[i] {
            proof {
                assert(a@.skip(i as int)[0] == a@[i as int]);
                assert(b@.skip(i as int)[0] == b@[i as int]);
            }
            return 1;
        }
        proof {
            assert(a@.skip(i as int)[0] == a@[i as int]);
            assert(b@.skip(i as int)[0] == b@[i as int]);
            assert(a@.skip(i as int).drop_first() =~= a@.skip(i + 1));
            assert(b@.skip(i as int).drop_first() =~= b@.skip(i + 1));
        }
        i = i + 1;
    }
    let ghost ra = a@.skip(i as int);
    let ghost rb = b@.skip(i as int);
    proof {
        assert(ra.len() == 0 || rb.len() == 0);
        if ra.len() > 0 {
            assert(ra[0] == a@[i as int]);
        }
        if rb.len() > 0 {
            assert(rb[0] == b@[i as int]);
        }
    }
    let ca: i16 = if i < a.len() {
        a[i] as i16
    } else if a_dir {
        47
    } else {
        -1
    };
    let cb: i16 = if i < b.len() {
        b[i] as i16
    } else if b_dir {
        47
    } else {
        -1
    };
    if ca < cb {
        -1
    } else if ca > cb {
        1
    } else {
        0
    }
}

/// Compares two entries in the canonical order.
pub fn entry_compare(a: &TreeEntry, b: &TreeEntry) -> (r: i8)
    ensures
        r as int == entry_cmp(*a, *b),
{
    let a_dir = matches!(a.mode, Mode::Directory);
    let b_dir = matches!(b.mode, Mode::Directory);
    name_compare(&a.name, a_dir, &b.name, b_dir)
}

/// Sorts entries into the canonical order. The result holds exactly the
/// entries given, each well formed, in canonical order.
pub fn sort_entries(entries: Vec<TreeEntry>) -> (r: Vec<TreeEntry>)
    requires
        forall|i: int| 0 <= i < entries@.len() ==> wf_entry(#[trigger] entries@[i]),
    ensures
        sorted_entries(r@),
        r@.to_multiset() == entries@.to_multiset(),
        forall|i: int| 0 <= i < r@.len() ==> wf_entry(#[trigger] r@[i]),
{
    let mut input = entries;
    let mut out: Vec<TreeEntry> = Vec::new();
    proof {
        assert(out@.to_multiset().add(input@.to_multiset()) =~= entries@.to_multiset()) by {
            broadcast use vstd::multiset::group_multiset_axioms;
            broadcast use vstd::seq_lib::group_to_multiset_ensures;

        }
    }
    while input.len() > 0
        invariant
            sorted_entries(out@),
            out@.to_multiset().add(input@.to_multiset()) == entries@.to_multiset(),
            forall|i: int| 0 <= i < input@.len() ==> wf_entry(#[trigger] input@[i]),
            forall|i: int| 0 <= i < out@.len() ==> wf_entry(#[trigger] out@[i]),
        decreases input@.len(),
    {
        let ghost old_input = input@;
        let ghost old_out = out@;
        let e = input.remove(input.len() - 1);
        proof {
            assert(old_input =~= input@.push(e));
            assert(forall|i: int| 0 <= i < input@.len() ==> input@[i] == old_input[i]);
        }
        let mut pos: usize = 0;
        while pos < out.len() && entry_compare(&out[pos], &e) <= 0
            invariant
                pos <= out@.len(),
                forall|j: int| 0 <= j < pos ==> entry_le(#[trigger] out@[j], e),
            decreases out@.len() - pos,
        {
            pos = pos + 1;
        }
        proof {
            if pos < out@.len() {
                lemma_name_cmp_antisym(
                    out@[pos as int].name@,
                    entry_is_dir(out@[pos as int]),
                    e.name@,
                    entry_is_dir(e),
                );
                assert(entry_le(e, out@[pos as int]));
            }
        }
        out.insert(pos, e);
        proof {
            assert(out@ == old_out.insert(pos as int, e));
            assert forall|i: int, j: int| 0 <= i < j < out@.len() implies entry_le(
                #[trigger] out@[i],
                #[trigger] out@[j],
            ) by {
                if j < pos {
                    assert(out@[i] == old_out[i] && out@[j] == old_out[j]);
                } else if j == pos {
                    assert(out@[i] == old_out[i]);
                } else if i < pos {
                    assert(out@[i] == old_out[i] && out@[j] == old_out[j - 1]);
                    assert(pos <= j - 1 < old_out.len());
                    if i < j - 1 {
                        assert(entry_le(old_out[i], old_out[j - 1]));
                    }
                } else if i == pos {
                    assert(out@[i] == e && out@[j] == old_out[j - 1]);
                    assert(entry_le(e, old_out[pos as int]));
                    if pos < j - 1 {
                        lemma_entry_le_trans(e, old_out[pos as int], old_out[j - 1]);
                    }
                } else {
                    assert(out@[i] == old_out[i - 1] && out@[j] == old_out[j - 1]);
                }
            }
            assert(out@.to_multiset().add(input@.to_multiset()) =~= entries@.to_multiset()) by {
                broadcast use vstd::multiset::group_multiset_axioms;
                broadcast use vstd::seq_lib::group_to_multiset_ensures;
                broadcast use vstd::seq_lib::to_multiset_insert;

                assert(old_input.to_multiset() == input@.to_multiset().insert(e)) by {
                    assert(old_input =~= input@.push(e));
                }
                assert(out@.to_multiset() == old_out.to_multiset().insert(e));
            }
            assert forall|i: int| 0 <= i < out@.len() implies wf_entry(#[trigger] out@[i]) by {
                if i < pos {
                    assert(out@[i] == old_out[i]);
                } else if i == pos {
                    assert(out@[i] == e);
                    assert(wf_entry(old_input.last()));
                } else {
                    assert(out@[i] == old_out[i - 1]);
                }
            }
        }
    }
    proof {
        assert(input@.to_multiset() =~= Multiset::<TreeEntry>::empty()) by {
            broadcast use vstd::seq_lib::group_to_multiset_ensures;

        }
        assert(out@.to_multiset().add(input@.to_multiset()) =~= out@.to_multiset()) by {
            broadcast use vstd::multiset::group_multiset_axioms;

        }
    }
    out
}

/// Whether `name` is one of the reserved entry names that tree building
/// skips (the store's own metadata directory and any configured exclusions).
pub fn is_reserved(name: &Vec<u8>, reserved: &Vec<Vec<u8>>) -> (r: bool)
    ensures
        r <==> exists|i: int| 0 <= i < reserved@.len() && (#[trigger] reserved@[i])@ == name@,
{
    let mut i: usize = 0;
    while i < reserved.len()
        invariant
            i <= reserved@.len(),
            forall|j: int| 0 <= j < i ==> (#[trigger] reserved@[j])@ != name@,
        decreases reserved@.len() - i,
    {
        if bytes_eq(&reserved[i], name) {
            return true;
        }
        i = i + 1;
    }
    false
}

/// The encoding of one entry: `"<mode> <name>\0"` then the raw 20-byte digest.
pub open spec fn enc_entry(e: TreeEntry) -> Seq<u8> {
    mode_tag(e.mode) + seq![32u8] + e.name@ + seq![0u8] + e.digest@
}

/// The encoding of an entry list: the entries' encodings, concatenated with
/// no separator. A tree's payload is this, over its sorted entries.
pub open spec fn enc_entries(s: Seq<TreeEntry>) -> Seq<u8>
    decreases s.len(),
{
    if s.len() == 0 {
        Seq::empty()
    } else {
        enc_entry(s[0]) + enc_entries(s.drop_first())
    }
}

/// Appending one entry appends its encoding.
pub proof fn lemma_enc_entries_push(s: Seq<TreeEntry>, e: TreeEntry)
    ensures
        enc_entries(s.push(e)) == enc_entries(s) + enc_entry(e),
    decreases s.len(),
{
    if s.len() == 0 {
        assert(s.push(e).drop_first() =~= Seq::<TreeEntry>::empty());
        assert(enc_entries(Seq::<TreeEntry>::empty()) == Seq::<u8>::empty());
        assert(s.push(e)[0] == e);
        assert(enc_entries(s.push(e)) =~= enc_entries(s) + enc_entry(e));
    } else {
        lemma_enc_entries_push(s.drop_first(), e);
        assert(s.push(e).drop_first() =~= s.drop_first().push(e));
        assert(enc_entries(s.push(e)) =~= enc_entries(s) + enc_entry(e));
    }
}

/// Encodes an entry list in its given order.
pub fn encode_entries(entries: &Vec<TreeEntry>) -> (r: Vec<u8>)
    ensures
        r@ == enc_entries(entries@),
{
    let mut r: Vec<u8> = Vec::new();
    let mut i: usize = 0;
    proof {
        assert(entries@.take(0) =~= Seq::<TreeEntry>::empty());
    }
    while i < entries.len()
        invariant
            i <= entries@.len(),
            r@ == enc_entries(entries@.take(i as int)),
        decreases entries@.len() - i,
    {
        let e = &entries[i];
        let mut mode = mode_bytes(e.mode);
        r.append(&mut mode);
        r.push(32);
        crate::bytes::push_all(&mut r, &e.name);
        r.push(0);
        crate::bytes::push_all(&mut r, &e.digest);
        proof {
            assert(r@ =~= enc_entries(entries@.take(i as int)) + enc_entry(entries@[i as int]));
            lemma_enc_entries_push(entries@.take(i as int), entries@[i as int]);
            assert(entries@.take(i + 1) =~= entries@.take(i as int).push(entries@[i as int]));
        }
        i = i + 1;
    }
    proof {
        assert(entries@.take(entries@.len() as int) =~= entries@);
    }
    r
}

/// A decoded tree entry, as read back from a stored tree's payload: the raw
/// mode tag, the name, and the child digest.
#[derive(Debug, PartialEq, Eq)]
pub struct RawEntry {
    pub mode: Vec<u8>,
    pub name: Vec<u8>,
    pub digest: Vec<u8>,
}

/// The mathematical shape of a decoded entry: mode tag, name, digest.
pub open spec fn raw_model(e: RawEntry) -> (Seq<u8>, Seq<u8>, Seq<u8>) {
    (e.mode@, e.name@, e.digest@)
}

/// Decodes a tree payload: each entry is the bytes up to a NUL, split at the
/// first space into mode and name, followed by exactly 20 digest bytes; a
/// clean stop happens only at a NUL boundary with nothing left.
pub open spec fn dec_tree(s: Seq<u8>) -> Option<Seq<(Seq<u8>, Seq<u8>, Seq<u8>)>>
    decreases s.len(),
{
    if s.len() == 0 {
        Some(Seq::empty())
    } else {
        let i = first_index_of(s, 0);
        if i < 0 {
            None
        } else {
            let seg = s.take(i);
            let j = first_index_of(seg, 32);
            if j < 0 {
                None
            } else if s.len() < i + 21 {
                None
            } else {
                match dec_tree(s.skip(i + 21)) {
                    None => None,
                    Some(rest) => Some(
                        seq![(seg.take(j), seg.skip(j + 1), s.subrange(i + 1, i + 21))] + rest,
                    ),
                }
            }
        }
    }
}

/// The error a failing tree decode reports, mirroring `dec_tree`.
pub open spec fn dec_tree_err(s: Seq<u8>) -> ObjectError
    decreases s.len(),
{
    if s.len() == 0 {
        ObjectError::TruncatedTreeEntry
    } else {
        let i = first_index_of(s, 0);
        if i < 0 {
            ObjectError::TruncatedTreeEntry
        } else {
            let seg = s.take(i);
            let j = first_index_of(seg, 32);
            if j < 0 {
                ObjectError::MalformedTreeEntry
            } else if s.len() < i + 21 {
                ObjectError::TruncatedTreeEntry
            } else {
                dec_tree_err(s.skip(i + 21))
            }
        }
    }
}

/// Decodes a tree payload into its entries, reporting the exact reason when
/// the bytes are not a well-formed entry list.
pub fn decode_entries(data: &Vec<u8>) -> (r: Result<Vec<RawEntry>, ObjectError>)
    ensures
        match r {
            Ok(es) => dec_tree(data@) == Some(es@.map_values(|e: RawEntry| raw_model(e))),
            Err(e) => dec_tree(data@) is None && e == dec_tree_err(data@),
        },
{
    let mut out: Vec<RawEntry> = Vec::new();
    let mut p: usize = 0;
    proof {
        assert(data@.skip(0) =~= data@);
        assert(out@.map_values(|e: RawEntry| raw_model(e)) =~= Seq::<(Seq<u8>, Seq<u8>, Seq<
            u8,
        >)>::empty());
        match dec_tree(data@) {
            Some(rest) => {
                assert(out@.map_values(|e: RawEntry| raw_model(e)) + rest =~= rest);
            },
            None => {},
        }
    }
    while p < data.len()
        invariant
            p <= data@.len(),
            match dec_tree(data@.skip(p as int)) {
                Some(rest) => dec_tree(data@) == Some(
                    out@.map_values(|e: RawEntry| raw_model(e)) + rest,
                ),
                None => dec_tree(data@) is None && dec_tree_err(data@) == dec_tree_err(
                    data@.skip(p as int),
                ),
            },
        decreases data@.len() - p,
    {
        let ghost s = data@.skip(p as int);
        proof {
            assert(forall|k: int| 0 <= k < s.len() ==> s[k] == data@[p + k]);
        }
        let nul = match find_from(data, p, 0) {
            None => {
                proof {
                    crate::bytes::lemma_first_index_of_none(s, 0);
                }
                return Err(ObjectError::TruncatedTreeEntry);
            },
            Some(n) => n,
        };
        proof {
            lemma_first_index_of_at(s, 0, nul - p);
        }
        let ghost i = nul - p;
        let ghost seg = s.take(i as int);
        proof {
            assert(forall|k: int| 0 <= k < seg.len() ==> seg[k] == data@[p + k]);
        }
        let sp = match find_from(data, p, 32) {
            None => {
                proof {
                    crate::bytes::lemma_first_index_of_none(seg, 32);
                }
                return Err(ObjectError::MalformedTreeEntry);
            },
            Some(j) => j,
        };
        if sp > nul {
            proof {
                crate::bytes::lemma_first_index_of_none(seg, 32);
            }
            return Err(ObjectError::MalformedTreeEntry);
        }
        proof {
            assert(data@[sp as int] == 32 && data@[nul as int] == 0);
            assert(sp != nul);
            lemma_first_index_of_at(seg, 32, sp - p);
        }
        if data.len() - nul < 21 {
            return Err(ObjectError::TruncatedTreeEntry);
        }
        let mode = subvec(data, p, sp);
        let name = subvec(data, sp + 1, nul);
        let digest = subvec(data, nul + 1, nul + 21);
        proof {
            assert(mode@ =~= seg.take(sp - p));
            assert(name@ =~= seg.skip(sp - p + 1));
            assert(digest@ =~= s.subrange(i + 1, i + 21));
        }
        let ghost old_out = out@;
        out.push(RawEntry { mode, name, digest });
        proof {
            let f = |e: RawEntry| raw_model(e);
            let entry_model = (seg.take(sp - p), seg.skip(sp - p + 1), s.subrange(i + 1, i + 21));
            assert(out@.map_values(f) =~= old_out.map_values(f).push(entry_model));
            assert(data@.skip(nul + 21) =~= s.skip(i + 21));
            match dec_tree(s.skip(i + 21)) {
                Some(rest2) => {
                    assert(dec_tree(s) == Some(seq![entry_model] + rest2));
                    assert(old_out.map_values(f) + (seq![entry_model] + rest2) =~= out@.map_values(
                        f,
                    ) + rest2);
                },
                None => {},
            }
        }
        p = nul + 21;
    }
    proof {
        assert(data@.skip(p as int) =~= Seq::<u8>::empty());
        assert(dec_tree(data@.skip(p as int)) == Some(Seq::<(Seq<u8>, Seq<u8>, Seq<u8>)>::empty()));
        let f = |e: RawEntry| raw_model(e);
        assert(out@.map_values(f) + Seq::<(Seq<u8>, Seq<u8>, Seq<u8>)>::empty() =~= out@.map_values(
            f,
        ));
    }
    Ok(out)
}

/// Round trip of the tree codec: decoding an encoded entry list yields each
/// entry's mode tag, name and digest, in order.
pub proof fn lemma_dec_tree_enc(es: Seq<TreeEntry>)
    requires
        forall|i: int| 0 <= i < es.len() ==> wf_entry(#[trigger] es[i]),
    ensures
        dec_tree(enc_entries(es)) == Some(
            es.map_values(|e: TreeEntry| (mode_tag(e.mode), e.name@, e.digest@)),
        ),
    decreases es.len(),
{
    let f = |e: TreeEntry| (mode_tag(e.mode), e.name@, e.digest@);
    if es.len() == 0 {
        assert(es.map_values(f) =~= Seq::<(Seq<u8>, Seq<u8>, Seq<u8>)>::empty());
    } else {
        let e = es[0];
        let s = enc_entries(es);
        let tail = enc_entries(es.drop_first());
        let head = enc_entry(e);
        lemma_mode_tag_clean(e.mode);
        assert(wf_entry(e));
        let i = (mode_tag(e.mode).len() + 1 + e.name@.len()) as int;
        assert(s.len() >= head.len());
        assert(forall|k: int| 0 <= k < head.len() ==> s[k] == head[k]);
        assert(head[i] == 0);
        assert forall|k: int| 0 <= k < i implies s[k] != 0 by {
            if k < mode_tag(e.mode).len() {
                assert(head[k] == mode_tag(e.mode)[k]);
            } else if k == mode_tag(e.mode).len() {
                assert(head[k] == 32);
            } else {
                assert(head[k] == e.name@[k - mode_tag(e.mode).len() - 1]);
            }
        }
        lemma_first_index_of_at(s, 0, i);
        let seg = s.take(i);
        let j = mode_tag(e.mode).len() as int;
        assert(seg[j] == 32);
        assert forall|k: int| 0 <= k < j implies seg[k] != 32 by {
            assert(seg[k] == mode_tag(e.mode)[k]);
        }
        lemma_first_index_of_at(seg, 32, j);
        assert(seg.take(j) =~= mode_tag(e.mode));
        assert(seg.skip(j + 1) =~= e.name@);
        assert(s.len() >= i + 21);
        assert(s.subrange(i + 1, i + 21) =~= e.digest@);
        assert(s.skip(i + 21) =~= tail);
        assert(forall|k: int| 0 <= k < es.drop_first().len() ==> es.drop_first()[k] == es[k + 1]);
        lemma_dec_tree_enc(es.drop_first());
        assert(seq![f(e)] + es.drop_first().map_values(f) =~= es.map_values(f));
    }
}

/// Builds a tree's payload from its entries: sorts them canonically and
/// encodes the result. `None` exactly when the entry list is empty — an
/// empty directory yields no object at all.
pub fn tree_payload(entries: Vec<TreeEntry>) -> (r: Option<Vec<u8>>)
    requires
        forall|i: int| 0 <= i < entries@.len() ==> wf_entry(#[trigger] entries@[i]),
    ensures
        match r {
            None => entries@.len() == 0,
            Some(p) => entries@.len() > 0 && exists|s: Seq<TreeEntry>|
                {
                    &&& sorted_entries(s)
                    &&& s.to_multiset() == entries@.to_multiset()
                    &&& p@ == enc_entries(s)
                },
        },
{
    if entries.len() == 0 {
        return None;
    }
    proof {
        broadcast use vstd::seq_lib::group_to_multiset_ensures;

    }
    let sorted = sort_entries(entries);
    let payload = encode_entries(&sorted);
    proof {
        let s = sorted@;
        assert(sorted_entries(s) && s.to_multiset() == entries@.to_multiset() && payload@
            == enc_entries(s));
    }
    Some(payload)
}

} // verus!
