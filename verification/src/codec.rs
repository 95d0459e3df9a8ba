//! The object codec: typed objects (blobs and trees), their canonical byte
//! encoding `"<tag> <decimal-length>\0<payload>"`, and the tree-entry record
//! format `"<mode> <name>\0<20-byte-hash>"` nested inside tree payloads.

use vstd::prelude::*;

use crate::bytes::{
    all_digits, dec_of, digits_val, find_byte_from, find_ix, is_digit, lemma_dec_of_props,
    lemma_find_ix_concat, lemma_find_ix_none, lemma_find_ix_unique, no_byte, parse_digits,
    push_all, push_dec,
};
use vstd::slice::{slice_index_get, slice_subrange, slice_to_vec};

verus! {

/// The NUL byte that ends a header and a tree-entry name.
pub const NUL: u8 = 0;

/// The ASCII space that separates a tag from a length and a mode from a name.
pub const SP: u8 = 32;

/// The bytes of the tag `"blob"`.
pub open spec fn blob_tag() -> Seq<u8> {
    seq![98u8, 108u8, 111u8, 98u8]
}

/// The bytes of the tag `"tree"`.
pub open spec fn tree_tag() -> Seq<u8> {
    seq![116u8, 114u8, 101u8, 101u8]
}

/// One directory entry of a tree object.
#[derive(Debug, Clone, PartialEq, Eq)]
pub struct TreeEntry {
    mode: Vec<u8>,
    name: Vec<u8>,
    hash: Vec<u8>,
}

/// Mathematical value of a `TreeEntry`.
#[verifier::ext_equal]
pub struct TreeEntryV {
    pub mode: Seq<u8>,
    pub name: Seq<u8>,
    pub hash: Seq<u8>,
}

impl View for TreeEntry {
    type V = TreeEntryV;

    closed spec fn view(&self) -> TreeEntryV {
        TreeEntryV { mode: self.mode@, name: self.name@, hash: self.hash@ }
    }
}

/// Mathematical value of a sequence of entries.
pub open spec fn entries_view(es: Seq<TreeEntry>) -> Seq<TreeEntryV> {
    es.map_values(|e: TreeEntry| e@)
}

/// A typed, content-addressed unit of storage.
#[derive(Debug, Clone, PartialEq, Eq)]
pub enum Object {
    Blob(Vec<u8>),
    Tree(Vec<TreeEntry>),
}

/// Mathematical value of an `Object`.
#[verifier::ext_equal]
pub enum ObjectV {
    Blob(Seq<u8>),
    Tree(Seq<TreeEntryV>),
}

impl View for Object {
    type V = ObjectV;

    open spec fn view(&self) -> ObjectV {
        match self {
            Object::Blob(c) => ObjectV::Blob(c@),
            Object::Tree(es) => ObjectV::Tree(entries_view(es@)),
        }
    }
}

/// Every failure the codec and the store can report.
#[derive(Debug, Clone, PartialEq, Eq)]
pub enum ObjectError {
    /// Header is missing a delimiter or its length field is not numeric.
    MalformedObject,
    /// Declared and actual payload size disagree.
    LengthMismatch,
    /// Unrecognized type tag, carried verbatim.
    UnknownObjectType(Vec<u8>),
    /// A tree-entry record cannot be segmented.
    MalformedEntry,
    /// A `TreeEntry` hash is not exactly 20 bytes.
    InvalidHashLength,
    /// No stored object at the derived path.
    ObjectNotFound,
    /// An underlying filesystem or decompression failure.
    StoreIoError,
}

/// Mathematical value of an `ObjectError`.
#[verifier::ext_equal]
pub enum ErrorV {
    MalformedObject,
    LengthMismatch,
    UnknownObjectType(Seq<u8>),
    MalformedEntry,
    InvalidHashLength,
    ObjectNotFound,
    StoreIoError,
}

impl View for ObjectError {
    type V = ErrorV;

    open spec fn view(&self) -> ErrorV {
        match self {
            ObjectError::MalformedObject => ErrorV::MalformedObject,
            ObjectError::LengthMismatch => ErrorV::LengthMismatch,
            ObjectError::UnknownObjectType(t) => ErrorV::UnknownObjectType(t@),
            ObjectError::MalformedEntry => ErrorV::MalformedEntry,
            ObjectError::InvalidHashLength => ErrorV::InvalidHashLength,
            ObjectError::ObjectNotFound => ErrorV::ObjectNotFound,
            ObjectError::StoreIoError => ErrorV::StoreIoError,
        }
    }
}

/// A well-formed entry: the mode is non-empty with no space or NUL, the name
/// is non-empty with no NUL, and the hash is exactly 20 bytes.
pub open spec fn wf_entry(e: TreeEntryV) -> bool {
    &&& e.mode.len() > 0
    &&& no_byte(e.mode, SP)
    &&& no_byte(e.mode, NUL)
    &&& e.name.len() > 0
    &&& no_byte(e.name, NUL)
    &&& e.hash.len() == 20
}

/// A well-formed object: a blob always is; a tree is when every entry is.
pub open spec fn wf_object(o: ObjectV) -> bool {
    match o {
        ObjectV::Blob(_) => true,
        ObjectV::Tree(es) => forall|i: int| 0 <= i < es.len() ==> wf_entry(#[trigger] es[i]),
    }
}

/// Canonical encoding of one entry: `mode`, space, `name`, NUL, 20 hash bytes.
pub open spec fn entry_bytes(e: TreeEntryV) -> Seq<u8> {
    e.mode + seq![SP] + e.name + seq![NUL] + e.hash
}

/// Canonical encoding of a run of entries, back to back with no separator.
pub open spec fn entries_bytes(es: Seq<TreeEntryV>) -> Seq<u8>
    decreases es.len(),
{
    if es.len() == 0 {
        Seq::empty()
    } else {
        entry_bytes(es[0]) + entries_bytes(es.drop_first())
    }
}

/// Canonical object header: tag, space, decimal payload length, NUL.
pub open spec fn header_bytes(tag: Seq<u8>, n: nat) -> Seq<u8> {
    tag + seq![SP] + dec_of(n) + seq![NUL]
}

/// Canonical encoding of a whole object.
pub open spec fn obj_bytes(o: ObjectV) -> Seq<u8> {
    match o {
        ObjectV::Blob(c) => header_bytes(blob_tag(), c.len()) + c,
        ObjectV::Tree(es) => header_bytes(tree_tag(), entries_bytes(es).len()) + entries_bytes(es),
    }
}

/// What decoding one entry record yields: the bytes before the first space
/// are the mode, the last 20 bytes are the hash, and what stands between the
/// space and the byte before the hash is the name.
pub open spec fn parse_entry(s: Seq<u8>) -> Result<TreeEntryV, ErrorV> {
    match find_ix(s, SP) {
        None => Err(ErrorV::MalformedEntry),
        Some(i) => if s.len() >= 21 && i + 1 <= s.len() - 21 {
            Ok(
                TreeEntryV {
                    mode: s.take(i),
                    name: s.subrange(i + 1, s.len() - 21),
                    hash: s.skip(s.len() - 20),
                },
            )
        } else {
            Err(ErrorV::MalformedEntry)
        },
    }
}

/// What decoding a run of entry records yields: each record ends 20 bytes
/// after its first NUL, and the records partition the payload exactly.
pub open spec fn parse_entries(s: Seq<u8>) -> Result<Seq<TreeEntryV>, ErrorV>
    decreases s.len(),
{
    if s.len() == 0 {
        Ok(Seq::empty())
    } else {
        match find_ix(s, NUL) {
            None => Err(ErrorV::MalformedEntry),
            Some(p) => if 0 <= p && p + 21 <= s.len() {
                match parse_entry(s.take(p + 21)) {
                    Err(e) => Err(e),
                    Ok(en) => match parse_entries(s.skip(p + 21)) {
                        Err(e) => Err(e),
                        Ok(rest) => Ok(seq![en] + rest),
                    },
                }
            } else {
                Err(ErrorV::MalformedEntry)
            },
        }
    }
}

/// What decoding a whole object yields, error by error: split at the first
/// NUL (else `MalformedObject`), split the header at the first space (else
/// `MalformedObject`), read the decimal length field (else
/// `MalformedObject`), hold it against the payload length (else
/// `LengthMismatch`), then dispatch on the tag (unknown tags fail with
/// `UnknownObjectType`).
pub open spec fn parse_obj(s: Seq<u8>) -> Result<ObjectV, ErrorV> {
    match find_ix(s, NUL) {
        None => Err(ErrorV::MalformedObject),
        Some(p) => {
            let header = s.take(p);
            let payload = s.skip(p + 1);
            match find_ix(header, SP) {
                None => Err(ErrorV::MalformedObject),
                Some(q) => {
                    let tag = header.take(q);
                    let lenf = header.skip(q + 1);
                    if !(lenf.len() > 0 && all_digits(lenf)) {
                        Err(ErrorV::MalformedObject)
                    } else if digits_val(lenf) != payload.len() {
                        Err(ErrorV::LengthMismatch)
                    } else if tag == blob_tag() {
                        Ok(ObjectV::Blob(payload))
                    } else if tag == tree_tag() {
                        match parse_entries(payload) {
                            Err(e) => Err(e),
                            Ok(es) => Ok(ObjectV::Tree(es)),
                        }
                    } else {
                        Err(ErrorV::UnknownObjectType(tag))
                    }
                },
            }
        },
    }
}

impl TreeEntry {
    /// Construct an entry, validating that the hash is exactly 20 bytes.
    pub fn new(mode: Vec<u8>, name: Vec<u8>, hash: &[u8]) -> (r: Result<TreeEntry, ObjectError>)
        ensures
            hash@.len() == 20 ==> (r matches Ok(e) && e@ == (TreeEntryV {
                mode: mode@,
                name: name@,
                hash: hash@,
            })),
            hash@.len() != 20 ==> (r matches Err(e) && e == ObjectError::InvalidHashLength),
    {
        if hash.len() != 20 {
            return Err(ObjectError::InvalidHashLength);
        }
        let our_hash = slice_to_vec(hash);
        Ok(TreeEntry { mode, name, hash: our_hash })
    }

    /// The entry's mode bytes.
    pub fn mode(&self) -> (r: &Vec<u8>)
        ensures
            r@ == self@.mode,
    {
        &self.mode
    }

    /// The entry's name bytes.
    pub fn name(&self) -> (r: &Vec<u8>)
        ensures
            r@ == self@.name,
    {
        &self.name
    }

    /// The entry's 20-byte object hash.
    pub fn hash(&self) -> (r: &Vec<u8>)
        ensures
            r@ == self@.hash,
    {
        &self.hash
    }

    /// Encode this entry as `mode`, space, `name`, NUL, hash bytes.
    pub fn serialize(&self) -> (r: Vec<u8>)
        ensures
            r@ == entry_bytes(self@),
    {
        let mut out: Vec<u8> = Vec::new();
        push_all(&mut out, self.mode.as_slice());
        out.push(SP);
        push_all(&mut out, self.name.as_slice());
        out.push(NUL);
        push_all(&mut out, self.hash.as_slice());
        proof {
            assert(out@ =~= entry_bytes(self@));
        }
        out
    }

    /// Decode one entry record; the result is exactly what `parse_entry`
    /// says of the bytes.
    pub fn deserialize(contents: &[u8]) -> (r: Result<TreeEntry, ObjectError>)
        ensures
            match r {
                Ok(e) => parse_entry(contents@) == Ok::<TreeEntryV, ErrorV>(e@),
                Err(e) => parse_entry(contents@) == Err::<TreeEntryV, ErrorV>(e@),
            },
    {
        let len = contents.len();
        match find_byte_from(contents, 0, SP) {
            None => {
                proof {
                    lemma_find_ix_none(contents@, SP);
                }
                Err(ObjectError::MalformedEntry)
            },
            Some(i) => {
                proof {
                    lemma_find_ix_unique(contents@, SP, i as int);
                }
                if len >= 21 && i + 1 <= len - 21 {
                    let mode = slice_to_vec(slice_subrange(contents, 0, i));
                    let name = slice_to_vec(slice_subrange(contents, i + 1, len - 21));
                    let hash = slice_to_vec(slice_subrange(contents, len - 20, len));
                    let e = TreeEntry { mode, name, hash };
                    proof {
                        assert(contents@.subrange(len - 20, len as int) =~= contents@.skip(
                            len - 20,
                        ));
                        assert(parse_entry(contents@)->Ok_0 =~= e@);
                    }
                    Ok(e)
                } else {
                    Err(ObjectError::MalformedEntry)
                }
            },
        }
    }
}

impl Object {
    /// The object's type name, `"blob"` or `"tree"`.
    pub fn name(&self) -> (r: String)
        ensures
            self@ matches ObjectV::Blob(_) ==> r@ == "blob"@,
            self@ matches ObjectV::Tree(_) ==> r@ == "tree"@,
    {
        match self {
            Object::Blob(_) => "blob".to_owned(),
            Object::Tree(_) => "tree".to_owned(),
        }
    }

    /// Wrap raw bytes as a blob object.
    pub fn blob(contents: Vec<u8>) -> (r: Result<Object, ObjectError>)
        ensures
            r matches Ok(o) && o@ == ObjectV::Blob(contents@),
    {
        Ok(Object::Blob(contents))
    }

    /// Wrap a list of entries as a tree object.
    pub fn tree(entries: Vec<TreeEntry>) -> (r: Result<Object, ObjectError>)
        ensures
            r matches Ok(o) && o@ == ObjectV::Tree(entries_view(entries@)),
    {
        Ok(Object::Tree(entries))
    }

    /// Encode this object in its canonical form: tag, space, decimal payload
    /// length, NUL, payload.
    pub fn serialize(&self) -> (r: Vec<u8>)
        ensures
            r@ == obj_bytes(self@),
    {
        match self {
            Object::Blob(contents) => {
                let mut out: Vec<u8> = Vec::new();
                out.push(98);
                out.push(108);
                out.push(111);
                out.push(98);
                out.push(SP);
                push_dec(contents.len(), &mut out);
                out.push(NUL);
                push_all(&mut out, contents.as_slice());
                proof {
                    assert(out@ =~= obj_bytes(self@));
                }
                out
            },
            Object::Tree(entries) => {
                let ghost evs = entries_view(entries@);
                let mut body: Vec<u8> = Vec::new();
                let mut i: usize = 0;
                while i < entries.len()
                    invariant
                        i <= entries@.len(),
                        evs == entries_view(entries@),
                        body@ == entries_bytes(evs.take(i as int)),
                    decreases entries@.len() - i,
                {
                    let piece = entries[i].serialize();
                    push_all(&mut body, piece.as_slice());
                    proof {
                        assert(evs.take(i + 1) =~= evs.take(i as int).push(evs[i as int]));
                        lemma_entries_bytes_snoc(evs.take(i as int), evs[i as int]);
                    }
                    i = i + 1;
                }
                proof {
                    assert(evs.take(evs.len() as int) =~= evs);
                }
                let mut out: Vec<u8> = Vec::new();
                out.push(116);
                out.push(114);
                out.push(101);
                out.push(101);
                out.push(SP);
                push_dec(body.len(), &mut out);
                out.push(NUL);
                push_all(&mut out, body.as_slice());
                proof {
                    assert(out@ =~= obj_bytes(self@));
                }
                out
            },
        }
    }
}

/// Whether a tag slice spells exactly the four given bytes.
fn tag_is(tag: &[u8], a: u8, b: u8, c: u8, d: u8) -> (r: bool)
    ensures
        r <==> tag@ == seq![a, b, c, d],
{
    let res = tag.len() == 4 && *slice_index_get(tag, 0) == a && *slice_index_get(tag, 1) == b
        && *slice_index_get(tag, 2) == c && *slice_index_get(tag, 3) == d;
    proof {
        if res {
            assert(tag@ =~= seq![a, b, c, d]);
        }
    }
    res
}

/// Whether every byte of a slice is an ASCII decimal digit.
fn check_digits(s: &[u8]) -> (r: bool)
    ensures
        r == all_digits(s@),
{
    let mut i: usize = 0;
    while i < s.len()
        invariant
            i <= s@.len(),
            forall|j: int| 0 <= j < i ==> is_digit(#[trigger] s@[j]),
        decreases s@.len() - i,
    {
        let b = *slice_index_get(s, i);
        if b < 48 || b > 57 {
            return false;
        }
        i = i + 1;
    }
    true
}

impl Object {
    /// Decode a canonical byte stream into an object; the result, success or
    /// failure, is exactly what `parse_obj` says of the bytes.
    pub fn deserialize(data: &[u8]) -> (r: Result<Object, ObjectError>)
        ensures
            match r {
                Ok(o) => parse_obj(data@) == Ok::<ObjectV, ErrorV>(o@),
                Err(e) => parse_obj(data@) == Err::<ObjectV, ErrorV>(e@),
            },
    {
        let p = match find_byte_from(data, 0, NUL) {
            None => {
                proof {
                    lemma_find_ix_none(data@, NUL);
                }
                return Err(ObjectError::MalformedObject);
            },
            Some(p) => {
                proof {
                    lemma_find_ix_unique(data@, NUL, p as int);
                }
                p
            },
        };
        let dlen = data.len();
        let header = slice_subrange(data, 0, p);
        let payload = slice_subrange(data, p + 1, dlen);
        proof {
            assert(data@.take(p as int) =~= header@);
            assert(data@.skip(p + 1) =~= payload@);
        }
        let plen = payload.len();
        let q = match find_byte_from(header, 0, SP) {
            None => {
                proof {
                    lemma_find_ix_none(header@, SP);
                }
                return Err(ObjectError::MalformedObject);
            },
            Some(q) => {
                proof {
                    lemma_find_ix_unique(header@, SP, q as int);
                }
                q
            },
        };
        let tag = slice_subrange(header, 0, q);
        let lenf = slice_subrange(header, q + 1, header.len());
        proof {
            assert(header@.take(q as int) =~= tag@);
            assert(header@.skip(q + 1) =~= lenf@);
        }
        if lenf.len() == 0 || !check_digits(lenf) {
            return Err(ObjectError::MalformedObject);
        }
        match parse_digits(lenf) {
            None => {
                // The declared length does not even fit in `usize`, so it
                // cannot equal the actual payload length.
                return Err(ObjectError::LengthMismatch);
            },
            Some(v) => {
                if v != plen {
                    return Err(ObjectError::LengthMismatch);
                }
            },
        }
        if tag_is(tag, 98, 108, 111, 98) {
            Ok(Object::Blob(slice_to_vec(payload)))
        } else if tag_is(tag, 116, 114, 101, 101) {
            let es = parse_entry_run(payload)?;
            proof {
                assert(ObjectV::Tree(entries_view(es@)) =~= parse_obj(data@)->Ok_0);
            }
            Ok(Object::Tree(es))
        } else {
            proof {
                assert(ErrorV::UnknownObjectType(tag@) =~= parse_obj(data@)->Err_0);
            }
            Err(ObjectError::UnknownObjectType(slice_to_vec(tag)))
        }
    }
}

/// Decode a back-to-back run of entry records, scanning for each record's
/// first NUL and taking the 20 hash bytes after it as the boundary.
fn parse_entry_run(payload: &[u8]) -> (r: Result<Vec<TreeEntry>, ObjectError>)
    ensures
        match r {
            Ok(es) => parse_entries(payload@) == Ok::<Seq<TreeEntryV>, ErrorV>(entries_view(es@)),
            Err(e) => parse_entries(payload@) == Err::<Seq<TreeEntryV>, ErrorV>(e@),
        },
{
    let ghost pl = payload@;
    let mut entries: Vec<TreeEntry> = Vec::new();
    let mut start: usize = 0;
    proof {
        assert(pl.skip(0) =~= pl);
        assert forall|rem: Seq<TreeEntryV>|
            parse_entries(pl.skip(0)) == Ok::<Seq<TreeEntryV>, ErrorV>(rem) implies parse_entries(
            pl,
        ) == Ok::<Seq<TreeEntryV>, ErrorV>(entries_view(entries@) + rem) by {
            assert(entries_view(entries@) + rem =~= rem);
        }
    }
    while start < payload.len()
        invariant
            start <= pl.len(),
            pl == payload@,
            forall|rem: Seq<TreeEntryV>|
                parse_entries(pl.skip(start as int)) == Ok::<Seq<TreeEntryV>, ErrorV>(rem)
                    ==> parse_entries(pl) == Ok::<Seq<TreeEntryV>, ErrorV>(
                    entries_view(entries@) + rem,
                ),
            forall|e: ErrorV|
                parse_entries(pl.skip(start as int)) == Err::<Seq<TreeEntryV>, ErrorV>(e)
                    ==> parse_entries(pl) == Err::<Seq<TreeEntryV>, ErrorV>(e),
        decreases pl.len() - start,
    {
        let ghost rest = pl.skip(start as int);
        match find_byte_from(payload, start, NUL) {
            None => {
                proof {
                    assert forall|j: int| 0 <= j < rest.len() implies rest[j] != NUL by {
                        assert(pl[j + start] != NUL);
                    }
                    lemma_find_ix_none(rest, NUL);
                }
                return Err(ObjectError::MalformedEntry);
            },
            Some(nu) => {
                proof {
                    assert(rest[nu - start] == NUL);
                    assert forall|j: int| 0 <= j < nu - start implies #[trigger] rest.take(
                        nu - start,
                    )[j] != NUL by {
                        assert(pl[j + start] != NUL);
                    }
                    lemma_find_ix_unique(rest, NUL, nu - start);
                }
                if payload.len() - nu < 21 {
                    // The 20 hash bytes after the NUL run past the payload.
                    return Err(ObjectError::MalformedEntry);
                }
                let bound = nu + 21;
                let rec = slice_subrange(payload, start, bound);
                proof {
                    assert(rec@ =~= rest.take(nu - start + 21));
                }
                match TreeEntry::deserialize(rec) {
                    Err(e) => {
                        return Err(e);
                    },
                    Ok(en) => {
                        let ghost pre = entries@;
                        entries.push(en);
                        proof {
                            assert(pl.skip(bound as int) =~= rest.skip(nu - start + 21));
                            assert forall|rem: Seq<TreeEntryV>|
                                parse_entries(pl.skip(bound as int)) == Ok::<
                                    Seq<TreeEntryV>,
                                    ErrorV,
                                >(rem) implies parse_entries(pl) == Ok::<Seq<TreeEntryV>, ErrorV>(
                                entries_view(entries@) + rem,
                            ) by {
                                assert(parse_entries(rest) == Ok::<Seq<TreeEntryV>, ErrorV>(
                                    seq![en@] + rem,
                                ));
                                assert(entries_view(entries@) + rem =~= entries_view(pre) + (
                                seq![en@] + rem));
                            }
                            assert forall|e: ErrorV|
                                parse_entries(pl.skip(bound as int)) == Err::<
                                    Seq<TreeEntryV>,
                                    ErrorV,
                                >(e) implies parse_entries(pl) == Err::<Seq<TreeEntryV>, ErrorV>(
                                e,
                            ) by {
                                assert(parse_entries(rest) == Err::<Seq<TreeEntryV>, ErrorV>(e));
                            }
                        }
                        start = bound;
                    },
                }
            },
        }
    }
    proof {
        assert(pl.skip(pl.len() as int) =~= Seq::<u8>::empty());
        assert(entries_view(entries@) + Seq::<TreeEntryV>::empty() =~= entries_view(entries@));
    }
    Ok(entries)
}

/// Split a raw stream at its first NUL into header and payload.
pub fn split_header(data: &[u8]) -> (r: Result<(Vec<u8>, Vec<u8>), ObjectError>)
    ensures
        match find_ix(data@, NUL) {
            Some(p) => r matches Ok(pair) && pair.0@ == data@.take(p) && pair.1@ == data@.skip(
                p + 1,
            ),
            None => r matches Err(e) && e == ObjectError::MalformedObject,
        },
{
    match find_byte_from(data, 0, NUL) {
        None => {
            proof {
                lemma_find_ix_none(data@, NUL);
            }
            Err(ObjectError::MalformedObject)
        },
        Some(p) => {
            proof {
                lemma_find_ix_unique(data@, NUL, p as int);
            }
            let dlen = data.len();
            let head = slice_to_vec(slice_subrange(data, 0, p));
            let tail = slice_to_vec(slice_subrange(data, p + 1, dlen));
            Ok((head, tail))
        },
    }
}

/// Extract just the type tag (the bytes before the first space) from a raw
/// uncompressed stream, without decoding the rest.
pub fn obj_type(data: &[u8]) -> (r: Result<Vec<u8>, ObjectError>)
    ensures
        match find_ix(data@, SP) {
            Some(i) => r matches Ok(t) && t@ == data@.take(i),
            None => r matches Err(e) && e == ObjectError::MalformedObject,
        },
{
    match find_byte_from(data, 0, SP) {
        None => {
            proof {
                lemma_find_ix_none(data@, SP);
            }
            Err(ObjectError::MalformedObject)
        },
        Some(i) => {
            proof {
                lemma_find_ix_unique(data@, SP, i as int);
            }
            Ok(slice_to_vec(slice_subrange(data, 0, i)))
        },
    }
}

/// Structural facts about a stream `tag + ' ' + lenf + '\0' + payload` whose
/// tag holds no NUL or space and whose length field is all digits: where the
/// first NUL and the first space fall, and what the splits around them are.
proof fn lemma_header_facts(tag: Seq<u8>, lenf: Seq<u8>, payload: Seq<u8>)
    requires
        no_byte(tag, NUL),
        no_byte(tag, SP),
        all_digits(lenf),
    ensures
        ({
            let s = tag + seq![SP] + lenf + seq![NUL] + payload;
            let p = tag.len() + 1 + lenf.len();
            &&& find_ix(s, NUL) == Some(p as int)
            &&& s.take(p as int) == tag + seq![SP] + lenf
            &&& s.skip(p + 1 as int) == payload
            &&& find_ix(tag + seq![SP] + lenf, SP) == Some(tag.len() as int)
            &&& (tag + seq![SP] + lenf).take(tag.len() as int) == tag
            &&& (tag + seq![SP] + lenf).skip(tag.len() + 1 as int) == lenf
        }),
{
    let s = tag + seq![SP] + lenf + seq![NUL] + payload;
    let header = tag + seq![SP] + lenf;
    let p = tag.len() + 1 + lenf.len();
    assert forall|i: int| 0 <= i < header.len() implies header[i] != NUL by {
        if i < tag.len() {
            assert(tag[i] != NUL);
        } else if i > tag.len() {
            assert(is_digit(lenf[i - tag.len() - 1]));
        }
    }
    assert(s =~= header + seq![NUL] + payload);
    lemma_find_ix_concat(header, payload, NUL);
    assert(s.take(p as int) =~= header);
    assert(s.skip(p + 1 as int) =~= payload);
    assert(header =~= tag + seq![SP] + lenf);
    lemma_find_ix_concat(tag, lenf, SP);
    assert(header.take(tag.len() as int) =~= tag);
    assert(header.skip(tag.len() + 1 as int) =~= lenf);
}

/// Decoding the encoding of one well-formed entry gives the entry back.
pub proof fn lemma_entry_round_trip(e: TreeEntryV)
    requires
        wf_entry(e),
    ensures
        parse_entry(entry_bytes(e)) == Ok::<TreeEntryV, ErrorV>(e),
{
    let s = entry_bytes(e);
    let m = e.mode.len() as int;
    let n = e.name.len() as int;
    assert(s =~= e.mode + seq![SP] + (e.name + seq![NUL] + e.hash));
    lemma_find_ix_concat(e.mode, e.name + seq![NUL] + e.hash, SP);
    assert(s.len() == m + n + 22);
    assert(s.take(m) =~= e.mode);
    assert(s.subrange(m + 1, s.len() - 21) =~= e.name);
    assert(s.skip(s.len() - 20) =~= e.hash);
    assert(parse_entry(s)->Ok_0 =~= e);
}

/// Decoding the encoding of a run of well-formed entries gives the run back.
pub proof fn lemma_entries_round_trip(es: Seq<TreeEntryV>)
    requires
        forall|i: int| 0 <= i < es.len() ==> wf_entry(#[trigger] es[i]),
    ensures
        parse_entries(entries_bytes(es)) == Ok::<Seq<TreeEntryV>, ErrorV>(es),
    decreases es.len(),
{
    if es.len() == 0 {
        assert(entries_bytes(es) =~= Seq::<u8>::empty());
        assert(parse_entries(entries_bytes(es))->Ok_0 =~= es);
    } else {
        let e0 = es[0];
        let rest = es.drop_first();
        let s = entries_bytes(es);
        let head = e0.mode + seq![SP] + e0.name;
        let m = e0.mode.len() as int;
        let n = e0.name.len() as int;
        assert(s == entry_bytes(e0) + entries_bytes(rest));
        assert(s =~= head + seq![NUL] + (e0.hash + entries_bytes(rest)));
        assert forall|i: int| 0 <= i < head.len() implies head[i] != NUL by {
            if i < m {
                assert(e0.mode[i] != NUL);
            } else if i > m {
                assert(e0.name[i - m - 1] != NUL);
            }
        }
        lemma_find_ix_concat(head, e0.hash + entries_bytes(rest), NUL);
        let p = m + 1 + n;
        assert(find_ix(s, NUL) == Some(p));
        assert(p + 21 == entry_bytes(e0).len());
        assert(s.len() >= p + 21);
        assert(s.take(p + 21) =~= entry_bytes(e0));
        lemma_entry_round_trip(e0);
        assert(s.skip(p + 21) =~= entries_bytes(rest));
        lemma_entries_round_trip(rest);
        assert(seq![e0] + rest =~= es);
    }
}

/// Round trip: decoding the canonical encoding of any well-formed object
/// gives the object back.
pub proof fn lemma_codec_round_trip(o: ObjectV)
    requires
        wf_object(o),
    ensures
        parse_obj(obj_bytes(o)) == Ok::<ObjectV, ErrorV>(o),
{
    match o {
        ObjectV::Blob(c) => {
            lemma_dec_of_props(c.len());
            lemma_header_facts(blob_tag(), dec_of(c.len()), c);
            assert(obj_bytes(o) =~= blob_tag() + seq![SP] + dec_of(c.len()) + seq![NUL] + c);
        },
        ObjectV::Tree(es) => {
            let body = entries_bytes(es);
            lemma_dec_of_props(body.len());
            lemma_header_facts(tree_tag(), dec_of(body.len()), body);
            assert(obj_bytes(o) =~= tree_tag() + seq![SP] + dec_of(body.len()) + seq![NUL] + body);
            assert(tree_tag() != blob_tag()) by {
                assert(tree_tag()[0] == 116 && blob_tag()[0] == 98);
            }
            lemma_entries_round_trip(es);
        },
    }
}

/// Length integrity: whatever digits stand in the length field, if their
/// value is not the actual payload length, decoding fails with
/// `LengthMismatch` — before the tag is even looked at.
pub proof fn lemma_length_integrity(tag: Seq<u8>, lenf: Seq<u8>, payload: Seq<u8>)
    requires
        no_byte(tag, NUL),
        no_byte(tag, SP),
        lenf.len() > 0,
        all_digits(lenf),
        digits_val(lenf) != payload.len(),
    ensures
        parse_obj(tag + seq![SP] + lenf + seq![NUL] + payload) == Err::<ObjectV, ErrorV>(
            ErrorV::LengthMismatch,
        ),
{
    lemma_header_facts(tag, lenf, payload);
}

/// Unknown type: a correctly framed stream whose tag is neither `"blob"` nor
/// `"tree"` fails to decode with `UnknownObjectType`, carrying that tag.
pub proof fn lemma_unknown_type(tag: Seq<u8>, payload: Seq<u8>)
    requires
        no_byte(tag, NUL),
        no_byte(tag, SP),
        tag != blob_tag(),
        tag != tree_tag(),
    ensures
        parse_obj(tag + seq![SP] + dec_of(payload.len()) + seq![NUL] + payload) == Err::<
            ObjectV,
            ErrorV,
        >(ErrorV::UnknownObjectType(tag)),
{
    lemma_dec_of_props(payload.len());
    lemma_header_facts(tag, dec_of(payload.len()), payload);
}

/// Appending one entry to a run appends its record bytes.
pub proof fn lemma_entries_bytes_snoc(es: Seq<TreeEntryV>, e: TreeEntryV)
    ensures
        entries_bytes(es.push(e)) == entries_bytes(es) + entry_bytes(e),
    decreases es.len(),
{
    let l = es.push(e);
    if es.len() == 0 {
        assert(l[0] == e);
        assert(l.drop_first() =~= Seq::<TreeEntryV>::empty());
        assert(entries_bytes(l) == entry_bytes(e) + entries_bytes(Seq::<TreeEntryV>::empty()));
        assert(entries_bytes(l) =~= entries_bytes(es) + entry_bytes(e));
    } else {
        assert(l[0] == es[0]);
        assert(l.drop_first() =~= es.drop_first().push(e));
        lemma_entries_bytes_snoc(es.drop_first(), e);
        assert(entries_bytes(l) == entry_bytes(es[0]) + entries_bytes(es.drop_first().push(e)));
        assert(entries_bytes(es) == entry_bytes(es[0]) + entries_bytes(es.drop_first()));
        assert(entries_bytes(l) =~= entries_bytes(es) + entry_bytes(e));
    }
}

} // verus!
