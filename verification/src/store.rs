//! Content addressing and compressed persistence, minus the filesystem: the
//! SHA-1 identifier of a serialized object, the hex rendering and the
//! two-level path split of an identifier, and the zlib compression of the
//! stored stream. Opening, creating and writing the files is the caller's
//! part; everything computed on the way there lives here.

use vstd::prelude::*;

use crate::codec::ObjectError;
use flate2::read::ZlibDecoder;
use flate2::write::ZlibEncoder;
use flate2::Compression;
use sha1::{Digest, Sha1};
use std::io::{Read, Write};

verus! {

/// The 20-byte SHA-1 digest of a byte stream; a function of the bytes alone.
pub uninterp spec fn sha1_of(s: Seq<u8>) -> Seq<u8>;

/// The zlib stream that compressing a byte stream at the default level
/// yields; a function of the bytes alone.
pub uninterp spec fn zlib_of(s: Seq<u8>) -> Seq<u8>;

/// The lowercase hex digit for a value below sixteen.
pub open spec fn hex_digit(n: u8) -> char {
    if n < 10 {
        ((48 + n) as u8) as char
    } else {
        ((87 + n) as u8) as char
    }
}

/// Lowercase hex rendering of a byte string, two digits per byte.
pub open spec fn hex_of(s: Seq<u8>) -> Seq<char>
    decreases s.len(),
{
    if s.len() == 0 {
        Seq::empty()
    } else {
        hex_of(s.drop_last()) + seq![hex_digit(s.last() / 16), hex_digit(s.last() % 16)]
    }
}

/// The hex rendering has two digits per byte.
pub proof fn lemma_hex_of_len(s: Seq<u8>)
    ensures
        hex_of(s).len() == 2 * s.len(),
    decreases s.len(),
{
    if s.len() > 0 {
        lemma_hex_of_len(s.drop_last());
    }
}

/// An object's identifier: the lowercase hex rendering of the SHA-1 digest
/// of its canonical serialization.
pub open spec fn id_of(s: Seq<u8>) -> Seq<char> {
    hex_of(sha1_of(s))
}

/// ASCII uppercase letters folded to lowercase; everything else unchanged.
pub open spec fn to_lower(b: u8) -> u8 {
    if 65 <= b <= 90 {
        (b + 32) as u8
    } else {
        b
    }
}

/// Relies on `sha1::Sha1` (through `digest::Digest::digest`): the digest is
/// 20 bytes and depends on the input bytes alone.
#[verifier::external_body]
fn sha1_digest(data: &[u8]) -> (r: Vec<u8>)
    ensures
        r@ == sha1_of(data@),
        r@.len() == 20,
{
    Sha1::digest(data).to_vec()
}

/// Relies on `hex::encode`: two lowercase hex digits for each input byte, in
/// order.
#[verifier::external_body]
fn hex_encode(data: &[u8]) -> (r: String)
    ensures
        r@ == hex_of(data@),
{
    hex::encode(data)
}

/// Relies on `flate2::write::ZlibEncoder` at the default compression level:
/// the output stream depends on the input bytes alone. Writing into a `Vec`
/// sink cannot fail, so the unwraps cannot fire.
#[verifier::external_body]
fn zlib_compress(data: &[u8]) -> (r: Vec<u8>)
    ensures
        r@ == zlib_of(data@),
{
    let mut encoder = ZlibEncoder::new(Vec::new(), Compression::default());
    encoder.write_all(data).expect("writing to a Vec cannot fail");
    encoder.finish().expect("writing to a Vec cannot fail")
}

/// Relies on `flate2::read::ZlibDecoder`: decompression inverts compression,
/// so on the exact output of `zlib_compress` it succeeds and returns the
/// original bytes; on corrupt input it reports an error, mapped to `None`.
#[verifier::external_body]
fn zlib_decompress(data: &[u8]) -> (r: Option<Vec<u8>>)
    ensures
        match r {
            Some(v) => forall|s: Seq<u8>| data@ == #[trigger] zlib_of(s) ==> v@ == s,
            None => forall|s: Seq<u8>| data@ != #[trigger] zlib_of(s),
        },
{
    let mut decoder = ZlibDecoder::new(data);
    let mut out = Vec::new();
    match decoder.read_to_end(&mut out) {
        Ok(_) => Some(out),
        Err(_) => None,
    }
}

/// The 40-character lowercase hex identifier under which a serialized byte
/// stream is stored: its content address.
pub fn object_id(data: &[u8]) -> (r: String)
    ensures
        r@ == id_of(data@),
        r@.len() == 40,
{
    let digest = sha1_digest(data);
    let id = hex_encode(digest.as_slice());
    proof {
        lemma_hex_of_len(digest@);
    }
    id
}

/// Everything the write path computes from a serialized byte stream: its
/// identifier and the compressed stream to be persisted under the derived
/// path.
pub fn store_record(data: &[u8]) -> (r: (String, Vec<u8>))
    ensures
        r.0@ == id_of(data@),
        r.0@.len() == 40,
        r.1@ == zlib_of(data@),
{
    let id = object_id(data);
    let compressed = zlib_compress(data);
    (id, compressed)
}

/// Lowercase hex rendering of raw bytes, as identifiers are shown.
pub fn to_hex(data: &[u8]) -> (r: String)
    ensures
        r@ == hex_of(data@),
{
    hex_encode(data)
}

/// Recover the uncompressed serialized stream from a stored object file's
/// contents; a corrupt or truncated stream fails with `StoreIoError`. On the
/// exact output of the write path's compression, this returns the original
/// bytes.
pub fn decompress_object(data: &[u8]) -> (r: Result<Vec<u8>, ObjectError>)
    ensures
        forall|s: Seq<u8>| data@ == #[trigger] zlib_of(s) ==> (r matches Ok(v) && v@ == s),
        r matches Err(e) ==> e == ObjectError::StoreIoError,
{
    match zlib_decompress(data) {
        Some(v) => Ok(v),
        None => Err(ObjectError::StoreIoError),
    }
}

/// Derive the two-level storage path of an identifier: the first two hex
/// characters name the directory, the remaining thirty-eight the file, both
/// folded to lowercase. An identifier that is not 40 characters long can
/// name no stored object and fails with `ObjectNotFound`.
pub fn object_path(id: &[u8]) -> (r: Result<(Vec<u8>, Vec<u8>), ObjectError>)
    ensures
        id@.len() == 40 ==> (r matches Ok(parts) && parts.0@ == id@.map_values(
            |b: u8| to_lower(b),
        ).take(2) && parts.1@ == id@.map_values(|b: u8| to_lower(b)).skip(2)),
        id@.len() != 40 ==> (r matches Err(e) && e == ObjectError::ObjectNotFound),
{
    if id.len() != 40 {
        return Err(ObjectError::ObjectNotFound);
    }
    let ghost low = id@.map_values(|b: u8| to_lower(b));
    let mut dir: Vec<u8> = Vec::new();
    let mut file: Vec<u8> = Vec::new();
    let mut i: usize = 0;
    while i < 40
        invariant
            i <= 40,
            id@.len() == 40,
            low == id@.map_values(|b: u8| to_lower(b)),
            dir@ == low.take(if i < 2 {
                i as int
            } else {
                2
            }),
            file@ == if i < 2 {
                Seq::<u8>::empty()
            } else {
                low.subrange(2, i as int)
            },
        decreases 40 - i,
    {
        let b = *vstd::slice::slice_index_get(id, i);
        let lowered = if 65 <= b && b <= 90 {
            b + 32
        } else {
            b
        };
        if i < 2 {
            dir.push(lowered);
            proof {
                assert(dir@ =~= low.take(if i + 1 < 2 {
                    i + 1
                } else {
                    2
                }));
            }
        } else {
            file.push(lowered);
            proof {
                assert(file@ =~= low.subrange(2, i + 1));
            }
        }
        i = i + 1;
    }
    proof {
        assert(file@ =~= low.skip(2));
    }
    Ok((dir, file))
}

/// Content addressing is deterministic: identical byte streams have the same
/// identifier and compress to the same stored bytes.
pub proof fn lemma_write_deterministic(a: Seq<u8>, b: Seq<u8>)
    requires
        a == b,
    ensures
        id_of(a) == id_of(b),
        zlib_of(a) == zlib_of(b),
{
}

} // verus!
