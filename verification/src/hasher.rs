//! The content hasher: SHA-256 of the canonical bytes, in lowercase hexadecimal.

use sha2::{Digest, Sha256};
use vstd::prelude::*;
use crate::serializer::{serialize_frame, serialized, SerializationError};
use crate::table::{row_fits, TypedTable};

verus! {

/// The SHA-256 digest of a byte sequence, as the `sha2` crate computes it.
pub uninterp spec fn sha256_digest(bytes: Seq<u8>) -> Seq<u8>;

/// The lowercase hexadecimal digit for a number below sixteen.
pub open spec fn hex_digit(n: int) -> char {
    if n < 10 {
        ((48 + n) as u8) as char
    } else {
        ((87 + n) as u8) as char
    }
}

/// Two lowercase hexadecimal digits for each byte, the high half first.
pub open spec fn hex_lower(data: Seq<u8>) -> Seq<char> {
    Seq::new(
        2 * data.len(),
        |i: int|
            hex_digit(
                if i % 2 == 0 {
                    data[i / 2] as int / 16
                } else {
                    data[i / 2] as int % 16
                },
            ),
    )
}

/// The fingerprint of a byte sequence: its SHA-256 digest in lowercase hexadecimal.
pub open spec fn fingerprint(bytes: Seq<u8>) -> Seq<char> {
    hex_lower(sha256_digest(bytes))
}

/// Calls `sha2::Sha256::digest`, which feeds the bytes to a fresh hasher in one pass
/// and finishes it. Trusted: the result is the SHA-256 digest of the bytes, a
/// function of them alone, and has 32 bytes.
#[verifier::external_body]
fn sha256(bytes: &[u8]) -> (digest: Vec<u8>)
    ensures
        digest@ == sha256_digest(bytes@),
        digest@.len() == 32,
{
    Sha256::digest(bytes).to_vec()
}

/// Calls `hex::encode`. Trusted: each byte of the data becomes two lowercase
/// hexadecimal digits, the high half first, in the order of the data.
#[verifier::external_body]
fn hex_encode(data: &[u8]) -> (text: String)
    ensures
        text@ == hex_lower(data@),
{
    hex::encode(data)
}

/// Writes a digest in lowercase hexadecimal.
pub fn digest_text(digest: &[u8]) -> (text: String)
    ensures
        text@ == hex_lower(digest@),
        text@.len() == 2 * digest@.len(),
{
    hex_encode(digest)
}

/// Hashes a byte sequence: 64 lowercase hexadecimal digits, which depend on the
/// bytes alone.
pub fn hash_bytes(bytes: &[u8]) -> (text: String)
    ensures
        text@ == fingerprint(bytes@),
        text@.len() == 64,
{
    let digest = sha256(bytes);
    digest_text(digest.as_slice())
}

/// Computes the fingerprint of a table from its rows in the order given: the hash
/// of its canonical bytes.
///
/// Fails as `serialize_frame` does, on a table that is not well formed.
pub fn compute_frame_hash(table: &TypedTable) -> (result: Result<String, SerializationError>)
    ensures
        match result {
            Ok(text) => {
                &&& table@.well_formed()
                &&& text@ == fingerprint(serialized(table@))
                &&& text@.len() == 64
            },
            Err(e) => {
                &&& e.row < table@.rows.len()
                &&& !row_fits(table@.rows[e.row as int], table@.schema)
                &&& forall|i: int| 0 <= i < e.row ==> row_fits(#[trigger] table@.rows[i], table@.schema)
            },
        },
{
    match serialize_frame(table) {
        Ok(bytes) => Ok(hash_bytes(bytes.as_slice())),
        Err(e) => Err(e),
    }
}

} // verus!
