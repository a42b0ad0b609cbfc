use vstd::prelude::*;
use sha1::Digest;
use crate::hexcode::{hex_bytes, hex_decode, hex_encode, hex_text, is_hex_text, is_lower_hex};
use crate::hexcode::{lemma_hex_round_trip, lemma_hex_text_is_lower};
use crate::error::StoreError;

verus! {

/// The SHA-1 digest of a byte string.
pub uninterp spec fn sha1_digest(data: Seq<u8>) -> Seq<u8>;

/// Calls `Sha1::digest`, which hashes the whole input at once; the output
/// type of `Sha1` is an array of twenty bytes.
#[verifier::external_body]
pub(crate) fn sha1_raw(data: &Vec<u8>) -> (digest: Vec<u8>)
    ensures
        digest@ == sha1_digest(data@),
        digest@.len() == 20,
{
    sha1::Sha1::digest(data.as_slice()).to_vec()
}

/// The id of a byte string: its digest as text.
pub open spec fn spec_sha1_hash(data: Seq<u8>) -> Seq<char> {
    hex_text(sha1_digest(data))
}

/// Whether `id` has the form of an object id: forty lower-case hexadecimal
/// digits.
pub open spec fn is_id_text(id: Seq<char>) -> bool {
    id.len() == 40 && forall|i: int| 0 <= i < id.len() ==> is_lower_hex(#[trigger] id[i])
}

/// Whether `id` has the form of an object id.
pub fn is_object_id(id: &str) -> (r: bool)
    ensures
        r == is_id_text(id@),
{
    if id.unicode_len() != 40 {
        return false;
    }
    let mut i: usize = 0;
    while i < 40
        invariant
            i <= 40,
            id@.len() == 40,
            forall|j: int| 0 <= j < i ==> is_lower_hex(#[trigger] id@[j]),
        decreases 40 - i,
    {
        let c = id.get_char(i);
        if !(('0' <= c && c <= '9') || ('a' <= c && c <= 'f')) {
            return false;
        }
        i += 1;
    }
    true
}

/// Hashes `buffer` and returns the digest as forty lower-case hexadecimal
/// digits.
pub fn sha1_hash(buffer: &Vec<u8>) -> (hash: String)
    ensures
        hash@ == spec_sha1_hash(buffer@),
        is_id_text(hash@),
{
    let digest = sha1_raw(buffer);
    proof {
        lemma_hex_text_is_lower(digest@);
    }
    hex_encode(&digest)
}

/// Reads an id back into the raw bytes that it stands for. Fails with
/// `CorruptObject` exactly where `id` is not an even number of hexadecimal
/// digits.
pub fn id_bytes(id: &str) -> (r: Result<Vec<u8>, StoreError>)
    ensures
        r is Ok <==> is_hex_text(id@),
        r matches Ok(bytes) ==> bytes@ == hex_bytes(id@),
        r matches Err(e) ==> e == StoreError::CorruptObject,
{
    match hex_decode(id) {
        Ok(bytes) => Ok(bytes),
        Err(_) => Err(StoreError::CorruptObject),
    }
}

/// The text of a digest reads back as the digest itself.
pub proof fn lemma_hash_reads_back(data: Seq<u8>)
    ensures
        is_hex_text(spec_sha1_hash(data)),
        hex_bytes(spec_sha1_hash(data)) == sha1_digest(data),
{
    lemma_hex_round_trip(sha1_digest(data));
}

} // verus!
