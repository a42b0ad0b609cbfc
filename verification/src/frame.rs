use vstd::prelude::*;
use vstd::utf8::{decode_utf8, encode_utf8, is_ascii_chars, valid_utf8};
use vstd::utf8::{encode_utf8_decode_utf8, encode_utf8_valid_utf8, is_ascii_chars_encode_utf8};
use crate::digits::{all_digits, decimal, decimal_value, is_digit, lemma_decimal_round_trip};
use crate::digits::{parse_decimal, push_decimal};
use crate::error::StoreError;
use crate::hash::{is_id_text, sha1_hash, spec_sha1_hash};
use crate::scan::{copy_range, find_byte, lemma_find_byte_is, scan_to};

verus! {

/// The framed encoding of an object: the kind, one space, the payload's
/// length in decimal, one NUL byte, then the payload as it is.
pub open spec fn frame(kind: Seq<char>, payload: Seq<u8>) -> Seq<u8> {
    encode_utf8(kind) + seq![0x20u8] + decimal(payload.len()) + seq![0u8] + payload
}

/// The id of an object: the hash of its framed encoding, as text.
pub open spec fn object_id(kind: Seq<char>, payload: Seq<u8>) -> Seq<char> {
    spec_sha1_hash(frame(kind, payload))
}

/// Frames `content` as an object of kind `obj_type` and hashes the frame.
/// Returns the id and the frame.
pub fn gen_objects(obj_type: String, content: &Vec<u8>) -> (r: (String, Vec<u8>))
    ensures
        r.1@ == frame(obj_type@, content@),
        r.0@ == object_id(obj_type@, content@),
        is_id_text(r.0@),
{
    let mut buffer: Vec<u8> = Vec::new();
    buffer.extend_from_slice(obj_type.as_str().as_bytes());
    buffer.push(0x20u8);
    push_decimal(&mut buffer, content.len());
    buffer.push(0u8);
    buffer.extend_from_slice(content.as_slice());
    assert(buffer@ =~= frame(obj_type@, content@));
    let hash = sha1_hash(&buffer);
    (hash, buffer)
}

/// Where the header of `framed` ends: the index of its first NUL byte.
pub open spec fn header_end(framed: Seq<u8>) -> int {
    find_byte(framed, 0u8, 0)
}

/// Where the kind ends: the index of the first space.
pub open spec fn kind_end(framed: Seq<u8>) -> int {
    find_byte(framed, 0x20u8, 0)
}

/// The digits of the declared length: what stands between the first space
/// and the first NUL.
pub open spec fn length_digits(framed: Seq<u8>) -> Seq<u8> {
    framed.subrange(kind_end(framed) + 1, header_end(framed))
}

/// Whether `framed` is a header of the form `<word> <digits>`, a NUL byte, and
/// as many bytes after it as the digits declare. The word is a non-empty
/// UTF-8 text.
pub open spec fn well_framed(framed: Seq<u8>) -> bool {
    &&& header_end(framed) < framed.len()
    &&& 0 < kind_end(framed) < header_end(framed)
    &&& valid_utf8(framed.subrange(0, kind_end(framed)))
    &&& length_digits(framed).len() >= 1
    &&& all_digits(length_digits(framed))
    &&& decimal_value(length_digits(framed)) == framed.len() - header_end(framed) - 1
}

/// The kind that a well-framed object's header names.
pub open spec fn framed_kind(framed: Seq<u8>) -> Seq<char> {
    decode_utf8(framed.subrange(0, kind_end(framed)))
}

/// The payload of a well-framed object: all that follows the first NUL.
pub open spec fn framed_payload(framed: Seq<u8>) -> Seq<u8> {
    framed.subrange(header_end(framed) + 1, framed.len() as int)
}

/// Calls `String::from_utf8`, which succeeds exactly on valid UTF-8 and then
/// returns a string of the same bytes.
#[verifier::external_body]
pub(crate) fn string_from_utf8(bytes: Vec<u8>) -> (r: Option<String>)
    ensures
        r is Some <==> valid_utf8(bytes@),
        r matches Some(text) ==> encode_utf8(text@) == bytes@,
{
    match String::from_utf8(bytes) {
        Ok(text) => Some(text),
        Err(_) => None,
    }
}

/// Splits a framed object's header into the kind, the declared length and
/// the index at which the payload starts. Fails with `CorruptObject` exactly
/// where `framed` is not well framed: no NUL, a header that is not
/// `<word> <digits>`, or a declared length that differs from the number of
/// bytes after the NUL.
pub fn parse_header(framed: &Vec<u8>) -> (r: Result<(String, usize, usize), StoreError>)
    ensures
        r is Ok <==> well_framed(framed@),
        r matches Ok((kind, declared, start)) ==> {
            &&& kind@ == framed_kind(framed@)
            &&& declared == framed@.len() - header_end(framed@) - 1
            &&& start == header_end(framed@) + 1
        },
        r matches Err(e) ==> e == StoreError::CorruptObject,
{
    let nul = scan_to(framed, 0, 0u8);
    if nul >= framed.len() {
        return Err(StoreError::CorruptObject);
    }
    let sp = scan_to(framed, 0, 0x20u8);
    if sp == 0 || sp >= nul {
        return Err(StoreError::CorruptObject);
    }
    let digits = copy_range(framed, sp + 1, nul);
    let declared = match parse_decimal(&digits) {
        Some(v) => v,
        None => {
            return Err(StoreError::CorruptObject);
        },
    };
    if declared != framed.len() - nul - 1 {
        return Err(StoreError::CorruptObject);
    }
    let word = copy_range(framed, 0, sp);
    match string_from_utf8(word) {
        Some(kind) => {
            proof {
                encode_utf8_decode_utf8(kind@);
            }
            Ok((kind, declared, nul + 1))
        },
        None => Err(StoreError::CorruptObject),
    }
}

/// Whether `kind` can name a kind of object: a non-empty ASCII text without
/// a space or a NUL.
pub open spec fn is_kind_word(kind: Seq<char>) -> bool {
    &&& kind.len() >= 1
    &&& is_ascii_chars(kind)
    &&& forall|i: int| 0 <= i < kind.len() ==> #[trigger] kind[i] != ' ' && kind[i] != '\0'
}

/// A frame parses back into what it was made from: for every kind that is a
/// word and every payload, the frame is well framed, names that kind and
/// holds that payload.
pub proof fn lemma_frame_parses(kind: Seq<char>, payload: Seq<u8>)
    requires
        is_kind_word(kind),
    ensures
        well_framed(frame(kind, payload)),
        framed_kind(frame(kind, payload)) == kind,
        framed_payload(frame(kind, payload)) == payload,
{
    let framed = frame(kind, payload);
    let word = encode_utf8(kind);
    let digits = decimal(payload.len());
    is_ascii_chars_encode_utf8(kind);
    encode_utf8_valid_utf8(kind);
    encode_utf8_decode_utf8(kind);
    lemma_decimal_round_trip(payload.len());
    let sp = word.len() as int;
    let nul = sp + 1 + digits.len();
    assert forall|j: int| 0 <= j < sp implies framed[j] != 0x20u8 && framed[j] != 0u8 by {
        assert(framed[j] == word[j]);
        assert(word[j] == kind[j] as u8);
        assert('\0' <= kind[j] <= '\u{7f}');
    }
    assert(framed[sp] == 0x20u8);
    assert forall|j: int| sp < j < nul implies framed[j] != 0u8 by {
        assert(framed[j] == digits[j - sp - 1]);
        assert(is_digit(digits[j - sp - 1]));
    }
    assert(framed[nul] == 0u8);
    lemma_find_byte_is(framed, 0x20u8, 0, sp);
    lemma_find_byte_is(framed, 0u8, 0, nul);
    assert(framed.subrange(0, sp) =~= word);
    assert(framed.subrange(sp + 1, nul) =~= digits);
    assert(framed.subrange(nul + 1, framed.len() as int) =~= payload);
}

} // verus!
