//! SHA-256 digests and hexadecimal text.

use crate::text::Str;
use sha2::Digest;
use vstd::prelude::*;
use vstd::string::StringSliceAdditionalSpecFns;
use vstd::utf8::{
    decode_utf8, encode_utf8, is_ascii_chars, is_ascii_chars_encode_utf8, is_char_boundary,
};

verus! {

// ---------------------------------------------------------------------------
// SHA-256
// ---------------------------------------------------------------------------
/// The SHA-256 digest of a sequence of bytes.
pub uninterp spec fn sha256_of(bytes: Seq<u8>) -> Seq<u8>;

/// `sha2::Sha256::digest`: the digest is a function of the bytes alone and 32 bytes long. Which
/// bytes these are is not stated.
#[verifier::external_body]
pub(crate) fn sha256(bytes: &[u8]) -> (r: Vec<u8>)
    ensures
        r@ == sha256_of(bytes@),
        r@.len() == 32,
{
    sha2::Sha256::digest(bytes).to_vec()
}

// ---------------------------------------------------------------------------
// Hexadecimal text
// ---------------------------------------------------------------------------
/// The lower-case hexadecimal digit of `d`.
pub open spec fn hex_digit(d: int) -> char {
    if d < 10 {
        (48 + d) as char
    } else {
        (87 + d) as char
    }
}

/// Bytes as hexadecimal text: two lower-case digits for each, the high one first.
pub open spec fn hex_text(bytes: Seq<u8>) -> Str {
    Seq::new(
        2 * bytes.len(),
        |i: int|
            if i % 2 == 0 {
                hex_digit(bytes[i / 2] as int / 16)
            } else {
                hex_digit(bytes[i / 2] as int % 16)
            },
    )
}

/// What a hexadecimal digit, in either case, stands for.
pub open spec fn hex_value(c: u8) -> Option<int> {
    if 48 <= c <= 57 {
        Some(c - 48)
    } else if 97 <= c <= 102 {
        Some(c - 87)
    } else if 65 <= c <= 70 {
        Some(c - 55)
    } else {
        None
    }
}

/// Whether text is hexadecimal: an even number of digits and nothing else.
pub open spec fn is_hex(text: Seq<u8>) -> bool {
    text.len() % 2 == 0 && forall|i: int|
        0 <= i < text.len() ==> hex_value(#[trigger] text[i]) is Some
}

/// The bytes that hexadecimal text stands for.
pub open spec fn hex_bytes(text: Seq<u8>) -> Seq<u8> {
    Seq::new(
        text.len() / 2,
        |i: int|
            (16 * hex_value(text[2 * i])->Some_0 + hex_value(text[2 * i + 1])->Some_0) as u8,
    )
}

/// How `hex::decode` puts what is wrong with text that is not hexadecimal.
pub uninterp spec fn hex_fault(text: Seq<u8>) -> Seq<char>;

/// `hex::encode`: two lower-case hexadecimal digits for each byte.
#[verifier::external_body]
pub(crate) fn hex_encode(bytes: &[u8]) -> (r: String)
    ensures
        r@ == hex_text(bytes@),
{
    hex::encode(bytes)
}

/// `hex::decode`, on the bytes of a text: the bytes that the text stands for where it has an even
/// number of hexadecimal digits, in either case, and nothing else. Otherwise the error as text,
/// whose wording depends on the text alone and is not stated further.
#[verifier::external_body]
pub(crate) fn hex_decode(text: &[u8]) -> (r: Result<Vec<u8>, String>)
    ensures
        match r {
            Ok(v) => is_hex(text@) && v@ == hex_bytes(text@),
            Err(m) => !is_hex(text@) && m@ == hex_fault(text@),
        },
{
    hex::decode(text).map_err(|e| e.to_string())
}

/// Hexadecimal text stands for the bytes that it was written for.
pub proof fn hex_text_can_be_read_back(bytes: Seq<u8>)
    ensures
        is_hex(encode_utf8(hex_text(bytes))),
        hex_bytes(encode_utf8(hex_text(bytes))) == bytes,
        is_ascii_chars(hex_text(bytes)),
{
    let t = hex_text(bytes);
    assert forall|i: int| 0 <= i < t.len() implies 48 <= #[trigger] t[i] as int && (t[i] as int)
        < 128 by {
        let b = bytes[i / 2] as int;
        assert(0 <= b / 16 < 16);
        assert(0 <= b % 16 < 16);
    }
    assert(is_ascii_chars(t));
    is_ascii_chars_encode_utf8(t);
    let e = encode_utf8(t);
    assert forall|i: int| 0 <= i < bytes.len() implies hex_value(e[2 * i]) == Some(
        bytes[i] as int / 16,
    ) && hex_value(e[2 * i + 1]) == Some(bytes[i] as int % 16) by {
        let b = bytes[i] as int;
        assert(t[2 * i] == hex_digit(b / 16));
        assert(t[2 * i + 1] == hex_digit(b % 16));
        assert(e[2 * i] == t[2 * i] as u8);
        assert(e[2 * i + 1] == t[2 * i + 1] as u8);
        assert(0 <= b / 16 < 16);
        assert(0 <= b % 16 < 16);
    }
    assert forall|i: int| 0 <= i < e.len() implies hex_value(#[trigger] e[i]) is Some by {
        assert(i == 2 * (i / 2) || i == 2 * (i / 2) + 1);
    }
    assert forall|i: int| 0 <= i < bytes.len() implies hex_bytes(e)[i] == bytes[i] by {
        let b = bytes[i] as int;
        assert(16 * (b / 16) + b % 16 == b);
    }
    assert(hex_bytes(e) =~= bytes);
}

// ---------------------------------------------------------------------------
// Digests as text
// ---------------------------------------------------------------------------
/// The digest of bytes as text.
pub open spec fn digest_text(bytes: Seq<u8>) -> Str {
    hex_text(sha256_of(bytes))
}

/// The SHA-256 digest of `bytes`, as lower-case hexadecimal text.
pub fn digest(bytes: &[u8]) -> (r: String)
    ensures
        r@ == digest_text(bytes@),
        r@.len() == 64,
        is_char_boundary(encode_utf8(r@), 12),
        short_text(r@) == r@.take(12),
{
    let d = sha256(bytes);
    proof {
        digests_can_be_shortened(bytes@, d@);
    }
    hex_encode(d.as_slice())
}

/// The digest of any bytes can be shortened, and is then its first twelve characters.
pub proof fn digests_can_be_shortened(bytes: Seq<u8>, d: Seq<u8>)
    requires
        d == sha256_of(bytes),
        d.len() == 32,
    ensures
        is_char_boundary(encode_utf8(digest_text(bytes)), 12),
        short_text(digest_text(bytes)) == digest_text(bytes).take(12),
{
    let t = digest_text(bytes);
    let head = t.take(12);
    hex_text_can_be_read_back(d);
    is_ascii_chars_encode_utf8(t);
    vstd::utf8::encode_utf8_valid_utf8(t);
    let e = encode_utf8(t);
    assert(e[12] == t[12] as u8);
    assert(t[12] as int <= 127);
    vstd::utf8::is_char_boundary_iff_not_is_continuation_byte(e, 12);
    assert(is_ascii_chars(head)) by {
        assert forall|i: int| 0 <= i < head.len() implies '\0' <= #[trigger] head[i]
            <= '\u{7f}' by {
            assert(head[i] == t[i]);
        }
    }
    is_ascii_chars_encode_utf8(head);
    assert(e.subrange(0, 12) =~= encode_utf8(head)) by {
        assert forall|i: int| 0 <= i < 12 implies e[i] == encode_utf8(head)[i] by {
            assert(e[i] == t[i] as u8);
            assert(encode_utf8(head)[i] == head[i] as u8);
        }
    }
    vstd::utf8::encode_utf8_decode_utf8(head);
}

/// The text of the first twelve bytes of `hash`.
pub open spec fn short_text(hash: Str) -> Str {
    decode_utf8(encode_utf8(hash).subrange(0, 12))
}

/// The first twelve bytes of `hash`; there must be that many, and they must end with a
/// character.
pub fn short_digest(hash: &str) -> (r: String)
    requires
        is_char_boundary(encode_utf8(hash@), 12),
    ensures
        r@ == short_text(hash@),
{
    let (head, _) = hash.split_at(12);
    proof {
        vstd::utf8::encode_utf8_decode_utf8(head@);
    }
    head.to_string()
}

} // verus!
