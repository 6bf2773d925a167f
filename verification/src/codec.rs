//! Digests and text encodings used for torrent metadata: SHA-1 (through the
//! `sha1` crate), lowercase hex (through `hex`), standard padded Base64
//! (through `base64`) and URL percent-encoding (through `urlencoding`).
use vstd::prelude::*;
use base64::Engine;
use sha1::Digest;

verus! {

/// The SHA-1 digest of `data`.
pub uninterp spec fn sha1_digest(data: Seq<u8>) -> Seq<u8>;

/// Calls `sha1::Sha1::digest`. Its result is the SHA-1 digest of the input,
/// a 20-byte array; the digest itself is only named here.
#[verifier::external_body]
pub(crate) fn sha1(data: &[u8]) -> (r: Vec<u8>)
    ensures
        r@ == sha1_digest(data@),
        r@.len() == 20,
{
    sha1::Sha1::digest(data).to_vec()
}

pub open spec fn lower_hex_digit(v: int) -> char {
    "0123456789abcdef"@[v]
}

pub open spec fn upper_hex_digit(v: int) -> char {
    "0123456789ABCDEF"@[v]
}

/// Two lowercase hex digits per byte, high nibble first.
pub open spec fn hex_lower(b: Seq<u8>) -> Seq<char>
    decreases b.len(),
{
    if b.len() == 0 {
        Seq::empty()
    } else {
        seq![lower_hex_digit((b[0] as int) / 16), lower_hex_digit((b[0] as int) % 16)] + hex_lower(b.drop_first())
    }
}

/// Calls `hex::encode`, which writes each byte as two lowercase hex digits.
#[verifier::external_body]
pub(crate) fn hex_encode(data: &[u8]) -> (r: String)
    ensures
        r@ == hex_lower(data@),
{
    hex::encode(data)
}

/// Bytes that `urlencoding` leaves as they are: ASCII letters and digits,
/// `-`, `.`, `_` and `~`.
pub open spec fn url_safe(b: u8) -> bool {
    ||| (0x30 <= b && b <= 0x39)
    ||| (0x41 <= b && b <= 0x5a)
    ||| (0x61 <= b && b <= 0x7a)
    ||| b == 0x2d
    ||| b == 0x2e
    ||| b == 0x5f
    ||| b == 0x7e
}

/// Percent-encoding of a byte string: safe bytes as themselves, every
/// other byte as `%` and two uppercase hex digits.
pub open spec fn url_encoded(b: Seq<u8>) -> Seq<char>
    decreases b.len(),
{
    if b.len() == 0 {
        Seq::empty()
    } else {
        (if url_safe(b[0]) {
            seq![b[0] as char]
        } else {
            seq!['%', upper_hex_digit((b[0] as int) / 16), upper_hex_digit((b[0] as int) % 16)]
        }) + url_encoded(b.drop_first())
    }
}

/// Calls `urlencoding::encode`, which percent-encodes every byte of the
/// UTF-8 text except ASCII alphanumerics and `-`, `_`, `.`, `~` (hex digits
/// in upper case).
#[verifier::external_body]
pub(crate) fn url_encode(s: &str) -> (r: String)
    ensures
        r@ == url_encoded(vstd::utf8::encode_utf8(s@)),
{
    urlencoding::encode(s).into_owned()
}

pub open spec fn base64_digit(v: int) -> char {
    "ABCDEFGHIJKLMNOPQRSTUVWXYZabcdefghijklmnopqrstuvwxyz0123456789+/"@[v]
}

/// Standard Base64 with `=` padding.
pub open spec fn base64_text(b: Seq<u8>) -> Seq<char>
    decreases b.len(),
{
    if b.len() == 0 {
        Seq::empty()
    } else if b.len() == 1 {
        seq![base64_digit((b[0] as int) / 4), base64_digit(((b[0] as int) % 4) * 16), '=', '=']
    } else if b.len() == 2 {
        seq![
            base64_digit((b[0] as int) / 4),
            base64_digit(((b[0] as int) % 4) * 16 + (b[1] as int) / 16),
            base64_digit(((b[1] as int) % 16) * 4),
            '=',
        ]
    } else {
        seq![
            base64_digit((b[0] as int) / 4),
            base64_digit(((b[0] as int) % 4) * 16 + (b[1] as int) / 16),
            base64_digit(((b[1] as int) % 16) * 4 + (b[2] as int) / 64),
            base64_digit((b[2] as int) % 64),
        ] + base64_text(b.skip(3))
    }
}

/// What the standard Base64 engine decodes a text to, or `None` when it
/// rejects the text.
pub uninterp spec fn base64_decoded(text: Seq<char>) -> Option<Seq<u8>>;

/// Calls `base64::engine::general_purpose::STANDARD.encode`: standard
/// alphabet with padding. Decoding what it wrote gives the input back.
#[verifier::external_body]
pub(crate) fn base64_encode(data: &[u8]) -> (r: String)
    ensures
        r@ == base64_text(data@),
        base64_decoded(r@) == Some(data@),
{
    base64::engine::general_purpose::STANDARD.encode(data)
}

#[verifier::external_type_specification]
#[verifier::external_body]
pub struct ExDecodeError(base64::DecodeError);

/// Calls `base64::engine::general_purpose::STANDARD.decode` on the bytes of
/// `text`: the decoded bytes, or the engine's error.
#[verifier::external_body]
pub(crate) fn base64_decode(text: &str) -> (r: Result<Vec<u8>, base64::DecodeError>)
    ensures
        match r {
            Ok(v) => base64_decoded(text@) == Some(v@),
            Err(_) => base64_decoded(text@) is None,
        },
{
    base64::engine::general_purpose::STANDARD.decode(text.as_bytes())
}

/// The text of a `base64::DecodeError`, as its `Display` writes it; its
/// wording is not stated.
#[verifier::external_body]
pub(crate) fn decode_error_text(e: &base64::DecodeError) -> (r: String) {
    format!("{e}")
}

/// Hex text has two digits per byte.
pub proof fn lemma_hex_len(b: Seq<u8>)
    ensures
        hex_lower(b).len() == 2 * b.len(),
    decreases b.len(),
{
    if b.len() > 0 {
        lemma_hex_len(b.drop_first());
    }
}

} // verus!
