//! The encoders: diagnostic notation, annotated hex and binary.

use vstd::prelude::*;
use crate::text::hex_text;

pub mod bytes;
pub mod diag;
pub mod escape;
pub mod hex;

verus! {

/// The base in which diagnostic notation shows a byte string.
#[derive(Clone, Copy, Debug, PartialEq, Eq, Structural)]
pub enum Encoding {
    Base64Url,
    Base64,
    Base16,
}

/// The base64 digit of a value below 64: `A` to `Z`, `a` to `z`, `0` to
/// `9`, then `+` and `/`, or `-` and `_` in the URL-safe alphabet.
pub open spec fn base64_digit(value: nat, url_safe: bool) -> char {
    if value < 26 {
        (65 + value) as u8 as char
    } else if value < 52 {
        (71 + value) as u8 as char
    } else if value < 62 {
        (value - 4) as u8 as char
    } else if value == 62 {
        if url_safe {
            '-'
        } else {
            '+'
        }
    } else {
        if url_safe {
            '_'
        } else {
            '/'
        }
    }
}

/// The base64 text of `data` without padding: four digits of six bits for
/// every three bytes, and two or three digits for one or two bytes that
/// are left, the last of them filled with zero bits.
pub open spec fn base64_text(data: Seq<u8>, url_safe: bool) -> Seq<char>
    decreases data.len(),
{
    if data.len() == 0 {
        Seq::empty()
    } else if data.len() == 1 {
        seq![
            base64_digit((data[0] / 4) as nat, url_safe),
            base64_digit(((data[0] % 4) * 16) as nat, url_safe),
        ]
    } else if data.len() == 2 {
        seq![
            base64_digit((data[0] / 4) as nat, url_safe),
            base64_digit(((data[0] % 4) * 16 + data[1] / 16) as nat, url_safe),
            base64_digit(((data[1] % 16) * 4) as nat, url_safe),
        ]
    } else {
        seq![
            base64_digit((data[0] / 4) as nat, url_safe),
            base64_digit(((data[0] % 4) * 16 + data[1] / 16) as nat, url_safe),
            base64_digit(((data[1] % 16) * 4 + data[2] / 64) as nat, url_safe),
            base64_digit((data[2] % 64) as nat, url_safe),
        ] + base64_text(data.skip(3), url_safe)
    }
}

/// Base64 without padding takes four characters for three bytes, rounded
/// up to whole characters.
pub proof fn lemma_base64_len(data: Seq<u8>, url_safe: bool)
    ensures
        base64_text(data, url_safe).len() == (4 * data.len() + 2) / 3,
    decreases data.len(),
{
    if data.len() >= 3 {
        lemma_base64_len(data.skip(3), url_safe);
    }
}

/// `Vec::len`, with what the standard library guarantees of every
/// allocation: it holds no more than `isize::MAX` bytes.
#[verifier::external_body]
pub(crate) fn byte_len(data: &Vec<u8>) -> (len: usize)
    ensures
        len == data@.len(),
        len <= isize::MAX,
{
    data.len()
}

/// `hex::encode`: two lowercase hexadecimal digits for each byte.
#[verifier::external_body]
pub(crate) fn encode_hex(data: &[u8]) -> (text: String)
    ensures
        text@ == hex_text(data@),
{
    ::hex::encode(data)
}

/// `base64::encode_config` with the configuration `URL_SAFE_NO_PAD` or
/// `STANDARD_NO_PAD`: base64 as RFC 4648 defines it, without padding. The
/// length is asked to be that of a slice in memory, which keeps the size
/// computation of the outside function from overflowing.
#[verifier::external_body]
pub(crate) fn encode_base64(data: &[u8], url_safe: bool) -> (text: String)
    requires
        data@.len() <= isize::MAX,
    ensures
        text@ == base64_text(data@, url_safe),
{
    if url_safe {
        base64::encode_config(data, base64::URL_SAFE_NO_PAD)
    } else {
        base64::encode_config(data, base64::STANDARD_NO_PAD)
    }
}

} // verus!
