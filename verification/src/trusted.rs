//! The calls that leave the verified library. Verus takes each contract here
//! on trust; every other module is proved against them.

use vstd::prelude::*;
use vstd::utf8::decode_utf8;
use vstd::utf8::valid_utf8;

verus! {

/// The SHA-1 digest of `data`, as the `sha1` crate computes it.
pub uninterp spec fn sha1_digest(data: Seq<u8>) -> Seq<u8>;

/// Calls `<sha1::Sha1 as sha1::Digest>::digest`. Trusted: the result is the
/// SHA-1 digest of `data`, a function of the bytes alone, and is 20 bytes
/// long, the output size that the crate fixes for SHA-1.
#[verifier::external_body]
pub(crate) fn sha1_of(data: &[u8]) -> (out: Vec<u8>)
    ensures
        out@ == sha1_digest(data@),
        out@.len() == 20,
{
    <sha1::Sha1 as sha1::Digest>::digest(data).to_vec()
}

/// Calls `std::str::from_utf8`. Trusted: it accepts exactly the valid UTF-8
/// encodings, and the text it returns holds the characters that the bytes
/// encode.
#[verifier::external_body]
pub(crate) fn utf8_text(bytes: &[u8]) -> (out: Option<&str>)
    ensures
        out is Some <==> valid_utf8(bytes@),
        out matches Some(s) ==> s@ == decode_utf8(bytes@),
{
    std::str::from_utf8(bytes).ok()
}

/// The character of an upper-case hexadecimal digit.
pub open spec fn hex_upper(d: int) -> char {
    if d < 10 {
        (0x30 + d) as u8 as char
    } else {
        (0x41 + d - 10) as u8 as char
    }
}

/// Whether the form-urlencoded serializer leaves `b` as it is: `*`, `-`,
/// `.`, `_`, a digit or an ASCII letter.
pub open spec fn kept_in_form(b: u8) -> bool {
    b == 0x2a || b == 0x2d || b == 0x2e || b == 0x5f || (0x30 <= b <= 0x39) || (0x41 <= b <= 0x5a) || (0x61
        <= b <= 0x7a)
}

/// What the form-urlencoded serializer writes for one byte: the byte itself
/// where it is kept, `+` for a space, and otherwise `%` with two upper-case
/// hexadecimal digits.
pub open spec fn form_encoded_byte(b: u8) -> Seq<char> {
    if kept_in_form(b) {
        seq![b as char]
    } else if b == 0x20 {
        seq!['+']
    } else {
        seq!['%', hex_upper(b as int / 16), hex_upper(b as int % 16)]
    }
}

/// What the form-urlencoded serializer writes for `bytes`.
pub open spec fn form_encoded(bytes: Seq<u8>) -> Seq<char>
    decreases bytes.len(),
{
    if bytes.len() == 0 {
        Seq::empty()
    } else {
        form_encoded(bytes.drop_last()) + form_encoded_byte(bytes.last())
    }
}

/// Calls `url::form_urlencoded::byte_serialize` and joins the pieces.
/// Trusted: the text is the `application/x-www-form-urlencoded` form of
/// `bytes`, byte by byte as `form_encoded_byte` says.
#[verifier::external_body]
pub(crate) fn form_urlencode(bytes: &[u8]) -> (out: String)
    ensures
        out@ == form_encoded(bytes@),
{
    url::form_urlencoded::byte_serialize(bytes).collect::<String>()
}

/// The character of a lower-case hexadecimal digit.
pub open spec fn hex_lower(d: int) -> char {
    if d < 10 {
        (0x30 + d) as u8 as char
    } else {
        (0x61 + d - 10) as u8 as char
    }
}

/// `bytes` in hexadecimal: two lower-case digits for each byte, the high
/// one first.
pub open spec fn hex_encoded(bytes: Seq<u8>) -> Seq<char>
    decreases bytes.len(),
{
    if bytes.len() == 0 {
        Seq::empty()
    } else {
        hex_encoded(bytes.drop_last()) + seq![
            hex_lower(bytes.last() as int / 16),
            hex_lower(bytes.last() as int % 16),
        ]
    }
}

/// Calls `hex::encode`. Trusted: the text is `bytes` in lower-case
/// hexadecimal, as `hex_encoded` says.
#[verifier::external_body]
pub(crate) fn hex_encode(bytes: &[u8]) -> (out: String)
    ensures
        out@ == hex_encoded(bytes@),
{
    hex::encode(bytes)
}

} // verus!
