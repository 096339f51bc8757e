//! What the `http` crate accepts as a status code, a header name and a
//! header value.

use vstd::prelude::*;
use vstd::utf8::encode_utf8;

verus! {

/// A byte that `http::HeaderValue::from_str` accepts: visible ASCII, a
/// tab, or any byte from 0x80 up.
pub open spec fn header_value_byte(b: u8) -> bool {
    (b >= 32 && b != 127) || b == 9
}

/// The text `value` is a valid header value.
pub open spec fn header_value_ok(value: Seq<char>) -> bool {
    let bytes = encode_utf8(value);
    forall|i: int| 0 <= i < bytes.len() ==> header_value_byte(#[trigger] bytes[i])
}

/// Calls `http::HeaderValue::from_str` and, on error, formats the error.
/// Claimed, as the source shows: it fails exactly when a byte of the
/// value is not allowed in a header value, with the text `failed to parse
/// header value`.
#[verifier::external_body]
pub(crate) fn check_header_value(value: &str) -> (res: Option<String>)
    ensures
        res is None <==> header_value_ok(value@),
        res matches Some(t) ==> t@ == "failed to parse header value"@,
{
    match axum::http::HeaderValue::from_str(value) {
        Ok(_) => None,
        Err(e) => Some(e.to_string()),
    }
}

/// Text of visible ASCII characters is a valid header value.
pub proof fn lemma_ascii_header_value(s: Seq<char>)
    requires
        forall|i: int| 0 <= i < s.len() ==> ' ' <= #[trigger] s[i] <= '~',
    ensures
        header_value_ok(s),
{
    assert(vstd::utf8::is_ascii_chars(s));
    vstd::utf8::is_ascii_chars_encode_utf8(s);
    let bytes = encode_utf8(s);
    assert forall|i: int| 0 <= i < bytes.len() implies header_value_byte(#[trigger] bytes[i]) by {
        assert(s[i] as u8 == bytes[i]);
        assert(' ' <= s[i] <= '~');
    }
}

/// A byte that may stand in a header name: a token character (digits,
/// letters and ``!#$%&'*+-.^_`|~``), as the table of header characters of
/// the `http` crate has it.
pub open spec fn token_byte(b: u8) -> bool {
    ||| 48 <= b <= 57
    ||| 65 <= b <= 90
    ||| 97 <= b <= 122
    ||| b == 33 || b == 35 || b == 36 || b == 37 || b == 38 || b == 39
    ||| b == 42 || b == 43 || b == 45 || b == 46
    ||| b == 94 || b == 95 || b == 96 || b == 124 || b == 126
}

/// The text `name` is a valid header name: between 1 and 65535 bytes,
/// each a token character.
pub open spec fn header_name_ok(name: Seq<char>) -> bool {
    let bytes = encode_utf8(name);
    &&& 0 < bytes.len() <= 65535
    &&& forall|i: int| 0 <= i < bytes.len() ==> token_byte(#[trigger] bytes[i])
}

/// Calls `http::HeaderName::try_from` on the text and, on error, formats
/// the error. Claimed, as the source shows (`HeaderName::from_bytes` maps
/// each byte through its table of header characters and rejects an empty
/// name, a name longer than 65535 bytes, and any byte outside the table):
/// it succeeds exactly on valid header names, and the error reads `invalid
/// HTTP header name`.
#[verifier::external_body]
pub(crate) fn check_header_name(name: &str) -> (res: Option<String>)
    ensures
        res is None <==> header_name_ok(name@),
        res matches Some(t) ==> t@ == "invalid HTTP header name"@,
{
    match axum::http::HeaderName::try_from(name) {
        Ok(_) => None,
        Err(e) => Some(e.to_string()),
    }
}

} // verus!
