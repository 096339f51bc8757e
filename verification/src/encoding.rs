//! Decoding bytes into text: UTF-8 (strict and lossy) and Base64.

use vstd::prelude::*;
use vstd::utf8::{decode_utf8, valid_utf8};

use base64::Engine;

verus! {

/// What `String::from_utf8_lossy` makes of `bytes`: each maximal invalid
/// UTF-8 sequence replaced by U+FFFD.
pub uninterp spec fn utf8_lossy(bytes: Seq<u8>) -> Seq<char>;

/// The text of `bytes` read as UTF-8 with invalid sequences replaced, as
/// `String::from_utf8_lossy` reads it: for valid UTF-8, the decoded text.
pub open spec fn lossy_text(bytes: Seq<u8>) -> Seq<char> {
    if valid_utf8(bytes) {
        decode_utf8(bytes)
    } else {
        utf8_lossy(bytes)
    }
}

/// Calls `String::from_utf8_lossy`. Claimed: the result is a function of
/// the bytes alone, and for valid UTF-8 it is the decoded text, as the
/// documentation of `from_utf8_lossy` says. What replaces an invalid
/// sequence is not stated.
#[verifier::external_body]
pub(crate) fn utf8_lossy_decode(bytes: &[u8]) -> (res: String)
    ensures
        res@ == utf8_lossy(bytes@),
        valid_utf8(bytes@) ==> res@ == decode_utf8(bytes@),
{
    String::from_utf8_lossy(bytes).into_owned()
}

/// Calls `std::str::from_utf8`. Claimed, as its documentation says: it
/// succeeds exactly on valid UTF-8, with the decoded text.
#[verifier::external_body]
pub(crate) fn str_from_utf8(bytes: &[u8]) -> (res: Option<String>)
    ensures
        res is Some <==> valid_utf8(bytes@),
        res matches Some(s) ==> s@ == decode_utf8(bytes@),
{
    match std::str::from_utf8(bytes) {
        Ok(s) => Some(s.to_owned()),
        Err(_) => None,
    }
}

/// Calls `String::from_utf8` on a copy of the bytes. Claimed, as its
/// documentation says: it succeeds exactly on valid UTF-8, with the
/// decoded text.
#[verifier::external_body]
pub(crate) fn string_from_utf8(bytes: &[u8]) -> (res: Option<String>)
    ensures
        res is Some <==> valid_utf8(bytes@),
        res matches Some(s) ==> s@ == decode_utf8(bytes@),
{
    String::from_utf8(bytes.to_vec()).ok()
}

/// What the standard, padded Base64 engine of the `base64` crate decodes
/// the text `input` to, or `None` where it reports an error.
pub uninterp spec fn base64_standard_decode(input: Seq<char>) -> Option<Seq<u8>>;

/// Calls `base64::engine::general_purpose::STANDARD.decode`. Claimed: the
/// outcome is a function of the input text alone. Which inputs it accepts
/// and what they decode to is not stated here.
#[verifier::external_body]
pub(crate) fn base64_decode_standard(input: &str) -> (res: Option<Vec<u8>>)
    ensures
        match res {
            Some(v) => base64_standard_decode(input@) == Some(v@),
            None => base64_standard_decode(input@) is None,
        },
{
    base64::engine::general_purpose::STANDARD.decode(input).ok()
}

} // verus!
