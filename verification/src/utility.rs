//! The echo endpoints (`/get`, `/post`, `/anything`, ...), request ids and
//! UUIDs.

use vstd::prelude::*;
use vstd::utf8::{decode_utf8, valid_utf8};

use crate::client_ip::{client_ip, client_ip_spec};
use crate::headers::{header_text, HeaderList};
use crate::inspect::{build_full_url, collect_headers, full_url_spec, text_fields};
use crate::json_utils::{
    body_as_string, form_spec, json_parses, json_value, parse_form_body, parse_json_value,
};
use crate::models::{GetResponse, RequestInfo, UuidResponse};
use crate::request_body::{is_multipart_type, RequestBody};
use crate::str_map::{map_of_pairs, StrMap};
use crate::text::{chars_of, first_occurrence};

verus! {

/// A lower-case hexadecimal digit.
pub open spec fn lower_hex_digit(c: char) -> bool {
    ('0' <= c && c <= '9') || ('a' <= c && c <= 'f')
}

/// `s` is a version-4 UUID in lower-case hyphenated form: 36 characters,
/// hyphens at positions 8, 13, 18 and 23 and hexadecimal digits elsewhere,
/// the version digit `4` at position 14 and the variant digit (8, 9, a or
/// b) at position 19.
pub open spec fn hyphenated_uuid(s: Seq<char>) -> bool {
    &&& s.len() == 36
    &&& forall|i: int|
        0 <= i < 36 ==> if i == 8 || i == 13 || i == 18 || i == 23 {
            s[i] == '-'
        } else {
            lower_hex_digit(#[trigger] s[i])
        }
    &&& s[14] == '4'
    &&& (s[19] == '8' || s[19] == '9' || s[19] == 'a' || s[19] == 'b')
}

/// Calls `uuid::Uuid::new_v4` and writes the UUID with its `Display`
/// impl. The value is random; claimed only what the source shows of every
/// outcome: `new_v4` sets the version and variant bits, and `Display`
/// writes the lower-case hyphenated form.
#[verifier::external_body]
fn new_uuid_v4() -> (res: String)
    ensures
        hyphenated_uuid(res@),
{
    uuid::Uuid::new_v4().to_string()
}

/// `GET /uuid`: a random version-4 UUID.
pub fn uuid_response() -> (res: UuidResponse)
    ensures
        hyphenated_uuid(res.uuid@),
{
    UuidResponse { uuid: new_uuid_v4() }
}

/// The id of a request: the `X-Request-Id` it brings, or a fresh UUID.
pub fn request_id_for(headers: &HeaderList) -> (res: String)
    ensures
        header_text(headers@, "x-request-id"@) matches Some(id) ==> res@ == id,
        header_text(headers@, "x-request-id"@) is None ==> hyphenated_uuid(res@),
{
    match headers.get_str("x-request-id") {
        Some(id) => id,
        None => new_uuid_v4(),
    }
}

/// `GET /get`: the URL, headers, origin and query arguments of the
/// request.
pub fn echo_get(
    path_and_query: &str,
    headers: &HeaderList,
    peer: Option<&str>,
    query: StrMap<String>,
) -> (res: GetResponse)
    ensures
        res.url@ == full_url_spec(headers@, path_and_query@),
        res.headers@ == map_of_pairs(text_fields(headers@)),
        res.origin@ == client_ip_spec(headers@, match peer {
            Some(p) => Some(p@),
            None => None,
        }),
        res.args@ == query@,
{
    GetResponse {
        url: build_full_url(headers, path_and_query),
        headers: collect_headers(headers),
        origin: client_ip(headers, peer),
        args: query,
    }
}

/// The content type says the body is JSON.
pub open spec fn is_json_type(content_type: Seq<char>) -> bool {
    first_occurrence(content_type, "application/json"@) is Some
}

/// A content type is read as JSON wherever `application/json` occurs in it,
/// so also when parameters follow it, as in `application/json; charset=utf-8`.
pub proof fn lemma_json_type_anywhere(content_type: Seq<char>, i: int, params: Seq<char>)
    ensures
        crate::text::occurs_at(content_type, "application/json"@, i) ==> is_json_type(
            content_type,
        ),
        is_json_type("application/json"@ + params),
{
    crate::text::lemma_first_occurrence_from(content_type, "application/json"@, 0);
    let ct = "application/json"@ + params;
    crate::text::lemma_first_occurrence_from(ct, "application/json"@, 0);
    assert(ct.subrange(0, "application/json"@.len() as int) =~= "application/json"@);
    assert(crate::text::occurs_at(ct, "application/json"@, 0));
}

/// The content type says the body is a URL-encoded form.
pub open spec fn is_urlencoded_type(content_type: Seq<char>) -> bool {
    first_occurrence(content_type, "application/x-www-form-urlencoded"@) is Some
}

/// The body was read as a form: it is multipart, or URL-encoded.
pub open spec fn read_as_form(content_type: Seq<char>) -> bool {
    is_multipart_type(content_type) || is_urlencoded_type(content_type)
}

/// Reflects a request: its method, full URL, headers, origin, query
/// arguments and body. The body is read as JSON when the content type says so, as
/// form fields when it is URL-encoded or multipart (whose files are
/// listed too), and otherwise kept as UTF-8 text.
pub fn build_request_info(
    method: &str,
    path_and_query: &str,
    headers: &HeaderList,
    peer: Option<&str>,
    query: StrMap<String>,
    body: RequestBody,
) -> (res: RequestInfo)
    ensures
        res.method@ == method@,
        res.url@ == full_url_spec(headers@, path_and_query@),
        res.headers@ == map_of_pairs(text_fields(headers@)),
        res.origin@ == client_ip_spec(headers@, match peer {
            Some(p) => Some(p@),
            None => None,
        }),
        res.args@ == query@,
        res.json is Some <==> (is_json_type(body.content_type@) && body.bytes@.len() > 0
            && json_parses(body.bytes@)),
        res.json matches Some(v) ==> v == json_value(body.bytes@),
        is_multipart_type(body.content_type@) ==> res.form@ == body.text_fields@,
        !is_multipart_type(body.content_type@) && is_urlencoded_type(body.content_type@)
            ==> res.form@ == form_spec(body.bytes@),
        !read_as_form(body.content_type@) ==> res.form@.dom().len() == 0,
        res.files@ == body.files@,
        (res.json is Some || read_as_form(body.content_type@)) ==> res.data@.len() == 0,
        !(res.json is Some || read_as_form(body.content_type@)) ==> res.data@ == (
        if body.bytes@.len() > 0 && valid_utf8(body.bytes@) {
            decode_utf8(body.bytes@)
        } else {
            Seq::<char>::empty()
        }),
{
    let ct = chars_of(body.content_type.as_str());
    let json_key = chars_of("application/json");
    let form_key = chars_of("application/x-www-form-urlencoded");
    let is_json = crate::text::contains(ct.as_slice(), json_key.as_slice());
    let is_form = crate::text::contains(ct.as_slice(), form_key.as_slice());
    let multipart = body.is_multipart();
    let json = if is_json {
        parse_json_value(body.bytes.as_slice())
    } else {
        None
    };
    let RequestBody { content_type: _, bytes, files, text_fields } = body;
    let form = if multipart {
        text_fields
    } else if is_form {
        parse_form_body(bytes.as_slice())
    } else {
        StrMap::new()
    };
    let data = if json.is_some() || multipart || is_form {
        String::new()
    } else {
        match body_as_string(bytes.as_slice()) {
            Some(s) => s,
            None => String::new(),
        }
    };
    RequestInfo {
        method: method.to_owned(),
        url: build_full_url(headers, path_and_query),
        headers: collect_headers(headers),
        origin: client_ip(headers, peer),
        args: query,
        json,
        data,
        form,
        files,
    }
}

} // verus!
