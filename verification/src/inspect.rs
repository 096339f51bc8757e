//! The request-inspection endpoints: headers, user agent and URL.

use vstd::prelude::*;

use crate::fmt::concat3;
use crate::headers::{all_visible_ascii, ascii_chars, header_text, HeaderList};
use crate::str_map::{lemma_map_of_pairs_push, map_of_pairs, StrMap};

verus! {

/// The headers that read as text, by name, in order.
pub open spec fn text_fields(h: Seq<(Seq<char>, Seq<u8>)>) -> Seq<(Seq<char>, Seq<char>)>
    decreases h.len(),
{
    if h.len() == 0 {
        seq![]
    } else {
        let rest = text_fields(h.drop_last());
        if all_visible_ascii(h.last().1) {
            rest.push((h.last().0, ascii_chars(h.last().1)))
        } else {
            rest
        }
    }
}

/// The request headers as a map from name to text: headers whose value is
/// not visible ASCII are left out, and of several with one name the last
/// counts.
pub fn collect_headers(headers: &HeaderList) -> (res: StrMap<String>)
    ensures
        res@ == map_of_pairs(text_fields(headers@)),
{
    let mut map: StrMap<String> = StrMap::new();
    let ghost mut acc: Seq<(Seq<char>, Seq<char>)> = seq![];
    let mut i: usize = 0;
    while i < headers.len()
        invariant
            i <= headers@.len(),
            acc == text_fields(headers@.take(i as int)),
            map@ == map_of_pairs(acc),
        decreases headers@.len() - i,
    {
        proof {
            assert(headers@.take(i + 1).drop_last() =~= headers@.take(i as int));
            assert(headers@.take(i + 1).last() == headers@[i as int]);
        }
        let (name, value) = headers.field(i);
        match crate::headers::visible_text(value.as_slice()) {
            Some(text) => {
                proof {
                    lemma_map_of_pairs_push(acc, name@, text@);
                    acc = acc.push((name@, text@));
                }
                map.insert(name.clone(), text);
            },
            None => {},
        }
        i = i + 1;
    }
    assert(headers@.take(headers@.len() as int) =~= headers@);
    map
}

/// The user agent of a request, or `unknown`.
pub open spec fn user_agent_spec(h: Seq<(Seq<char>, Seq<u8>)>) -> Seq<char> {
    match header_text(h, "user-agent"@) {
        Some(ua) => ua,
        None => "unknown"@,
    }
}

/// `GET /user-agent`: the `User-Agent` header of the request, or `unknown`.
pub fn user_agent(headers: &HeaderList) -> (res: String)
    ensures
        res@ == user_agent_spec(headers@),
{
    match headers.get_str("user-agent") {
        Some(ua) => ua,
        None => "unknown".to_owned(),
    }
}

/// The full URL of a request: `http://`, the `Host` header and the path
/// with its query; just the path and query without a readable `Host`.
pub open spec fn full_url_spec(h: Seq<(Seq<char>, Seq<u8>)>, path_and_query: Seq<char>) -> Seq<
    char,
> {
    match header_text(h, "host"@) {
        Some(host) => "http://"@ + host + path_and_query,
        None => path_and_query,
    }
}

/// Builds the full URL of a request from its `Host` header and its path
/// and query.
pub fn build_full_url(headers: &HeaderList, path_and_query: &str) -> (res: String)
    ensures
        res@ == full_url_spec(headers@, path_and_query@),
{
    match headers.get_str("host") {
        Some(host) => concat3("http://", host.as_str(), path_and_query),
        None => path_and_query.to_owned(),
    }
}

} // verus!
