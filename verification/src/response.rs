//! The response-control endpoints: status codes, redirects, event streams
//! and response headers chosen by the client.

use vstd::prelude::*;

use crate::error::AppError;
use crate::fmt::{concat2, concat3, decimal, decimal_string};
use crate::http_rules::{check_header_name, check_header_value, header_name_ok, header_value_ok};
use crate::models::StreamItem;
use crate::str_map::{keys_distinct, lemma_map_of_pairs_contents, map_of_pairs, StrMap};

verus! {

/// The message for a status code outside 100 to 599.
pub open spec fn out_of_range_message(code: u16) -> Seq<char> {
    "status code "@ + decimal(code as nat) + " is out of range (100–599)"@
}

/// `GET /status/{code}`: answers with the status `code`, which must lie
/// between 100 and 599.
pub fn status(code: u16) -> (res: Result<u16, AppError>)
    ensures
        100 <= code <= 599 ==> res == Ok::<u16, AppError>(code),
        !(100 <= code <= 599) ==> (res matches Err(AppError::BadRequest(m)) && m@
            == out_of_range_message(code)),
{
    if !(100 <= code && code <= 599) {
        let n = decimal_string(code as u64);
        return Err(AppError::BadRequest(concat3("status code ", n.as_str(), " is out of range (100–599)")));
    }
    Ok(code)
}

/// The status codes a redirect may use.
pub open spec fn redirect_status_ok(code: u16) -> bool {
    code == 301 || code == 302 || code == 303 || code == 307 || code == 308
}

/// The redirect statuses are exactly 301, 302, 303, 307 and 308: for each
/// of them, and only for them, `redirect_to` redirects with a valid url.
pub proof fn lemma_redirect_statuses(code: u16)
    ensures
        redirect_status_ok(code) <==> (code == 301 || code == 302 || code == 303 || code == 307
            || code == 308),
{
}

/// The message for an unsupported redirect status code.
pub open spec fn unsupported_redirect_message(code: u16) -> Seq<char> {
    "unsupported redirect status code: "@ + decimal(code as nat)
        + ". Supported: 301, 302, 303, 307, 308"@
}

/// A redirect: its status code and its target.
pub struct Redirect {
    /// The status code, one of 301, 302, 303, 307 and 308.
    pub status: u16,
    /// The target, for the `Location` header.
    pub location: String,
}

/// `GET /redirect-to?url=...&status_code=...`: redirects to `url` with the
/// given status code, 302 by default. A missing `url`, another status
/// code, or a `url` that is not a valid header value, is a bad request.
pub fn redirect_to(url: Option<String>, status_code: Option<u16>) -> (res: Result<
    Redirect,
    AppError,
>)
    ensures
        url is None ==> (res matches Err(AppError::BadRequest(m)) && m@
            == "query parameter 'url' is required"@),
        url matches Some(u) ==> ({
            let code = match status_code {
                Some(c) => c,
                None => 302u16,
            };
            &&& redirect_status_ok(code) && header_value_ok(u@) ==> (res matches Ok(r) && r.status
                == code && r.location@ == u@)
            &&& redirect_status_ok(code) && !header_value_ok(u@) ==> (res matches Err(
                AppError::BadRequest(m),
            ) && m@ == "invalid url: failed to parse header value"@)
            &&& !redirect_status_ok(code) ==> (res matches Err(AppError::BadRequest(m)) && m@
                == unsupported_redirect_message(code))
        }),
{
    let url = match url {
        Some(u) => u,
        None => {
            return Err(AppError::BadRequest("query parameter 'url' is required".to_owned()));
        },
    };
    let code = match status_code {
        Some(c) => c,
        None => 302,
    };
    if code == 301 || code == 302 || code == 303 || code == 307 || code == 308 {
        match check_header_value(url.as_str()) {
            None => Ok(Redirect { status: code, location: url }),
            Some(e) => {
                let m = concat2("invalid url: ", e.as_str());
                proof {
                    reveal_strlit("invalid url: ");
                    reveal_strlit("failed to parse header value");
                    reveal_strlit("invalid url: failed to parse header value");
                    assert(m@ =~= "invalid url: failed to parse header value"@);
                }
                Err(AppError::BadRequest(m))
            },
        }
    } else {
        let n = decimal_string(code as u64);
        Err(
            AppError::BadRequest(
                concat3(
                    "unsupported redirect status code: ",
                    n.as_str(),
                    ". Supported: 301, 302, 303, 307, 308",
                ),
            ),
        )
    }
}

/// The most events a stream may have.
pub const MAX_STREAM_ITEMS: usize = 100;

/// The path of the stream of `n` events.
pub open spec fn stream_path(n: usize) -> Seq<char> {
    "/stream/"@ + decimal(n as nat)
}

/// `GET /stream/{n}`: the `n` events to stream, numbered from 0, each
/// carrying the path of the stream. More than 100 is a bad request.
pub fn stream_items(n: usize) -> (res: Result<Vec<StreamItem>, AppError>)
    ensures
        n > 100 ==> (res matches Err(AppError::BadRequest(m)) && m@
            == "stream count must not exceed 100"@),
        n <= 100 ==> (res matches Ok(items) && items@.len() == n && forall|i: int|
            0 <= i < n ==> (#[trigger] items@[i]).id == i && items@[i].url@ == stream_path(n)),
{
    if n > MAX_STREAM_ITEMS {
        return Err(AppError::BadRequest("stream count must not exceed 100".to_owned()));
    }
    let mut items: Vec<StreamItem> = Vec::new();
    let mut i: usize = 0;
    while i < n
        invariant
            i <= n,
            items@.len() == i,
            forall|j: int| 0 <= j < i ==> (#[trigger] items@[j]).id == j && items@[j].url@ == stream_path(n),
        decreases n - i,
    {
        let count = decimal_string(n as u64);
        let url = concat2("/stream/", count.as_str());
        assert(url@ =~= stream_path(n));
        items.push(StreamItem { id: i, url });
        i = i + 1;
    }
    Ok(items)
}

/// The most response headers a request may set.
pub const MAX_HEADERS: usize = 50;

/// The message for the first of `pairs` that is not a valid header (its
/// name checked before its value), if any.
pub open spec fn header_pairs_error(pairs: Seq<(Seq<char>, Seq<char>)>) -> Option<Seq<char>>
    decreases pairs.len(),
{
    if pairs.len() == 0 {
        None
    } else if !header_name_ok(pairs[0].0) {
        Some("invalid header name '"@ + pairs[0].0 + "': "@ + "invalid HTTP header name"@)
    } else if !header_value_ok(pairs[0].1) {
        Some("invalid header value '"@ + pairs[0].1 + "': "@ + "failed to parse header value"@)
    } else {
        header_pairs_error(pairs.drop_first())
    }
}

/// The message for too many response headers.
pub open spec fn too_many_headers_message(n: nat) -> Seq<char> {
    "too many headers: "@ + decimal(n) + " (max 50)"@
}

/// Every key of `m` is a valid header name and its value a valid header
/// value.
pub open spec fn headers_valid(m: Map<Seq<char>, Seq<char>>) -> bool {
    forall|k: Seq<char>| #[trigger] m.dom().contains(k) ==> header_name_ok(k) && header_value_ok(m[k])
}

/// Every pair is a valid header name with a valid header value.
pub open spec fn pairs_valid(ps: Seq<(Seq<char>, Seq<char>)>) -> bool {
    forall|i: int| 0 <= i < ps.len() ==> header_ok(#[trigger] ps[i])
}

/// A valid header name with a valid header value.
pub open spec fn header_ok(h: (Seq<char>, Seq<char>)) -> bool {
    header_name_ok(h.0) && header_value_ok(h.1)
}

/// The pairs hold no invalid header exactly when every pair is valid.
proof fn lemma_header_pairs_error(ps: Seq<(Seq<char>, Seq<char>)>)
    ensures
        header_pairs_error(ps) is None <==> pairs_valid(ps),
    decreases ps.len(),
{
    if ps.len() > 0 {
        let rest = ps.drop_first();
        lemma_header_pairs_error(rest);
        if header_pairs_error(ps) is None {
            assert(header_name_ok(ps[0].0));
            assert(header_value_ok(ps[0].1));
            assert(header_pairs_error(rest) is None);
            assert(pairs_valid(rest));
            assert forall|i: int| 0 <= i < ps.len() implies header_ok(#[trigger] ps[i]) by {
                if i > 0 {
                    assert(ps[i] == rest[i - 1]);
                    assert(header_ok(rest[i - 1]));
                }
            }
        }
        if pairs_valid(ps) {
            assert(header_ok(ps[0]));
            assert forall|i: int| 0 <= i < rest.len() implies header_ok(#[trigger] rest[i]) by {
                assert(rest[i] == ps[i + 1]);
                assert(header_ok(ps[i + 1]));
            }
            assert(pairs_valid(rest));
        }
    }
}

/// With distinct keys, the pairs hold no invalid header exactly when the
/// map they make is valid, and they hold each key of the map once with
/// its value.
proof fn lemma_header_pairs_map(ps: Seq<(Seq<char>, Seq<char>)>)
    requires
        keys_distinct(ps),
    ensures
        header_pairs_error(ps) is None <==> headers_valid(map_of_pairs(ps)),
        ps.len() == map_of_pairs(ps).dom().len(),
        forall|k: Seq<char>| #[trigger]
            map_of_pairs(ps).dom().contains(k) ==> exists|i: int|
                0 <= i < ps.len() && ps[i] == (k, map_of_pairs(ps)[k]),
{
    lemma_header_pairs_error(ps);
    lemma_map_of_pairs_contents(ps);
    let m = map_of_pairs(ps);
    if header_pairs_error(ps) is None {
        assert forall|k: Seq<char>| #[trigger] m.dom().contains(k) implies header_name_ok(k)
            && header_value_ok(m[k]) by {
            let i = choose|i: int| 0 <= i < ps.len() && ps[i].0 == k;
            assert(m[ps[i].0] == ps[i].1);
            assert(header_ok(ps[i]));
        }
    }
    if headers_valid(m) {
        assert forall|i: int| 0 <= i < ps.len() implies header_ok(#[trigger] ps[i]) by {
            assert(m.dom().contains(ps[i].0));
            assert(m[ps[i].0] == ps[i].1);
        }
        assert(pairs_valid(ps));
    }
    assert forall|k: Seq<char>| #[trigger] m.dom().contains(k) implies exists|i: int|
        0 <= i < ps.len() && ps[i] == (k, m[k]) by {
        let i = choose|i: int| 0 <= i < ps.len() && ps[i].0 == k;
        assert(m[ps[i].0] == ps[i].1);
        assert(ps[i] == (k, m[k]));
    }
}

/// `GET|POST /response-headers?Key=Value&...`: the headers the query asks
/// for, in order: at most 50, each with a valid name and value. The
/// response sets them and echoes them as JSON.
pub fn response_headers(params: &StrMap<String>) -> (res: Result<Vec<(String, String)>, AppError>)
    ensures
        params@.dom().len() > 50 ==> (res matches Err(AppError::BadRequest(m)) && m@
            == too_many_headers_message(params@.dom().len())),
        params@.dom().len() <= 50 ==> match header_pairs_error(params.pairs()) {
            Some(msg) => res matches Err(AppError::BadRequest(m)) && m@ == msg,
            None => res matches Ok(hs) && hs@.map_values(|h: (String, String)| (h.0@, h.1@))
                == params.pairs(),
        },
        params@.dom().len() <= 50 && !headers_valid(params@) ==> res matches Err(
            AppError::BadRequest(_),
        ),
        params@.dom().len() <= 50 && headers_valid(params@) ==> (res matches Ok(hs) && hs@.len()
            == params@.dom().len() && forall|k: Seq<char>| #[trigger]
            params@.dom().contains(k) ==> exists|i: int|
                0 <= i < hs@.len() && hs@[i].0@ == k && hs@[i].1@ == params@[k]),
{
    proof {
        use_type_invariant(params);
        lemma_header_pairs_map(params.pairs());
    }
    let n = params.len();
    if n > MAX_HEADERS {
        let count = decimal_string(n as u64);
        return Err(AppError::BadRequest(concat3("too many headers: ", count.as_str(), " (max 50)")));
    }
    let ghost ps = params.pairs();
    let mut out: Vec<(String, String)> = Vec::new();
    let mut i: usize = 0;
    assert(ps.skip(0) =~= ps);
    while i < n
        invariant
            i <= n,
            n == ps.len(),
            n <= 50,
            n == params@.dom().len(),
            ps == params.pairs(),
            header_pairs_error(ps) == header_pairs_error(ps.skip(i as int)),
            out@.map_values(|h: (String, String)| (h.0@, h.1@)) == ps.take(i as int),
        decreases n - i,
    {
        proof {
            assert(ps.skip(i as int).drop_first() =~= ps.skip(i + 1));
            assert(ps.skip(i as int)[0] == ps[i as int]);
        }
        let (name, value) = params.entry(i);
        match check_header_name(name.as_str()) {
            Some(e) => {
                let head = concat3("invalid header name '", name.as_str(), "': ");
                return Err(AppError::BadRequest(concat2(head.as_str(), e.as_str())));
            },
            None => {},
        }
        match check_header_value(value.as_str()) {
            Some(e) => {
                let head = concat3("invalid header value '", value.as_str(), "': ");
                return Err(AppError::BadRequest(concat2(head.as_str(), e.as_str())));
            },
            None => {},
        }
        let ghost prev = out@.map_values(|h: (String, String)| (h.0@, h.1@));
        out.push((name.clone(), value.clone()));
        proof {
            assert(out@.map_values(|h: (String, String)| (h.0@, h.1@)) =~= prev.push(ps[i as int]));
            assert(ps.take(i + 1) =~= ps.take(i as int).push(ps[i as int]));
        }
        i = i + 1;
    }
    assert(ps.skip(i as int) =~= Seq::<(Seq<char>, Seq<char>)>::empty());
    assert(ps.take(n as int) =~= ps);
    proof {
        let hv = out@.map_values(|h: (String, String)| (h.0@, h.1@));
        assert forall|k: Seq<char>| #[trigger] params@.dom().contains(k) implies exists|i: int|
            0 <= i < out@.len() && out@[i].0@ == k && out@[i].1@ == params@[k] by {
            let i = choose|i: int| 0 <= i < ps.len() && ps[i] == (k, map_of_pairs(ps)[k]);
            assert(hv[i] == (out@[i].0@, out@[i].1@));
        }
    }
    Ok(out)
}

} // verus!
