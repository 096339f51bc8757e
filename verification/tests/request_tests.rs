use axum_httpbin::headers::HeaderList;
use axum_httpbin::models::GetResponse;
use axum_httpbin::inspect::{build_full_url, collect_headers, user_agent};
use axum_httpbin::request_body::RequestBody;
use axum_httpbin::str_map::StrMap;
use axum_httpbin::utility::{build_request_info, echo_get, request_id_for, uuid_response};

fn query(pairs: &[(&str, &str)]) -> StrMap<String> {
    let mut m = StrMap::new();
    for (k, v) in pairs {
        m.insert(k.to_string(), v.to_string());
    }
    m
}

#[test]
fn get_echoes_request() {
    let mut headers = HeaderList::new();
    headers.insert("x-custom", b"test-value");
    let r = echo_get("/get?foo=bar", &headers, None, query(&[("foo", "bar")]));
    assert_eq!(r.args.get("foo").unwrap(), "bar");
    assert_eq!(r.headers.get("x-custom").unwrap(), "test-value");
}

#[test]
fn get_url_is_full_url() {
    let mut headers = HeaderList::new();
    headers.insert("Host", b"example.com");
    let r = echo_get("/get?a=1", &headers, None, query(&[("a", "1")]));
    assert_eq!(r.url, "http://example.com/get?a=1");
    assert_eq!(build_full_url(&HeaderList::new(), "/get"), "/get");
}

#[test]
fn get_echos_query_params() {
    let r = echo_get("/get?x=1&y=hello", &HeaderList::new(), None, query(&[("x", "1"), ("y", "hello")]));
    assert_eq!(r.args.get("x").unwrap(), "1");
    assert_eq!(r.args.get("y").unwrap(), "hello");
}

#[test]
fn get_echos_headers() {
    let mut headers = HeaderList::new();
    headers.insert("X-Custom", b"test-value");
    let r = echo_get("/get", &headers, Some("127.0.0.1"), StrMap::new());
    assert_eq!(r.headers.get("x-custom").unwrap(), "test-value");
    assert_eq!(r.origin, "127.0.0.1");
}

#[test]
fn post_echoes_body() {
    let mut headers = HeaderList::new();
    headers.insert("content-type", b"application/json");
    let body = RequestBody::from_parts("application/json".to_string(), br#"{"key":"value"}"#.to_vec()).unwrap();
    let info = build_request_info("POST", "/post", &headers, None, StrMap::new(), body);
    assert_eq!(info.method, "POST");
    assert_eq!(info.json.unwrap()["key"], "value");
    assert_eq!(info.data, "");
}

#[test]
fn urlencoded_body_is_read_as_form() {
    let ct = "application/x-www-form-urlencoded";
    let mut headers = HeaderList::new();
    headers.insert("content-type", ct.as_bytes());
    let body = RequestBody::from_parts(ct.to_string(), b"a=1&b=x+y%21".to_vec()).unwrap();
    let info = build_request_info("POST", "/post", &headers, None, StrMap::new(), body);
    assert_eq!(info.form.get("a").unwrap(), "1");
    assert_eq!(info.form.get("b").unwrap(), "x y!");
    assert_eq!(info.data, "");
    assert!(info.json.is_none());
}

#[test]
fn invalid_json_falls_back_to_text() {
    let body = RequestBody::from_parts("application/json".to_string(), b"{oops".to_vec()).unwrap();
    let info = build_request_info("POST", "/post", &HeaderList::new(), None, StrMap::new(), body);
    assert!(info.json.is_none());
    assert_eq!(info.data, "{oops");
}

#[test]
fn collect_headers_skips_unreadable_values() {
    let mut headers = HeaderList::new();
    headers.append("a", b"1");
    headers.append("b", b"\x01");
    headers.append("a", b"2");
    let m = collect_headers(&headers);
    assert_eq!(m.len(), 1);
    assert_eq!(m.get("a").unwrap(), "2");
}

#[test]
fn user_agent_or_unknown() {
    let mut headers = HeaderList::new();
    assert_eq!(user_agent(&headers), "unknown");
    headers.insert("User-Agent", b"curl/8.0");
    assert_eq!(user_agent(&headers), "curl/8.0");
}

#[test]
fn request_id_is_kept_or_made() {
    let mut headers = HeaderList::new();
    let fresh = request_id_for(&headers);
    assert_eq!(fresh.len(), 36);
    assert_eq!(fresh.as_bytes()[8], b'-');
    headers.insert("x-request-id", b"abc");
    assert_eq!(request_id_for(&headers), "abc");
}

#[test]
fn uuid_is_hyphenated() {
    let u = uuid_response().uuid;
    assert_eq!(u.len(), 36);
    for (i, b) in u.bytes().enumerate() {
        if [8, 13, 18, 23].contains(&i) {
            assert_eq!(b, b'-');
        } else {
            assert!(b.is_ascii_digit() || (b'a'..=b'f').contains(&b));
        }
    }
    assert_eq!(u.as_bytes()[14], b'4');
    assert!([b'8', b'9', b'a', b'b'].contains(&u.as_bytes()[19]));
    assert_ne!(u, uuid_response().uuid);
}

#[test]
fn inserted_header_reads_back_in_any_case() {
    let mut headers = HeaderList::new();
    headers.append("X-Twice", b"first");
    headers.append("x-twice", b"second");
    headers.insert("X-TWICE", b"third");
    assert_eq!(headers.len(), 1);
    assert_eq!(headers.get("x-twice").unwrap(), &b"third".to_vec());
    assert_eq!(headers.get_str("X-Twice").unwrap(), "third");
    headers.insert("x-bin", b"\x01\x02");
    assert_eq!(headers.get("X-Bin").unwrap(), &vec![1u8, 2u8]);
    assert!(headers.get_str("X-Bin").is_none());
}

#[test]
fn get_returns_200() {
    let r = echo_get("/get", &HeaderList::new(), None, StrMap::new());
    assert_eq!(r.url, "/get");
    assert_eq!(r.origin, "unknown");
    assert!(r.args.is_empty());
    assert!(r.headers.is_empty());
}

#[test]
fn get_has_only_four_fields() {
    let mut headers = HeaderList::new();
    headers.insert("Host", b"example.com");
    let r = echo_get("/get?foo=bar", &headers, None, query(&[("foo", "bar")]));
    // exactly four fields, as httpbin.org/get has them
    let GetResponse { url, headers, origin, args } = r;
    assert_eq!(url, "http://example.com/get?foo=bar");
    assert_eq!(headers.get("host").unwrap(), "example.com");
    assert_eq!(origin, "unknown");
    assert_eq!(args.get("foo").unwrap(), "bar");
}
