use axum_httpbin::error::AppError;
use axum_httpbin::response::{redirect_to, response_headers, status, stream_items};
use axum_httpbin::str_map::StrMap;

fn bad_request<T>(r: Result<T, AppError>) -> String {
    match r {
        Err(AppError::BadRequest(m)) => m,
        _ => panic!("expected 400"),
    }
}

fn params(pairs: &[(&str, &str)]) -> StrMap<String> {
    let mut m = StrMap::new();
    for (k, v) in pairs {
        m.insert(k.to_string(), v.to_string());
    }
    m
}

#[test]
fn status_code_echoes() {
    assert_eq!(status(418).unwrap(), 418);
    assert_eq!(status(100).unwrap(), 100);
    assert_eq!(status(599).unwrap(), 599);
}

#[test]
fn status_out_of_range_is_rejected() {
    assert_eq!(bad_request(status(600)), "status code 600 is out of range (100–599)");
    assert_eq!(bad_request(status(99)), "status code 99 is out of range (100–599)");
}

#[test]
fn redirect_requires_url() {
    assert_eq!(bad_request(redirect_to(None, None)), "query parameter 'url' is required");
}

#[test]
fn redirect_defaults_to_302_and_checks_code() {
    let r = redirect_to(Some("https://example.com".to_string()), None).unwrap();
    assert_eq!(r.status, 302);
    assert_eq!(r.location, "https://example.com");
    assert_eq!(redirect_to(Some("/x".to_string()), Some(308)).unwrap().status, 308);
    assert_eq!(
        bad_request(redirect_to(Some("/x".to_string()), Some(304))),
        "unsupported redirect status code: 304. Supported: 301, 302, 303, 307, 308"
    );
}

#[test]
fn redirect_rejects_url_that_is_no_header_value() {
    assert_eq!(
        bad_request(redirect_to(Some("/a\nb".to_string()), None)),
        "invalid url: failed to parse header value"
    );
}

#[test]
fn stream_items_are_numbered() {
    let items = stream_items(3).unwrap();
    assert_eq!(items.len(), 3);
    for (i, item) in items.iter().enumerate() {
        assert_eq!(item.id, i);
        assert_eq!(item.url, "/stream/3");
    }
    assert!(stream_items(0).unwrap().is_empty());
    assert_eq!(stream_items(100).unwrap().len(), 100);
    assert_eq!(bad_request(stream_items(101)), "stream count must not exceed 100");
}

#[test]
fn sets_and_returns_query_headers() {
    let headers = response_headers(&params(&[("X-Custom", "hello"), ("X-Other", "world")])).unwrap();
    assert_eq!(
        headers,
        vec![
            ("X-Custom".to_string(), "hello".to_string()),
            ("X-Other".to_string(), "world".to_string()),
        ]
    );
}

#[test]
fn rejects_invalid_header_name() {
    assert_eq!(
        bad_request(response_headers(&params(&[("Bad Name", "value")]))),
        "invalid header name 'Bad Name': invalid HTTP header name"
    );
}

#[test]
fn rejects_invalid_header_value() {
    assert_eq!(
        bad_request(response_headers(&params(&[("X-Bad", "line1\nline2")]))),
        "invalid header value 'line1\nline2': failed to parse header value"
    );
}

#[test]
fn empty_query_returns_empty_json_object() {
    assert!(response_headers(&StrMap::new()).unwrap().is_empty());
}

#[test]
fn too_many_response_headers_are_rejected() {
    let mut m = StrMap::new();
    for i in 0..51 {
        m.insert(format!("X-H{i}"), "v".to_string());
    }
    assert_eq!(bad_request(response_headers(&m)), "too many headers: 51 (max 50)");
    let mut m = StrMap::new();
    for i in 0..50 {
        m.insert(format!("X-H{i}"), "v".to_string());
    }
    assert_eq!(response_headers(&m).unwrap().len(), 50);
}

#[test]
fn works_with_post() {
    let headers = response_headers(&params(&[("X-Foo", "bar")])).unwrap();
    assert_eq!(headers, vec![("X-Foo".to_string(), "bar".to_string())]);
}

#[test]
fn header_names_must_be_tokens() {
    assert!(response_headers(&params(&[("X-Ok_1!~", "v")])).is_ok());
    for bad in ["Bad(Name", "a:b", "", "ä"] {
        assert_eq!(
            bad_request(response_headers(&params(&[(bad, "v")]))),
            format!("invalid header name '{bad}': invalid HTTP header name")
        );
    }
}
