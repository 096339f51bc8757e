use axum_httpbin::cookies::{
    build_set_cookies, delete_cookies, get_cookies, parse_cookie_header, redirect_with_cookies, set_cookie_one,
    set_cookies,
};
use axum_httpbin::error::AppError;
use axum_httpbin::headers::HeaderList;
use axum_httpbin::str_map::StrMap;

fn query(pairs: &[(&str, &str)]) -> StrMap<String> {
    let mut m = StrMap::new();
    for (k, v) in pairs {
        m.insert(k.to_string(), v.to_string());
    }
    m
}

#[test]
fn get_cookies_parses_request_cookie_header() {
    let mut headers = HeaderList::new();
    headers.insert("Cookie", b"a=1; b=2");
    let jar = get_cookies(&headers);
    assert_eq!(jar.get("a").unwrap(), "1");
    assert_eq!(jar.get("b").unwrap(), "2");
}

#[test]
fn get_cookies_returns_empty_when_no_cookie_header() {
    let headers = HeaderList::new();
    assert!(get_cookies(&headers).is_empty());
}

#[test]
fn cookie_pieces_are_trimmed_and_bare_names_kept() {
    let mut headers = HeaderList::new();
    headers.insert("cookie", b" x = 1 ;; flag ; x=3");
    let jar = parse_cookie_header(&headers);
    assert_eq!(jar.len(), 2);
    assert_eq!(jar.get("x").unwrap(), "3");
    assert_eq!(jar.get("flag").unwrap(), "");
}

#[test]
fn set_cookie_one_sets_and_redirects() {
    let r = set_cookie_one("session".to_string(), "abc123".to_string()).unwrap();
    assert_eq!(r.location.unwrap(), "/cookies");
    let set_cookie = &r.set_cookies[0];
    assert!(set_cookie.starts_with("session=abc123"), "got: {set_cookie}");
    assert_eq!(set_cookie, "session=abc123; Path=/");
}

#[test]
fn set_cookie_one_rejects_empty_name() {
    match set_cookie_one(String::new(), "v".to_string()) {
        Err(AppError::BadRequest(m)) => assert_eq!(m, "cookie name cannot be empty"),
        _ => panic!("expected a bad request"),
    }
}

#[test]
fn set_cookies_handles_multiple_query_params() {
    let r = set_cookies(&query(&[("x", "1"), ("y", "2")])).unwrap();
    assert_eq!(r.set_cookies.len(), 2);
    let joined = r.set_cookies.join("|");
    assert!(joined.contains("x=1"), "missing x=1: {joined}");
    assert!(joined.contains("y=2"), "missing y=2: {joined}");
}

#[test]
fn set_cookies_rejects_empty_query() {
    match set_cookies(&StrMap::new()) {
        Err(AppError::BadRequest(m)) => {
            assert_eq!(m, "expected at least one name=value query parameter")
        }
        _ => panic!("expected a bad request"),
    }
}

#[test]
fn delete_cookies_clears_and_redirects() {
    let r = delete_cookies(&query(&[("x", ""), ("y", "")])).unwrap();
    assert_eq!(r.set_cookies.len(), 2);
    let joined = r.set_cookies.join("|");
    assert!(joined.contains("x="), "missing x= : {joined}");
    assert!(joined.contains("y="), "missing y= : {joined}");
    assert!(joined.to_lowercase().contains("max-age=0"), "missing Max-Age=0: {joined}");
    assert!(r.set_cookies[0].starts_with("x=; Path=/; Max-Age=0; Expires="));
}

#[test]
fn delete_cookies_rejects_empty_query() {
    assert!(matches!(delete_cookies(&StrMap::new()), Err(AppError::BadRequest(_))));
}

#[test]
fn delete_cookies_rejects_empty_name() {
    match delete_cookies(&query(&[("", "")])) {
        Err(AppError::BadRequest(m)) => assert_eq!(m, "cookie name cannot be empty"),
        _ => panic!("expected a bad request"),
    }
}

#[test]
fn invalid_header_values_are_left_out_of_redirects() {
    let r = redirect_with_cookies("/c\n", vec!["a=1".to_string(), "b=\u{7f}".to_string()]);
    assert!(r.location.is_none());
    assert_eq!(r.set_cookies, vec!["a=1".to_string()]);
}

#[test]
fn sent_cookie_header_reads_back() {
    let mut headers = HeaderList::new();
    headers.insert("Cookie", b"sid=a=b; theme=dark; sid=c; empty=");
    let jar = get_cookies(&headers);
    assert_eq!(jar.len(), 3);
    assert_eq!(jar.get("sid").unwrap(), "c");
    assert_eq!(jar.get("theme").unwrap(), "dark");
    assert_eq!(jar.get("empty").unwrap(), "");
}

#[test]
fn every_removal_cookie_is_sent_and_ends_in_a_date() {
    let r = delete_cookies(&query(&[("a", ""), ("b", "1"), ("ünï", "")])).unwrap();
    assert_eq!(r.set_cookies.len(), 3);
    assert!(r.set_cookies[2].starts_with("ünï=; Path=/; Max-Age=0; Expires="));
    for c in &r.set_cookies {
        assert!(c.ends_with(" GMT"), "{c}");
        let date = &c[c.find("Expires=").unwrap() + 8..];
        assert!(date.bytes().all(|b| (32..127).contains(&b)));
    }
}

#[test]
fn set_cookie_texts_one_per_key_or_error_on_empty_name() {
    let v = build_set_cookies(&query(&[("a", "1"), ("b", "x y")])).unwrap();
    assert_eq!(v, vec!["a=1; Path=/".to_string(), "b=x y; Path=/".to_string()]);
    match build_set_cookies(&query(&[("a", "1"), ("", "2")])) {
        Err(AppError::BadRequest(m)) => assert_eq!(m, "cookie name cannot be empty"),
        _ => panic!("expected 400"),
    }
    match set_cookies(&query(&[("", "2")])) {
        Err(AppError::BadRequest(m)) => assert_eq!(m, "cookie name cannot be empty"),
        _ => panic!("expected 400"),
    }
}
