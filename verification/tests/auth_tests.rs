use axum_httpbin::auth::{basic_auth, bearer};
use axum_httpbin::error::AppError;
use axum_httpbin::headers::HeaderList;

fn with_auth(value: &str) -> HeaderList {
    let mut headers = HeaderList::new();
    headers.insert("authorization", value.as_bytes());
    headers
}

fn unauthorized_message<T>(r: Result<T, AppError>) -> String {
    match r {
        Err(AppError::Unauthorized(m)) => m,
        _ => panic!("expected 401"),
    }
}

#[test]
fn basic_auth_rejects_missing_header() {
    let headers = HeaderList::new();
    let r = basic_auth(&headers, "user", "pass");
    assert_eq!(unauthorized_message(r), "Missing Authorization header");
}

#[test]
fn basic_auth_succeeds_with_correct_credentials() {
    // base64("alice:secret")
    let headers = with_auth("Basic YWxpY2U6c2VjcmV0");
    let r = basic_auth(&headers, "alice", "secret").unwrap();
    assert!(r.authenticated);
    assert_eq!(r.user, "alice");
}

#[test]
fn basic_auth_rejects_wrong_password() {
    let headers = with_auth("Basic YWxpY2U6c2VjcmV0");
    assert_eq!(unauthorized_message(basic_auth(&headers, "alice", "other")), "Invalid credentials");
}

#[test]
fn basic_auth_rejects_other_scheme_bad_base64_and_no_colon() {
    assert_eq!(
        unauthorized_message(basic_auth(&with_auth("Bearer x"), "a", "b")),
        "Invalid Authorization scheme"
    );
    assert_eq!(
        unauthorized_message(basic_auth(&with_auth("Basic !!!"), "a", "b")),
        "Invalid Base64 encoding"
    );
    // base64("alice")
    assert_eq!(
        unauthorized_message(basic_auth(&with_auth("Basic YWxpY2U="), "a", "b")),
        "Invalid credentials format"
    );
}

#[test]
fn basic_auth_password_may_hold_colons() {
    // base64("bob:a:b")
    let headers = with_auth("Basic Ym9iOmE6Yg==");
    assert_eq!(basic_auth(&headers, "bob", "a:b").unwrap().user, "bob");
}

#[test]
fn bearer_extracts_token() {
    let r = bearer(&with_auth("Bearer my-token-123")).unwrap();
    assert!(r.authenticated);
    assert_eq!(r.token, "my-token-123");
}

#[test]
fn bearer_rejects_missing_header_and_other_scheme() {
    assert_eq!(unauthorized_message(bearer(&HeaderList::new())), "Missing Authorization header");
    assert_eq!(unauthorized_message(bearer(&with_auth("Basic abc"))), "Invalid Authorization scheme");
}
