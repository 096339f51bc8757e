use axum_httpbin::fmt::decimal_string;
use axum_httpbin::json_utils::{body_as_string, parse_form_body, parse_json_value, percent_decode};
use axum_httpbin::error::AppError;
use axum_httpbin::state::AppState;
use axum_httpbin::models::SuccessResponse;

#[test]
fn form_fields_are_decoded() {
    let m = parse_form_body(b"name=J%C3%BCrgen&x&&y=a%2Bb&z=%zz1&w=%4");
    assert_eq!(m.get("x").unwrap(), "");
    assert_eq!(m.get("y").unwrap(), "a+b");
    // escapes give bytes, read as UTF-8; a malformed escape stays as written
    assert_eq!(m.get("name").unwrap(), "Jürgen");
    assert_eq!(m.get("z").unwrap(), "%zz1");
    assert_eq!(m.get("w").unwrap(), "%4");
    assert_eq!(m.len(), 5);
}

#[test]
fn empty_form_body_has_no_fields() {
    assert!(parse_form_body(b"").is_empty());
}

#[test]
fn body_text_and_json() {
    assert!(body_as_string(b"").is_none());
    assert!(body_as_string(b"\xff").is_none());
    assert_eq!(body_as_string("héllo".as_bytes()).unwrap(), "héllo");
    assert!(parse_json_value(b"").is_none());
    assert!(parse_json_value(b"nope").is_none());
    assert_eq!(parse_json_value(b"[1,2]").unwrap()[1], 2);
}

#[test]
fn decimal_text() {
    assert_eq!(decimal_string(0), "0");
    assert_eq!(decimal_string(7), "7");
    assert_eq!(decimal_string(1234567890), "1234567890");
    assert_eq!(decimal_string(u64::MAX), u64::MAX.to_string());
}

#[test]
fn error_status_message_and_text() {
    let e = AppError::BadRequest("oops".to_string());
    assert_eq!(e.status_code(), 400);
    assert_eq!(e.message(), "oops");
    let body = e.error_response();
    assert_eq!(body.error, "400 Bad Request");
    assert_eq!(body.message, "oops");
    assert_eq!(e.to_text(), "400 Bad Request: oops");
    assert_eq!(AppError::Unauthorized(String::new()).status_code(), 401);
    assert_eq!(AppError::NotFound(String::new()).status_code(), 404);
    assert_eq!(AppError::Internal("x".to_string()).to_text(), "500 Internal Server Error: x");
}

#[test]
fn state_and_envelopes() {
    let _s: AppState = AppState::new();
    let _d: AppState = AppState::default();
    let e = SuccessResponse::data(5u8);
    assert_eq!(e.data, Some(5));
    assert!(e.message.is_none());
    let m: SuccessResponse<u8> = SuccessResponse::message("hi".to_string());
    assert!(m.data.is_none());
    assert_eq!(m.message.unwrap(), "hi");
}

#[test]
fn percent_decode_reads_escapes_and_plus() {
    assert_eq!(percent_decode("plain"), "plain");
    assert_eq!(percent_decode("a+b%20c"), "a b c");
    assert_eq!(percent_decode("%41%6a"), "Aj");
    assert_eq!(percent_decode("x%zzy"), "x%zzy");
    assert_eq!(percent_decode("end%4"), "end%4");
    assert_eq!(percent_decode("100%"), "100%");
    assert_eq!(percent_decode("%"), "%");
    assert_eq!(percent_decode("%C3%A9"), "é");
    assert_eq!(percent_decode("%FF"), "\u{FFFD}");
}

#[test]
fn written_form_reads_back() {
    let m = parse_form_body("name=Jürgen&city=Köln&name=Ada&note=".as_bytes());
    assert_eq!(m.len(), 3);
    assert_eq!(m.get("name").unwrap(), "Ada");
    assert_eq!(m.get("city").unwrap(), "Köln");
    assert_eq!(m.get("note").unwrap(), "");
}

#[test]
fn form_escapes_read_as_utf8() {
    let m = parse_form_body(b"name=%C3%A9&pct=100%&bad=%zz");
    assert_eq!(m.get("name").unwrap(), "\u{e9}");
    assert_eq!(m.get("pct").unwrap(), "100%");
    assert_eq!(m.get("bad").unwrap(), "%zz");
}

#[test]
fn error_texts_carry_the_status_line() {
    assert_eq!(AppError::Unauthorized("u".to_string()).to_text(), "401 Unauthorized: u");
    assert_eq!(AppError::NotFound("n".to_string()).error_response().error, "404 Not Found");
}
