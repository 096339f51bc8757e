use axum_httpbin::byte_seq::{find_subsequence, split_on, strip_prefix, strip_suffix};
use axum_httpbin::headers::HeaderList;
use axum_httpbin::request_body::{
    extract_boundary, parse_content_disposition, parse_disposition_value, parse_multipart,
    unquote, RequestBody,
};
use axum_httpbin::error::AppError;
use axum_httpbin::str_map::StrMap;
use axum_httpbin::utility::build_request_info;

/// Builds a `multipart/form-data` body with the given parts.
fn build_multipart_body(parts: &[(&str, Option<&str>, &[u8])]) -> (String, Vec<u8>) {
    let boundary = "----testboundary12345";
    let mut body = Vec::new();
    for (name, filename, data) in parts {
        body.extend_from_slice(format!("--{boundary}\r\n").as_bytes());
        match filename {
            Some(fname) => {
                body.extend_from_slice(
                    format!(
                        "Content-Disposition: form-data; name=\"{name}\"; filename=\"{fname}\"\r\n\
                         Content-Type: application/octet-stream\r\n\
                         \r\n"
                    )
                    .as_bytes(),
                );
            }
            None => {
                body.extend_from_slice(
                    format!("Content-Disposition: form-data; name=\"{name}\"\r\n\r\n").as_bytes(),
                );
            }
        }
        body.extend_from_slice(data);
        body.extend_from_slice(b"\r\n");
    }
    body.extend_from_slice(format!("--{boundary}--\r\n").as_bytes());
    (format!("multipart/form-data; boundary={boundary}"), body)
}

fn post_info(ct: &str, body: Vec<u8>) -> axum_httpbin::models::RequestInfo {
    let mut headers = HeaderList::new();
    headers.insert("content-type", ct.as_bytes());
    let rb = RequestBody::from_parts(ct.to_string(), body).unwrap();
    build_request_info("POST", "/post", &headers, None, StrMap::new(), rb)
}

#[test]
fn parses_multipart_text_and_file_fields() {
    let (ct, body) = build_multipart_body(&[
        ("text_field", None, b"hello"),
        ("upload", Some("hello.txt"), b"file contents here"),
    ]);
    let info = post_info(&ct, body);
    assert_eq!(info.form.get("text_field").unwrap(), "hello");
    // "file contents here" is 18 bytes
    assert_eq!(*info.files.get("hello.txt").unwrap(), 18u64);
}

#[test]
fn non_multipart_keeps_files_empty() {
    let info = post_info("application/json", br#"{"k":"v"}"#.to_vec());
    assert!(info.files.is_empty());
    let json = info.json.unwrap();
    assert_eq!(json["k"], "v");
    assert_eq!(info.data, "");
}

#[test]
fn empty_multipart_yields_no_fields_or_files() {
    let (ct, body) = build_multipart_body(&[]);
    let info = post_info(&ct, body);
    assert!(info.files.is_empty());
    assert!(info.form.is_empty());
}

#[test]
fn multipart_without_boundary_is_rejected() {
    match RequestBody::from_parts("multipart/form-data".to_string(), b"x".to_vec()) {
        Err(AppError::BadRequest(m)) => assert_eq!(m, "multipart content-type missing boundary"),
        _ => panic!("expected a bad request"),
    }
}

#[test]
fn plain_body_keeps_its_bytes() {
    let rb = RequestBody::from_parts("text/plain".to_string(), b"abc".to_vec()).unwrap();
    assert!(!rb.is_multipart());
    assert_eq!(rb.bytes, b"abc".to_vec());
    let info = post_info("text/plain", b"abc".to_vec());
    assert_eq!(info.data, "abc");
    assert!(info.json.is_none());
}

#[test]
fn later_multipart_field_replaces_earlier() {
    let (ct, body) = build_multipart_body(&[
        ("a", None, b"1"),
        ("a", None, b"2"),
        ("f", Some("x.bin"), b""),
    ]);
    let rb = RequestBody::from_parts(ct, body).unwrap();
    assert!(rb.is_multipart());
    assert!(rb.bytes.is_empty());
    assert_eq!(rb.text_fields.len(), 1);
    assert_eq!(rb.text_fields.get("a").unwrap(), "2");
    assert_eq!(*rb.files.get("x.bin").unwrap(), 0u64);
}

#[test]
fn boundary_is_found_and_unquoted() {
    assert_eq!(
        extract_boundary("multipart/form-data; charset=utf-8; boundary=\"abc\"").unwrap(),
        "abc"
    );
    assert_eq!(extract_boundary("multipart/form-data;boundary=xyz").unwrap(), "xyz");
    assert!(extract_boundary("boundary=first; other=1").is_none());
    assert!(extract_boundary("multipart/form-data").is_none());
}

#[test]
fn unquote_removes_one_pair_of_quotes() {
    assert_eq!(unquote("  \"a b\"  "), "a b");
    assert_eq!(unquote("'x'"), "x");
    assert_eq!(unquote("\"\"x\"\""), "\"x\"");
    assert_eq!(unquote("\"x'"), "\"x'");
    assert_eq!(unquote("\""), "\"");
}

#[test]
fn disposition_parameters_are_read() {
    let d = parse_disposition_value("form-data; name=\"f\"; filename=\"a.txt\"").unwrap();
    assert_eq!(d.name, "f");
    assert_eq!(d.filename.unwrap(), "a.txt");
    let d = parse_disposition_value("form-data; filename=a; name=b; name=c").unwrap();
    assert_eq!(d.name, "c");
    assert!(parse_disposition_value("form-data; filename=a").is_none());
}

#[test]
fn content_disposition_header_is_found_in_any_case() {
    let d = parse_content_disposition("Content-Type: text/plain\r\nCONTENT-DISPOSITION: form-data; name=q").unwrap();
    assert_eq!(d.name, "q");
    assert!(d.filename.is_none());
    assert!(parse_content_disposition("no colon\r\nContent-Disposition: form-data; name=q").is_none());
    assert!(parse_content_disposition("X: y").is_none());
}

#[test]
fn byte_splitting_and_stripping() {
    let parts = split_on(b"a--b----c", b"--");
    assert_eq!(parts, vec![&b"a"[..], &b"b"[..], &b""[..], &b"c"[..]]);
    assert_eq!(split_on(b"abc", b""), vec![&b"abc"[..]]);
    assert_eq!(find_subsequence(b"xxabab", b"ab"), Some(2));
    assert_eq!(find_subsequence(b"xx", b""), Some(0));
    assert_eq!(find_subsequence(b"xx", b"xxx"), None);
    assert_eq!(strip_prefix(b"\r\nabc", b"\r\n"), Some(&b"abc"[..]));
    assert_eq!(strip_prefix(b"abc", b"\r\n"), None);
    assert_eq!(strip_suffix(b"abc\r\n", b"\r\n"), Some(&b"abc"[..]));
    assert_eq!(strip_suffix(b"\n", b"\r\n"), None);
}

#[test]
fn parse_multipart_skips_parts_without_disposition() {
    let body = b"preamble--B\r\nX-Other: 1\r\n\r\nignored\r\n--B\r\nContent-Disposition: form-data; name=k\r\n\r\nv\r\n--B--\r\n";
    let (files, texts) = parse_multipart(body, "B");
    assert!(files.is_empty());
    assert_eq!(texts.len(), 1);
    assert_eq!(texts.get("k").unwrap(), "v");
}

#[test]
fn written_parts_read_back() {
    let mut body = Vec::new();
    body.extend_from_slice(b"--XyZ\r\nContent-Disposition: form-data; name=\"a\"\r\n\r\nhello\r\n");
    body.extend_from_slice(
        b"--XyZ\r\nContent-Disposition: form-data; name=\"up\"; filename=\"f.txt\"\r\n\r\nab\r\n\r\nc\r\n",
    );
    body.extend_from_slice(b"--XyZ\r\nContent-Disposition: form-data; name=\"b\"\r\n\r\n\r\n");
    body.extend_from_slice(b"--XyZ--\r\n");
    let (files, texts) = parse_multipart(&body, "XyZ");
    assert_eq!(files.len(), 1);
    assert_eq!(*files.get("f.txt").unwrap(), 7);
    assert_eq!(texts.len(), 2);
    assert_eq!(texts.get("a").unwrap(), "hello");
    assert_eq!(texts.get("b").unwrap(), "");
}
