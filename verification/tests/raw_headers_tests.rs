use axum_httpbin::raw_headers::{parse_raw_headers, HeaderPeeker};
use axum_httpbin::byte_seq::find_header_end;

#[test]
fn parses_headers_with_original_casing() {
    let raw = b"GET /get HTTP/1.1\r\nHost: example.com\r\nContent-Type: application/json\r\nX-Custom-Header: foo\r\n\r\nbody";
    let headers = parse_raw_headers(raw);
    assert_eq!(headers.get("Host").unwrap(), "example.com");
    assert_eq!(headers.get("Content-Type").unwrap(), "application/json");
    assert_eq!(headers.get("X-Custom-Header").unwrap(), "foo");
}

#[test]
fn empty_headers() {
    let raw = b"GET / HTTP/1.1\r\n\r\n";
    let headers = parse_raw_headers(raw);
    assert!(headers.is_empty());
}

#[test]
fn raw_headers_later_value_wins_and_bad_lines_skipped() {
    let raw = b"GET / HTTP/1.1\r\nX-A: 1\r\nno colon here\r\n: empty name\r\nX-A:  2 \r\n\r\nX-B: after blank";
    let headers = parse_raw_headers(raw);
    assert_eq!(headers.len(), 1);
    assert_eq!(headers.get("X-A").unwrap(), "2");
    assert!(headers.get("X-B").is_none());
}

#[test]
fn header_end_is_found_after_blank_line() {
    assert_eq!(find_header_end(b"GET / HTTP/1.1\r\nA: b\r\n\r\nxyz"), Some(24));
    assert_eq!(find_header_end(b"GET / HTTP/1.1\r\nA: b\r\n"), None);
}

#[test]
fn peeker_replays_every_byte_it_read() {
    let mut peeker = HeaderPeeker::new(());
    let mut raw: Vec<u8> = Vec::new();
    assert!(!peeker.feed(&mut raw, b"GET / HTTP/1.1\r\nHo"));
    assert!(peeker.feed(&mut raw, b"st: x\r\n\r\nBODY"));
    assert_eq!(raw, b"GET / HTTP/1.1\r\nHost: x\r\n\r\n".to_vec());
    let headers = peeker.finish(raw);
    assert_eq!(headers.get("Host").unwrap(), "x");
    let mut replayed: Vec<u8> = Vec::new();
    while peeker.has_pending() {
        replayed.extend(peeker.read_pending(7));
    }
    assert_eq!(replayed, b"GET / HTTP/1.1\r\nHost: x\r\n\r\nBODY".to_vec());
}

#[test]
fn peeker_replays_a_head_cut_short() {
    let mut peeker = HeaderPeeker::new(());
    let mut raw: Vec<u8> = Vec::new();
    assert!(!peeker.feed(&mut raw, b"GET / HTTP/1.1\r\nA: b"));
    assert!(!peeker.has_pending());
    assert!(peeker.feed(&mut raw, b""));
    let headers = peeker.finish(raw);
    assert_eq!(headers.get("A").unwrap(), "b");
    let replayed = peeker.read_pending(1000);
    assert_eq!(replayed, b"GET / HTTP/1.1\r\nA: b".to_vec());
    assert!(!peeker.has_pending());
    assert!(peeker.read_pending(10).is_empty());
}
