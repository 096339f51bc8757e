use axum_httpbin::client_ip::client_ip;
use axum_httpbin::headers::HeaderList;

#[test]
fn returns_x_forwarded_for() {
    let mut headers = HeaderList::new();
    headers.insert("x-forwarded-for", b"10.0.0.1, 10.0.0.2");
    assert_eq!(client_ip(&headers, None), "10.0.0.1");
}

#[test]
fn returns_x_real_ip() {
    let mut headers = HeaderList::new();
    headers.insert("x-real-ip", b"10.0.0.3");
    assert_eq!(client_ip(&headers, None), "10.0.0.3");
}

#[test]
fn returns_unknown_without_info() {
    let headers = HeaderList::new();
    assert_eq!(client_ip(&headers, None), "unknown");
}

#[test]
fn forwarded_for_wins_over_real_ip_and_peer() {
    let mut headers = HeaderList::new();
    headers.insert("X-Real-Ip", b"10.0.0.3");
    headers.insert("X-Forwarded-For", b"  192.168.1.7 ");
    assert_eq!(client_ip(&headers, Some("127.0.0.1")), "192.168.1.7");
}

#[test]
fn real_ip_is_trimmed_and_wins_over_peer() {
    let mut headers = HeaderList::new();
    headers.insert("x-real-ip", b"\t10.1.2.3  ");
    assert_eq!(client_ip(&headers, Some("127.0.0.1")), "10.1.2.3");
}

#[test]
fn falls_back_to_peer_address() {
    let headers = HeaderList::new();
    assert_eq!(client_ip(&headers, Some("127.0.0.1")), "127.0.0.1");
}

#[test]
fn unreadable_forwarded_for_is_skipped() {
    let mut headers = HeaderList::new();
    headers.insert("x-forwarded-for", b"10.0.0.1\x7f");
    headers.insert("x-real-ip", b"10.0.0.9");
    assert_eq!(client_ip(&headers, None), "10.0.0.9");
}

#[test]
fn header_names_match_without_case_and_insert_replaces() {
    let mut headers = HeaderList::new();
    headers.append("X-Test", b"a");
    headers.append("x-test", b"b");
    assert_eq!(headers.len(), 2);
    assert_eq!(headers.get_str("X-TEST").unwrap(), "a");
    headers.insert("X-Test", b"c");
    assert_eq!(headers.len(), 1);
    assert_eq!(headers.get_str("x-test").unwrap(), "c");
    assert_eq!(headers.field(0).0, "x-test");
}
