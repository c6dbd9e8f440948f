use search_index::digest::content_id;
use search_index::http::{format_response, parse_request_line};

#[test]
fn request_line_needs_both_spaces() {
    let (m, u) = parse_request_line(b"GET /cs HTTP/1.1\r\n").unwrap();
    assert_eq!(m, b"GET".to_vec());
    assert_eq!(u, b"/cs".to_vec());
    assert!(parse_request_line(b"GET /cs").is_none());
    assert!(parse_request_line(b"").is_none());
}

#[test]
fn response_has_status_headers_and_body() {
    let r = format_response(200, &vec![("Content-Type".to_string(), "text/plain".to_string())], &b"Hello, world!".to_vec());
    assert_eq!(r, b"HTTP/1.1 200 OK\r\nContent-Type: text/plain\r\n\r\nHello, world!".to_vec());
    let r = format_response(404, &Vec::new(), &Vec::new());
    assert_eq!(r, b"HTTP/1.1 404 Unknown\r\n\r\n".to_vec());
    let r = format_response(7, &Vec::new(), &Vec::new());
    assert_eq!(r, b"HTTP/1.1 7 Unknown\r\n\r\n".to_vec());
}

#[test]
fn content_ids_are_url_safe_digests() {
    let id = content_id(b"abc");
    assert_eq!(id, base64::encode_config(blake3::hash(b"abc").as_bytes(), base64::URL_SAFE_NO_PAD));
    assert_eq!(id.len(), 43);
    assert_ne!(id, "abc");
    assert_eq!(content_id(b"abc"), id);
    assert_ne!(content_id(b"abd"), id);
}
