use http_pipeline::response::Response;

fn v(s: &str) -> Vec<u8> {
    s.as_bytes().to_vec()
}

#[test]
fn new_response_defaults() {
    let r = Response::new();
    assert_eq!(r.http_version, v("HTTP/1.1"));
    assert_eq!(r.status_code, 200);
    assert_eq!(r.status_text, v("OK"));
    assert!(r.headers.is_empty());
    assert!(r.body.is_empty());
}

#[test]
fn set_header_appends_then_replaces() {
    let mut r = Response::new();
    r.set_header(v("Content-Type"), v("text/plain"));
    r.set_header(v("Content-Length"), v("3"));
    assert_eq!(r.headers.len(), 2);
    r.set_header(v("Content-Length"), v("12"));
    assert_eq!(r.headers.len(), 2);
    assert_eq!(r.headers[1], (v("Content-Length"), v("12")));
    assert_eq!(r.headers[0], (v("Content-Type"), v("text/plain")));
}

#[test]
fn format_response_exact_bytes() {
    let mut r = Response::new();
    r.set_header(v("Content-Type"), v("text/plain"));
    r.set_header(v("Content-Length"), v("3"));
    r.body = v("abc");
    let bytes = r.format_response();
    assert_eq!(
        bytes,
        b"HTTP/1.1 200 OK\r\nContent-Type: text/plain\r\nContent-Length: 3\r\n\r\nabc".to_vec()
    );
}

#[test]
fn format_response_without_headers_or_body() {
    let r = Response::new();
    assert_eq!(r.format_response(), b"HTTP/1.1 200 OK\r\n\r\n".to_vec());
}

#[test]
fn format_then_parse_round_trip() {
    let mut r = Response::new();
    r.status_code = 404;
    r.status_text = v("Not Found");
    r.set_header(v("Content-Type"), v("application/octet-stream"));
    r.set_header(v("Content-Length"), v("4"));
    r.set_header(v("X-Extra"), v("a: b, c"));
    r.body = vec![0u8, 159, 146, 150];
    let bytes = r.format_response();
    let back = Response::parse(&bytes).unwrap();
    assert_eq!(back.http_version, r.http_version);
    assert_eq!(back.status_code, r.status_code);
    assert_eq!(back.status_text, r.status_text);
    assert_eq!(back.headers, r.headers);
    assert_eq!(back.body, r.body);
}

#[test]
fn round_trip_keeps_status_text_with_spaces() {
    let mut r = Response::new();
    r.status_code = 500;
    r.status_text = v("Internal Server Error");
    r.body = v("Error: it broke");
    let back = Response::parse(&r.format_response()).unwrap();
    assert_eq!(back.status_code, 500);
    assert_eq!(back.status_text, v("Internal Server Error"));
    assert_eq!(back.body, v("Error: it broke"));
}

#[test]
fn parse_handwritten_message() {
    let msg = b"HTTP/1.1 301 Moved Permanently\r\nLocation: /new\r\n\r\ngone";
    let resp = Response::parse(msg).unwrap();
    assert_eq!(resp.http_version, v("HTTP/1.1"));
    assert_eq!(resp.status_code, 301);
    assert_eq!(resp.status_text, v("Moved Permanently"));
    assert_eq!(resp.headers, vec![(v("Location"), v("/new"))]);
    assert_eq!(resp.body, v("gone"));
}

#[test]
fn parse_rejects_missing_status_code() {
    assert!(Response::parse(b"nonsense\r\n\r\n").is_none());
    assert!(Response::parse(b"HTTP/1.1 abc OK\r\n\r\n").is_none());
    assert!(Response::parse(b"HTTP/1.1\r\n\r\n").is_none());
}
