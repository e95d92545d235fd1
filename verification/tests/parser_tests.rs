use http_pipeline::request::{header_value, ParseError, Request};

#[test]
fn parse_simple_request_line() {
    let req = Request::parse(b"GET / HTTP/1.1\r\n\r\n").unwrap();
    assert_eq!(req.method, b"GET".to_vec());
    assert_eq!(req.path, b"/".to_vec());
    assert_eq!(req.http_version, b"HTTP/1.1".to_vec());
    assert!(req.headers.is_empty());
    assert!(req.body.is_empty());
    assert!(req.params.is_empty());
}

#[test]
fn parse_headers_and_body() {
    let raw = b"POST /files/a.txt HTTP/1.1\r\nContent-Length: 5\r\nUser-Agent: curl/8\r\n\r\nhello";
    let req = Request::parse(raw).unwrap();
    assert_eq!(req.method, b"POST".to_vec());
    assert_eq!(req.path, b"/files/a.txt".to_vec());
    assert_eq!(req.headers.len(), 2);
    assert_eq!(req.body, b"hello".to_vec());
    let cl = header_value(&req.headers, b"content-length").unwrap();
    assert_eq!(cl, &b"5".to_vec());
    let ua = header_value(&req.headers, b"USER-AGENT").unwrap();
    assert_eq!(ua, &b"curl/8".to_vec());
}

#[test]
fn parse_body_too_short_is_an_error() {
    let raw = b"POST /x HTTP/1.1\r\nContent-Length: 10\r\n\r\nabc";
    let err = Request::parse(raw).unwrap_err();
    assert_eq!(err, ParseError::BodyTooShort { declared: 10, available: 3 });
}

#[test]
fn parse_empty_input_gives_empty_fields() {
    let req = Request::parse(b"").unwrap();
    assert!(req.method.is_empty());
    assert!(req.path.is_empty());
    assert!(req.http_version.is_empty());
    assert!(req.headers.is_empty());
    assert!(req.body.is_empty());
}

#[test]
fn parse_drops_header_line_without_colon() {
    let raw = b"GET / HTTP/1.1\r\nthis line has no separator\r\nHost: here\r\n\r\n";
    let req = Request::parse(raw).unwrap();
    assert_eq!(req.headers.len(), 1);
    assert_eq!(req.headers[0].0, b"Host".to_vec());
    assert_eq!(req.headers[0].1, b"here".to_vec());
}

#[test]
fn parse_duplicate_header_last_wins() {
    let raw = b"POST /x HTTP/1.1\r\nContent-Length: 9\r\nContent-Length: 2\r\n\r\nhi and more";
    let req = Request::parse(raw).unwrap();
    assert_eq!(req.body, b"hi".to_vec());
    let cl = header_value(&req.headers, b"Content-Length").unwrap();
    assert_eq!(cl, &b"2".to_vec());
}

#[test]
fn parse_unparsable_content_length_gives_empty_body() {
    let raw = b"POST /x HTTP/1.1\r\nContent-Length: soon\r\n\r\nhello";
    let req = Request::parse(raw).unwrap();
    assert!(req.body.is_empty());
}

#[test]
fn parse_accepts_bare_lf_line_endings() {
    let raw = b"GET /p HTTP/1.1\nHost: x\n\n";
    let req = Request::parse(raw).unwrap();
    assert_eq!(req.path, b"/p".to_vec());
    assert_eq!(req.headers.len(), 1);
    assert_eq!(req.headers[0].1, b"x".to_vec());
}

#[test]
fn parse_trims_header_name_and_value() {
    let raw = b"GET / HTTP/1.1\r\n  Accept  :   text/html  \r\n\r\n";
    let req = Request::parse(raw).unwrap();
    assert_eq!(req.headers[0].0, b"Accept".to_vec());
    assert_eq!(req.headers[0].1, b"text/html".to_vec());
}

#[test]
fn parse_missing_tokens_become_empty() {
    let req = Request::parse(b"GET\r\n\r\n").unwrap();
    assert_eq!(req.method, b"GET".to_vec());
    assert!(req.path.is_empty());
    assert!(req.http_version.is_empty());
}

#[test]
fn parse_overflowing_content_length_gives_empty_body() {
    let raw = b"POST /x HTTP/1.1\r\nContent-Length: 99999999999999999999999999\r\n\r\nhello";
    let req = Request::parse(raw).unwrap();
    assert!(req.body.is_empty());
}

#[test]
fn parse_content_length_with_plus_sign() {
    let raw = b"POST /x HTTP/1.1\r\nContent-Length: +4\r\n\r\nabcdE";
    let req = Request::parse(raw).unwrap();
    assert_eq!(req.body, b"abcd".to_vec());
}
