use std::io::Read;

use http_pipeline::encoding::{accepts_gzip_exec, encode_response};
use http_pipeline::request::Request;
use http_pipeline::response::Response;

fn v(s: &str) -> Vec<u8> {
    s.as_bytes().to_vec()
}

fn request_with_accept_encoding(value: Option<&str>) -> Request {
    let mut headers = Vec::new();
    if let Some(val) = value {
        headers.push((v("Accept-Encoding"), v(val)));
    }
    Request {
        method: v("GET"),
        path: v("/echo/x"),
        http_version: v("HTTP/1.1"),
        headers,
        body: Vec::new(),
        params: Vec::new(),
    }
}

#[test]
fn accepts_gzip_token_forms() {
    assert!(accepts_gzip_exec(b"gzip"));
    assert!(accepts_gzip_exec(b" gzip "));
    assert!(accepts_gzip_exec(b"gzip, deflate"));
    assert!(accepts_gzip_exec(b"deflate,  gzip"));
    assert!(!accepts_gzip_exec(b"deflate"));
    assert!(!accepts_gzip_exec(b"gzipx"));
    assert!(!accepts_gzip_exec(b"x-gzip"));
    assert!(!accepts_gzip_exec(b""));
}

#[test]
fn encode_compresses_and_reconciles_headers() {
    let original = v("hello hello hello hello hello hello hello");
    let req = request_with_accept_encoding(Some("gzip, deflate"));
    let mut resp = Response::new();
    resp.set_header(v("Content-Length"), original.len().to_string().into_bytes());
    resp.body = original.clone();
    encode_response(&req, &mut resp);
    assert_ne!(resp.body, original);
    assert_eq!(resp.body[0], 0x1f);
    assert_eq!(resp.body[1], 0x8b);
    let mut names = Vec::new();
    for (name, _) in &resp.headers {
        names.push(name.clone());
    }
    assert!(names.contains(&v("Content-Encoding")));
    let ce = resp
        .headers
        .iter()
        .find(|(n, _)| n == &v("Content-Encoding"))
        .map(|(_, val)| val.clone())
        .unwrap();
    assert_eq!(ce, v("gzip"));
    let cl = resp
        .headers
        .iter()
        .find(|(n, _)| n == &v("Content-Length"))
        .map(|(_, val)| val.clone())
        .unwrap();
    assert_eq!(cl, resp.body.len().to_string().into_bytes());
    let mut decoder = flate2::read::GzDecoder::new(&resp.body[..]);
    let mut decompressed = Vec::new();
    decoder.read_to_end(&mut decompressed).unwrap();
    assert_eq!(decompressed, original);
}

#[test]
fn encode_leaves_response_alone_without_gzip_token() {
    let req = request_with_accept_encoding(Some("deflate"));
    let mut resp = Response::new();
    resp.body = v("plain body");
    let before = resp.format_response();
    encode_response(&req, &mut resp);
    assert_eq!(resp.format_response(), before);
}

#[test]
fn encode_leaves_response_alone_without_header() {
    let req = request_with_accept_encoding(None);
    let mut resp = Response::new();
    resp.body = v("plain body");
    let before = resp.format_response();
    encode_response(&req, &mut resp);
    assert_eq!(resp.format_response(), before);
}

#[test]
fn encode_finds_header_case_insensitively() {
    let mut req = request_with_accept_encoding(None);
    req.headers.push((v("accept-encoding"), v("gzip")));
    let mut resp = Response::new();
    resp.body = v("zip me please zip me please");
    encode_response(&req, &mut resp);
    assert_eq!(resp.body[0], 0x1f);
    let mut decoder = flate2::read::GzDecoder::new(&resp.body[..]);
    let mut decompressed = Vec::new();
    decoder.read_to_end(&mut decompressed).unwrap();
    assert_eq!(decompressed, v("zip me please zip me please"));
}
