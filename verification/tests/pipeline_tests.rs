//! End-to-end exercises of the parse, route, encode and serialize pipeline,
//! with the route table the server wires up at startup.

use std::io::Read;

use http_pipeline::encoding::encode_response;
use http_pipeline::handlers::route_request;
use http_pipeline::request::Request;
use http_pipeline::router::{Handler, RouteOutcome, Router};
use http_pipeline::routes::{get_file_result_route, post_file_result_route};

fn v(s: &str) -> Vec<u8> {
    s.as_bytes().to_vec()
}

fn standard_router() -> Router {
    let mut router = Router::new();
    router.register(v("GET"), v("/"), Handler::Root);
    router.register(v("GET"), v("/echo/{msg}"), Handler::Echo);
    router.register(v("GET"), v("/user-agent"), Handler::UserAgent);
    router.register(v("GET"), v("/files/{filename}"), Handler::GetFile);
    router.register(v("POST"), v("/files/{filename}"), Handler::PostFile);
    router
}

#[test]
fn scenario_root_answers_200() {
    let router = standard_router();
    let mut req = Request::parse(b"GET / HTTP/1.1\r\n\r\n").unwrap();
    match router.route(&mut req) {
        RouteOutcome::Done(mut resp) => {
            encode_response(&req, &mut resp);
            assert_eq!(resp.format_response(), b"HTTP/1.1 200 OK\r\n\r\n".to_vec());
        },
        _ => panic!("expected a finished response"),
    }
}

#[test]
fn scenario_echo_answers_text_plain() {
    let router = standard_router();
    let mut req = Request::parse(b"GET /echo/abc HTTP/1.1\r\n\r\n").unwrap();
    match router.route(&mut req) {
        RouteOutcome::Done(resp) => {
            assert_eq!(resp.status_code, 200);
            assert_eq!(resp.headers[0], (v("Content-Type"), v("text/plain")));
            assert_eq!(resp.headers[1], (v("Content-Length"), v("3")));
            assert_eq!(resp.body, v("abc"));
        },
        _ => panic!("expected a finished response"),
    }
}

#[test]
fn scenario_unknown_path_answers_404() {
    let router = standard_router();
    let mut req = Request::parse(b"GET /nope HTTP/1.1\r\n\r\n").unwrap();
    match router.route(&mut req) {
        RouteOutcome::Done(resp) => {
            assert_eq!(resp.status_code, 404);
            assert_eq!(resp.status_text, v("Not Found"));
            assert_eq!(resp.body, v("The requested resource was not found."));
        },
        _ => panic!("expected a finished response"),
    }
}

#[test]
fn scenario_file_upload_then_download() {
    let router = standard_router();
    let mut post = Request::parse(b"POST /files/test.txt HTTP/1.1\r\nContent-Length: 5\r\n\r\nhello")
        .unwrap();
    let mut stored: Option<Vec<u8>> = None;
    match router.route(&mut post) {
        RouteOutcome::WriteFile { filename, contents, mut response } => {
            assert_eq!(filename, v("test.txt"));
            assert_eq!(contents, v("hello"));
            stored = Some(contents);
            post_file_result_route(None, &mut response);
            assert_eq!(response.status_code, 201);
        },
        _ => panic!("expected a file-write outcome"),
    }
    let mut get = Request::parse(b"GET /files/test.txt HTTP/1.1\r\n\r\n").unwrap();
    match router.route(&mut get) {
        RouteOutcome::ReadFile { filename, mut response } => {
            assert_eq!(filename, v("test.txt"));
            get_file_result_route(stored, &mut response);
            assert_eq!(response.status_code, 200);
            assert_eq!(response.body, v("hello"));
        },
        _ => panic!("expected a file-read outcome"),
    }
}

#[test]
fn scenario_gzip_negotiated_end_to_end() {
    let router = standard_router();
    let raw = b"GET /echo/squeeze HTTP/1.1\r\nAccept-Encoding: gzip, deflate\r\n\r\n";
    let mut req = Request::parse(raw).unwrap();
    match router.route(&mut req) {
        RouteOutcome::Done(mut resp) => {
            encode_response(&req, &mut resp);
            let ce = resp
                .headers
                .iter()
                .find(|(n, _)| n == &v("Content-Encoding"))
                .map(|(_, val)| val.clone())
                .unwrap();
            assert_eq!(ce, v("gzip"));
            let cl = resp
                .headers
                .iter()
                .find(|(n, _)| n == &v("Content-Length"))
                .map(|(_, val)| val.clone())
                .unwrap();
            assert_eq!(cl, resp.body.len().to_string().into_bytes());
            let mut decoder = flate2::read::GzDecoder::new(&resp.body[..]);
            let mut decompressed = Vec::new();
            decoder.read_to_end(&mut decompressed).unwrap();
            assert_eq!(decompressed, v("squeeze"));
        },
        _ => panic!("expected a finished response"),
    }
}

#[test]
fn route_request_root() {
    let req = Request::parse(b"GET / HTTP/1.1\r\n\r\n").unwrap();
    assert_eq!(route_request(&req), b"HTTP/1.1 200 OK\r\n\r\n".to_vec());
}

#[test]
fn route_request_echo() {
    let req = Request::parse(b"GET /echo/abc HTTP/1.1\r\n\r\n").unwrap();
    assert_eq!(
        route_request(&req),
        b"HTTP/1.1 200 OK\r\nContent-Type: text/plain\r\nContent-Length: 3\r\n\r\nabc".to_vec()
    );
}

#[test]
fn route_request_unknown_is_404() {
    let req = Request::parse(b"POST / HTTP/1.1\r\n\r\n").unwrap();
    assert_eq!(route_request(&req), b"HTTP/1.1 404 Not Found\r\n\r\n".to_vec());
}

#[test]
fn route_request_strips_repeated_echo_prefix() {
    let req = Request::parse(b"GET /echo//echo/hi HTTP/1.1\r\n\r\n").unwrap();
    assert_eq!(
        route_request(&req),
        b"HTTP/1.1 200 OK\r\nContent-Type: text/plain\r\nContent-Length: 2\r\n\r\nhi".to_vec()
    );
}
