use http_pipeline::request::Request;
use http_pipeline::response::Response;
use http_pipeline::router::{
    make_interval_server_error_route, match_route, not_found_route, Handler, RouteOutcome, Router,
};
use http_pipeline::routes::{get_file_result_route, post_file_result_route};

fn v(s: &str) -> Vec<u8> {
    s.as_bytes().to_vec()
}

fn request(method: &str, path: &str) -> Request {
    Request {
        method: v(method),
        path: v(path),
        http_version: v("HTTP/1.1"),
        headers: Vec::new(),
        body: Vec::new(),
        params: Vec::new(),
    }
}

const NOT_FOUND_BODY: &[u8] = b"The requested resource was not found.";

#[test]
fn match_route_binds_placeholder() {
    let params = match_route(b"/echo/{msg}", b"/echo/hello").unwrap();
    assert_eq!(params.len(), 1);
    assert_eq!(params[0].0, v("msg"));
    assert_eq!(params[0].1, v("hello"));
}

#[test]
fn match_route_normalizes_slashes() {
    let params = match_route(b"//echo///{msg}/", b"/echo/x").unwrap();
    assert_eq!(params.len(), 1);
    assert_eq!(params[0].1, v("x"));
}

#[test]
fn match_route_static_mismatch() {
    assert!(match_route(b"/echo/{msg}", b"/files/x").is_none());
}

#[test]
fn match_route_segment_count_mismatch() {
    assert!(match_route(b"/echo/{msg}", b"/echo/a/b").is_none());
    assert!(match_route(b"/echo/{msg}", b"/echo").is_none());
}

#[test]
fn match_route_empty_braces_bind_empty_name() {
    let params = match_route(b"/x/{}", b"/x/seg").unwrap();
    assert_eq!(params[0].0, Vec::<u8>::new());
    assert_eq!(params[0].1, v("seg"));
}

#[test]
fn route_echo_binds_params() {
    let mut router = Router::new();
    router.register(v("GET"), v("/echo/{msg}"), Handler::Echo);
    let mut req = request("GET", "/echo/hello");
    let out = router.route(&mut req);
    assert_eq!(req.params.len(), 1);
    assert_eq!(req.params[0].0, v("msg"));
    assert_eq!(req.params[0].1, v("hello"));
    match out {
        RouteOutcome::Done(resp) => {
            assert_eq!(resp.status_code, 200);
            assert_eq!(resp.status_text, v("OK"));
            assert_eq!(resp.body, v("hello"));
            assert_eq!(resp.headers.len(), 2);
            assert_eq!(resp.headers[0], (v("Content-Type"), v("text/plain")));
            assert_eq!(resp.headers[1], (v("Content-Length"), v("5")));
        },
        _ => panic!("expected a finished response"),
    }
}

#[test]
fn route_unmatched_is_404_with_fixed_body() {
    let mut router = Router::new();
    router.register(v("GET"), v("/"), Handler::Root);
    let mut req = request("GET", "/nope");
    match router.route(&mut req) {
        RouteOutcome::Done(resp) => {
            assert_eq!(resp.status_code, 404);
            assert_eq!(resp.status_text, v("Not Found"));
            assert_eq!(resp.body, NOT_FOUND_BODY.to_vec());
        },
        _ => panic!("expected a finished response"),
    }
    assert!(req.params.is_empty());
}

#[test]
fn route_method_comparison_is_case_insensitive() {
    let mut router = Router::new();
    router.register(v("get"), v("/"), Handler::Root);
    let mut req = request("GET", "/");
    match router.route(&mut req) {
        RouteOutcome::Done(resp) => assert_eq!(resp.status_code, 200),
        _ => panic!("expected a finished response"),
    }
}

#[test]
fn route_first_registered_match_wins() {
    let mut router = Router::new();
    router.register(v("GET"), v("/{x}"), Handler::Root);
    router.register(v("GET"), v("/a"), Handler::NotFound);
    let mut req = request("GET", "/a");
    match router.route(&mut req) {
        RouteOutcome::Done(resp) => assert_eq!(resp.status_code, 200),
        _ => panic!("expected a finished response"),
    }
}

#[test]
fn route_user_agent_echoes_header() {
    let mut router = Router::new();
    router.register(v("GET"), v("/user-agent"), Handler::UserAgent);
    let mut req = request("GET", "/user-agent");
    req.headers.push((v("User-Agent"), v("foobar/1.2.3")));
    match router.route(&mut req) {
        RouteOutcome::Done(resp) => {
            assert_eq!(resp.status_code, 200);
            assert_eq!(resp.body, v("foobar/1.2.3"));
            assert_eq!(resp.headers[1], (v("Content-Length"), v("12")));
        },
        _ => panic!("expected a finished response"),
    }
}

#[test]
fn route_get_file_asks_for_a_read() {
    let mut router = Router::new();
    router.register(v("GET"), v("/files/{filename}"), Handler::GetFile);
    let mut req = request("GET", "/files/test.txt");
    match router.route(&mut req) {
        RouteOutcome::ReadFile { filename, mut response } => {
            assert_eq!(filename, v("test.txt"));
            get_file_result_route(Some(v("data!")), &mut response);
            assert_eq!(response.status_code, 200);
            assert_eq!(
                response.headers[0],
                (v("Content-Type"), v("application/octet-stream"))
            );
            assert_eq!(response.headers[1], (v("Content-Length"), v("5")));
            assert_eq!(response.body, v("data!"));
        },
        _ => panic!("expected a file-read outcome"),
    }
}

#[test]
fn get_file_result_empty_file_has_zero_length() {
    let mut response = Response::new();
    get_file_result_route(Some(Vec::new()), &mut response);
    assert_eq!(response.status_code, 200);
    assert_eq!(response.headers[1], (v("Content-Length"), v("0")));
    assert!(response.body.is_empty());
}

#[test]
fn get_file_result_missing_file_is_404() {
    let mut response = Response::new();
    get_file_result_route(None, &mut response);
    assert_eq!(response.status_code, 404);
    assert_eq!(response.body, NOT_FOUND_BODY.to_vec());
}

#[test]
fn route_post_file_asks_for_a_write() {
    let mut router = Router::new();
    router.register(v("POST"), v("/files/{filename}"), Handler::PostFile);
    let mut req = request("POST", "/files/out.bin");
    req.body = v("payload");
    match router.route(&mut req) {
        RouteOutcome::WriteFile { filename, contents, mut response } => {
            assert_eq!(filename, v("out.bin"));
            assert_eq!(contents, v("payload"));
            post_file_result_route(None, &mut response);
            assert_eq!(response.status_code, 201);
            assert_eq!(response.status_text, v("OK"));
            assert_eq!(response.body, v("Created"));
        },
        _ => panic!("expected a file-write outcome"),
    }
}

#[test]
fn post_file_result_error_is_500() {
    let mut response = Response::new();
    post_file_result_route(Some(v("disk full")), &mut response);
    assert_eq!(response.status_code, 500);
    assert_eq!(response.status_text, v("Internal Server Error"));
    assert_eq!(response.body, v("Error: disk full"));
}

#[test]
fn internal_error_handler_answers_500() {
    let mut router = Router::new();
    router.default_route = make_interval_server_error_route(v("boom"));
    let mut req = request("GET", "/whatever");
    match router.route(&mut req) {
        RouteOutcome::Done(resp) => {
            assert_eq!(resp.status_code, 500);
            assert_eq!(resp.body, v("Error: boom"));
        },
        _ => panic!("expected a finished response"),
    }
}

#[test]
fn not_found_route_fills_fixed_response() {
    let mut req = request("GET", "/");
    let mut resp = Response::new();
    not_found_route(&mut req, &mut resp);
    assert_eq!(resp.status_code, 404);
    assert_eq!(resp.status_text, v("Not Found"));
    assert_eq!(resp.body, NOT_FOUND_BODY.to_vec());
}

#[test]
fn routing_twice_gives_the_same_response() {
    let mut router = Router::new();
    router.register(v("GET"), v("/echo/{msg}"), Handler::Echo);
    let mut req = request("GET", "/echo/twice");
    let first = match router.route(&mut req) {
        RouteOutcome::Done(resp) => resp.format_response(),
        _ => panic!("expected a finished response"),
    };
    let second = match router.route(&mut req) {
        RouteOutcome::Done(resp) => resp.format_response(),
        _ => panic!("expected a finished response"),
    };
    assert_eq!(first, second);
    assert_eq!(req.params, vec![(v("msg"), v("twice"))]);
}
