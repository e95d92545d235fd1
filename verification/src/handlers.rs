//! The fixed-pipeline responder: a request is answered directly from its
//! method and path, producing complete wire bytes without a route table.
//! `GET /` greets, `GET /echo/...` echoes the rest of the path, and
//! everything else is a plain 404.

use vstd::prelude::*;

use crate::request::Request;
use crate::text::{
    ascii,
    bytes_eq,
    dec,
    format_usize,
    lit,
    starts_with,
    starts_with_bytes,
    strip_prefix_rep,
    strip_prefix_rep_vec,
};

verus! {

/// The complete echo answer for `msg`: `200 OK`, `text/plain`, an exact
/// `Content-Length`, and `msg` as the body.
pub open spec fn echo_bytes(msg: Seq<u8>) -> Seq<u8> {
    ascii("HTTP/1.1 200 OK\r\nContent-Type: text/plain\r\nContent-Length: "@) + dec(msg.len())
        + ascii("\r\n\r\n"@) + msg
}

/// The bytes `route_request` answers for a method and path.
pub open spec fn route_request_spec(method: Seq<u8>, path: Seq<u8>) -> Seq<u8> {
    if method == ascii("GET"@) && path == ascii("/"@) {
        ascii("HTTP/1.1 200 OK\r\n\r\n"@)
    } else if method == ascii("GET"@) && starts_with(path, ascii("/echo/"@)) {
        echo_bytes(strip_prefix_rep(path, ascii("/echo/"@)))
    } else {
        ascii("HTTP/1.1 404 Not Found\r\n\r\n"@)
    }
}

/// Answers the request directly from its method and path.
pub fn route_request(request: &Request) -> (r: Vec<u8>)
    ensures
        r@ == route_request_spec(request@.method, request@.path),
{
    proof {
        reveal_strlit("GET");
        reveal_strlit("/");
        reveal_strlit("/echo/");
    }
    let get = lit("GET");
    let root = lit("/");
    let echo_prefix = lit("/echo/");
    let is_get = bytes_eq(request.method.as_slice(), get.as_slice());
    if is_get && bytes_eq(request.path.as_slice(), root.as_slice()) {
        respond_root()
    } else if is_get && starts_with_bytes(request.path.as_slice(), echo_prefix.as_slice()) {
        respond_echo(request.path.as_slice())
    } else {
        respond_not_found()
    }
}

fn respond_root() -> (r: Vec<u8>)
    ensures
        r@ == ascii("HTTP/1.1 200 OK\r\n\r\n"@),
{
    proof {
        reveal_strlit("HTTP/1.1 200 OK\r\n\r\n");
    }
    lit("HTTP/1.1 200 OK\r\n\r\n")
}

fn respond_echo(path: &[u8]) -> (r: Vec<u8>)
    ensures
        r@ == echo_bytes(strip_prefix_rep(path@, ascii("/echo/"@))),
{
    proof {
        reveal_strlit("/echo/");
        reveal_strlit("HTTP/1.1 200 OK\r\nContent-Type: text/plain\r\nContent-Length: ");
        reveal_strlit("\r\n\r\n");
    }
    let prefix = lit("/echo/");
    let msg = strip_prefix_rep_vec(path, prefix.as_slice());
    let mut out = lit("HTTP/1.1 200 OK\r\nContent-Type: text/plain\r\nContent-Length: ");
    let lenb = format_usize(msg.len());
    out.extend_from_slice(lenb.as_slice());
    let tail = lit("\r\n\r\n");
    out.extend_from_slice(tail.as_slice());
    out.extend_from_slice(msg.as_slice());
    proof {
        assert(out@ =~= echo_bytes(msg@));
    }
    out
}

fn respond_not_found() -> (r: Vec<u8>)
    ensures
        r@ == ascii("HTTP/1.1 404 Not Found\r\n\r\n"@),
{
    proof {
        reveal_strlit("HTTP/1.1 404 Not Found\r\n\r\n");
    }
    lit("HTTP/1.1 404 Not Found\r\n\r\n")
}

} // verus!
