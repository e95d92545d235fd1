//! The built-in route handlers: the root greeting, the echo and user-agent
//! responders, and the continuations that turn file-read and file-write
//! results into responses.
//!
//! Each handler receives the request (with `params` already bound by the
//! router) and fills a response in place.

use vstd::prelude::*;

use crate::request::{lookup, lookup_ci, param_value, header_value, Request};
use crate::response::{upsert, RespView, Response};
use crate::router::{internal_error_resp, not_found_resp, apply_not_found, apply_internal_error};
use crate::text::{ascii, dec, format_usize, lit};

verus! {

/// The response shape `root_route` leaves: a plain `200 OK`.
pub open spec fn root_resp(r: RespView) -> RespView {
    RespView { status_code: 200, status_text: ascii("OK"@), ..r }
}

/// A `200 OK` carrying `body` with its content type and an exact
/// `Content-Length`.
pub open spec fn content_resp(r: RespView, ctype: Seq<u8>, body: Seq<u8>) -> RespView {
    RespView {
        status_code: 200,
        status_text: ascii("OK"@),
        headers: upsert(
            upsert(r.headers, ascii("Content-Type"@), ctype),
            ascii("Content-Length"@),
            dec(body.len()),
        ),
        body: body,
        ..r
    }
}

/// A `201` whose body is `Created`; the status text is left as it was.
pub open spec fn created_resp(r: RespView) -> RespView {
    RespView { status_code: 201, body: ascii("Created"@), ..r }
}

/// Answers `200 OK` and nothing more.
pub fn root_route(_req: &mut Request, res: &mut Response)
    ensures
        *final(_req) == *old(_req),
        final(res)@ == root_resp(old(res)@),
        old(res).wf() ==> final(res).wf(),
{
    proof {
        reveal_strlit("OK");
    }
    res.status_code = 200;
    res.status_text = lit("OK");
}

/// Echoes the `msg` path parameter as a `text/plain` body.
pub fn echo_route(req: &mut Request, res: &mut Response)
    requires
        lookup(old(req)@.params, ascii("msg"@)) is Some,
    ensures
        *final(req) == *old(req),
        final(res)@ == content_resp(
            old(res)@,
            ascii("text/plain"@),
            lookup(old(req)@.params, ascii("msg"@)).unwrap(),
        ),
        old(res).wf() ==> final(res).wf(),
{
    proof {
        reveal_strlit("msg");
        reveal_strlit("OK");
        reveal_strlit("Content-Type");
        reveal_strlit("text/plain");
        reveal_strlit("Content-Length");
    }
    let name = lit("msg");
    let msg = match param_value(&req.params, name.as_slice()) {
        Some(m) => vstd::slice::slice_to_vec(m.as_slice()),
        None => {
            proof {
                assert(false);
            }
            Vec::new()
        },
    };
    res.status_code = 200;
    res.status_text = lit("OK");
    res.set_header(lit("Content-Type"), lit("text/plain"));
    res.set_header(lit("Content-Length"), format_usize(msg.len()));
    res.body = msg;
}

/// Echoes the `User-Agent` request header as a `text/plain` body.
pub fn user_agent_route(req: &mut Request, res: &mut Response)
    requires
        lookup_ci(old(req)@.headers, ascii("User-Agent"@)) is Some,
    ensures
        *final(req) == *old(req),
        final(res)@ == content_resp(
            old(res)@,
            ascii("text/plain"@),
            lookup_ci(old(req)@.headers, ascii("User-Agent"@)).unwrap(),
        ),
        old(res).wf() ==> final(res).wf(),
{
    proof {
        reveal_strlit("User-Agent");
        reveal_strlit("OK");
        reveal_strlit("Content-Type");
        reveal_strlit("text/plain");
        reveal_strlit("Content-Length");
    }
    let name = lit("User-Agent");
    let ua = match header_value(&req.headers, name.as_slice()) {
        Some(v) => vstd::slice::slice_to_vec(v.as_slice()),
        None => {
            proof {
                assert(false);
            }
            Vec::new()
        },
    };
    res.status_code = 200;
    res.status_text = lit("OK");
    res.set_header(lit("Content-Type"), lit("text/plain"));
    res.set_header(lit("Content-Length"), format_usize(ua.len()));
    res.body = ua;
}

/// Turns the result of a file read into a response: the contents as
/// `application/octet-stream`, or the fixed not-found response when the
/// file could not be read.
pub fn get_file_result_route(contents: Option<Vec<u8>>, res: &mut Response)
    ensures
        match contents {
            Some(c) => final(res)@ == content_resp(
                old(res)@,
                ascii("application/octet-stream"@),
                c@,
            ),
            None => final(res)@ == not_found_resp(old(res)@),
        },
        old(res).wf() ==> final(res).wf(),
{
    match contents {
        Some(c) => {
            proof {
                reveal_strlit("OK");
                reveal_strlit("Content-Type");
                reveal_strlit("application/octet-stream");
                reveal_strlit("Content-Length");
            }
            res.status_code = 200;
            res.status_text = lit("OK");
            res.set_header(lit("Content-Type"), lit("application/octet-stream"));
            res.set_header(lit("Content-Length"), format_usize(c.len()));
            res.body = c;
        },
        None => {
            apply_not_found(res);
        },
    }
}

/// Turns the result of a file write into a response: `201 Created` on
/// success, or a 500 response carrying the error text.
pub fn post_file_result_route(error: Option<Vec<u8>>, res: &mut Response)
    ensures
        match error {
            None => final(res)@ == created_resp(old(res)@),
            Some(e) => final(res)@ == internal_error_resp(old(res)@, e@),
        },
        old(res).wf() ==> final(res).wf(),
{
    match error {
        None => {
            proof {
                reveal_strlit("Created");
            }
            res.status_code = 201;
            res.body = lit("Created");
        },
        Some(e) => {
            apply_internal_error(&e, res);
        },
    }
}

} // verus!
