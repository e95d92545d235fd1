//! The HTTP request model: a structured request and the permissive parser
//! that builds one from the raw bytes of a single connection.
//!
//! The request line is split on whitespace into method, path and version;
//! missing tokens become empty strings. Header lines run until a blank line
//! or the end of the input; a line without a colon is dropped, and both sides
//! of the first colon are trimmed. A body is read only when a `Content-Length`
//! header parses as an unsigned integer, and must be fully present.

use vstd::prelude::*;

use crate::text::{
    ascii,
    ci_eq,
    colon_at,
    eq_p,
    find_byte,
    find_non_ws,
    find_ws,
    lemma_find_if_ge,
    lemma_vec_u8_deep_view,
    line_end,
    lit,
    parse_usize,
    parses_as_usize,
    skip_ws,
    trim,
    trim_slice,
    usize_val,
    ws_or_end,
    eq_ignore_case,
    bytes_eq,
};

verus! {

broadcast use lemma_vec_u8_deep_view;

/// The first line of `s`: everything before the first line feed.
pub open spec fn first_line(s: Seq<u8>) -> Seq<u8> {
    s.subrange(0, line_end(s, 0))
}

/// The position just after the first line, where the header section starts.
pub open spec fn after_first_line(s: Seq<u8>) -> int {
    if line_end(s, 0) < s.len() {
        line_end(s, 0) + 1
    } else {
        s.len() as int
    }
}

/// The whitespace-separated token of `line` that starts at or after `i`;
/// empty when only whitespace remains.
pub open spec fn token_at(line: Seq<u8>, i: int) -> Seq<u8> {
    line.subrange(skip_ws(line, i), ws_or_end(line, skip_ws(line, i)))
}

/// The position just after the token that starts at or after `i`.
pub open spec fn next_tok_pos(line: Seq<u8>, i: int) -> int {
    ws_or_end(line, skip_ws(line, i))
}

/// The header pair a single line yields: both sides of the first colon,
/// trimmed; `None` when the line has no colon.
pub open spec fn header_of_line(line: Seq<u8>) -> Option<(Seq<u8>, Seq<u8>)> {
    let c = colon_at(line, 0);
    if c >= line.len() {
        None
    } else {
        Some((trim(line.subrange(0, c)), trim(line.subrange(c + 1, line.len() as int))))
    }
}

/// The header pairs read from `s` starting at `i`, in line order, and the
/// position just after the blank line (or end) that stops the header section.
pub open spec fn headers_from(s: Seq<u8>, i: int) -> (Seq<(Seq<u8>, Seq<u8>)>, int)
    decreases s.len() - i
    via headers_from_dec
{
    if i >= s.len() {
        (Seq::empty(), s.len() as int)
    } else {
        let e = line_end(s, i);
        let line = s.subrange(i, e);
        let nxt = if e < s.len() {
            e + 1
        } else {
            s.len() as int
        };
        if trim(line).len() == 0 {
            (Seq::empty(), nxt)
        } else {
            let rest = headers_from(s, nxt);
            match header_of_line(line) {
                Some(p) => (seq![p] + rest.0, rest.1),
                None => rest,
            }
        }
    }
}

#[via_fn]
proof fn headers_from_dec(s: Seq<u8>, i: int) {
    if i < s.len() {
        lemma_find_if_ge(s, i, eq_p(10));
    }
}

/// The value of the last header whose name matches `name` up to ASCII case,
/// the lookup a case-insensitive last-write-wins mapping provides.
pub open spec fn lookup_ci(hs: Seq<(Seq<u8>, Seq<u8>)>, name: Seq<u8>) -> Option<Seq<u8>>
    decreases hs.len(),
{
    if hs.len() == 0 {
        None
    } else if ci_eq(hs.last().0, name) {
        Some(hs.last().1)
    } else {
        lookup_ci(hs.drop_last(), name)
    }
}

/// The value of the last pair whose name equals `name` exactly.
pub open spec fn lookup(hs: Seq<(Seq<u8>, Seq<u8>)>, name: Seq<u8>) -> Option<Seq<u8>>
    decreases hs.len(),
{
    if hs.len() == 0 {
        None
    } else if hs.last().0 == name {
        Some(hs.last().1)
    } else {
        lookup(hs.drop_last(), name)
    }
}

/// The body length the headers declare, when a `Content-Length` value
/// parses as an unsigned integer.
pub open spec fn content_length_of(hs: Seq<(Seq<u8>, Seq<u8>)>) -> Option<nat> {
    match lookup_ci(hs, ascii("Content-Length"@)) {
        Some(v) => if parses_as_usize(v) {
            Some(usize_val(v))
        } else {
            None
        },
        None => None,
    }
}

pub open spec fn req_method(s: Seq<u8>) -> Seq<u8> {
    token_at(first_line(s), 0)
}

pub open spec fn req_path(s: Seq<u8>) -> Seq<u8> {
    token_at(first_line(s), next_tok_pos(first_line(s), 0))
}

pub open spec fn req_version(s: Seq<u8>) -> Seq<u8> {
    token_at(first_line(s), next_tok_pos(first_line(s), next_tok_pos(first_line(s), 0)))
}

pub open spec fn req_headers(s: Seq<u8>) -> Seq<(Seq<u8>, Seq<u8>)> {
    headers_from(s, after_first_line(s)).0
}

pub open spec fn req_body_start(s: Seq<u8>) -> int {
    headers_from(s, after_first_line(s)).1
}

pub open spec fn req_content_length(s: Seq<u8>) -> Option<nat> {
    content_length_of(req_headers(s))
}

/// Whether the buffer holds every byte the declared `Content-Length` asks for.
pub open spec fn req_parse_ok(s: Seq<u8>) -> bool {
    match req_content_length(s) {
        Some(n) => req_body_start(s) + n <= s.len(),
        None => true,
    }
}

pub open spec fn req_body(s: Seq<u8>) -> Seq<u8> {
    match req_content_length(s) {
        Some(n) => if req_body_start(s) + n <= s.len() {
            s.subrange(req_body_start(s), req_body_start(s) + n)
        } else {
            Seq::empty()
        },
        None => Seq::empty(),
    }
}

/// The request a successful parse of `s` yields; `params` stays empty until
/// the router assigns it.
pub open spec fn req_view_of(s: Seq<u8>) -> ReqView {
    ReqView {
        method: req_method(s),
        path: req_path(s),
        http_version: req_version(s),
        headers: req_headers(s),
        body: req_body(s),
        params: Seq::empty(),
    }
}

/// Why a request buffer was rejected: the declared `Content-Length` exceeds
/// the bytes still available after the header section.
#[derive(Debug, Clone, Copy, PartialEq, Eq, Structural)]
pub enum ParseError {
    BodyTooShort { declared: usize, available: usize },
}

/// One parsed HTTP request. `params` is filled by the router on a successful
/// match and is empty before that.
#[derive(Debug)]
pub struct Request {
    pub method: Vec<u8>,
    pub path: Vec<u8>,
    pub http_version: Vec<u8>,
    pub headers: Vec<(Vec<u8>, Vec<u8>)>,
    pub body: Vec<u8>,
    pub params: Vec<(Vec<u8>, Vec<u8>)>,
}

pub ghost struct ReqView {
    pub method: Seq<u8>,
    pub path: Seq<u8>,
    pub http_version: Seq<u8>,
    pub headers: Seq<(Seq<u8>, Seq<u8>)>,
    pub body: Seq<u8>,
    pub params: Seq<(Seq<u8>, Seq<u8>)>,
}

impl View for Request {
    type V = ReqView;

    open spec fn view(&self) -> ReqView {
        ReqView {
            method: self.method@,
            path: self.path@,
            http_version: self.http_version@,
            headers: self.headers.deep_view(),
            body: self.body@,
            params: self.params.deep_view(),
        }
    }
}

/// The value of the last pair whose name matches `name` up to ASCII case,
/// the exec side of `lookup_ci`.
pub fn header_value<'a>(hs: &'a Vec<(Vec<u8>, Vec<u8>)>, name: &[u8]) -> (r: Option<&'a Vec<u8>>)
    ensures
        match r {
            Some(v) => lookup_ci(hs.deep_view(), name@) == Some(v@),
            None => lookup_ci(hs.deep_view(), name@) is None,
        },
{
    proof {
        assert(hs.deep_view().take(hs.deep_view().len() as int) =~= hs.deep_view());
    }
    let mut i = hs.len();
    while i > 0
        invariant
            0 <= i <= hs@.len(),
            lookup_ci(hs.deep_view(), name@) == lookup_ci(hs.deep_view().take(i as int), name@),
        decreases i,
    {
        i -= 1;
        proof {
            assert(hs.deep_view().take(i + 1).last() == hs.deep_view()[i as int]);
            assert(hs.deep_view().take(i + 1).drop_last() =~= hs.deep_view().take(i as int));
        }
        if eq_ignore_case(hs[i].0.as_slice(), name) {
            return Some(&hs[i].1);
        }
    }
    proof {
        assert(hs.deep_view().take(0) =~= Seq::<(Seq<u8>, Seq<u8>)>::empty());
    }
    None
}

/// The value of the last pair whose name equals `name` exactly, the exec
/// side of `lookup`.
pub fn param_value<'a>(ps: &'a Vec<(Vec<u8>, Vec<u8>)>, name: &[u8]) -> (r: Option<&'a Vec<u8>>)
    ensures
        match r {
            Some(v) => lookup(ps.deep_view(), name@) == Some(v@),
            None => lookup(ps.deep_view(), name@) is None,
        },
{
    proof {
        assert(ps.deep_view().take(ps.deep_view().len() as int) =~= ps.deep_view());
    }
    let mut i = ps.len();
    while i > 0
        invariant
            0 <= i <= ps@.len(),
            lookup(ps.deep_view(), name@) == lookup(ps.deep_view().take(i as int), name@),
        decreases i,
    {
        i -= 1;
        proof {
            assert(ps.deep_view().take(i + 1).last() == ps.deep_view()[i as int]);
            assert(ps.deep_view().take(i + 1).drop_last() =~= ps.deep_view().take(i as int));
        }
        if bytes_eq(ps[i].0.as_slice(), name) {
            return Some(&ps[i].1);
        }
    }
    proof {
        assert(ps.deep_view().take(0) =~= Seq::<(Seq<u8>, Seq<u8>)>::empty());
    }
    None
}

impl Request {
    /// Parses one complete request held in `input`. Fails only when a
    /// declared `Content-Length` asks for more bytes than remain.
    pub fn parse(input: &[u8]) -> (r: Result<Request, ParseError>)
        ensures
            match r {
                Ok(req) => req_parse_ok(input@) && req@ == req_view_of(input@),
                Err(e) => {
                    &&& !req_parse_ok(input@)
                    &&& e == (ParseError::BodyTooShort {
                        declared: req_content_length(input@).unwrap() as usize,
                        available: (input@.len() - req_body_start(input@)) as usize,
                    })
                },
            },
    {
        let n = input.len();
        let e0 = find_byte(input, 0, 10);
        let line0 = &input[0..e0];
        proof {
            assert(line0@ == first_line(input@));
        }
        let t0s = find_non_ws(line0, 0);
        let t0e = find_ws(line0, t0s);
        let method = vstd::slice::slice_to_vec(&line0[t0s..t0e]);
        let t1s = find_non_ws(line0, t0e);
        let t1e = find_ws(line0, t1s);
        let path = vstd::slice::slice_to_vec(&line0[t1s..t1e]);
        let t2s = find_non_ws(line0, t1e);
        let t2e = find_ws(line0, t2s);
        let http_version = vstd::slice::slice_to_vec(&line0[t2s..t2e]);
        let headers_start = if e0 < n {
            e0 + 1
        } else {
            n
        };
        let (headers, body_start) = Self::parse_headers(input, headers_start);
        let body = match Self::parse_body(input, body_start, &headers) {
            Ok(b) => b,
            Err(e) => {
                return Err(e);
            },
        };
        let req = Request { method, path, http_version, headers, body, params: Vec::new() };
        proof {
            assert(req@.params =~= Seq::<(Seq<u8>, Seq<u8>)>::empty());
            assert(req@ == req_view_of(input@));
        }
        Ok(req)
    }

    /// Reads header lines from `start` until a blank line or the end of the
    /// input, returning the pairs in line order and the body position.
    pub fn parse_headers(input: &[u8], start: usize) -> (r: (Vec<(Vec<u8>, Vec<u8>)>, usize))
        requires
            start <= input@.len(),
        ensures
            r.0.deep_view() == headers_from(input@, start as int).0,
            r.1 as int == headers_from(input@, start as int).1,
            start <= r.1 <= input@.len(),
    {
        let n = input.len();
        let mut hs: Vec<(Vec<u8>, Vec<u8>)> = Vec::new();
        let mut pos = start;
        loop
            invariant
                start <= pos <= n,
                n == input@.len(),
                headers_from(input@, start as int).0 == hs.deep_view() + headers_from(
                    input@,
                    pos as int,
                ).0,
                headers_from(input@, start as int).1 == headers_from(input@, pos as int).1,
            decreases n - pos,
        {
            if pos >= n {
                proof {
                    assert(headers_from(input@, pos as int).0 == Seq::<(Seq<u8>, Seq<u8>)>::empty());
                    assert(hs.deep_view() + headers_from(input@, pos as int).0 =~= hs.deep_view());
                }
                return (hs, n);
            }
            let e = find_byte(input, pos, 10);
            let nxt = if e < n {
                e + 1
            } else {
                n
            };
            let line = &input[pos..e];
            let trimmed = trim_slice(line);
            if trimmed.len() == 0 {
                proof {
                    assert(hs.deep_view() + headers_from(input@, pos as int).0 =~= hs.deep_view());
                }
                return (hs, nxt);
            }
            let c = find_byte(line, 0, 58);
            let ghost old_hs = hs.deep_view();
            let ghost rest = headers_from(input@, nxt as int);
            if c < line.len() {
                let name = trim_slice(&line[0..c]);
                let value = trim_slice(&line[c + 1..line.len()]);
                proof {
                    assert(header_of_line(line@) == Some((name@, value@)));
                }
                hs.push((name, value));
                proof {
                    assert(hs.deep_view() =~= old_hs.push((name@, value@)));
                    assert(headers_from(input@, pos as int).0 == seq![(name@, value@)] + rest.0);
                    assert(old_hs + (seq![(name@, value@)] + rest.0) =~= hs.deep_view() + rest.0);
                }
            } else {
                proof {
                    assert(header_of_line(line@) is None);
                    assert(headers_from(input@, pos as int) == rest);
                }
            }
            pos = nxt;
        }
    }

    /// Reads the declared body from `body_start`: exactly `Content-Length`
    /// bytes when that header parses, the empty body otherwise.
    pub fn parse_body(input: &[u8], body_start: usize, headers: &Vec<(Vec<u8>, Vec<u8>)>) -> (r:
        Result<Vec<u8>, ParseError>)
        requires
            body_start <= input@.len(),
        ensures
            match r {
                Ok(b) => match content_length_of(headers.deep_view()) {
                    Some(m) => body_start + m <= input@.len() && b@ == input@.subrange(
                        body_start as int,
                        body_start + m,
                    ),
                    None => b@ == Seq::<u8>::empty(),
                },
                Err(e) => {
                    &&& content_length_of(headers.deep_view()) is Some
                    &&& body_start + content_length_of(headers.deep_view()).unwrap()
                        > input@.len()
                    &&& e == (ParseError::BodyTooShort {
                        declared: content_length_of(headers.deep_view()).unwrap() as usize,
                        available: (input@.len() - body_start) as usize,
                    })
                },
            },
    {
        proof {
            reveal_strlit("Content-Length");
        }
        let name = lit("Content-Length");
        let clv = header_value(headers, name.as_slice());
        match clv {
            Some(v) => {
                match parse_usize(v.as_slice()) {
                    Some(m) => {
                        let avail = input.len() - body_start;
                        if m > avail {
                            Err(ParseError::BodyTooShort { declared: m, available: avail })
                        } else {
                            Ok(vstd::slice::slice_to_vec(&input[body_start..body_start + m]))
                        }
                    },
                    None => Ok(Vec::new()),
                }
            },
            None => Ok(Vec::new()),
        }
    }
}

} // verus!
