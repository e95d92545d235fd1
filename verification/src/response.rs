//! The HTTP response model: an in-memory response, its wire serializer, and
//! a generic parser for the serialized message form.
//!
//! The serializer renders `<version> <code> <text>` and CRLF, one line per
//! header, a blank line, then the body bytes verbatim; it never injects or
//! recomputes `Content-Length`. The parser reads the same framing back.

use vstd::prelude::*;

use crate::request::{after_first_line, first_line, header_of_line, headers_from, Request};
use crate::text::{
    ascii,
    dec,
    dec_val,
    eq_p,
    find_byte,
    format_usize,
    is_digit,
    is_trimmed,
    is_ws,
    lemma_dec_digits,
    lemma_find_if_is,
    lemma_rfind_end,
    lemma_trim_id,
    lemma_trim_pad,
    lemma_vec_u8_deep_view,
    lit,
    non_ws_p,
    parse_u16_digits,
    parses_as_u16,
    rfind_end,
    sp_at,
    trim,
    bytes_eq,
};

verus! {

broadcast use lemma_vec_u8_deep_view;

/// One in-memory HTTP response: status line parts, headers and body bytes.
pub struct Response {
    pub http_version: Vec<u8>,
    pub status_code: u16,
    pub status_text: Vec<u8>,
    pub headers: Vec<(Vec<u8>, Vec<u8>)>,
    pub body: Vec<u8>,
}

pub ghost struct RespView {
    pub http_version: Seq<u8>,
    pub status_code: u16,
    pub status_text: Seq<u8>,
    pub headers: Seq<(Seq<u8>, Seq<u8>)>,
    pub body: Seq<u8>,
}

impl View for Response {
    type V = RespView;

    open spec fn view(&self) -> RespView {
        RespView {
            http_version: self.http_version@,
            status_code: self.status_code,
            status_text: self.status_text@,
            headers: self.headers.deep_view(),
            body: self.body@,
        }
    }
}

/// Each header name appears at most once.
pub open spec fn distinct_names(hs: Seq<(Seq<u8>, Seq<u8>)>) -> bool {
    forall|i: int, j: int| 0 <= i < j < hs.len() ==> hs[i].0 != hs[j].0
}

/// The fresh response every request starts from: `HTTP/1.1 200 OK` with no
/// headers and an empty body.
pub open spec fn new_resp() -> RespView {
    RespView {
        http_version: ascii("HTTP/1.1"@),
        status_code: 200,
        status_text: ascii("OK"@),
        headers: Seq::empty(),
        body: Seq::empty(),
    }
}

/// Index of the first pair named `name`, or `-1`.
pub open spec fn find_name(hs: Seq<(Seq<u8>, Seq<u8>)>, name: Seq<u8>) -> int
    decreases hs.len(),
{
    if hs.len() == 0 {
        -1
    } else if hs[0].0 == name {
        0
    } else {
        let r = find_name(hs.drop_first(), name);
        if r < 0 {
            -1
        } else {
            r + 1
        }
    }
}

/// The header list after writing `name: value`: the first pair of that exact
/// name is replaced in place, or a new pair is appended.
pub open spec fn upsert(hs: Seq<(Seq<u8>, Seq<u8>)>, name: Seq<u8>, value: Seq<u8>) -> Seq<
    (Seq<u8>, Seq<u8>),
> {
    let i = find_name(hs, name);
    if i < 0 {
        hs.push((name, value))
    } else {
        hs.update(i, (name, value))
    }
}

proof fn lemma_find_name_is(hs: Seq<(Seq<u8>, Seq<u8>)>, name: Seq<u8>, i: int)
    requires
        0 <= i < hs.len(),
        hs[i].0 == name,
        forall|k: int| 0 <= k < i ==> hs[k].0 != name,
    ensures
        find_name(hs, name) == i,
    decreases i,
{
    if i > 0 {
        assert(hs[0].0 != name);
        assert forall|k: int| 0 <= k < i - 1 implies hs.drop_first()[k].0 != name by {
            assert(hs.drop_first()[k] == hs[k + 1]);
        }
        assert(hs.drop_first()[i - 1] == hs[i]);
        lemma_find_name_is(hs.drop_first(), name, i - 1);
    }
}

proof fn lemma_find_name_none(hs: Seq<(Seq<u8>, Seq<u8>)>, name: Seq<u8>)
    requires
        forall|k: int| 0 <= k < hs.len() ==> hs[k].0 != name,
    ensures
        find_name(hs, name) == -1,
    decreases hs.len(),
{
    if hs.len() > 0 {
        assert forall|k: int| 0 <= k < hs.drop_first().len() implies hs.drop_first()[k].0
            != name by {
            assert(hs.drop_first()[k] == hs[k + 1]);
        }
        lemma_find_name_none(hs.drop_first(), name);
    }
}

impl Response {
    /// A response still carries no duplicate header name.
    pub open spec fn wf(self) -> bool {
        distinct_names(self@.headers)
    }

    /// The fresh `HTTP/1.1 200 OK` response with no headers and no body.
    pub fn new() -> (r: Response)
        ensures
            r@ == new_resp(),
            r.wf(),
    {
        proof {
            reveal_strlit("HTTP/1.1");
            reveal_strlit("OK");
        }
        let r = Response {
            http_version: lit("HTTP/1.1"),
            status_code: 200,
            status_text: lit("OK"),
            headers: Vec::new(),
            body: Vec::new(),
        };
        proof {
            assert(r@.headers =~= new_resp().headers);
        }
        r
    }

    /// Writes `name: value`, replacing the value of an existing pair of that
    /// exact name and appending a new pair otherwise.
    pub fn set_header(&mut self, name: Vec<u8>, value: Vec<u8>)
        ensures
            final(self)@.headers == upsert(old(self)@.headers, name@, value@),
            final(self).http_version == old(self).http_version,
            final(self).status_code == old(self).status_code,
            final(self).status_text == old(self).status_text,
            final(self).body == old(self).body,
            old(self).wf() ==> final(self).wf(),
    {
        let n = self.headers.len();
        let mut i: usize = 0;
        while i < n
            invariant
                0 <= i <= n,
                n == self.headers@.len(),
                self == old(self),
                forall|k: int| 0 <= k < i ==> self@.headers[k].0 != name@,
            decreases n - i,
        {
            if bytes_eq(self.headers[i].0.as_slice(), name.as_slice()) {
                proof {
                    lemma_find_name_is(self@.headers, name@, i as int);
                }
                let ghost before = self@.headers;
                self.headers[i] = (name, value);
                proof {
                    assert(self@.headers =~= before.update(i as int, (name@, value@)));
                    if distinct_names(before) {
                        assert forall|a: int, b: int|
                            0 <= a < b < self@.headers.len() implies self@.headers[a].0
                            != self@.headers[b].0 by {
                            assert(before[a].0 == self@.headers[a].0);
                            assert(before[b].0 == self@.headers[b].0);
                        }
                    }
                }
                return ;
            }
            i += 1;
        }
        proof {
            lemma_find_name_none(self@.headers, name@);
        }
        let ghost before = self@.headers;
        self.headers.push((name, value));
        proof {
            assert(self@.headers =~= before.push((name@, value@)));
            if distinct_names(before) {
                assert forall|a: int, b: int|
                    0 <= a < b < self@.headers.len() implies self@.headers[a].0
                    != self@.headers[b].0 by {
                    if b < before.len() {
                        assert(before[a].0 == self@.headers[a].0);
                        assert(before[b].0 == self@.headers[b].0);
                    } else {
                        assert(self@.headers[b].0 == name@);
                        assert(self@.headers[a].0 == before[a].0);
                    }
                }
            }
        }
    }
}

/// The two bytes that end every line on the wire.
pub open spec fn crlf() -> Seq<u8> {
    seq![13u8, 10u8]
}

/// One serialized header line: `name: value` and CRLF.
pub open spec fn header_line_bytes(p: (Seq<u8>, Seq<u8>)) -> Seq<u8> {
    p.0 + seq![58u8, 32u8] + p.1 + crlf()
}

/// The serialized header section, one line per pair, in order.
pub open spec fn headers_bytes(hs: Seq<(Seq<u8>, Seq<u8>)>) -> Seq<u8>
    decreases hs.len(),
{
    if hs.len() == 0 {
        Seq::empty()
    } else {
        headers_bytes(hs.drop_last()) + header_line_bytes(hs.last())
    }
}

/// The serialized status line: `<version> <code> <text>` and CRLF.
pub open spec fn status_line_bytes(v: RespView) -> Seq<u8> {
    v.http_version + seq![32u8] + dec(v.status_code as nat) + seq![32u8] + v.status_text + crlf()
}

/// The full wire form of a response: status line, header lines, a blank
/// line, then the body bytes verbatim.
pub open spec fn response_bytes(v: RespView) -> Seq<u8> {
    status_line_bytes(v) + headers_bytes(v.headers) + crlf() + v.body
}

proof fn lemma_headers_bytes_take(hs: Seq<(Seq<u8>, Seq<u8>)>, i: int)
    requires
        0 <= i < hs.len(),
    ensures
        headers_bytes(hs.take(i + 1)) == headers_bytes(hs.take(i)) + header_line_bytes(hs[i]),
{
    assert(hs.take(i + 1).drop_last() =~= hs.take(i));
    assert(hs.take(i + 1).last() == hs[i]);
}

impl Response {
    /// Serializes the response into its exact wire bytes.
    pub fn format_response(&self) -> (out: Vec<u8>)
        ensures
            out@ == response_bytes(self@),
    {
        let mut out: Vec<u8> = Vec::new();
        out.extend_from_slice(self.http_version.as_slice());
        out.push(32);
        let code = format_usize(self.status_code as usize);
        out.extend_from_slice(code.as_slice());
        out.push(32);
        out.extend_from_slice(self.status_text.as_slice());
        out.push(13);
        out.push(10);
        proof {
            assert(out@ =~= status_line_bytes(self@));
        }
        let ghost sl = status_line_bytes(self@);
        let n = self.headers.len();
        let mut i: usize = 0;
        while i < n
            invariant
                0 <= i <= n,
                n == self.headers@.len(),
                sl == status_line_bytes(self@),
                out@ == sl + headers_bytes(self@.headers.take(i as int)),
            decreases n - i,
        {
            let ghost before = out@;
            out.extend_from_slice(self.headers[i].0.as_slice());
            out.push(58);
            out.push(32);
            out.extend_from_slice(self.headers[i].1.as_slice());
            out.push(13);
            out.push(10);
            proof {
                assert(out@ =~= before + header_line_bytes(self@.headers[i as int]));
                lemma_headers_bytes_take(self@.headers, i as int);
                assert(out@ =~= sl + headers_bytes(self@.headers.take(i + 1)));
            }
            i += 1;
        }
        proof {
            assert(self@.headers.take(n as int) =~= self@.headers);
        }
        out.push(13);
        out.push(10);
        out.extend_from_slice(self.body.as_slice());
        proof {
            assert(out@ =~= response_bytes(self@));
        }
        out
    }
}

/// What remains of a line once a single trailing CR is removed.
pub open spec fn strip_cr(l: Seq<u8>) -> Seq<u8> {
    if l.len() > 0 && l.last() == 13 {
        l.drop_last()
    } else {
        l
    }
}

/// The response a generic HTTP message parses into: the version runs to the
/// first space, a decimal status code to the next, the rest of the line is
/// the status text; headers and body follow as in a request.
pub open spec fn msg_parse(s: Seq<u8>) -> Option<RespView> {
    let line = strip_cr(first_line(s));
    let sp1 = sp_at(line, 0);
    if sp1 >= line.len() {
        None
    } else {
        let sp2 = sp_at(line, sp1 + 1);
        if sp2 >= line.len() {
            None
        } else {
            let codetok = line.subrange(sp1 + 1, sp2);
            if !parses_as_u16(codetok) {
                None
            } else {
                Some(
                    RespView {
                        http_version: line.subrange(0, sp1),
                        status_code: dec_val(codetok) as u16,
                        status_text: line.subrange(sp2 + 1, line.len() as int),
                        headers: headers_from(s, after_first_line(s)).0,
                        body: s.subrange(headers_from(s, after_first_line(s)).1, s.len() as int),
                    },
                )
            }
        }
    }
}

impl Response {
    /// Parses serialized message bytes back into a response, or `None` when
    /// no status line with a decimal code can be read.
    pub fn parse(input: &[u8]) -> (r: Option<Response>)
        ensures
            match r {
                Some(resp) => msg_parse(input@) == Some(resp@),
                None => msg_parse(input@) is None,
            },
    {
        let n = input.len();
        let e0 = find_byte(input, 0, 10);
        let line_full = &input[0..e0];
        let lend = if line_full.len() > 0 && line_full[line_full.len() - 1] == 13 {
            line_full.len() - 1
        } else {
            line_full.len()
        };
        let line = &line_full[0..lend];
        proof {
            assert(line_full@ == first_line(input@));
            if line_full@.len() > 0 && line_full@.last() == 13 {
                assert(line@ =~= strip_cr(line_full@));
            } else {
                assert(line@ =~= strip_cr(line_full@));
            }
        }
        let sp1 = find_byte(line, 0, 32);
        if sp1 == line.len() {
            return None;
        }
        let sp2 = find_byte(line, sp1 + 1, 32);
        if sp2 == line.len() {
            return None;
        }
        let codetok = &line[sp1 + 1..sp2];
        let code = match parse_u16_digits(codetok) {
            Some(c) => c,
            None => {
                return None;
            },
        };
        let http_version = vstd::slice::slice_to_vec(&line[0..sp1]);
        let status_text = vstd::slice::slice_to_vec(&line[sp2 + 1..line.len()]);
        let headers_start = if e0 < n {
            e0 + 1
        } else {
            n
        };
        let (headers, body_start) = Request::parse_headers(input, headers_start);
        let body = vstd::slice::slice_to_vec(&input[body_start..n]);
        let resp = Response { http_version, status_code: code, status_text, headers, body };
        proof {
            assert(msg_parse(input@) == Some(resp@));
        }
        Some(resp)
    }
}

/// A header pair whose serialized line re-parses to exactly the pair: name
/// non-empty without colons, both sides trimmed, no embedded line breaks.
pub open spec fn wire_safe_header(p: (Seq<u8>, Seq<u8>)) -> bool {
    &&& p.0.len() > 0
    &&& is_trimmed(p.0)
    &&& is_trimmed(p.1)
    &&& forall|k: int| 0 <= k < p.0.len() ==> p.0[k] != 58 && p.0[k] != 13 && p.0[k] != 10
    &&& forall|k: int| 0 <= k < p.1.len() ==> p.1[k] != 13 && p.1[k] != 10
}

/// A response whose fields cannot disturb the wire framing: no space in the
/// version, no line break in version or status text, well-formed headers.
pub open spec fn wire_safe(v: RespView) -> bool {
    &&& forall|k: int|
        0 <= k < v.http_version.len() ==> v.http_version[k] != 32 && v.http_version[k] != 13
            && v.http_version[k] != 10
    &&& forall|k: int| 0 <= k < v.status_text.len() ==> v.status_text[k] != 13 && v.status_text[k] != 10
    &&& forall|j: int| 0 <= j < v.headers.len() ==> wire_safe_header(v.headers[j])
}

proof fn lemma_headers_bytes_first(hs: Seq<(Seq<u8>, Seq<u8>)>)
    requires
        hs.len() > 0,
    ensures
        headers_bytes(hs) == header_line_bytes(hs[0]) + headers_bytes(hs.drop_first()),
    decreases hs.len(),
{
    if hs.len() == 1 {
        assert(hs.drop_last() =~= Seq::<(Seq<u8>, Seq<u8>)>::empty());
        assert(hs.drop_first() =~= Seq::<(Seq<u8>, Seq<u8>)>::empty());
        assert(headers_bytes(hs) =~= header_line_bytes(hs[0]) + headers_bytes(hs.drop_first()));
    } else {
        let dl = hs.drop_last();
        lemma_headers_bytes_first(dl);
        assert(dl[0] == hs[0]);
        assert(dl.drop_first() =~= hs.drop_first().drop_last());
        assert(hs.drop_first().last() == hs.last());
        assert((header_line_bytes(hs[0]) + headers_bytes(dl.drop_first())) + header_line_bytes(
            hs.last(),
        ) =~= header_line_bytes(hs[0]) + (headers_bytes(hs.drop_first().drop_last())
            + header_line_bytes(hs.drop_first().last())));
    }
}

#[verifier::rlimit(60)]
proof fn lemma_headers_inversion(s: Seq<u8>, i: int, hs: Seq<(Seq<u8>, Seq<u8>)>, body: Seq<u8>)
    requires
        0 <= i <= s.len(),
        s.subrange(i, s.len() as int) == headers_bytes(hs) + crlf() + body,
        forall|j: int| 0 <= j < hs.len() ==> wire_safe_header(hs[j]),
    ensures
        headers_from(s, i) == (hs, s.len() - body.len()),
    decreases hs.len(),
{
    let suffix = s.subrange(i, s.len() as int);
    if hs.len() == 0 {
        assert(headers_bytes(hs) =~= Seq::<u8>::empty());
        assert(suffix =~= crlf() + body);
        assert(suffix.len() == s.len() - i);
        assert(suffix.len() >= 2);
        assert(suffix[0] == s[i]);
        assert(s[i] == 13);
        assert(suffix[1] == s[i + 1]);
        assert(s[i + 1] == 10);
        lemma_find_if_is(s, i, i + 1, eq_p(10));
        let e = i + 1;
        let line = s.subrange(i, e);
        assert(line =~= seq![13u8]);
        assert(seq![13u8] + Seq::<u8>::empty() + Seq::<u8>::empty() =~= line);
        lemma_trim_pad(seq![13u8], Seq::<u8>::empty(), Seq::<u8>::empty());
        assert(trim(line).len() == 0);
        assert(e < s.len());
        assert(headers_from(s, i).0 =~= hs);
        assert(headers_from(s, i).1 == e + 1);
        assert(e + 1 == s.len() - body.len());
    } else {
        let h = hs[0];
        let name = h.0;
        let value = h.1;
        let lb = header_line_bytes(h);
        lemma_headers_bytes_first(hs);
        let rest = headers_bytes(hs.drop_first()) + crlf() + body;
        assert(suffix =~= lb + rest);
        assert(lb =~= name + seq![58u8, 32u8] + value + crlf());
        let a = name.len() as int;
        let llen = lb.len() - 1;
        assert forall|k: int| i <= k < i + llen implies s[k] != 10 by {
            let rk = k - i;
            assert(s[k] == suffix[rk]);
            assert(suffix[rk] == lb[rk]);
            if rk < a {
                assert(lb[rk] == name[rk]);
            } else if rk == a {
                assert(lb[rk] == 58);
            } else if rk == a + 1 {
                assert(lb[rk] == 32);
            } else if rk < a + 2 + value.len() {
                assert(lb[rk] == value[rk - a - 2]);
            } else {
                assert(rk == a + 2 + value.len());
                assert(lb[rk] == 13);
            }
        }
        assert(s[i + llen] == suffix[llen]);
        assert(suffix[llen] == lb[llen]);
        assert(lb[llen] == 10);
        lemma_find_if_is(s, i, i + llen, eq_p(10));
        let e = i + llen;
        assert(e < s.len());
        let line = s.subrange(i, e);
        assert forall|rk: int| 0 <= rk < llen implies line[rk] == lb[rk] by {
            assert(line[rk] == s[i + rk]);
            assert(s[i + rk] == suffix[rk]);
        }
        assert(line =~= name + seq![58u8, 32u8] + value + seq![13u8]);
        assert(line[0] == name[0]);
        assert(!is_ws(line[0]));
        let z = rfind_end(line, non_ws_p());
        lemma_rfind_end(line, non_ws_p());
        assert(z >= 1) by {
            if z == 0 {
                assert(is_ws(line[0]));
            }
        }
        lemma_find_if_is(line, 0, 0, non_ws_p());
        assert(trim(line).len() == z);
        assert forall|k: int| 0 <= k < name.len() implies line[k] != 58 by {
            assert(line[k] == name[k]);
        }
        assert(line[a] == 58);
        lemma_find_if_is(line, 0, a, eq_p(58));
        assert(a < line.len());
        assert(line.subrange(0, a) =~= name);
        lemma_trim_id(name);
        assert(line.subrange(a + 1, line.len() as int) =~= seq![32u8] + value + seq![13u8]);
        lemma_trim_pad(seq![32u8], value, seq![13u8]);
        assert(header_of_line(line) == Some((name, value)));
        let nxt = e + 1;
        assert(s.subrange(nxt, s.len() as int) =~= rest) by {
            assert forall|k: int| 0 <= k < s.len() - nxt implies s.subrange(nxt, s.len() as int)[k]
                == rest[k] by {
                assert(s.subrange(nxt, s.len() as int)[k] == s[nxt + k]);
                assert(s[nxt + k] == suffix[llen + 1 + k]);
                assert(suffix[llen + 1 + k] == rest[k]);
            }
        }
        assert forall|j: int| 0 <= j < hs.drop_first().len() implies wire_safe_header(
            hs.drop_first()[j],
        ) by {
            assert(hs.drop_first()[j] == hs[j + 1]);
        }
        lemma_headers_inversion(s, nxt, hs.drop_first(), body);
        assert(headers_from(s, i).0 == seq![(name, value)] + hs.drop_first());
        assert(seq![(name, value)] + hs.drop_first() =~= hs);
        assert(headers_from(s, i).1 == s.len() - body.len());
    }
}

/// Serializing a response and re-parsing the bytes as a generic HTTP message
/// recovers the status line, the header pairs and the body exactly.
pub proof fn lemma_format_parse_round_trip(v: RespView)
    requires
        wire_safe(v),
    ensures
        msg_parse(response_bytes(v)) == Some(v),
{
    let s = response_bytes(v);
    let cd = dec(v.status_code as nat);
    lemma_dec_digits(v.status_code as nat);
    let line0 = v.http_version + seq![32u8] + cd + seq![32u8] + v.status_text;
    let sl = status_line_bytes(v);
    assert(sl =~= line0 + crlf());
    let hb = headers_bytes(v.headers);
    let a = v.http_version.len() as int;
    let b = a + 1;
    let c = b + cd.len();
    let d = c + 1;
    assert forall|k: int| 0 <= k < line0.len() implies line0[k] != 10 && line0[k] != 13 by {
        if k < a {
            assert(line0[k] == v.http_version[k]);
        } else if k == a {
            assert(line0[k] == 32);
        } else if k < c {
            assert(line0[k] == cd[k - b]);
            assert(is_digit(cd[k - b]));
        } else if k == c {
            assert(line0[k] == 32);
        } else {
            assert(line0[k] == v.status_text[k - d]);
        }
    }
    let e = line0.len() as int + 1;
    assert forall|k: int| 0 <= k < e implies s[k] != 10 by {
        assert(s[k] == sl[k]);
        if k < line0.len() {
            assert(sl[k] == line0[k]);
        } else {
            assert(sl[k] == 13);
        }
    }
    assert(s[e] == sl[e]);
    assert(sl[e] == 10);
    lemma_find_if_is(s, 0, e, eq_p(10));
    assert(first_line(s) =~= line0 + seq![13u8]);
    assert(strip_cr(first_line(s)) =~= line0);
    let line = strip_cr(first_line(s));
    assert forall|k: int| 0 <= k < a implies line[k] != 32 by {
        assert(line[k] == line0[k]);
        assert(line0[k] == v.http_version[k]);
    }
    assert(line[a] == line0[a]);
    lemma_find_if_is(line, 0, a, eq_p(32));
    assert forall|k: int| b <= k < c implies line[k] != 32 by {
        assert(line[k] == line0[k]);
        assert(line0[k] == cd[k - b]);
        assert(is_digit(cd[k - b]));
    }
    assert(line[c] == line0[c]);
    lemma_find_if_is(line, b, c, eq_p(32));
    let codetok = line.subrange(b, c);
    assert(codetok =~= cd);
    assert(parses_as_u16(codetok));
    assert(dec_val(codetok) as u16 == v.status_code);
    assert(line.subrange(0, a) =~= v.http_version);
    assert(line.subrange(c + 1, line.len() as int) =~= v.status_text);
    assert(after_first_line(s) == sl.len());
    assert(s.subrange(sl.len() as int, s.len() as int) =~= hb + crlf() + v.body) by {
        assert(s =~= sl + (hb + crlf() + v.body));
        assert forall|k: int| 0 <= k < s.len() - sl.len() implies s.subrange(
            sl.len() as int,
            s.len() as int,
        )[k] == (hb + crlf() + v.body)[k] by {
            assert(s.subrange(sl.len() as int, s.len() as int)[k] == s[sl.len() + k]);
        }
    }
    lemma_headers_inversion(s, sl.len() as int, v.headers, v.body);
    assert(s.subrange(headers_from(s, after_first_line(s)).1, s.len() as int) =~= v.body);
    assert(msg_parse(s) == Some(v));
}

} // verus!
