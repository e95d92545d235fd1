//! The content-encoding stage: after a handler has filled the response and
//! before serialization, the body is gzip-compressed when the client's
//! `Accept-Encoding` header lists `gzip`, and the headers are adjusted so
//! `Content-Length` matches the compressed body.

use vstd::prelude::*;

use crate::request::{header_value, lookup_ci, ReqView, Request};
use crate::response::{upsert, RespView, Response};
use crate::text::{
    ascii,
    bytes_eq,
    comma_at,
    dec,
    eq_p,
    find_byte,
    format_usize,
    lemma_find_if_ge,
    lit,
    trim,
    trim_slice,
};

verus! {

/// The comma-separated pieces of `s` from `i` on, untrimmed; an empty
/// value yields one empty piece, as `str::split(',')` does.
pub open spec fn comma_split_from(s: Seq<u8>, i: int) -> Seq<Seq<u8>>
    decreases s.len() - i
    via comma_split_from_dec
{
    if i > s.len() {
        Seq::empty()
    } else {
        let c = comma_at(s, i);
        if c >= s.len() {
            seq![s.subrange(i, s.len() as int)]
        } else {
            seq![s.subrange(i, c)] + comma_split_from(s, c + 1)
        }
    }
}

#[via_fn]
proof fn comma_split_from_dec(s: Seq<u8>, i: int) {
    if i <= s.len() {
        lemma_find_if_ge(s, i, eq_p(44));
    }
}

/// Whether an `Accept-Encoding` value lists `gzip`: some comma-separated
/// piece equals `gzip` once trimmed of whitespace.
pub open spec fn accepts_gzip(v: Seq<u8>) -> bool {
    exists|i: int|
        0 <= i < comma_split_from(v, 0).len() && trim(comma_split_from(v, 0)[i]) == ascii("gzip"@)
}

/// Walks the comma-separated pieces of `v` looking for a trimmed `gzip`.
pub fn accepts_gzip_exec(v: &[u8]) -> (r: bool)
    ensures
        r == accepts_gzip(v@),
{
    proof {
        reveal_strlit("gzip");
    }
    let g = lit("gzip");
    let ghost toks = comma_split_from(v@, 0);
    let n = v.len();
    let mut pos: usize = 0;
    let mut kk: Ghost<int> = Ghost(0);
    proof {
        assert(toks.take(0) =~= Seq::<Seq<u8>>::empty());
        assert(toks.take(0) + comma_split_from(v@, 0) =~= toks);
    }
    loop
        invariant
            0 <= pos <= n,
            n == v@.len(),
            0 <= kk@ <= toks.len(),
            g@ == ascii("gzip"@),
            toks == comma_split_from(v@, 0),
            toks == toks.take(kk@) + comma_split_from(v@, pos as int),
            forall|j: int| 0 <= j < kk@ ==> trim(toks[j]) != ascii("gzip"@),
        decreases n - pos,
    {
        let c = find_byte(v, pos, 44);
        let token = &v[pos..c];
        let trimmed = trim_slice(token);
        proof {
            assert(comma_split_from(v@, pos as int).len() >= 1);
            assert(toks.len() == kk@ + comma_split_from(v@, pos as int).len());
            assert(toks[kk@] == comma_split_from(v@, pos as int)[0]);
            assert(toks[kk@] == token@);
        }
        if bytes_eq(trimmed.as_slice(), g.as_slice()) {
            proof {
                assert(trim(toks[kk@]) == ascii("gzip"@));
            }
            return true;
        }
        if c == n {
            proof {
                assert(comma_split_from(v@, pos as int).len() == 1);
                assert(toks.len() == kk@ + 1);
                assert forall|j: int| 0 <= j < toks.len() implies trim(toks[j]) != ascii(
                    "gzip"@,
                ) by {
                    if j == kk@ {
                        assert(trim(toks[j]) == trimmed@);
                    }
                }
            }
            return false;
        }
        proof {
            assert(comma_split_from(v@, pos as int) == seq![v@.subrange(pos as int, c as int)]
                + comma_split_from(v@, c + 1));
            assert(toks.take(kk@ + 1) =~= toks.take(kk@).push(toks[kk@]));
            assert(toks.take(kk@ + 1) + comma_split_from(v@, c + 1) =~= toks);
            assert(trim(toks[kk@]) == trimmed@);
        }
        pos = c + 1;
        proof {
            kk@ = kk@ + 1;
        }
    }
}

/// The bytes flate2's gzip encoder produces, at the default level, for a
/// given input.
pub uninterp spec fn gzip_of(b: Seq<u8>) -> Seq<u8>;

/// The bytes flate2's gzip decoder recovers from a compressed stream.
pub uninterp spec fn gunzip_of(b: Seq<u8>) -> Seq<u8>;

/// Relies on flate2's `write::GzEncoder` at `Compression::default()`: with
/// the default builder the emitted stream is a function of the input bytes
/// alone (the header is fixed: zero mtime, fixed OS byte), and flate2's gzip
/// decoding recovers from it exactly the bytes that were compressed.
/// Writing into a `Vec` cannot fail, so the unwraps cannot panic.
#[verifier::external_body]
fn gzip_compress(data: &[u8]) -> (out: Vec<u8>)
    ensures
        out@ == gzip_of(data@),
        gunzip_of(out@) == data@,
{
    let mut enc = flate2::write::GzEncoder::new(Vec::new(), flate2::Compression::default());
    std::io::Write::write_all(&mut enc, data).unwrap();
    enc.finish().unwrap()
}

/// The gzip-encoded shape of a response: the compressed body,
/// `Content-Encoding: gzip`, and a `Content-Length` equal to the compressed
/// body's length.
pub open spec fn gzip_resp(r: RespView) -> RespView {
    RespView {
        headers: upsert(
            upsert(r.headers, ascii("Content-Encoding"@), ascii("gzip"@)),
            ascii("Content-Length"@),
            dec(gzip_of(r.body).len()),
        ),
        body: gzip_of(r.body),
        ..r
    }
}

/// Whether the request advertises gzip support in `Accept-Encoding`.
pub open spec fn wants_gzip(req: ReqView) -> bool {
    match lookup_ci(req.headers, ascii("Accept-Encoding"@)) {
        Some(v) => accepts_gzip(v),
        None => false,
    }
}

/// The content-encoding stage. When the client accepts gzip, the body is
/// replaced by its compressed form and the headers adjusted, and
/// decompressing the new body gives back the old one exactly; otherwise the
/// response passes through unchanged.
pub fn encode_response(req: &Request, res: &mut Response)
    ensures
        wants_gzip(req@) ==> {
            &&& final(res)@ == gzip_resp(old(res)@)
            &&& gunzip_of(final(res)@.body) == old(res)@.body
        },
        !wants_gzip(req@) ==> *final(res) == *old(res),
        old(res).wf() ==> final(res).wf(),
{
    proof {
        reveal_strlit("Accept-Encoding");
        reveal_strlit("Content-Encoding");
        reveal_strlit("gzip");
        reveal_strlit("Content-Length");
    }
    let name = lit("Accept-Encoding");
    let should = match header_value(&req.headers, name.as_slice()) {
        Some(v) => accepts_gzip_exec(v.as_slice()),
        None => false,
    };
    if should {
        let compressed = gzip_compress(res.body.as_slice());
        res.set_header(lit("Content-Encoding"), lit("gzip"));
        res.set_header(lit("Content-Length"), format_usize(compressed.len()));
        res.body = compressed;
    }
}

} // verus!
