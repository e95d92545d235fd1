//! The path router: an ordered table of `(method, template, handler)`
//! entries plus a default handler. A template is split on `/` into segments;
//! `{name}` segments match any single non-empty path segment and bind it,
//! other segments must be byte-equal. The first entry whose method matches
//! case-insensitively and whose template matches wins.

use vstd::prelude::*;

use crate::request::{lookup, lookup_ci, param_value, ReqView, Request};
use crate::response::{new_resp, RespView, Response};
use crate::routes::{
    content_resp,
    echo_route,
    root_resp,
    root_route,
    user_agent_route,
};
use crate::text::{
    ascii,
    bytes_eq,
    ci_eq,
    eq_ignore_case,
    eq_p,
    find_byte,
    lemma_find_if,
    lemma_find_if_ge,
    lemma_vec_u8_deep_view,
    lit,
    slash_at,
    trim_braces,
    trim_braces_spec,
};

verus! {

broadcast use lemma_vec_u8_deep_view;

/// The non-empty `/`-separated segments of `s` from position `i` on;
/// leading, trailing and repeated slashes vanish.
pub open spec fn segs_from(s: Seq<u8>, i: int) -> Seq<Seq<u8>>
    decreases s.len() - i
    via segs_from_dec
{
    if i >= s.len() {
        Seq::empty()
    } else if s[i] == 47 {
        segs_from(s, i + 1)
    } else {
        seq![s.subrange(i, slash_at(s, i))] + segs_from(s, slash_at(s, i))
    }
}

#[via_fn]
proof fn segs_from_dec(s: Seq<u8>, i: int) {
    if i < s.len() && s[i] != 47 {
        lemma_find_if_ge(s, i + 1, eq_p(47));
    }
}

/// A template segment of the shape `{...}`, which matches any segment.
pub open spec fn seg_is_placeholder(seg: Seq<u8>) -> bool {
    seg.len() > 0 && seg[0] == 123 && seg.last() == 125
}

/// The parameter bindings a template segment list yields against a path
/// segment list, or `None` when they do not match: lengths must agree,
/// placeholders bind their segment, and other segments must be byte-equal.
pub open spec fn match_segs(pat: Seq<Seq<u8>>, path: Seq<Seq<u8>>) -> Option<
    Seq<(Seq<u8>, Seq<u8>)>,
>
    decreases pat.len(),
{
    if pat.len() != path.len() {
        None
    } else if pat.len() == 0 {
        Some(Seq::empty())
    } else {
        match match_segs(pat.drop_last(), path.drop_last()) {
            None => None,
            Some(ps) => {
                if seg_is_placeholder(pat.last()) {
                    Some(ps.push((trim_braces_spec(pat.last()), path.last())))
                } else if pat.last() == path.last() {
                    Some(ps)
                } else {
                    None
                }
            },
        }
    }
}

/// The bindings `pattern` yields against `path`, or `None`.
pub open spec fn route_match(pattern: Seq<u8>, path: Seq<u8>) -> Option<Seq<(Seq<u8>, Seq<u8>)>> {
    match_segs(segs_from(pattern, 0), segs_from(path, 0))
}

/// Splits `s` on `/`, discarding empty segments.
pub fn split_segments(s: &[u8]) -> (r: Vec<Vec<u8>>)
    ensures
        r.deep_view() == segs_from(s@, 0),
{
    let n = s.len();
    let mut out: Vec<Vec<u8>> = Vec::new();
    let mut i: usize = 0;
    proof {
        assert(out.deep_view() + segs_from(s@, 0) =~= segs_from(s@, 0));
    }
    while i < n
        invariant
            0 <= i <= n,
            n == s@.len(),
            segs_from(s@, 0) == out.deep_view() + segs_from(s@, i as int),
        decreases n - i,
    {
        if s[i] == 47 {
            i += 1;
        } else {
            let e = find_byte(s, i, 47);
            proof {
                lemma_find_if(s@, i as int, eq_p(47));
            }
            let seg = vstd::slice::slice_to_vec(&s[i..e]);
            let ghost before = out.deep_view();
            out.push(seg);
            proof {
                assert(out.deep_view() =~= before.push(s@.subrange(i as int, e as int)));
                assert(segs_from(s@, i as int) == seq![s@.subrange(i as int, e as int)]
                    + segs_from(s@, e as int));
                assert(before + segs_from(s@, i as int) =~= out.deep_view() + segs_from(
                    s@,
                    e as int,
                ));
            }
            i = e;
        }
    }
    proof {
        assert(out.deep_view() + segs_from(s@, n as int) =~= out.deep_view());
    }
    out
}

proof fn lemma_match_segs_none_steps(pat: Seq<Seq<u8>>, path: Seq<Seq<u8>>, i: int, j: int)
    requires
        0 <= i <= j <= pat.len(),
        pat.len() == path.len(),
        match_segs(pat.take(i), path.take(i)) is None,
    ensures
        match_segs(pat.take(j), path.take(j)) is None,
    decreases j - i,
{
    if i < j {
        assert(pat.take(i + 1).drop_last() =~= pat.take(i));
        assert(path.take(i + 1).drop_last() =~= path.take(i));
        assert(match_segs(pat.take(i + 1), path.take(i + 1)) is None);
        lemma_match_segs_none_steps(pat, path, i + 1, j);
    }
}

/// Matches `pattern` against `path` and returns the placeholder bindings in
/// template order, or `None` when method-independent matching fails.
pub fn match_route(pattern: &[u8], path: &[u8]) -> (r: Option<Vec<(Vec<u8>, Vec<u8>)>>)
    ensures
        match r {
            Some(ps) => route_match(pattern@, path@) == Some(ps.deep_view()),
            None => route_match(pattern@, path@) is None,
        },
{
    let pat = split_segments(pattern);
    let pth = split_segments(path);
    let n = pat.len();
    if n != pth.len() {
        return None;
    }
    let mut params: Vec<(Vec<u8>, Vec<u8>)> = Vec::new();
    let mut i: usize = 0;
    proof {
        assert(pat.deep_view().take(0) =~= Seq::<Seq<u8>>::empty());
        assert(pth.deep_view().take(0) =~= Seq::<Seq<u8>>::empty());
        assert(params.deep_view() =~= Seq::<(Seq<u8>, Seq<u8>)>::empty());
    }
    while i < n
        invariant
            0 <= i <= n,
            n == pat@.len() == pth@.len(),
            pat.deep_view() == segs_from(pattern@, 0),
            pth.deep_view() == segs_from(path@, 0),
            match_segs(pat.deep_view().take(i as int), pth.deep_view().take(i as int)) == Some(
                params.deep_view(),
            ),
        decreases n - i,
    {
        proof {
            assert(pat.deep_view().take(i + 1).drop_last() =~= pat.deep_view().take(i as int));
            assert(pth.deep_view().take(i + 1).drop_last() =~= pth.deep_view().take(i as int));
            assert(pat.deep_view().take(i + 1).last() == pat.deep_view()[i as int]);
            assert(pth.deep_view().take(i + 1).last() == pth.deep_view()[i as int]);
        }
        let pseg = &pat[i];
        let is_ph = pseg.len() > 0 && pseg[0] == 123 && pseg[pseg.len() - 1] == 125;
        proof {
            assert(is_ph == seg_is_placeholder(pat.deep_view()[i as int]));
        }
        if is_ph {
            let key = trim_braces(pseg.as_slice());
            let val = vstd::slice::slice_to_vec(pth[i].as_slice());
            let ghost before = params.deep_view();
            params.push((key, val));
            proof {
                assert(params.deep_view() =~= before.push((key@, val@)));
            }
        } else {
            if !bytes_eq(pseg.as_slice(), pth[i].as_slice()) {
                proof {
                    assert(match_segs(
                        pat.deep_view().take(i + 1),
                        pth.deep_view().take(i + 1),
                    ) is None);
                    lemma_match_segs_none_steps(
                        pat.deep_view(),
                        pth.deep_view(),
                        i + 1,
                        n as int,
                    );
                    assert(pat.deep_view().take(n as int) =~= pat.deep_view());
                    assert(pth.deep_view().take(n as int) =~= pth.deep_view());
                }
                return None;
            }
        }
        i += 1;
    }
    proof {
        assert(pat.deep_view().take(n as int) =~= pat.deep_view());
        assert(pth.deep_view().take(n as int) =~= pth.deep_view());
    }
    Some(params)
}

/// What a route entry may do once selected.
pub enum Handler {
    /// Answer `200 OK` with no body.
    Root,
    /// Echo the `msg` path parameter.
    Echo,
    /// Echo the `User-Agent` header.
    UserAgent,
    /// Answer the fixed 404 response.
    NotFound,
    /// Ask the caller to read the file named by the `filename` parameter.
    GetFile,
    /// Ask the caller to write the request body to the `filename` parameter.
    PostFile,
    /// Answer a 500 response carrying the held error text.
    InternalError(Vec<u8>),
}

pub ghost enum HandlerView {
    Root,
    Echo,
    UserAgent,
    NotFound,
    GetFile,
    PostFile,
    InternalError(Seq<u8>),
}

impl View for Handler {
    type V = HandlerView;

    open spec fn view(&self) -> HandlerView {
        match self {
            Handler::Root => HandlerView::Root,
            Handler::Echo => HandlerView::Echo,
            Handler::UserAgent => HandlerView::UserAgent,
            Handler::NotFound => HandlerView::NotFound,
            Handler::GetFile => HandlerView::GetFile,
            Handler::PostFile => HandlerView::PostFile,
            Handler::InternalError(e) => HandlerView::InternalError(e@),
        }
    }
}

/// One registered route: a method, a path template, and what to do on a hit.
pub struct RouteEntry {
    pub method: Vec<u8>,
    pub pattern: Vec<u8>,
    pub handler: Handler,
}

pub ghost struct EntryView {
    pub method: Seq<u8>,
    pub pattern: Seq<u8>,
    pub handler: HandlerView,
}

impl View for RouteEntry {
    type V = EntryView;

    open spec fn view(&self) -> EntryView {
        EntryView { method: self.method@, pattern: self.pattern@, handler: self.handler@ }
    }
}

/// The ordered route table and the default handler that answers any request
/// no entry matches.
pub struct Router {
    pub routes: Vec<RouteEntry>,
    pub default_route: Handler,
}

pub ghost struct RouterView {
    pub routes: Seq<EntryView>,
    pub default_route: HandlerView,
}

impl View for Router {
    type V = RouterView;

    open spec fn view(&self) -> RouterView {
        RouterView {
            routes: Seq::new(self.routes@.len(), |i: int| self.routes@[i]@),
            default_route: self.default_route@,
        }
    }
}

/// What routing produced: a finished response, or a file action the caller
/// must perform before finishing the response itself.
pub enum RouteOutcome {
    Done(Response),
    ReadFile { filename: Vec<u8>, response: Response },
    WriteFile { filename: Vec<u8>, contents: Vec<u8>, response: Response },
}

pub ghost enum OutcomeView {
    Done(RespView),
    ReadFile { filename: Seq<u8>, response: RespView },
    WriteFile { filename: Seq<u8>, contents: Seq<u8>, response: RespView },
}

impl View for RouteOutcome {
    type V = OutcomeView;

    open spec fn view(&self) -> OutcomeView {
        match self {
            RouteOutcome::Done(r) => OutcomeView::Done(r@),
            RouteOutcome::ReadFile { filename, response } => OutcomeView::ReadFile {
                filename: filename@,
                response: response@,
            },
            RouteOutcome::WriteFile { filename, contents, response } => OutcomeView::WriteFile {
                filename: filename@,
                contents: contents@,
                response: response@,
            },
        }
    }
}

/// The 404 shape of the default handler: the fixed explanatory body, with
/// headers untouched.
pub open spec fn not_found_resp(r: RespView) -> RespView {
    RespView {
        status_code: 404,
        status_text: ascii("Not Found"@),
        body: ascii("The requested resource was not found."@),
        ..r
    }
}

/// A 500 whose body carries the error text after `Error: `.
pub open spec fn internal_error_resp(r: RespView, e: Seq<u8>) -> RespView {
    RespView {
        status_code: 500,
        status_text: ascii("Internal Server Error"@),
        body: ascii("Error: "@) + e,
        ..r
    }
}

/// Rewrites `res` into the fixed not-found response.
pub fn apply_not_found(res: &mut Response)
    ensures
        final(res)@ == not_found_resp(old(res)@),
        old(res).wf() ==> final(res).wf(),
{
    proof {
        reveal_strlit("Not Found");
        reveal_strlit("The requested resource was not found.");
    }
    res.status_code = 404;
    res.status_text = lit("Not Found");
    res.body = lit("The requested resource was not found.");
}

/// Rewrites `res` into a 500 response carrying `e`.
pub fn apply_internal_error(e: &Vec<u8>, res: &mut Response)
    ensures
        final(res)@ == internal_error_resp(old(res)@, e@),
        old(res).wf() ==> final(res).wf(),
{
    proof {
        reveal_strlit("Internal Server Error");
        reveal_strlit("Error: ");
    }
    res.status_code = 500;
    res.status_text = lit("Internal Server Error");
    let mut b = lit("Error: ");
    b.extend_from_slice(e.as_slice());
    proof {
        assert(b@ =~= ascii("Error: "@) + e@);
    }
    res.body = b;
}

/// The default handler: answers the fixed 404 response.
pub fn not_found_route(_req: &mut Request, res: &mut Response)
    ensures
        *final(_req) == *old(_req),
        final(res)@ == not_found_resp(old(res)@),
        old(res).wf() ==> final(res).wf(),
{
    apply_not_found(res);
}

/// Wraps an error text as a handler that always answers the 500 shape, so
/// failures inside a route can travel as ordinary handlers.
pub fn make_interval_server_error_route(e: Vec<u8>) -> (h: Handler)
    ensures
        h@ == HandlerView::InternalError(e@),
{
    Handler::InternalError(e)
}

/// The first entry, in registration order, whose method matches
/// case-insensitively and whose template matches the path, together with
/// the bindings it extracts.
pub open spec fn first_match(routes: Seq<EntryView>, method: Seq<u8>, path: Seq<u8>) -> Option<
    (int, Seq<(Seq<u8>, Seq<u8>)>),
>
    decreases routes.len(),
{
    if routes.len() == 0 {
        None
    } else if ci_eq(routes[0].method, method) && route_match(routes[0].pattern, path) is Some {
        Some((0, route_match(routes[0].pattern, path).unwrap()))
    } else {
        match first_match(routes.drop_first(), method, path) {
            None => None,
            Some(m) => Some((m.0 + 1, m.1)),
        }
    }
}

/// What a handler demands of the params and headers it will read; the
/// original handlers fail hard when these are missing.
pub open spec fn handler_ok(
    h: HandlerView,
    params: Seq<(Seq<u8>, Seq<u8>)>,
    headers: Seq<(Seq<u8>, Seq<u8>)>,
) -> bool {
    match h {
        HandlerView::Echo => lookup(params, ascii("msg"@)) is Some,
        HandlerView::UserAgent => lookup_ci(headers, ascii("User-Agent"@)) is Some,
        HandlerView::GetFile => lookup(params, ascii("filename"@)) is Some,
        HandlerView::PostFile => lookup(params, ascii("filename"@)) is Some,
        _ => true,
    }
}

/// The outcome one handler produces from a fresh response.
pub open spec fn apply_handler(
    h: HandlerView,
    params: Seq<(Seq<u8>, Seq<u8>)>,
    headers: Seq<(Seq<u8>, Seq<u8>)>,
    body: Seq<u8>,
) -> OutcomeView {
    match h {
        HandlerView::Root => OutcomeView::Done(root_resp(new_resp())),
        HandlerView::Echo => OutcomeView::Done(
            content_resp(new_resp(), ascii("text/plain"@), lookup(params, ascii("msg"@)).unwrap()),
        ),
        HandlerView::UserAgent => OutcomeView::Done(
            content_resp(
                new_resp(),
                ascii("text/plain"@),
                lookup_ci(headers, ascii("User-Agent"@)).unwrap(),
            ),
        ),
        HandlerView::NotFound => OutcomeView::Done(not_found_resp(new_resp())),
        HandlerView::GetFile => OutcomeView::ReadFile {
            filename: lookup(params, ascii("filename"@)).unwrap(),
            response: new_resp(),
        },
        HandlerView::PostFile => OutcomeView::WriteFile {
            filename: lookup(params, ascii("filename"@)).unwrap(),
            contents: body,
            response: new_resp(),
        },
        HandlerView::InternalError(e) => OutcomeView::Done(internal_error_resp(new_resp(), e)),
    }
}

/// Everything `route` demands: whichever handler will run can find the
/// params and headers it reads.
pub open spec fn route_ok(rv: RouterView, req: ReqView) -> bool {
    match first_match(rv.routes, req.method, req.path) {
        Some(m) => 0 <= m.0 < rv.routes.len() && handler_ok(
            rv.routes[m.0].handler,
            m.1,
            req.headers,
        ),
        None => handler_ok(rv.default_route, req.params, req.headers),
    }
}

/// The outcome and the final params `route` produces: the first matching
/// entry's handler applied to its bindings, or the default handler with the
/// params left untouched.
pub open spec fn route_spec(rv: RouterView, req: ReqView) -> (OutcomeView, Seq<(Seq<u8>, Seq<u8>)>) {
    match first_match(rv.routes, req.method, req.path) {
        Some(m) => (apply_handler(rv.routes[m.0].handler, m.1, req.headers, req.body), m.1),
        None => (apply_handler(rv.default_route, req.params, req.headers, req.body), req.params),
    }
}

/// An entry that matches where every earlier entry fails is exactly the one
/// the router selects, together with its bindings.
pub proof fn lemma_first_match_is(routes: Seq<EntryView>, method: Seq<u8>, path: Seq<u8>, i: int)
    requires
        0 <= i < routes.len(),
        ci_eq(routes[i].method, method),
        route_match(routes[i].pattern, path) is Some,
        forall|j: int|
            0 <= j < i ==> !(ci_eq(routes[j].method, method) && route_match(
                routes[j].pattern,
                path,
            ) is Some),
    ensures
        first_match(routes, method, path) == Some(
            (i, route_match(routes[i].pattern, path).unwrap()),
        ),
    decreases i,
{
    if i > 0 {
        assert forall|j: int|
            0 <= j < i - 1 implies !(ci_eq(routes.drop_first()[j].method, method) && route_match(
            routes.drop_first()[j].pattern,
            path,
        ) is Some) by {
            assert(routes.drop_first()[j] == routes[j + 1]);
        }
        assert(routes.drop_first()[i - 1] == routes[i]);
        lemma_first_match_is(routes.drop_first(), method, path, i - 1);
    }
}

/// When no entry matches, the router selects none.
pub proof fn lemma_first_match_none(routes: Seq<EntryView>, method: Seq<u8>, path: Seq<u8>)
    requires
        forall|j: int|
            0 <= j < routes.len() ==> !(ci_eq(routes[j].method, method) && route_match(
                routes[j].pattern,
                path,
            ) is Some),
    ensures
        first_match(routes, method, path) is None,
    decreases routes.len(),
{
    if routes.len() > 0 {
        assert forall|j: int|
            0 <= j < routes.drop_first().len() implies !(ci_eq(
            routes.drop_first()[j].method,
            method,
        ) && route_match(routes.drop_first()[j].pattern, path) is Some) by {
            assert(routes.drop_first()[j] == routes[j + 1]);
        }
        lemma_first_match_none(routes.drop_first(), method, path);
    }
}

/// A template that matches a path does so segment for segment: the counts
/// agree and every non-placeholder segment is byte-equal to the path
/// segment in its position.
pub proof fn lemma_match_statics(pat: Seq<Seq<u8>>, path: Seq<Seq<u8>>)
    requires
        match_segs(pat, path) is Some,
    ensures
        pat.len() == path.len(),
        forall|j: int|
            0 <= j < pat.len() && !seg_is_placeholder(pat[j]) ==> pat[j] == path[j],
    decreases pat.len(),
{
    if pat.len() > 0 {
        lemma_match_statics(pat.drop_last(), path.drop_last());
        assert forall|j: int|
            0 <= j < pat.len() && !seg_is_placeholder(pat[j]) implies pat[j] == path[j] by {
            if j < pat.len() - 1 {
                assert(pat.drop_last()[j] == pat[j]);
                assert(path.drop_last()[j] == path[j]);
            } else {
                assert(pat[j] == pat.last());
                assert(path[j] == path.last());
            }
        }
    }
}

/// A placeholder whose name no later placeholder reuses binds exactly the
/// path segment in its position: looking its name up in the extracted
/// params yields that segment.
pub proof fn lemma_match_binds_param(pat: Seq<Seq<u8>>, path: Seq<Seq<u8>>, j: int)
    requires
        match_segs(pat, path) is Some,
        0 <= j < pat.len(),
        seg_is_placeholder(pat[j]),
        forall|k: int|
            j < k < pat.len() && seg_is_placeholder(pat[k]) ==> trim_braces_spec(pat[k])
                != trim_braces_spec(pat[j]),
    ensures
        lookup(match_segs(pat, path).unwrap(), trim_braces_spec(pat[j])) == Some(path[j]),
    decreases pat.len(),
{
    let ps = match_segs(pat, path).unwrap();
    let ps0 = match_segs(pat.drop_last(), path.drop_last()).unwrap();
    let name = trim_braces_spec(pat[j]);
    if j == pat.len() - 1 {
        assert(pat[j] == pat.last());
        assert(path[j] == path.last());
        assert(ps == ps0.push((name, path[j])));
        assert(ps.last() == (name, path[j]));
    } else {
        assert(pat.drop_last()[j] == pat[j]);
        assert(path.drop_last()[j] == path[j]);
        assert forall|k: int|
            j < k < pat.drop_last().len() && seg_is_placeholder(
                pat.drop_last()[k],
            ) implies trim_braces_spec(pat.drop_last()[k]) != name by {
            assert(pat.drop_last()[k] == pat[k]);
        }
        lemma_match_binds_param(pat.drop_last(), path.drop_last(), j);
        if seg_is_placeholder(pat.last()) {
            assert(trim_braces_spec(pat.last()) != name);
            assert(ps == ps0.push((trim_braces_spec(pat.last()), path.last())));
            assert(ps.last().0 != name);
            assert(ps.drop_last() == ps0);
        } else {
            assert(ps == ps0);
        }
    }
}

/// A request that no entry matches is answered by the default handler, and
/// with the standard 404 default that is exactly the fixed not-found
/// response, whatever the request's headers, body or params hold.
pub proof fn lemma_unmatched_is_not_found(rv: RouterView, req: ReqView)
    requires
        first_match(rv.routes, req.method, req.path) is None,
        rv.default_route == HandlerView::NotFound,
    ensures
        route_spec(rv, req).0 == OutcomeView::Done(not_found_resp(new_resp())),
        route_spec(rv, req).1 == req.params,
{
}

/// Routing the same request a second time — its params now carrying the
/// first routing's bindings — selects the same entry and yields the same
/// outcome and the same params.
pub proof fn lemma_route_idempotent(rv: RouterView, req: ReqView)
    requires
        route_ok(rv, req),
    ensures
        ({
            let r1 = route_spec(rv, req);
            let req2 = ReqView { params: r1.1, ..req };
            route_ok(rv, req2) && route_spec(rv, req2) == r1
        }),
{
    let r1 = route_spec(rv, req);
    let req2 = ReqView { params: r1.1, ..req };
    assert(req2.method == req.method);
    assert(req2.path == req.path);
    match first_match(rv.routes, req.method, req.path) {
        Some(m) => {
        },
        None => {
            assert(req2.params == req.params);
        },
    }
}

/// Runs one handler against a fresh response.
fn dispatch(handler: &Handler, req: &mut Request, res: Response) -> (out: RouteOutcome)
    requires
        handler_ok(handler@, old(req)@.params, old(req)@.headers),
        res@ == new_resp(),
        res.wf(),
    ensures
        *final(req) == *old(req),
        out@ == apply_handler(handler@, old(req)@.params, old(req)@.headers, old(req)@.body),
{
    let mut response = res;
    match handler {
        Handler::Root => {
            root_route(req, &mut response);
            RouteOutcome::Done(response)
        },
        Handler::Echo => {
            echo_route(req, &mut response);
            RouteOutcome::Done(response)
        },
        Handler::UserAgent => {
            user_agent_route(req, &mut response);
            RouteOutcome::Done(response)
        },
        Handler::NotFound => {
            apply_not_found(&mut response);
            RouteOutcome::Done(response)
        },
        Handler::InternalError(e) => {
            apply_internal_error(e, &mut response);
            RouteOutcome::Done(response)
        },
        Handler::GetFile => {
            proof {
                reveal_strlit("filename");
            }
            let name = lit("filename");
            let filename = match param_value(&req.params, name.as_slice()) {
                Some(f) => vstd::slice::slice_to_vec(f.as_slice()),
                None => {
                    proof {
                        assert(false);
                    }
                    Vec::new()
                },
            };
            RouteOutcome::ReadFile { filename, response }
        },
        Handler::PostFile => {
            proof {
                reveal_strlit("filename");
            }
            let name = lit("filename");
            let filename = match param_value(&req.params, name.as_slice()) {
                Some(f) => vstd::slice::slice_to_vec(f.as_slice()),
                None => {
                    proof {
                        assert(false);
                    }
                    Vec::new()
                },
            };
            let contents = vstd::slice::slice_to_vec(req.body.as_slice());
            RouteOutcome::WriteFile { filename, contents, response }
        },
    }
}

impl Router {
    /// An empty table whose default handler answers the fixed 404.
    pub fn new() -> (r: Router)
        ensures
            r@.routes.len() == 0,
            r@.default_route == HandlerView::NotFound,
    {
        Router { routes: Vec::new(), default_route: Handler::NotFound }
    }

    /// Appends a route entry; registration order decides ties.
    pub fn register(&mut self, method: Vec<u8>, pattern: Vec<u8>, handler: Handler)
        ensures
            final(self)@.routes == old(self)@.routes.push(
                EntryView { method: method@, pattern: pattern@, handler: handler@ },
            ),
            final(self)@.default_route == old(self)@.default_route,
    {
        let ghost before = self@.routes;
        let ghost entry_view = EntryView { method: method@, pattern: pattern@, handler: handler@ };
        self.routes.push(RouteEntry { method, pattern, handler });
        proof {
            assert(self@.routes =~= before.push(entry_view));
        }
    }

    /// Routes a request: selects the first matching entry, binds its
    /// parameters into the request, and runs its handler against a fresh
    /// response; with no match, the default handler runs and the params
    /// stay untouched.
    pub fn route(&self, req: &mut Request) -> (out: RouteOutcome)
        requires
            route_ok(self@, old(req)@),
        ensures
            out@ == route_spec(self@, old(req)@).0,
            final(req)@ == (ReqView { params: route_spec(self@, old(req)@).1, ..old(req)@ }),
    {
        let ghost method = old(req)@.method;
        let ghost path = old(req)@.path;
        let n = self.routes.len();
        let mut i: usize = 0;
        while i < n
            invariant
                0 <= i <= n,
                n == self.routes@.len(),
                *req == *old(req),
                route_ok(self@, old(req)@),
                method == old(req)@.method,
                path == old(req)@.path,
                forall|j: int|
                    0 <= j < i ==> !(ci_eq(self@.routes[j].method, method) && route_match(
                        self@.routes[j].pattern,
                        path,
                    ) is Some),
            decreases n - i,
        {
            let entry = &self.routes[i];
            if eq_ignore_case(entry.method.as_slice(), req.method.as_slice()) {
                match match_route(entry.pattern.as_slice(), req.path.as_slice()) {
                    Some(params) => {
                        proof {
                            lemma_first_match_is(self@.routes, method, path, i as int);
                        }
                        req.params = params;
                        let response = Response::new();
                        let out = dispatch(&entry.handler, req, response);
                        proof {
                            assert(final(req)@ == (ReqView {
                                params: route_spec(self@, old(req)@).1,
                                ..old(req)@
                            }));
                        }
                        return out;
                    },
                    None => {},
                }
            }
            i += 1;
        }
        proof {
            lemma_first_match_none(self@.routes, method, path);
        }
        let response = Response::new();
        dispatch(&self.default_route, req, response)
    }
}

} // verus!
