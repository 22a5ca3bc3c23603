//! From a client's bytes to the request that goes upstream, and the
//! answers the proxy writes itself.

use crate::http::{
    bytes_of, encode_text, fits_bytes, header_views, text_of, Header, HeaderView, ProxyError,
};
use crate::request::{
    find_head_end, head_end, lemma_head_end, parse_head, parsed_head, HttpRequest,
    RequestView, MAX_HEAD,
};
use crate::rewrite::{
    apply_proxy_headers, asks_websocket, copy_headers, is_websocket_upgrade,
    request_host_text, rewritten, written_host,
};
use crate::routes::{
    build_upstream_uri, first_admitting, forwarded_target, opt_str_text,
    rewrite_path_and_query, route_views, select_route_index, upstream_uri, uri_refusal,
    ProxyRoute, RouteView, TargetScheme,
};
use crate::text::{chars_of, decimal, decimal_chars, string_of};
use vstd::prelude::*;
use vstd::slice::slice_subrange;

verus! {

/// What the bytes read so far hold: a whole request, nothing whole yet, or
/// a reason to refuse the client. A head that has not ended within
/// `MAX_HEAD` bytes is refused with `HeaderTooLarge`; bytes behind the
/// announced body are left out.
pub open spec fn request_in(buf: Seq<u8>) -> Result<Option<RequestView>, ProxyError> {
    let k = head_end(buf);
    if k >= buf.len() {
        if buf.len() > MAX_HEAD {
            Err(ProxyError::HeaderTooLarge)
        } else {
            Ok(None)
        }
    } else {
        match parsed_head(text_of(buf.take(k))) {
            Err(e) => Err(e),
            Ok(head) => if buf.len() - (k + 4) < head.content_length {
                Ok(None)
            } else {
                Ok(
                    Some(
                        RequestView {
                            body: buf.subrange(k + 4, k + 4 + head.content_length),
                            ..head
                        },
                    ),
                )
            },
        }
    }
}

/// The mathematical content of a `parse_request` result.
pub open spec fn parse_outcome(r: Result<Option<HttpRequest>, ProxyError>) -> Result<
    Option<RequestView>,
    ProxyError,
> {
    match r {
        Ok(Some(req)) => Ok(Some(req@)),
        Ok(None) => Ok(None),
        Err(e) => Err(e),
    }
}

/// Reads a request from the bytes a client has sent so far. `Ok(None)`
/// asks for more bytes.
pub fn parse_request(buf: &[u8]) -> (r: Result<Option<HttpRequest>, ProxyError>)
    ensures
        parse_outcome(r) == request_in(buf@),
{
    proof {
        lemma_head_end(buf@);
    }
    let k = match find_head_end(buf) {
        None => {
            if buf.len() > MAX_HEAD {
                return Err(ProxyError::HeaderTooLarge);
            } else {
                return Ok(None);
            }
        },
        Some(k) => k,
    };
    let head = slice_subrange(buf, 0, k);
    assert(head@ =~= buf@.take(k as int));
    let mut req = match parse_head(head) {
        Err(e) => {
            return Err(e);
        },
        Ok(req) => req,
    };
    let have = buf.len() - (k + 4);
    if have < req.content_length {
        return Ok(None);
    }
    let body = slice_subrange(buf, k + 4, k + 4 + req.content_length);
    let mut bytes: Vec<u8> = Vec::new();
    bytes.extend_from_slice(body);
    assert(bytes@ =~= buf@.subrange(k + 4, k + 4 + req.content_length));
    req.body = bytes;
    Ok(Some(req))
}

/// The line of one header field.
pub open spec fn field_text(h: HeaderView) -> Seq<char> {
    h.name + seq![':', ' '] + h.value + seq!['\r', '\n']
}

/// The lines of header fields, in their order.
pub open spec fn fields_text(headers: Seq<HeaderView>) -> Seq<char>
    decreases headers.len(),
{
    if headers.len() == 0 {
        Seq::empty()
    } else {
        fields_text(headers.drop_last()) + field_text(headers.last())
    }
}

/// The head of a request as text: request line, header lines, blank line.
pub open spec fn head_text(
    method: Seq<char>,
    target: Seq<char>,
    version: Seq<char>,
    headers: Seq<HeaderView>,
) -> Seq<char> {
    method + seq![' '] + target + seq![' '] + version + seq!['\r', '\n'] + fields_text(headers)
        + seq!['\r', '\n']
}

/// The bytes of a request on the wire, with `target` as its request
/// target; `None` where the head holds a character that is no byte.
pub open spec fn wire_form(req: RequestView, target: Seq<char>) -> Option<Seq<u8>> {
    let head = head_text(req.method, target, req.version, req.headers);
    if fits_bytes(head) {
        Some(bytes_of(head) + req.body)
    } else {
        None
    }
}

fn append_chars(out: &mut Vec<char>, more: &Vec<char>)
    ensures
        final(out)@ == old(out)@ + more@,
{
    let ghost start = out@;
    let mut i: usize = 0;
    assert(out@ =~= start + more@.take(0));
    while i < more.len()
        invariant
            i <= more@.len(),
            out@ == start + more@.take(i as int),
        decreases more@.len() - i,
    {
        out.push(more[i]);
        assert(out@ =~= start + more@.take(i + 1));
        i += 1;
    }
    assert(more@.take(more@.len() as int) =~= more@);
}

fn check_fits(text: &Vec<char>) -> (r: bool)
    ensures
        r == fits_bytes(text@),
{
    let mut i: usize = 0;
    while i < text.len()
        invariant
            i <= text@.len(),
            forall|j: int| 0 <= j < i ==> (#[trigger] text@[j]) as u32 <= 0xFF,
        decreases text@.len() - i,
    {
        if text[i] as u32 > 0xFF {
            return false;
        }
        i += 1;
    }
    true
}

/// Writes a request as the bytes that go upstream.
pub fn serialize_request(req: &HttpRequest, target: &str) -> (r: Option<Vec<u8>>)
    ensures
        match r {
            Some(v) => wire_form(req@, target@) == Some(v@),
            None => wire_form(req@, target@) is None,
        },
{
    let mut head: Vec<char> = Vec::new();
    let method = chars_of(req.method.as_str());
    let t = chars_of(target);
    let version = chars_of(req.version.as_str());
    append_chars(&mut head, &method);
    head.push(' ');
    append_chars(&mut head, &t);
    head.push(' ');
    append_chars(&mut head, &version);
    head.push('\r');
    head.push('\n');
    let ghost first = req.method@ + seq![' '] + target@ + seq![' '] + req.version@ + seq![
        '\r',
        '\n',
    ];
    assert(head@ =~= first);
    let ghost all = header_views(req.headers@);
    let mut i: usize = 0;
    assert(all.take(0) =~= Seq::<HeaderView>::empty());
    assert(head@ =~= first + fields_text(all.take(0)));
    while i < req.headers.len()
        invariant
            i <= req.headers@.len(),
            all == header_views(req.headers@),
            head@ == first + fields_text(all.take(i as int)),
        decreases req.headers@.len() - i,
    {
        let ghost before = head@;
        let name = chars_of(req.headers[i].name.as_str());
        let value = chars_of(req.headers[i].value.as_str());
        append_chars(&mut head, &name);
        head.push(':');
        head.push(' ');
        append_chars(&mut head, &value);
        head.push('\r');
        head.push('\n');
        proof {
            assert(all.take(i + 1).drop_last() =~= all.take(i as int));
            assert(all.take(i + 1).last() == req.headers@[i as int]@);
            assert(head@ =~= before + field_text(req.headers@[i as int]@));
            assert(head@ =~= first + fields_text(all.take(i + 1)));
        }
        i += 1;
    }
    assert(all.take(req.headers@.len() as int) =~= all);
    head.push('\r');
    head.push('\n');
    assert(head@ =~= head_text(req.method@, target@, req.version@, all));
    if !check_fits(&head) {
        return None;
    }
    let mut out: Vec<u8> = Vec::new();
    encode_text(&mut out, &head);
    out.extend_from_slice(req.body.as_slice());
    assert(out@ =~= bytes_of(head@) + req.body@);
    Some(out)
}

/// The words that go with a status code in a status line.
pub open spec fn reason_text(status: u16) -> Seq<char> {
    if status == 400 {
        "Bad Request"@
    } else if status == 404 {
        "Not Found"@
    } else if status == 502 {
        "Bad Gateway"@
    } else {
        "Error"@
    }
}

/// The head of an answer that the proxy writes itself: plain text, of the
/// given length, on a connection that closes.
pub open spec fn answer_head(status: u16, length: nat) -> Seq<char> {
    "HTTP/1.1 "@ + decimal(status as nat) + seq![' '] + reason_text(status) + "\r\n"@
        + "Content-Type: text/plain; charset=utf-8\r\n"@ + "Content-Length: "@ + decimal(length)
        + "\r\n"@ + "Connection: close\r\n\r\n"@
}

/// An answer that the proxy writes itself, as bytes: the head and the
/// message, both in UTF-8.
pub open spec fn answer_bytes(status: u16, message: Seq<char>) -> Seq<u8> {
    let body = vstd::utf8::encode_utf8(message);
    vstd::utf8::encode_utf8(answer_head(status, body.len())) + body
}

/// Builds a plain-text answer with the given status.
pub fn plain_response(status: u16, message: &str) -> (r: Vec<u8>)
    ensures
        r@ == answer_bytes(status, message@),
{
    let body = message.as_bytes();
    let mut head: Vec<char> = Vec::new();
    let a = chars_of("HTTP/1.1 ");
    let code = decimal_chars(status as u64);
    let reason = chars_of(
        if status == 400 {
            "Bad Request"
        } else if status == 404 {
            "Not Found"
        } else if status == 502 {
            "Bad Gateway"
        } else {
            "Error"
        },
    );
    let crlf = chars_of("\r\n");
    let ctype = chars_of("Content-Type: text/plain; charset=utf-8\r\n");
    let clen = chars_of("Content-Length: ");
    let n = decimal_chars(body.len() as u64);
    let close = chars_of("Connection: close\r\n\r\n");
    append_chars(&mut head, &a);
    append_chars(&mut head, &code);
    head.push(' ');
    append_chars(&mut head, &reason);
    append_chars(&mut head, &crlf);
    append_chars(&mut head, &ctype);
    append_chars(&mut head, &clen);
    append_chars(&mut head, &n);
    append_chars(&mut head, &crlf);
    append_chars(&mut head, &close);
    assert(head@ =~= answer_head(status, body@.len()));
    let text = string_of(&head);
    let mut out: Vec<u8> = Vec::new();
    out.extend_from_slice(text.as_str().as_bytes());
    out.extend_from_slice(body);
    assert(out@ =~= answer_bytes(status, message@));
    out
}

/// What the proxy does with a request: where it goes and how it looks
/// when it gets there.
#[derive(Clone, Debug)]
pub struct ForwardPlan {
    /// The position in the table of the route that the request takes.
    pub route_index: usize,
    pub target_scheme: TargetScheme,
    pub target_host: String,
    pub target_port: u16,
    /// Whether the upstream certificate goes unchecked.
    pub insecure_tls: bool,
    /// Whether the request asks for a WebSocket upgrade.
    pub websocket: bool,
    /// The request target sent upstream.
    pub request_target: String,
    /// The absolute URI of the upstream request.
    pub upstream_uri: String,
    /// The header fields sent upstream.
    pub headers: Vec<Header>,
}

/// The mathematical content of a plan.
pub struct PlanView {
    pub route_index: int,
    pub target_scheme: TargetScheme,
    pub target_host: Seq<char>,
    pub target_port: u16,
    pub insecure_tls: bool,
    pub websocket: bool,
    pub request_target: Seq<char>,
    pub upstream_uri: Seq<char>,
    pub headers: Seq<HeaderView>,
}

impl View for ForwardPlan {
    type V = PlanView;

    open spec fn view(&self) -> PlanView {
        PlanView {
            route_index: self.route_index as int,
            target_scheme: self.target_scheme,
            target_host: self.target_host@,
            target_port: self.target_port,
            insecure_tls: self.insecure_tls,
            websocket: self.websocket,
            request_target: self.request_target@,
            upstream_uri: self.upstream_uri@,
            headers: header_views(self.headers@),
        }
    }
}

/// The plan for a request that came from `peer_ip`: the first route of the
/// table that admits the host and path it asks for; `NoRouteMatch` where
/// none does, `BadRequest` where the upstream address is refused or the
/// request's fields cannot be rewritten.
pub open spec fn plan_for(table: Seq<RouteView>, req: RequestView, peer_ip: Seq<char>) -> Result<
    PlanView,
    ProxyError,
> {
    let host = written_host(req.headers, req.authority);
    let k = first_admitting(table, host, req.path);
    if k >= table.len() {
        Err(ProxyError::NoRouteMatch)
    } else if uri_refusal(upstream_uri(table[k], req.path, req.query)) is Some {
        Err(ProxyError::BadRequest)
    } else {
        let route = table[k];
        let websocket = asks_websocket(req.headers);
        let original_host = match req.host {
            Some(h) => h,
            None => Seq::empty(),
        };
        match rewritten(req.headers, route, peer_ip, original_host, websocket) {
            Err(e) => Err(e),
            Ok(headers) => Ok(
                PlanView {
                    route_index: k,
                    target_scheme: route.target_scheme,
                    target_host: route.target_host,
                    target_port: route.target_port,
                    insecure_tls: route.allow_insecure_tls && route.target_scheme
                        == TargetScheme::Https,
                    websocket,
                    request_target: forwarded_target(route, req.path, req.query),
                    upstream_uri: upstream_uri(route, req.path, req.query),
                    headers,
                },
            ),
        }
    }
}

/// Decides what to do with a request.
pub fn plan_request(routes: &[ProxyRoute], req: &HttpRequest, peer_ip: &str) -> (r: Result<
    ForwardPlan,
    ProxyError,
>)
    ensures
        match plan_for(route_views(routes@), req@, peer_ip@) {
            Ok(p) => r matches Ok(plan) && plan@ == p,
            Err(e) => r matches Err(x) && x == e,
        },
{
    let authority: Option<&str> = match &req.authority {
        Some(a) => Some(a.as_str()),
        None => None,
    };
    let host = request_host_text(&req.headers, authority);
    let host_ref: Option<&str> = match &host {
        Some(h) => Some(h.as_str()),
        None => None,
    };
    let ghost table = route_views(routes@);
    let ghost k = first_admitting(table, opt_str_text(host_ref), req.path@);
    let mut index: usize = 0;
    let route = match select_route_index(routes, host_ref, req.path.as_str()) {
        None => {
            return Err(ProxyError::NoRouteMatch);
        },
        Some(i) => {
            index = i;
            &routes[i]
        },
    };
    assert(table[k] == route@);
    let query: Option<&str> = match &req.query {
        Some(q) => Some(q.as_str()),
        None => None,
    };
    let uri = match build_upstream_uri(req.path.as_str(), query, route) {
        Ok(u) => u,
        Err(_) => {
            return Err(ProxyError::BadRequest);
        },
    };
    let websocket = is_websocket_upgrade(&req.headers);
    let empty = String::new();
    let original_host: &str = match &req.host {
        Some(h) => h.as_str(),
        None => empty.as_str(),
    };
    let mut headers = copy_headers(&req.headers);
    match apply_proxy_headers(&mut headers, route, peer_ip, original_host, websocket) {
        Err(e) => {
            return Err(e);
        },
        Ok(()) => {},
    }
    let request_target = rewrite_path_and_query(req.path.as_str(), query, route);
    Ok(
        ForwardPlan {
            route_index: index,
            target_scheme: route.target_scheme,
            target_host: route.target_host.clone(),
            target_port: route.target_port,
            insecure_tls: route.uses_insecure_client(),
            websocket,
            request_target,
            upstream_uri: uri,
            headers,
        },
    )
}

} // verus!
