//! How the proxy rewrites the header fields of a request before it sends
//! the request on, and what it reads from them.

use crate::http::{
    check_header_value, first_value, get_header, header_views, is_header_value, set_header,
    with_header, Header, HeaderView, ProxyError,
};
use crate::routes::{
    named_host, normalize_host_value, opt_text, ProxyRoute, RouteView,
};
use crate::text::{
    chars_eq, chars_of, concat_chars, copy_range, find_first, first_index_of,
    lemma_first_index_of, lowercase, lowercase_chars, starts_with, starts_with_chars, string_of,
    trim, trim_chars,
};
use vstd::prelude::*;

verus! {

/// Whether `name` is one of the fields that belong to a single connection
/// and are never sent on.
pub open spec fn is_hop_name(name: Seq<char>) -> bool {
    ||| name == "connection"@
    ||| name == "proxy-authenticate"@
    ||| name == "proxy-authorization"@
    ||| name == "te"@
    ||| name == "trailer"@
    ||| name == "transfer-encoding"@
    ||| name == "proxy-connection"@
    ||| name == "keep-alive"@
}

/// Whether a comma-separated list holds `name`, its items read without
/// white space around them and without regard to case.
pub open spec fn lists_token(list: Seq<char>, name: Seq<char>) -> bool
    decreases list.len(),
{
    let k = first_index_of(list, ',');
    lowercase(trim(list.take(k))) == name || (0 <= k < list.len() && lists_token(
        list.skip(k + 1),
        name,
    ))
}

/// Whether the field with this name, in lower case, is dropped from a
/// request: the hop-by-hop fields are, and every field that the request's
/// `Connection` field names; `Upgrade` is dropped unless the request is
/// kept as an upgrade.
pub open spec fn is_dropped(name: Seq<char>, connection: Seq<char>, keep_upgrade: bool) -> bool {
    ||| is_hop_name(name)
    ||| !keep_upgrade && name == "upgrade"@
    ||| name.len() > 0 && !(keep_upgrade && name == "upgrade"@) && lists_token(connection, name)
}

/// The fields that are not dropped, in their order.
pub open spec fn kept_fields(headers: Seq<HeaderView>, connection: Seq<char>, keep_upgrade: bool) -> Seq<
    HeaderView,
>
    decreases headers.len(),
{
    if headers.len() == 0 {
        Seq::empty()
    } else if is_dropped(lowercase(headers.last().name), connection, keep_upgrade) {
        kept_fields(headers.drop_last(), connection, keep_upgrade)
    } else {
        kept_fields(headers.drop_last(), connection, keep_upgrade).push(headers.last())
    }
}

/// What an optional text holds, nothing counting as the empty text.
pub open spec fn or_empty(o: Option<Seq<char>>) -> Seq<char> {
    match o {
        Some(s) => s,
        None => Seq::empty(),
    }
}

/// The `Connection` field that the forwarded request carries.
pub open spec fn connection_field(keep_upgrade: bool) -> HeaderView {
    HeaderView {
        name: "connection"@,
        value: if keep_upgrade {
            "upgrade"@
        } else {
            "close"@
        },
    }
}

/// The fields of a request without what belongs to the client's
/// connection, and with the `Connection` field of the forwarded request at
/// the end.
pub open spec fn sanitized(headers: Seq<HeaderView>, keep_upgrade: bool) -> Seq<HeaderView> {
    kept_fields(headers, or_empty(first_value(headers, "connection"@)), keep_upgrade).push(
        connection_field(keep_upgrade),
    )
}

fn token_listed(list: &Vec<char>, name: &Vec<char>) -> (r: bool)
    ensures
        r == lists_token(list@, name@),
{
    let mut pos: usize = 0;
    assert(list@.skip(0) =~= list@);
    loop
        invariant
            pos <= list@.len(),
            lists_token(list@, name@) == lists_token(list@.skip(pos as int), name@),
        decreases list@.len() - pos,
    {
        let rest = copy_range(list, pos, list.len());
        assert(rest@ =~= list@.skip(pos as int));
        proof {
            lemma_first_index_of(rest@, ',');
        }
        let k = find_first(&rest, ',');
        let item = copy_range(&rest, 0, k);
        assert(item@ =~= rest@.take(k as int));
        let t = trim_chars(&item);
        let lower = lowercase_chars(&t);
        if chars_eq(&lower, name) {
            return true;
        }
        if k >= rest.len() {
            return false;
        }
        assert(rest@.skip(k + 1) =~= list@.skip(pos + k + 1));
        pos = pos + k + 1;
    }
}

fn hop_name(name: &Vec<char>) -> (r: bool)
    ensures
        r == is_hop_name(name@),
{
    let a = chars_of("connection");
    let b = chars_of("proxy-authenticate");
    let c = chars_of("proxy-authorization");
    let d = chars_of("te");
    let e = chars_of("trailer");
    let f = chars_of("transfer-encoding");
    let g = chars_of("proxy-connection");
    let h = chars_of("keep-alive");
    chars_eq(name, &a) || chars_eq(name, &b) || chars_eq(name, &c) || chars_eq(name, &d)
        || chars_eq(name, &e) || chars_eq(name, &f) || chars_eq(name, &g) || chars_eq(name, &h)
}

fn dropped(name: &Vec<char>, connection: &Vec<char>, keep_upgrade: bool) -> (r: bool)
    ensures
        r == is_dropped(name@, connection@, keep_upgrade),
{
    if hop_name(name) {
        return true;
    }
    let upgrade = chars_of("upgrade");
    let is_upgrade = chars_eq(name, &upgrade);
    if !keep_upgrade && is_upgrade {
        return true;
    }
    if name.len() == 0 || (keep_upgrade && is_upgrade) {
        return false;
    }
    token_listed(connection, name)
}

fn value_or_empty(headers: &Vec<Header>, name: &str) -> (r: Vec<char>)
    ensures
        r@ == or_empty(first_value(header_views(headers@), name@)),
{
    match get_header(headers, name) {
        Some(v) => v,
        None => Vec::new(),
    }
}

/// Drops from a request what belongs to the client's connection, and sets
/// the `Connection` field of the forwarded request.
pub fn sanitize_hop_headers(headers: &mut Vec<Header>, keep_upgrade: bool)
    ensures
        header_views(final(headers)@) == sanitized(header_views(old(headers)@), keep_upgrade),
{
    let connection = value_or_empty(headers, "connection");
    let mut kept: Vec<Header> = Vec::new();
    let ghost all = header_views(headers@);
    let mut i: usize = 0;
    assert(all.take(0) =~= Seq::<HeaderView>::empty());
    assert(header_views(kept@) =~= Seq::<HeaderView>::empty());
    while i < headers.len()
        invariant
            i <= headers@.len(),
            all == header_views(headers@),
            header_views(kept@) == kept_fields(all.take(i as int), connection@, keep_upgrade),
        decreases headers@.len() - i,
    {
        proof {
            assert(all.take(i + 1).drop_last() =~= all.take(i as int));
            assert(all.take(i + 1).last() == headers@[i as int]@);
        }
        let name = chars_of(headers[i].name.as_str());
        let lower = lowercase_chars(&name);
        if !dropped(&lower, &connection, keep_upgrade) {
            let ghost before = header_views(kept@);
            let h = Header { name: headers[i].name.clone(), value: headers[i].value.clone() };
            kept.push(h);
            assert(header_views(kept@) =~= before.push(headers@[i as int]@));
        }
        i += 1;
    }
    assert(all.take(headers@.len() as int) =~= all);
    let ghost before = header_views(kept@);
    let value = if keep_upgrade {
        "upgrade"
    } else {
        "close"
    };
    kept.push(Header { name: "connection".to_owned(), value: value.to_owned() });
    assert(header_views(kept@) =~= before.push(connection_field(keep_upgrade)));
    *headers = kept;
}

/// The value of `X-Forwarded-For` once the peer's address is added: the
/// address alone, or behind the value that is there, a comma and a space.
pub open spec fn forwarded_for(headers: Seq<HeaderView>, peer_ip: Seq<char>) -> Seq<char> {
    let current = trim(or_empty(first_value(headers, "x-forwarded-for"@)));
    if current.len() == 0 {
        peer_ip
    } else {
        current + seq![',', ' '] + peer_ip
    }
}

fn forwarded_for_value(headers: &Vec<Header>, peer_ip: &str) -> (r: Vec<char>)
    ensures
        r@ == forwarded_for(header_views(headers@), peer_ip@),
{
    let raw = value_or_empty(headers, "x-forwarded-for");
    let current = trim_chars(&raw);
    let ip = chars_of(peer_ip);
    if current.len() == 0 {
        ip
    } else {
        let mut sep: Vec<char> = Vec::new();
        sep.push(',');
        sep.push(' ');
        assert(sep@ =~= seq![',', ' ']);
        let head = concat_chars(&current, &sep);
        concat_chars(&head, &ip)
    }
}

/// Adds the peer's address to `X-Forwarded-For`. Refused as a bad request,
/// with the fields untouched, where the value would not be a header value.
pub fn append_x_forwarded_for(headers: &mut Vec<Header>, peer_ip: &str) -> (r: Result<
    (),
    ProxyError,
>)
    ensures
        ({
            let before = header_views(old(headers)@);
            let value = forwarded_for(before, peer_ip@);
            if is_header_value(value) {
                r is Ok && header_views(final(headers)@) == with_header(
                    before,
                    "x-forwarded-for"@,
                    value,
                )
            } else {
                r == Err::<(), ProxyError>(ProxyError::BadRequest) && header_views(
                    final(headers)@,
                ) == before
            }
        }),
{
    let value = forwarded_for_value(headers, peer_ip);
    if !check_header_value(&value) {
        return Err(ProxyError::BadRequest);
    }
    set_header(headers, "x-forwarded-for", &value);
    Ok(())
}

/// The fields of the request that is sent on for a route, or the refusal of
/// the request where a value to be written is no header value: the fields
/// are sanitized, `Host` names the target, the peer is added to
/// `X-Forwarded-For`, `X-Forwarded-Host` takes the host the client asked
/// for, if any, and `X-Forwarded-Proto` says `http`.
pub open spec fn rewritten(
    headers: Seq<HeaderView>,
    route: RouteView,
    peer_ip: Seq<char>,
    original_host: Seq<char>,
    keep_upgrade: bool,
) -> Result<Seq<HeaderView>, ProxyError> {
    let s1 = with_header(sanitized(headers, keep_upgrade), "host"@, route.authority());
    let s2 = with_header(s1, "x-forwarded-for"@, forwarded_for(s1, peer_ip));
    let s3 = if original_host.len() > 0 {
        with_header(s2, "x-forwarded-host"@, original_host)
    } else {
        s2
    };
    if !is_header_value(route.authority()) || !is_header_value(forwarded_for(s1, peer_ip)) || (
    original_host.len() > 0 && !is_header_value(original_host)) {
        Err(ProxyError::BadRequest)
    } else {
        Ok(with_header(s3, "x-forwarded-proto"@, "http"@))
    }
}

/// A copy of a list of fields.
pub fn copy_headers(headers: &Vec<Header>) -> (r: Vec<Header>)
    ensures
        header_views(r@) == header_views(headers@),
{
    let mut out: Vec<Header> = Vec::new();
    let mut i: usize = 0;
    while i < headers.len()
        invariant
            i <= headers@.len(),
            header_views(out@) == header_views(headers@).take(i as int),
        decreases headers@.len() - i,
    {
        let ghost before = header_views(out@);
        out.push(Header { name: headers[i].name.clone(), value: headers[i].value.clone() });
        assert(header_views(out@) =~= before.push(headers@[i as int]@));
        assert(header_views(headers@).take(i + 1) =~= header_views(headers@).take(
            i as int,
        ).push(headers@[i as int]@));
        i += 1;
    }
    assert(header_views(headers@).take(headers@.len() as int) =~= header_views(headers@));
    out
}

/// Rewrites the fields of a request for the upstream of `route`. Where the
/// request is refused, the fields are left as they were.
pub fn apply_proxy_headers(
    headers: &mut Vec<Header>,
    route: &ProxyRoute,
    peer_ip: &str,
    original_host: &str,
    keep_upgrade: bool,
) -> (r: Result<(), ProxyError>)
    ensures
        match rewritten(
            header_views(old(headers)@),
            route@,
            peer_ip@,
            original_host@,
            keep_upgrade,
        ) {
            Ok(fields) => r is Ok && header_views(final(headers)@) == fields,
            Err(e) => r == Err::<(), ProxyError>(e) && header_views(final(headers)@)
                == header_views(old(headers)@),
        },
{
    let mut work = copy_headers(headers);
    sanitize_hop_headers(&mut work, keep_upgrade);
    let authority = route.target_authority();
    let authority_chars = chars_of(authority.as_str());
    if !check_header_value(&authority_chars) {
        return Err(ProxyError::BadRequest);
    }
    set_header(&mut work, "host", &authority_chars);
    match append_x_forwarded_for(&mut work, peer_ip) {
        Err(e) => {
            return Err(e);
        },
        Ok(()) => {},
    }
    let host = chars_of(original_host);
    if host.len() > 0 {
        if !check_header_value(&host) {
            return Err(ProxyError::BadRequest);
        }
        set_header(&mut work, "x-forwarded-host", &host);
    }
    let proto = chars_of("http");
    set_header(&mut work, "x-forwarded-proto", &proto);
    *headers = work;
    Ok(())
}

/// Whether `text` holds `pattern` somewhere.
pub open spec fn contains_text(text: Seq<char>, pattern: Seq<char>) -> bool {
    exists|i: int| 0 <= i <= text.len() && #[trigger] starts_with(text.skip(i), pattern)
}

/// Whether `text` holds `pattern` somewhere.
pub fn has_text(text: &Vec<char>, pattern: &Vec<char>) -> (r: bool)
    ensures
        r == contains_text(text@, pattern@),
{
    let mut i: usize = 0;
    while i < text.len()
        invariant
            i <= text@.len(),
            forall|j: int| 0 <= j < i ==> !#[trigger] starts_with(text@.skip(j), pattern@),
        decreases text@.len() - i,
    {
        let rest = copy_range(text, i, text.len());
        assert(rest@ =~= text@.skip(i as int));
        if starts_with_chars(&rest, pattern) {
            return true;
        }
        i += 1;
    }
    let rest = copy_range(text, i, text.len());
    assert(rest@ =~= text@.skip(i as int));
    starts_with_chars(&rest, pattern)
}

/// Whether the fields ask for a WebSocket upgrade: `Upgrade` says
/// `websocket` and `Connection` holds `upgrade`, both read without regard
/// to case.
pub open spec fn asks_websocket(headers: Seq<HeaderView>) -> bool {
    &&& lowercase(or_empty(first_value(headers, "upgrade"@))) == "websocket"@
    &&& contains_text(lowercase(or_empty(first_value(headers, "connection"@))), "upgrade"@)
}

pub fn is_websocket_upgrade(headers: &Vec<Header>) -> (r: bool)
    ensures
        r == asks_websocket(header_views(headers@)),
{
    let upgrade = value_or_empty(headers, "upgrade");
    let upgrade_lower = lowercase_chars(&upgrade);
    let websocket = chars_of("websocket");
    if !chars_eq(&upgrade_lower, &websocket) {
        return false;
    }
    let connection = value_or_empty(headers, "connection");
    let connection_lower = lowercase_chars(&connection);
    let wanted = chars_of("upgrade");
    has_text(&connection_lower, &wanted)
}

/// The host as a request writes it: the value of its `Host` field, or,
/// where it has none, the authority of its target.
pub open spec fn written_host(headers: Seq<HeaderView>, authority: Option<Seq<char>>) -> Option<
    Seq<char>,
> {
    match first_value(headers, "host"@) {
        Some(v) => Some(v),
        None => authority,
    }
}

/// The host a request asks for, in normal form: what its `Host` field
/// names, or, where it has none, what the authority of its target names.
pub open spec fn requested_host(headers: Seq<HeaderView>, authority: Option<Seq<char>>) -> Option<
    Seq<char>,
> {
    named_host(written_host(headers, authority))
}

/// The host as a request writes it, for the route table to judge.
pub fn request_host_text(headers: &Vec<Header>, authority: Option<&str>) -> (r: Option<String>)
    ensures
        opt_text(r) == written_host(
            header_views(headers@),
            match authority {
                Some(a) => Some(a@),
                None => None,
            },
        ),
{
    match get_header(headers, "host") {
        Some(v) => Some(string_of(&v)),
        None => match authority {
            Some(a) => {
                let c = chars_of(a);
                Some(string_of(&c))
            },
            None => None,
        },
    }
}

pub fn extract_request_host(headers: &Vec<Header>, authority: Option<&str>) -> (r: Option<String>)
    ensures
        opt_text(r) == requested_host(
            header_views(headers@),
            match authority {
                Some(a) => Some(a@),
                None => None,
            },
        ),
{
    match get_header(headers, "host") {
        Some(v) => {
            let s = string_of(&v);
            normalize_host_value(s.as_str())
        },
        None => match authority {
            Some(a) => normalize_host_value(a),
            None => None,
        },
    }
}

} // verus!
