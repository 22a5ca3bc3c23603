//! The parts of an HTTP message that the proxy reads and rewrites: header
//! fields, error kinds, and the text of a message as bytes.

use crate::text::{chars_eq, chars_of, lowercase, lowercase_chars, string_of};
use vstd::prelude::*;

verus! {

/// Why the proxy refused to start, or failed a request.
#[derive(Clone, Copy, Debug, PartialEq, Eq, Structural)]
pub enum ProxyError {
    BindFailed,
    AlreadyRunning,
    InvalidListen,
    NoRoutes,
    BadTarget,
    HeaderTooLarge,
    ChunkedNotSupported,
    BadRequest,
    NoRouteMatch,
    UpstreamConnect,
    UpstreamTls,
    UpstreamIo,
    WsUpgradeFailed,
}

impl ProxyError {
    /// The HTTP status sent to a client for this error: 404 where no route
    /// matches, 502 where the upstream fails, 400 for the rest.
    pub open spec fn status_code(self) -> u16 {
        match self {
            ProxyError::NoRouteMatch => 404,
            ProxyError::UpstreamConnect => 502,
            ProxyError::UpstreamTls => 502,
            ProxyError::UpstreamIo => 502,
            ProxyError::WsUpgradeFailed => 502,
            _ => 400,
        }
    }

    pub fn status(self) -> (r: u16)
        ensures
            r == self.status_code(),
    {
        match self {
            ProxyError::NoRouteMatch => 404,
            ProxyError::UpstreamConnect => 502,
            ProxyError::UpstreamTls => 502,
            ProxyError::UpstreamIo => 502,
            ProxyError::WsUpgradeFailed => 502,
            _ => 400,
        }
    }

    /// The name of the error kind.
    pub open spec fn code_text(self) -> Seq<char> {
        match self {
            ProxyError::BindFailed => "BIND_FAILED"@,
            ProxyError::AlreadyRunning => "ALREADY_RUNNING"@,
            ProxyError::InvalidListen => "INVALID_LISTEN"@,
            ProxyError::NoRoutes => "NO_ROUTES"@,
            ProxyError::BadTarget => "BAD_TARGET"@,
            ProxyError::HeaderTooLarge => "HEADER_TOO_LARGE"@,
            ProxyError::ChunkedNotSupported => "CHUNKED_NOT_SUPPORTED"@,
            ProxyError::BadRequest => "BAD_REQUEST"@,
            ProxyError::NoRouteMatch => "NO_ROUTE_MATCH"@,
            ProxyError::UpstreamConnect => "UPSTREAM_CONNECT"@,
            ProxyError::UpstreamTls => "UPSTREAM_TLS"@,
            ProxyError::UpstreamIo => "UPSTREAM_IO"@,
            ProxyError::WsUpgradeFailed => "WS_UPGRADE_FAILED"@,
        }
    }

    pub fn code(self) -> (r: &'static str)
        ensures
            r@ == self.code_text(),
    {
        match self {
            ProxyError::BindFailed => "BIND_FAILED",
            ProxyError::AlreadyRunning => "ALREADY_RUNNING",
            ProxyError::InvalidListen => "INVALID_LISTEN",
            ProxyError::NoRoutes => "NO_ROUTES",
            ProxyError::BadTarget => "BAD_TARGET",
            ProxyError::HeaderTooLarge => "HEADER_TOO_LARGE",
            ProxyError::ChunkedNotSupported => "CHUNKED_NOT_SUPPORTED",
            ProxyError::BadRequest => "BAD_REQUEST",
            ProxyError::NoRouteMatch => "NO_ROUTE_MATCH",
            ProxyError::UpstreamConnect => "UPSTREAM_CONNECT",
            ProxyError::UpstreamTls => "UPSTREAM_TLS",
            ProxyError::UpstreamIo => "UPSTREAM_IO",
            ProxyError::WsUpgradeFailed => "WS_UPGRADE_FAILED",
        }
    }
}

/// The text that bytes spell when each byte stands for the character with
/// its number.
pub open spec fn text_of(bytes: Seq<u8>) -> Seq<char> {
    bytes.map_values(|b: u8| b as char)
}

/// Whether each character of a text has a number below 256, so that the
/// text can be written as bytes.
pub open spec fn fits_bytes(text: Seq<char>) -> bool {
    forall|i: int| 0 <= i < text.len() ==> (#[trigger] text[i]) as u32 <= 0xFF
}

/// The bytes that spell a text, one for each character.
pub open spec fn bytes_of(text: Seq<char>) -> Seq<u8> {
    text.map_values(|c: char| c as u8)
}

pub fn decode_text(bytes: &[u8]) -> (r: Vec<char>)
    ensures
        r@ == text_of(bytes@),
{
    let mut out: Vec<char> = Vec::new();
    let mut i: usize = 0;
    while i < bytes.len()
        invariant
            i <= bytes@.len(),
            out@ == text_of(bytes@).take(i as int),
        decreases bytes@.len() - i,
    {
        out.push(bytes[i] as char);
        i += 1;
    }
    out
}

/// Appends the bytes of `text` to `out`.
pub fn encode_text(out: &mut Vec<u8>, text: &Vec<char>)
    requires
        fits_bytes(text@),
    ensures
        final(out)@ == old(out)@ + bytes_of(text@),
{
    let mut i: usize = 0;
    let ghost start = out@;
    assert(out@ =~= start + bytes_of(text@).take(0));
    while i < text.len()
        invariant
            i <= text@.len(),
            fits_bytes(text@),
            out@ == start + bytes_of(text@).take(i as int),
        decreases text@.len() - i,
    {
        let c = text[i];
        assert(text@[i as int] as u32 <= 0xFF);
        let b = c as u8;
        let ghost before = out@;
        out.push(b);
        assert(out@ =~= start + bytes_of(text@).take(i + 1));
        i += 1;
    }
    assert(bytes_of(text@).take(text@.len() as int) =~= bytes_of(text@));
}

/// A text read from bytes can be written as bytes, and gives the bytes back.
pub proof fn lemma_text_round_trip(bytes: Seq<u8>)
    ensures
        fits_bytes(text_of(bytes)),
        bytes_of(text_of(bytes)) == bytes,
{
    assert(bytes_of(text_of(bytes)) =~= bytes);
}

/// Whether a text may stand as a header value: no control characters but
/// the tab, and nothing that does not fit a byte.
pub open spec fn is_header_value(text: Seq<char>) -> bool {
    forall|i: int|
        0 <= i < text.len() ==> {
            let u = (#[trigger] text[i]) as u32;
            (u >= 32 || u == 9) && u != 127 && u <= 0xFF
        }
}

pub fn check_header_value(text: &Vec<char>) -> (r: bool)
    ensures
        r == is_header_value(text@),
{
    let mut i: usize = 0;
    while i < text.len()
        invariant
            i <= text@.len(),
            forall|j: int|
                0 <= j < i ==> {
                    let u = (#[trigger] text@[j]) as u32;
                    (u >= 32 || u == 9) && u != 127 && u <= 0xFF
                },
        decreases text@.len() - i,
    {
        let u: u32 = text[i] as u32;
        if !((u >= 32 || u == 9) && u != 127 && u <= 0xFF) {
            return false;
        }
        i += 1;
    }
    true
}

/// One header field.
#[derive(Clone, Debug)]
pub struct Header {
    pub name: String,
    pub value: String,
}

/// The mathematical content of a header field.
pub struct HeaderView {
    pub name: Seq<char>,
    pub value: Seq<char>,
}

impl View for Header {
    type V = HeaderView;

    open spec fn view(&self) -> HeaderView {
        HeaderView { name: self.name@, value: self.value@ }
    }
}

/// The views of a list of header fields.
pub open spec fn header_views(s: Seq<Header>) -> Seq<HeaderView> {
    s.map_values(|h: Header| h@)
}

/// Whether a field goes by `name`, which is in lower case: field names are
/// read without regard to case.
pub open spec fn is_named(h: HeaderView, name: Seq<char>) -> bool {
    lowercase(h.name) == name
}

/// The value of the first field that goes by `name`.
pub open spec fn first_value(headers: Seq<HeaderView>, name: Seq<char>) -> Option<Seq<char>>
    decreases headers.len(),
{
    if headers.len() == 0 {
        None
    } else if is_named(headers[0], name) {
        Some(headers[0].value)
    } else {
        first_value(headers.drop_first(), name)
    }
}

/// The fields that do not go by `name`, in their order.
pub open spec fn without_name(headers: Seq<HeaderView>, name: Seq<char>) -> Seq<HeaderView>
    decreases headers.len(),
{
    if headers.len() == 0 {
        Seq::empty()
    } else if is_named(headers.last(), name) {
        without_name(headers.drop_last(), name)
    } else {
        without_name(headers.drop_last(), name).push(headers.last())
    }
}

/// The fields with `name` set to `value`: every field that goes by the name
/// is taken out, and one with the value is put at the end.
pub open spec fn with_header(headers: Seq<HeaderView>, name: Seq<char>, value: Seq<char>) -> Seq<
    HeaderView,
> {
    without_name(headers, name).push(HeaderView { name, value })
}

/// Whether the field goes by `name`, given in lower case.
pub fn header_is_named(h: &Header, name: &Vec<char>) -> (r: bool)
    ensures
        r == is_named(h@, name@),
{
    let n = chars_of(h.name.as_str());
    let lower = lowercase_chars(&n);
    chars_eq(&lower, name)
}

/// The value of the first field that goes by `name`, given in lower case.
pub fn get_header(headers: &Vec<Header>, name: &str) -> (r: Option<Vec<char>>)
    ensures
        match r {
            Some(v) => first_value(header_views(headers@), name@) == Some(v@),
            None => first_value(header_views(headers@), name@) is None,
        },
{
    let wanted = chars_of(name);
    let ghost all = header_views(headers@);
    let mut i: usize = 0;
    assert(all.skip(0) =~= all);
    while i < headers.len()
        invariant
            i <= headers@.len(),
            all == header_views(headers@),
            wanted@ == name@,
            first_value(all, name@) == first_value(all.skip(i as int), name@),
        decreases headers@.len() - i,
    {
        proof {
            assert(all.skip(i as int).drop_first() =~= all.skip(i + 1));
            assert(all.skip(i as int)[0] == headers@[i as int]@);
        }
        if header_is_named(&headers[i], &wanted) {
            return Some(chars_of(headers[i].value.as_str()));
        }
        i += 1;
    }
    None
}

/// Takes out every field that goes by `name`, given in lower case.
pub fn remove_header(headers: &mut Vec<Header>, name: &str)
    ensures
        header_views(final(headers)@) == without_name(header_views(old(headers)@), name@),
{
    let wanted = chars_of(name);
    let mut kept: Vec<Header> = Vec::new();
    let ghost all = header_views(headers@);
    let mut i: usize = 0;
    assert(all.take(0) =~= Seq::<HeaderView>::empty());
    assert(header_views(kept@) =~= Seq::<HeaderView>::empty());
    while i < headers.len()
        invariant
            i <= headers@.len(),
            all == header_views(headers@),
            wanted@ == name@,
            header_views(kept@) == without_name(all.take(i as int), name@),
        decreases headers@.len() - i,
    {
        proof {
            assert(all.take(i + 1).drop_last() =~= all.take(i as int));
            assert(all.take(i + 1).last() == headers@[i as int]@);
        }
        if !header_is_named(&headers[i], &wanted) {
            let ghost before = header_views(kept@);
            let h = Header { name: headers[i].name.clone(), value: headers[i].value.clone() };
            kept.push(h);
            assert(header_views(kept@) =~= before.push(headers@[i as int]@));
        }
        i += 1;
    }
    assert(all.take(headers@.len() as int) =~= all);
    *headers = kept;
}

/// Sets `name` to `value`: every field that goes by the name is taken out,
/// and one with the value is put at the end. The name is given in lower
/// case.
pub fn set_header(headers: &mut Vec<Header>, name: &str, value: &Vec<char>)
    ensures
        header_views(final(headers)@) == with_header(header_views(old(headers)@), name@, value@),
{
    remove_header(headers, name);
    let ghost before = header_views(headers@);
    let h = Header { name: name.to_owned(), value: string_of(value) };
    headers.push(h);
    assert(header_views(headers@) =~= before.push(HeaderView { name: name@, value: value@ }));
}

} // verus!
