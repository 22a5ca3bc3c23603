//! Reading an HTTP/1.1 request from the bytes a client sent: where the head
//! ends, what the request line and the header fields say, and how much body
//! follows.

use crate::http::{
    decode_text, first_value, get_header, header_views, text_of, Header, HeaderView, ProxyError,
};
use crate::rewrite::{contains_text, has_text, or_empty};
use crate::text::{
    chars_of, copy_range, digits_value, find_first, first_index_of, lemma_digits_prefix,
    lemma_first_index_of, lowercase, lowercase_chars, starts_with, starts_with_chars, string_of,
    trim, trim_chars,
};
use vstd::prelude::*;

verus! {

/// Most bytes a client may send without the head of its request ending.
pub const MAX_HEAD: usize = 0x10_0000;

/// Where the blank line that ends the head begins: the position of the
/// first carriage return, line feed, carriage return, line feed. The length
/// of `buf` where there is none.
pub open spec fn head_end(buf: Seq<u8>) -> int
    decreases buf.len(),
{
    if buf.len() < 4 {
        buf.len() as int
    } else if buf[0] == 13 && buf[1] == 10 && buf[2] == 13 && buf[3] == 10 {
        0
    } else {
        1 + head_end(buf.drop_first())
    }
}

pub proof fn lemma_head_end(buf: Seq<u8>)
    ensures
        0 <= head_end(buf) <= buf.len(),
        head_end(buf) < buf.len() ==> head_end(buf) + 4 <= buf.len(),
    decreases buf.len(),
{
    if buf.len() >= 4 && !(buf[0] == 13 && buf[1] == 10 && buf[2] == 13 && buf[3] == 10) {
        lemma_head_end(buf.drop_first());
    }
}

/// The position of the blank line that ends the head, if it is there.
pub fn find_head_end(buf: &[u8]) -> (r: Option<usize>)
    ensures
        match r {
            Some(k) => k == head_end(buf@) && k + 4 <= buf@.len(),
            None => head_end(buf@) == buf@.len(),
        },
{
    let n = buf.len();
    let mut i: usize = 0;
    assert(buf@.skip(0) =~= buf@);
    while n - i >= 4
        invariant
            i <= n,
            n == buf@.len(),
            head_end(buf@) == i + head_end(buf@.skip(i as int)),
        decreases n - i,
    {
        if buf[i] == 13 && buf[i + 1] == 10 && buf[i + 2] == 13 && buf[i + 3] == 10 {
            return Some(i);
        }
        proof {
            assert(buf@.skip(i as int).drop_first() =~= buf@.skip(i + 1));
        }
        i += 1;
    }
    None
}

/// Where the first line of `s` ends: the position of the first carriage
/// return that a line feed follows. The length of `s` where there is none.
pub open spec fn first_crlf(s: Seq<char>) -> int
    decreases s.len(),
{
    if s.len() < 2 {
        s.len() as int
    } else if s[0] == '\r' && s[1] == '\n' {
        0
    } else {
        1 + first_crlf(s.drop_first())
    }
}

pub proof fn lemma_first_crlf(s: Seq<char>)
    ensures
        0 <= first_crlf(s) <= s.len(),
        first_crlf(s) < s.len() ==> first_crlf(s) + 2 <= s.len(),
    decreases s.len(),
{
    if s.len() >= 2 && !(s[0] == '\r' && s[1] == '\n') {
        lemma_first_crlf(s.drop_first());
    }
}

/// The lines of `s`, which end in carriage return and line feed but for
/// the last.
pub open spec fn lines_of(s: Seq<char>) -> Seq<Seq<char>>
    decreases s.len(),
{
    let k = first_crlf(s);
    if 0 <= k && k + 2 <= s.len() {
        seq![s.take(k)] + lines_of(s.skip(k + 2))
    } else {
        seq![s]
    }
}

/// Method, target and version of a request line: three words that are not
/// empty, with one space between them.
pub open spec fn request_line(line: Seq<char>) -> Option<(Seq<char>, Seq<char>, Seq<char>)> {
    let a = first_index_of(line, ' ');
    let rest = line.skip(a + 1);
    let b = first_index_of(rest, ' ');
    let version = rest.skip(b + 1);
    if 0 < a < line.len() && 0 < b < rest.len() && version.len() > 0 && first_index_of(
        version,
        ' ',
    ) == version.len() {
        Some((line.take(a), rest.take(b), version))
    } else {
        None
    }
}

/// The field that a header line holds: a name before the first colon, a
/// value behind it, both without white space around them, and the name not
/// empty.
pub open spec fn header_line(line: Seq<char>) -> Option<HeaderView> {
    let k = first_index_of(line, ':');
    let name = trim(line.take(k));
    if 0 <= k < line.len() && name.len() > 0 {
        Some(HeaderView { name, value: trim(line.skip(k + 1)) })
    } else {
        None
    }
}

/// The fields that header lines hold; `None` if one of them holds none.
pub open spec fn fields_of(lines: Seq<Seq<char>>) -> Option<Seq<HeaderView>>
    decreases lines.len(),
{
    if lines.len() == 0 {
        Some(Seq::empty())
    } else {
        match (fields_of(lines.drop_last()), header_line(lines.last())) {
            (Some(fields), Some(field)) => Some(fields.push(field)),
            _ => None,
        }
    }
}

/// How many bytes of body the fields announce: none without
/// `Content-Length`; `None` where its value is not a decimal number that a
/// machine word holds.
pub open spec fn body_length(headers: Seq<HeaderView>) -> Option<nat> {
    match first_value(headers, "content-length"@) {
        None => Some(0),
        Some(v) => if v.len() == 0 {
            None
        } else {
            match digits_value(v) {
                Some(n) => if n <= usize::MAX {
                    Some(n)
                } else {
                    None
                },
                None => None,
            }
        },
    }
}

/// Whether the fields announce a chunked body.
pub open spec fn is_chunked(headers: Seq<HeaderView>) -> bool {
    contains_text(lowercase(or_empty(first_value(headers, "transfer-encoding"@))), "chunked"@)
}

/// The authority that an absolute target names, and the target in origin
/// form: a target that begins with `http://` or `https://` loses scheme and
/// authority, and is `/` where nothing follows them; any other target
/// stays as it is.
pub open spec fn split_target(target: Seq<char>) -> (Option<Seq<char>>, Seq<char>) {
    let lower = lowercase(target);
    let n: int = if starts_with(lower, "http://"@) {
        7
    } else if starts_with(lower, "https://"@) {
        8
    } else {
        0
    };
    if n == 0 {
        (None, target)
    } else {
        let rest = target.skip(n);
        let k = first_index_of(rest, '/');
        if 0 <= k < rest.len() {
            (Some(rest.take(k)), rest.skip(k))
        } else {
            (Some(rest), seq!['/'])
        }
    }
}

/// The path of a target in origin form: what stands before the first `?`.
pub open spec fn path_of(origin: Seq<char>) -> Seq<char> {
    origin.take(first_index_of(origin, '?'))
}

/// The query of a target in origin form: what follows the first `?`.
pub open spec fn query_of(origin: Seq<char>) -> Option<Seq<char>> {
    let k = first_index_of(origin, '?');
    if 0 <= k < origin.len() {
        Some(origin.skip(k + 1))
    } else {
        None
    }
}

/// A request as it was read.
#[derive(Clone, Debug)]
pub struct HttpRequest {
    pub method: String,
    /// The request target as the client wrote it.
    pub uri: String,
    pub version: String,
    /// The header fields in the client's order, names as the client wrote
    /// them.
    pub headers: Vec<Header>,
    pub body: Vec<u8>,
    /// The value of the `Host` field.
    pub host: Option<String>,
    /// The authority of an absolute target.
    pub authority: Option<String>,
    pub path: String,
    pub query: Option<String>,
    /// How many bytes of body the fields announce.
    pub content_length: usize,
}

/// The mathematical content of a request.
pub struct RequestView {
    pub method: Seq<char>,
    pub uri: Seq<char>,
    pub version: Seq<char>,
    pub headers: Seq<HeaderView>,
    pub body: Seq<u8>,
    pub host: Option<Seq<char>>,
    pub authority: Option<Seq<char>>,
    pub path: Seq<char>,
    pub query: Option<Seq<char>>,
    pub content_length: nat,
}

/// The text an optional string holds.
pub open spec fn opt_string(o: Option<String>) -> Option<Seq<char>> {
    match o {
        Some(s) => Some(s@),
        None => None,
    }
}

impl View for HttpRequest {
    type V = RequestView;

    open spec fn view(&self) -> RequestView {
        RequestView {
            method: self.method@,
            uri: self.uri@,
            version: self.version@,
            headers: header_views(self.headers@),
            body: self.body@,
            host: opt_string(self.host),
            authority: opt_string(self.authority),
            path: self.path@,
            query: opt_string(self.query),
            content_length: self.content_length as nat,
        }
    }
}

/// What the head of a request says, the body left empty. `BadRequest`
/// where the request line or a header line is not well formed or the body
/// length is no number; `ChunkedNotSupported` for a chunked body.
pub open spec fn parsed_head(head: Seq<char>) -> Result<RequestView, ProxyError> {
    let lines = lines_of(head);
    match request_line(lines[0]) {
        None => Err(ProxyError::BadRequest),
        Some((method, target, version)) => match fields_of(lines.skip(1)) {
            None => Err(ProxyError::BadRequest),
            Some(headers) => if is_chunked(headers) {
                Err(ProxyError::ChunkedNotSupported)
            } else {
                match body_length(headers) {
                    None => Err(ProxyError::BadRequest),
                    Some(n) => Ok(
                        RequestView {
                            method,
                            uri: target,
                            version,
                            headers,
                            body: Seq::empty(),
                            host: first_value(headers, "host"@),
                            authority: split_target(target).0,
                            path: path_of(split_target(target).1),
                            query: query_of(split_target(target).1),
                            content_length: n,
                        },
                    ),
                }
            },
        },
    }
}

/// The texts of a list of lines.
pub open spec fn line_views(lines: Seq<Vec<char>>) -> Seq<Seq<char>> {
    lines.map_values(|l: Vec<char>| l@)
}

fn find_crlf(v: &Vec<char>, from: usize) -> (r: usize)
    requires
        from <= v@.len(),
    ensures
        r == from + first_crlf(v@.skip(from as int)),
        from <= r <= v@.len(),
{
    let n = v.len();
    let mut i: usize = from;
    let ghost s = v@.skip(from as int);
    assert(s.skip(0) =~= s);
    while n - i >= 2
        invariant
            from <= i <= n,
            n == v@.len(),
            s == v@.skip(from as int),
            first_crlf(s) == (i - from) + first_crlf(s.skip(i - from)),
        decreases n - i,
    {
        proof {
            assert(s.skip(i - from).drop_first() =~= s.skip(i - from + 1));
            assert(s.skip(i - from)[0] == v@[i as int]);
            assert(s.skip(i - from)[1] == v@[i + 1]);
        }
        if v[i] == '\r' && v[i + 1] == '\n' {
            return i;
        }
        i += 1;
    }
    proof {
        assert(s.skip(i - from).len() == n - i);
    }
    n
}

fn split_lines(head: &Vec<char>) -> (r: Vec<Vec<char>>)
    ensures
        line_views(r@) == lines_of(head@),
        r@.len() >= 1,
{
    let mut out: Vec<Vec<char>> = Vec::new();
    let mut pos: usize = 0;
    let n = head.len();
    assert(head@.skip(0) =~= head@);
    assert(line_views(out@) + lines_of(head@) =~= lines_of(head@));
    loop
        invariant
            pos <= n,
            n == head@.len(),
            lines_of(head@) == line_views(out@) + lines_of(head@.skip(pos as int)),
        decreases n - pos,
    {
        let ghost rest = head@.skip(pos as int);
        let ghost before = line_views(out@);
        let k = find_crlf(head, pos);
        proof {
            lemma_first_crlf(rest);
        }
        if n - k >= 2 {
            let line = copy_range(head, pos, k);
            assert(line@ =~= rest.take(k - pos));
            out.push(line);
            proof {
                assert(line_views(out@) =~= before.push(rest.take(k - pos)));
                assert(rest.skip(k - pos + 2) =~= head@.skip(k + 2));
                assert(before + (seq![rest.take(k - pos)] + lines_of(rest.skip(k - pos + 2)))
                    =~= before.push(rest.take(k - pos)) + lines_of(head@.skip(k + 2)));
            }
            pos = k + 2;
        } else {
            let line = copy_range(head, pos, n);
            assert(line@ =~= rest);
            out.push(line);
            proof {
                assert(line_views(out@) =~= before.push(rest));
                assert(before + seq![rest] =~= before.push(rest));
            }
            return out;
        }
    }
}

fn parse_request_line(line: &Vec<char>) -> (r: Option<(Vec<char>, Vec<char>, Vec<char>)>)
    ensures
        match r {
            Some((m, t, v)) => request_line(line@) == Some((m@, t@, v@)),
            None => request_line(line@) is None,
        },
{
    proof {
        lemma_first_index_of(line@, ' ');
    }
    let a = find_first(line, ' ');
    if a == 0 || a >= line.len() {
        return None;
    }
    let rest = copy_range(line, a + 1, line.len());
    assert(rest@ =~= line@.skip(a + 1));
    proof {
        lemma_first_index_of(rest@, ' ');
    }
    let b = find_first(&rest, ' ');
    if b == 0 || b >= rest.len() {
        return None;
    }
    let version = copy_range(&rest, b + 1, rest.len());
    assert(version@ =~= rest@.skip(b + 1));
    proof {
        lemma_first_index_of(version@, ' ');
    }
    if version.len() == 0 || find_first(&version, ' ') != version.len() {
        return None;
    }
    let method = copy_range(line, 0, a);
    let target = copy_range(&rest, 0, b);
    assert(method@ =~= line@.take(a as int));
    assert(target@ =~= rest@.take(b as int));
    Some((method, target, version))
}

fn parse_header_line(line: &Vec<char>) -> (r: Option<Header>)
    ensures
        match r {
            Some(h) => header_line(line@) == Some(h@),
            None => header_line(line@) is None,
        },
{
    proof {
        lemma_first_index_of(line@, ':');
    }
    let k = find_first(line, ':');
    if k >= line.len() {
        return None;
    }
    let raw_name = copy_range(line, 0, k);
    assert(raw_name@ =~= line@.take(k as int));
    let name = trim_chars(&raw_name);
    if name.len() == 0 {
        return None;
    }
    let raw_value = copy_range(line, k + 1, line.len());
    assert(raw_value@ =~= line@.skip(k + 1));
    let value = trim_chars(&raw_value);
    Some(Header { name: string_of(&name), value: string_of(&value) })
}

fn parse_fields(lines: &Vec<Vec<char>>) -> (r: Option<Vec<Header>>)
    requires
        lines@.len() >= 1,
    ensures
        match r {
            Some(h) => fields_of(line_views(lines@).skip(1)) == Some(header_views(h@)),
            None => fields_of(line_views(lines@).skip(1)) is None,
        },
{
    let mut out: Vec<Header> = Vec::new();
    let ghost all = line_views(lines@).skip(1);
    let mut i: usize = 1;
    assert(all.take(0) =~= Seq::<Seq<char>>::empty());
    assert(header_views(out@) =~= Seq::<HeaderView>::empty());
    while i < lines.len()
        invariant
            1 <= i <= lines@.len(),
            all == line_views(lines@).skip(1),
            fields_of(all.take(i - 1)) == Some(header_views(out@)),
        decreases lines@.len() - i,
    {
        proof {
            assert(all.take(i as int).drop_last() =~= all.take(i - 1));
            assert(all.take(i as int).last() == lines@[i as int]@);
        }
        match parse_header_line(&lines[i]) {
            None => {
                proof {
                    lemma_fields_prefix(all, i as int);
                }
                return None;
            },
            Some(h) => {
                let ghost before = header_views(out@);
                let ghost hv = h@;
                out.push(h);
                assert(header_views(out@) =~= before.push(hv));
            },
        }
        i += 1;
    }
    assert(all.take(lines@.len() - 1) =~= all);
    Some(out)
}

/// Lines of which the first few hold no fields hold none as a whole.
pub proof fn lemma_fields_prefix(lines: Seq<Seq<char>>, k: int)
    requires
        0 <= k <= lines.len(),
        fields_of(lines.take(k)) is None,
    ensures
        fields_of(lines) is None,
    decreases lines.len() - k,
{
    if k == lines.len() {
        assert(lines.take(k) =~= lines);
    } else {
        assert(lines.drop_last().take(k) =~= lines.take(k));
        lemma_fields_prefix(lines.drop_last(), k);
    }
}

fn parse_length(v: &Vec<char>) -> (r: Option<usize>)
    ensures
        match r {
            Some(n) => digits_value(v@) == Some(n as nat),
            None => match digits_value(v@) {
                Some(n) => n > usize::MAX,
                None => true,
            },
        },
{
    let mut acc: usize = 0;
    let mut i: usize = 0;
    assert(v@.take(0) =~= Seq::<char>::empty());
    while i < v.len()
        invariant
            i <= v@.len(),
            digits_value(v@.take(i as int)) == Some(acc as nat),
        decreases v@.len() - i,
    {
        let u: u32 = v[i] as u32;
        proof {
            assert(v@.take(i + 1).drop_last() =~= v@.take(i as int));
            assert(v@.take(i + 1).last() == v@[i as int]);
            lemma_digits_prefix(v@, i + 1);
        }
        if u < 0x30 || u > 0x39 {
            return None;
        }
        let d: usize = (u - 0x30) as usize;
        if acc > (usize::MAX - d) / 10 {
            return None;
        }
        acc = acc * 10 + d;
        i += 1;
    }
    assert(v@.take(v@.len() as int) =~= v@);
    Some(acc)
}

fn read_body_length(headers: &Vec<Header>) -> (r: Option<usize>)
    ensures
        match r {
            Some(n) => body_length(header_views(headers@)) == Some(n as nat),
            None => body_length(header_views(headers@)) is None,
        },
{
    match get_header(headers, "content-length") {
        None => Some(0),
        Some(v) => {
            if v.len() == 0 {
                None
            } else {
                parse_length(&v)
            }
        },
    }
}

/// Splits a request target into the authority it names, if it is
/// absolute, and its origin form.
pub fn split_uri(target: &str) -> (r: (Option<String>, String))
    ensures
        opt_string(r.0) == split_target(target@).0,
        r.1@ == split_target(target@).1,
{
    let t = chars_of(target);
    let lower = lowercase_chars(&t);
    let http = chars_of("http://");
    let https = chars_of("https://");
    proof {
        reveal_strlit("http://");
        reveal_strlit("https://");
    }
    let n: usize = if starts_with_chars(&lower, &http) {
        7
    } else if starts_with_chars(&lower, &https) {
        8
    } else {
        0
    };
    if n == 0 {
        return (None, string_of(&t));
    }
    let rest = copy_range(&t, n, t.len());
    assert(rest@ =~= t@.skip(n as int));
    proof {
        lemma_first_index_of(rest@, '/');
    }
    let k = find_first(&rest, '/');
    if k < rest.len() {
        let authority = copy_range(&rest, 0, k);
        let origin = copy_range(&rest, k, rest.len());
        assert(authority@ =~= rest@.take(k as int));
        assert(origin@ =~= rest@.skip(k as int));
        (Some(string_of(&authority)), string_of(&origin))
    } else {
        let mut slash: Vec<char> = Vec::new();
        slash.push('/');
        assert(slash@ =~= seq!['/']);
        (Some(string_of(&rest)), string_of(&slash))
    }
}

/// Reads the head of a request: the bytes before the blank line that ends
/// it.
pub fn parse_head(head: &[u8]) -> (r: Result<HttpRequest, ProxyError>)
    ensures
        match parsed_head(text_of(head@)) {
            Ok(v) => r matches Ok(req) && req@ == v,
            Err(e) => r matches Err(x) && x == e,
        },
{
    let text = decode_text(head);
    let lines = split_lines(&text);
    assert(line_views(lines@)[0] == lines@[0]@);
    let (method, target, version) = match parse_request_line(&lines[0]) {
        None => {
            return Err(ProxyError::BadRequest);
        },
        Some(parts) => parts,
    };
    let headers = match parse_fields(&lines) {
        None => {
            return Err(ProxyError::BadRequest);
        },
        Some(h) => h,
    };
    let encoding = match get_header(&headers, "transfer-encoding") {
        Some(v) => v,
        None => Vec::new(),
    };
    let encoding_lower = lowercase_chars(&encoding);
    let chunked = chars_of("chunked");
    if has_text(&encoding_lower, &chunked) {
        return Err(ProxyError::ChunkedNotSupported);
    }
    let content_length = match read_body_length(&headers) {
        None => {
            return Err(ProxyError::BadRequest);
        },
        Some(n) => n,
    };
    let host = match get_header(&headers, "host") {
        Some(v) => Some(string_of(&v)),
        None => None,
    };
    let uri = string_of(&target);
    let (authority, origin) = split_uri(uri.as_str());
    let o = chars_of(origin.as_str());
    proof {
        lemma_first_index_of(o@, '?');
    }
    let q = find_first(&o, '?');
    let path = copy_range(&o, 0, q);
    assert(path@ =~= o@.take(q as int));
    let query = if q < o.len() {
        let tail = copy_range(&o, q + 1, o.len());
        assert(tail@ =~= o@.skip(q + 1));
        Some(string_of(&tail))
    } else {
        None
    };
    Ok(
        HttpRequest {
            method: string_of(&method),
            uri,
            version: string_of(&version),
            headers,
            body: Vec::new(),
            host,
            authority,
            path: string_of(&path),
            query,
            content_length,
        },
    )
}

/// The status code in a status line: the three digits that stand behind the
/// first space and end the line or stand before another space.
pub open spec fn status_in(line: Seq<char>) -> Option<u16> {
    let a = first_index_of(line, ' ');
    let rest = line.skip(a + 1);
    let code = rest.take(first_index_of(rest, ' '));
    if 0 <= a < line.len() && code.len() == 3 {
        match digits_value(code) {
            Some(n) => Some(n as u16),
            None => None,
        }
    } else {
        None
    }
}

/// The status code that the head of a response carries in its first line.
pub open spec fn status_of(head: Seq<u8>) -> Option<u16> {
    status_in(lines_of(text_of(head))[0])
}

/// Reads the status code from the head of a response.
pub fn response_status(head: &[u8]) -> (r: Option<u16>)
    ensures
        r == status_of(head@),
{
    let text = decode_text(head);
    let lines = split_lines(&text);
    assert(line_views(lines@)[0] == lines@[0]@);
    let line = &lines[0];
    proof {
        lemma_first_index_of(line@, ' ');
    }
    let a = find_first(line, ' ');
    if a >= line.len() {
        return None;
    }
    let rest = copy_range(line, a + 1, line.len());
    assert(rest@ =~= line@.skip(a + 1));
    proof {
        lemma_first_index_of(rest@, ' ');
    }
    let b = find_first(&rest, ' ');
    let code = copy_range(&rest, 0, b);
    assert(code@ =~= rest@.take(b as int));
    if code.len() != 3 {
        return None;
    }
    proof {
        lemma_three_digits(code@);
    }
    match parse_length(&code) {
        Some(n) => Some(n as u16),
        None => None,
    }
}

/// Three digits spell a number below a thousand.
proof fn lemma_three_digits(s: Seq<char>)
    requires
        s.len() == 3,
    ensures
        digits_value(s) matches Some(n) ==> n <= 999,
{
    let a = s.drop_last();
    let b = a.drop_last();
    let c = b.drop_last();
    assert(c.len() == 0);
    assert(digits_value(c) == Some(0nat));
    assert(digits_value(b) matches Some(n) ==> n <= 9);
    assert(digits_value(a) matches Some(n) ==> n <= 99);
}

} // verus!
