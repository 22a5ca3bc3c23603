//! The route table of the reverse proxy: normalising configured routes,
//! ordering them by priority, and choosing the route for a request.

use crate::text::{
    chars_eq, chars_of, concat_chars, copy_range, count_char, count_of, decimal, decimal_chars,
    find_first, find_last, first_index_of, last_index_of, lemma_first_index_of,
    lemma_last_index_of, lemma_strip_trailing, lowercase, lowercase_chars, parse_u16,
    parse_u16_chars, starts_with, starts_with_chars, string_of, strip_trailing,
    strip_trailing_chars, trim, trim_chars,
};
use http::Uri;
use vstd::prelude::*;

verus! {

/// Transport used towards an upstream target.
#[derive(Clone, Copy, Debug, PartialEq, Eq, Structural)]
pub enum TargetScheme {
    Http,
    Https,
}

impl TargetScheme {
    /// The scheme's name as it is written in a URI.
    pub open spec fn name(self) -> Seq<char> {
        match self {
            TargetScheme::Http => seq!['h', 't', 't', 'p'],
            TargetScheme::Https => seq!['h', 't', 't', 'p', 's'],
        }
    }

    /// The port a URI of this scheme means when it names none.
    pub open spec fn port(self) -> u16 {
        match self {
            TargetScheme::Http => 80,
            TargetScheme::Https => 443,
        }
    }

    pub fn as_str(self) -> (r: &'static str)
        ensures
            r@ == self.name(),
    {
        proof {
            reveal_strlit("http");
            reveal_strlit("https");
        }
        match self {
            TargetScheme::Http => {
                assert("http"@ =~= self.name());
                "http"
            },
            TargetScheme::Https => {
                assert("https"@ =~= self.name());
                "https"
            },
        }
    }

    pub fn default_port(self) -> (r: u16)
        ensures
            r == self.port(),
    {
        match self {
            TargetScheme::Http => 80,
            TargetScheme::Https => 443,
        }
    }
}

/// Why a target address was refused.
#[derive(Clone, Copy, Debug, PartialEq, Eq, Structural)]
pub enum TargetError {
    /// Nothing is left of the address, or nothing follows the scheme.
    Empty,
    /// The address starts with none of `http://`, `https://`, `ws://`, `wss://`.
    BadScheme,
    /// A `/` follows the scheme: targets carry no path.
    HasPath,
    /// More than one `:` follows the scheme, as in an IPv6 literal.
    Ipv6,
    /// Nothing but white space stands before the port.
    EmptyHost,
    /// The port is not a decimal number below 65536.
    BadPort,
}

impl TargetError {
    /// The diagnostic shown for this error.
    pub open spec fn text(self) -> Seq<char> {
        match self {
            TargetError::Empty => "目标地址不能为空"@,
            TargetError::BadScheme => "目标地址必须以 http://、https://、ws:// 或 wss:// 开头"@,
            TargetError::HasPath => "目标地址暂不支持路径，请只填写主机和端口"@,
            TargetError::Ipv6 => "当前版本暂不支持 IPv6 地址"@,
            TargetError::EmptyHost => "目标主机不能为空"@,
            TargetError::BadPort => "目标端口非法"@,
        }
    }

    pub fn message(self) -> (r: String)
        ensures
            r@ == self.text(),
    {
        match self {
            TargetError::Empty => "目标地址不能为空".to_owned(),
            TargetError::BadScheme => "目标地址必须以 http://、https://、ws:// 或 wss:// 开头".to_owned(),
            TargetError::HasPath => "目标地址暂不支持路径，请只填写主机和端口".to_owned(),
            TargetError::Ipv6 => "当前版本暂不支持 IPv6 地址".to_owned(),
            TargetError::EmptyHost => "目标主机不能为空".to_owned(),
            TargetError::BadPort => "目标端口非法".to_owned(),
        }
    }
}

/// The scheme that an address in lower case opens with, and how many
/// characters the scheme and `://` take.
pub open spec fn scheme_of(lower: Seq<char>) -> Option<(TargetScheme, nat)> {
    if starts_with(lower, seq!['h', 't', 't', 'p', ':', '/', '/']) {
        Some((TargetScheme::Http, 7nat))
    } else if starts_with(lower, seq!['h', 't', 't', 'p', 's', ':', '/', '/']) {
        Some((TargetScheme::Https, 8nat))
    } else if starts_with(lower, seq!['w', 's', ':', '/', '/']) {
        Some((TargetScheme::Http, 5nat))
    } else if starts_with(lower, seq!['w', 's', 's', ':', '/', '/']) {
        Some((TargetScheme::Https, 6nat))
    } else {
        None
    }
}

/// Host and port named by what follows the scheme.
pub open spec fn authority_of(scheme: TargetScheme, rest: Seq<char>) -> Result<
    (TargetScheme, Seq<char>, u16),
    TargetError,
> {
    if rest.len() == 0 {
        Err(TargetError::Empty)
    } else if count_of(rest, '/') > 0 {
        Err(TargetError::HasPath)
    } else if count_of(rest, ':') > 1 {
        Err(TargetError::Ipv6)
    } else if count_of(rest, ':') == 1 {
        let k = last_index_of(rest, ':');
        let host = trim(rest.take(k));
        if host.len() == 0 {
            Err(TargetError::EmptyHost)
        } else {
            match parse_u16(trim(rest.skip(k + 1))) {
                Some(port) => Ok((scheme, host, port)),
                None => Err(TargetError::BadPort),
            }
        }
    } else {
        Ok((scheme, rest, scheme.port()))
    }
}

/// What a target address means: white space around it and slashes after it
/// do not count; `ws` travels as `http` and `wss` as `https`; the scheme is
/// read without regard to case.
pub open spec fn target_of(raw: Seq<char>) -> Result<(TargetScheme, Seq<char>, u16), TargetError> {
    let normalized = strip_trailing(trim(raw), '/');
    if normalized.len() == 0 {
        Err(TargetError::Empty)
    } else {
        match scheme_of(lowercase(normalized)) {
            None => Err(TargetError::BadScheme),
            Some((scheme, n)) => authority_of(scheme, normalized.skip(n as int)),
        }
    }
}

/// The mathematical content of a `parse_target` result.
pub open spec fn target_outcome(r: Result<(TargetScheme, String, u16), String>) -> Result<
    (TargetScheme, Seq<char>, u16),
    Seq<char>,
> {
    match r {
        Ok(t) => Ok((t.0, t.1@, t.2)),
        Err(m) => Err(m@),
    }
}

/// What `parse_target` owes for a given meaning of the address.
pub open spec fn target_expected(t: Result<(TargetScheme, Seq<char>, u16), TargetError>) -> Result<
    (TargetScheme, Seq<char>, u16),
    Seq<char>,
> {
    match t {
        Ok(v) => Ok(v),
        Err(e) => Err(e.text()),
    }
}

fn scan_scheme(lower: &Vec<char>) -> (r: Option<(TargetScheme, usize)>)
    ensures
        match r {
            Some((s, n)) => scheme_of(lower@) == Some((s, n as nat)) && n <= lower.len(),
            None => scheme_of(lower@) is None,
        },
{
    let http = chars_of("http://");
    let https = chars_of("https://");
    let ws = chars_of("ws://");
    let wss = chars_of("wss://");
    proof {
        reveal_strlit("http://");
        reveal_strlit("https://");
        reveal_strlit("ws://");
        reveal_strlit("wss://");
        assert(http@ =~= seq!['h', 't', 't', 'p', ':', '/', '/']);
        assert(https@ =~= seq!['h', 't', 't', 'p', 's', ':', '/', '/']);
        assert(ws@ =~= seq!['w', 's', ':', '/', '/']);
        assert(wss@ =~= seq!['w', 's', 's', ':', '/', '/']);
    }
    if starts_with_chars(lower, &http) {
        Some((TargetScheme::Http, 7))
    } else if starts_with_chars(lower, &https) {
        Some((TargetScheme::Https, 8))
    } else if starts_with_chars(lower, &ws) {
        Some((TargetScheme::Http, 5))
    } else if starts_with_chars(lower, &wss) {
        Some((TargetScheme::Https, 6))
    } else {
        None
    }
}

fn scan_authority(scheme: TargetScheme, rest: &Vec<char>) -> (r: Result<
    (TargetScheme, String, u16),
    String,
>)
    ensures
        target_outcome(r) == target_expected(authority_of(scheme, rest@)),
{
    if rest.len() == 0 {
        return Err(TargetError::Empty.message());
    }
    if count_char(rest, '/') > 0 {
        return Err(TargetError::HasPath.message());
    }
    let colons = count_char(rest, ':');
    if colons > 1 {
        return Err(TargetError::Ipv6.message());
    }
    proof {
        lemma_last_index_of(rest@, ':');
    }
    match find_last(rest, ':') {
        Some(k) => {
            let before = copy_range(rest, 0, k);
            let after = copy_range(rest, k + 1, rest.len());
            assert(before@ =~= rest@.take(k as int));
            assert(after@ =~= rest@.skip(k + 1));
            let host = trim_chars(&before);
            if host.len() == 0 {
                return Err(TargetError::EmptyHost.message());
            }
            let port_text = trim_chars(&after);
            match parse_u16_chars(&port_text) {
                Some(port) => Ok((scheme, string_of(&host), port)),
                None => Err(TargetError::BadPort.message()),
            }
        },
        None => Ok((scheme, string_of(rest), scheme.default_port())),
    }
}

/// Reads a target address into scheme, host and port.
pub fn parse_target(raw: &str) -> (r: Result<(TargetScheme, String, u16), String>)
    ensures
        target_outcome(r) == target_expected(target_of(raw@)),
{
    let raw_chars = chars_of(raw);
    let trimmed = trim_chars(&raw_chars);
    let normalized = strip_trailing_chars(&trimmed, '/');
    if normalized.len() == 0 {
        return Err(TargetError::Empty.message());
    }
    let lower = lowercase_chars(&normalized);
    match scan_scheme(&lower) {
        None => Err(TargetError::BadScheme.message()),
        Some((scheme, n)) => {
            let rest = copy_range(&normalized, n, normalized.len());
            assert(rest@ =~= normalized@.skip(n as int));
            scan_authority(scheme, &rest)
        },
    }
}

/// A path prefix in normal form: white space around it removed, a leading
/// `/` added where it is missing, every trailing `/` removed; `/` where
/// nothing is left, as for an empty prefix or one made of slashes alone.
pub open spec fn normal_prefix(raw: Seq<char>) -> Seq<char> {
    let t = trim(raw);
    let p = if t.len() > 0 && t[0] == '/' {
        t
    } else {
        seq!['/'] + t
    };
    let q = strip_trailing(p, '/');
    if q.len() == 0 {
        seq!['/']
    } else {
        q
    }
}

/// A prefix in normal form begins with `/`, and is either `/` itself or
/// does not end in `/`.
pub proof fn lemma_normal_prefix_shape(raw: Seq<char>)
    ensures
        normal_prefix(raw).len() >= 1,
        normal_prefix(raw)[0] == '/',
        normal_prefix(raw) == seq!['/'] || normal_prefix(raw).last() != '/',
{
    let t = trim(raw);
    let p = if t.len() > 0 && t[0] == '/' {
        t
    } else {
        seq!['/'] + t
    };
    lemma_strip_trailing(p, '/');
}

pub fn normalize_path_prefix(raw: &str) -> (r: String)
    ensures
        r@ == normal_prefix(raw@),
        r@.len() >= 1,
        r@[0] == '/',
        r@ == seq!['/'] || r@.last() != '/',
{
    proof {
        lemma_normal_prefix_shape(raw@);
    }
    let raw_chars = chars_of(raw);
    let t = trim_chars(&raw_chars);
    let mut slash: Vec<char> = Vec::new();
    slash.push('/');
    assert(slash@ =~= seq!['/']);
    let p = if t.len() > 0 && t[0] == '/' {
        t
    } else {
        concat_chars(&slash, &t)
    };
    let q = strip_trailing_chars(&p, '/');
    if q.len() == 0 {
        string_of(&slash)
    } else {
        string_of(&q)
    }
}

/// A host condition in normal form: lower case, without white space around it
/// and without a port. Nothing at all, or `*`, stands for any host.
pub open spec fn normal_host(raw: Seq<char>) -> Option<Seq<char>> {
    let v = lowercase(trim(raw));
    if v.len() == 0 || v == seq!['*'] {
        None
    } else {
        let h = trim(v.take(first_index_of(v, ':')));
        if h.len() == 0 {
            None
        } else {
            Some(h)
        }
    }
}

/// The host that a request names, in normal form; none where it names
/// none, or names any.
pub open spec fn named_host(host: Option<Seq<char>>) -> Option<Seq<char>> {
    match host {
        Some(actual) => normal_host(actual),
        None => None,
    }
}

/// The text an optional string holds.
pub open spec fn opt_text(o: Option<String>) -> Option<Seq<char>> {
    match o {
        Some(s) => Some(s@),
        None => None,
    }
}

/// The text an optional string slice holds.
pub open spec fn opt_str_text(o: Option<&str>) -> Option<Seq<char>> {
    match o {
        Some(s) => Some(s@),
        None => None,
    }
}

pub fn normalize_host_value(raw: &str) -> (r: Option<String>)
    ensures
        opt_text(r) == normal_host(raw@),
{
    let raw_chars = chars_of(raw);
    let t = trim_chars(&raw_chars);
    let v = lowercase_chars(&t);
    if v.len() == 0 {
        return None;
    }
    if v.len() == 1 && v[0] == '*' {
        assert(v@ =~= seq!['*']);
        return None;
    }
    assert(v@ != seq!['*']) by {
        if v@ == seq!['*'] {
            assert(seq!['*'].len() == 1);
            assert(seq!['*'][0] == '*');
        }
    }
    proof {
        lemma_first_index_of(v@, ':');
    }
    let k = find_first(&v, ':');
    let head = copy_range(&v, 0, k);
    assert(head@ =~= v@.take(k as int));
    let h = trim_chars(&head);
    if h.len() == 0 {
        None
    } else {
        Some(string_of(&h))
    }
}

/// Whether a request path falls under a prefix: the prefix `/` covers every
/// path; any other covers itself and what continues it after a `/`.
pub open spec fn path_matches(prefix: Seq<char>, path: Seq<char>) -> bool {
    ||| prefix == seq!['/']
    ||| path == prefix
    ||| (starts_with(path, prefix) && path.len() > prefix.len() && path[prefix.len() as int]
        == '/')
}

fn path_match_chars(prefix: &Vec<char>, path: &Vec<char>) -> (r: bool)
    ensures
        r == path_matches(prefix@, path@),
{
    if prefix.len() == 1 && prefix[0] == '/' {
        assert(prefix@ =~= seq!['/']);
        return true;
    }
    assert(prefix@ != seq!['/']) by {
        if prefix@ == seq!['/'] {
            assert(seq!['/'].len() == 1);
            assert(seq!['/'][0] == '/');
        }
    }
    if chars_eq(path, prefix) {
        return true;
    }
    starts_with_chars(path, prefix) && path.len() > prefix.len() && path[prefix.len()] == '/'
}

pub fn path_match(prefix: &str, path: &str) -> (r: bool)
    ensures
        r == path_matches(prefix@, path@),
{
    let p = chars_of(prefix);
    let q = chars_of(path);
    path_match_chars(&p, &q)
}

/// One route as it is configured.
#[derive(Clone, Debug)]
pub struct ProxyRouteInput {
    pub id: String,
    pub name: String,
    pub enabled: bool,
    pub host: String,
    pub path_prefix: String,
    pub target: String,
    pub strip_prefix: bool,
    pub allow_insecure_tls: bool,
}

/// The mathematical content of a configured route. The table is made from
/// all of it but `id` and `name`, which only label the route.
pub struct RouteInputView {
    pub id: Seq<char>,
    pub name: Seq<char>,
    pub enabled: bool,
    pub host: Seq<char>,
    pub path_prefix: Seq<char>,
    pub target: Seq<char>,
    pub strip_prefix: bool,
    pub allow_insecure_tls: bool,
}

impl View for ProxyRouteInput {
    type V = RouteInputView;

    open spec fn view(&self) -> RouteInputView {
        RouteInputView {
            id: self.id@,
            name: self.name@,
            enabled: self.enabled,
            host: self.host@,
            path_prefix: self.path_prefix@,
            target: self.target@,
            strip_prefix: self.strip_prefix,
            allow_insecure_tls: self.allow_insecure_tls,
        }
    }
}

/// One route of the table.
#[derive(Clone, Debug)]
pub struct ProxyRoute {
    /// The host a request must name; `None` admits any.
    pub host: Option<String>,
    /// The path prefix a request must fall under, in normal form.
    pub path_prefix: String,
    pub target_scheme: TargetScheme,
    pub target_host: String,
    pub target_port: u16,
    /// Whether the prefix is cut from the path that is sent on.
    pub strip_prefix: bool,
    /// Whether the upstream certificate goes unchecked.
    pub allow_insecure_tls: bool,
}

/// The mathematical content of a route.
pub struct RouteView {
    pub host: Option<Seq<char>>,
    pub path_prefix: Seq<char>,
    pub target_scheme: TargetScheme,
    pub target_host: Seq<char>,
    pub target_port: u16,
    pub strip_prefix: bool,
    pub allow_insecure_tls: bool,
}

impl View for ProxyRoute {
    type V = RouteView;

    open spec fn view(&self) -> RouteView {
        RouteView {
            host: opt_text(self.host),
            path_prefix: self.path_prefix@,
            target_scheme: self.target_scheme,
            target_host: self.target_host@,
            target_port: self.target_port,
            strip_prefix: self.strip_prefix,
            allow_insecure_tls: self.allow_insecure_tls,
        }
    }
}

impl RouteView {
    /// Host and port as they are written in a `Host` header or a URI: the
    /// port is left out where it is the scheme's own.
    pub open spec fn authority(self) -> Seq<char> {
        if self.target_port == self.target_scheme.port() {
            self.target_host
        } else {
            self.target_host + seq![':'] + decimal(self.target_port as nat)
        }
    }

    /// How many bytes the prefix takes in UTF-8: routes are ranked by it.
    pub open spec fn weight(self) -> nat {
        vstd::utf8::encode_utf8(self.path_prefix).len()
    }

    /// Whether this route ranks strictly before `other`: a longer prefix
    /// first, and among equal lengths a named host before any host.
    pub open spec fn precedes(self, other: RouteView) -> bool {
        self.weight() > other.weight() || (self.weight() == other.weight() && self.host is Some
            && other.host is None)
    }

    /// Whether a request that names `host` and asks for `path` may take this
    /// route. A route for any host takes every request; a route for one
    /// host takes a request that names it, in whatever case and with or
    /// without a port.
    pub open spec fn admits(self, host: Option<Seq<char>>, path: Seq<char>) -> bool {
        &&& match self.host {
            None => true,
            Some(expect) => named_host(host) == Some(expect),
        }
        &&& path_matches(self.path_prefix, path)
    }
}

impl ProxyRoute {
    pub fn target_authority(&self) -> (r: String)
        ensures
            r@ == self@.authority(),
    {
        if self.target_port == self.target_scheme.default_port() {
            self.target_host.clone()
        } else {
            let host = chars_of(self.target_host.as_str());
            let mut colon: Vec<char> = Vec::new();
            colon.push(':');
            assert(colon@ =~= seq![':']);
            let with_colon = concat_chars(&host, &colon);
            let port = decimal_chars(self.target_port as u64);
            let all = concat_chars(&with_colon, &port);
            string_of(&all)
        }
    }

    fn ranks_before(&self, other: &ProxyRoute) -> (r: bool)
        ensures
            r == self@.precedes(other@),
    {
        let a = self.path_prefix.as_str().as_bytes().len();
        let b = other.path_prefix.as_str().as_bytes().len();
        a > b || (a == b && self.host.is_some() && other.host.is_none())
    }
}

/// The views of a sequence of routes.
pub open spec fn route_views(s: Seq<ProxyRoute>) -> Seq<RouteView> {
    s.map_values(|r: ProxyRoute| r@)
}

/// The views of a sequence of configured routes.
pub open spec fn input_views(s: Seq<ProxyRouteInput>) -> Seq<RouteInputView> {
    s.map_values(|r: ProxyRouteInput| r@)
}

/// The route that a configured route stands for.
pub open spec fn route_of(input: RouteInputView) -> Result<RouteView, TargetError> {
    match target_of(input.target) {
        Ok((scheme, host, port)) => Ok(
            RouteView {
                host: normal_host(input.host),
                path_prefix: normal_prefix(input.path_prefix),
                target_scheme: scheme,
                target_host: host,
                target_port: port,
                strip_prefix: input.strip_prefix,
                allow_insecure_tls: input.allow_insecure_tls,
            },
        ),
        Err(e) => Err(e),
    }
}

/// Where a new route enters a ranked table: before the first route that it
/// strictly precedes, so after every route of its own rank.
pub open spec fn entry_index(table: Seq<RouteView>, r: RouteView) -> int
    decreases table.len(),
{
    if table.len() == 0 {
        0
    } else if r.precedes(table[0]) {
        0
    } else {
        1 + entry_index(table.drop_first(), r)
    }
}

/// The table made from configured routes, or the first error among those
/// that are enabled: disabled routes are left out, and each enabled one
/// enters the table built from those before it.
pub open spec fn table_of(inputs: Seq<RouteInputView>) -> Result<Seq<RouteView>, TargetError>
    decreases inputs.len(),
{
    if inputs.len() == 0 {
        Ok(Seq::empty())
    } else {
        match table_of(inputs.drop_last()) {
            Err(e) => Err(e),
            Ok(table) => if !inputs.last().enabled {
                Ok(table)
            } else {
                match route_of(inputs.last()) {
                    Err(e) => Err(e),
                    Ok(r) => Ok(table.insert(entry_index(table, r), r)),
                }
            },
        }
    }
}

/// The mathematical content of a `build_routes` result.
pub open spec fn table_outcome(r: Result<Vec<ProxyRoute>, String>) -> Result<
    Seq<RouteView>,
    Seq<char>,
> {
    match r {
        Ok(v) => Ok(route_views(v@)),
        Err(m) => Err(m@),
    }
}

/// What `build_routes` owes for a given table.
pub open spec fn table_expected(t: Result<Seq<RouteView>, TargetError>) -> Result<
    Seq<RouteView>,
    Seq<char>,
> {
    match t {
        Ok(v) => Ok(v),
        Err(e) => Err(e.text()),
    }
}

pub proof fn lemma_entry_index(table: Seq<RouteView>, r: RouteView)
    ensures
        0 <= entry_index(table, r) <= table.len(),
        forall|j: int| 0 <= j < entry_index(table, r) ==> !r.precedes(#[trigger] table[j]),
        entry_index(table, r) < table.len() ==> r.precedes(table[entry_index(table, r)]),
    decreases table.len(),
{
    if table.len() > 0 && !r.precedes(table[0]) {
        lemma_entry_index(table.drop_first(), r);
        assert forall|j: int| 0 <= j < entry_index(table, r) implies !r.precedes(
            #[trigger] table[j],
        ) by {
            if j > 0 {
                assert(table[j] == table.drop_first()[j - 1]);
            }
        }
    }
}

/// An error among the first inputs is the error of the whole list.
pub proof fn lemma_table_error_stays(inputs: Seq<RouteInputView>, k: int)
    requires
        0 <= k <= inputs.len(),
        table_of(inputs.take(k)) is Err,
    ensures
        table_of(inputs) == table_of(inputs.take(k)),
    decreases inputs.len() - k,
{
    if k == inputs.len() {
        assert(inputs.take(k) =~= inputs);
    } else {
        assert(inputs.drop_last().take(k) =~= inputs.take(k));
        lemma_table_error_stays(inputs.drop_last(), k);
    }
}

fn route_from_input(item: &ProxyRouteInput) -> (r: Result<ProxyRoute, String>)
    ensures
        match route_of(item@) {
            Ok(v) => r matches Ok(route) && route@ == v,
            Err(e) => r matches Err(m) && m@ == e.text(),
        },
{
    let path_prefix = normalize_path_prefix(item.path_prefix.as_str());
    let host = normalize_host_value(item.host.as_str());
    match parse_target(item.target.as_str()) {
        Ok((scheme, target_host, target_port)) => Ok(
            ProxyRoute {
                host,
                path_prefix,
                target_scheme: scheme,
                target_host,
                target_port,
                strip_prefix: item.strip_prefix,
                allow_insecure_tls: item.allow_insecure_tls,
            },
        ),
        Err(m) => Err(m),
    }
}

fn entry_point(routes: &Vec<ProxyRoute>, route: &ProxyRoute) -> (k: usize)
    ensures
        k == entry_index(route_views(routes@), route@),
        k <= routes.len(),
{
    let mut k: usize = 0;
    let ghost table = route_views(routes@);
    assert(table.skip(0) =~= table);
    while k < routes.len() && !route.ranks_before(&routes[k])
        invariant
            k <= routes.len(),
            table == route_views(routes@),
            entry_index(table, route@) == k + entry_index(table.skip(k as int), route@),
        decreases routes.len() - k,
    {
        proof {
            assert(table.skip(k as int).drop_first() =~= table.skip(k + 1));
        }
        k += 1;
    }
    k
}

/// Builds the route table: the enabled routes in normal form, ranked by
/// prefix length and then by whether they name a host; routes of one rank
/// keep the order in which they were configured.
pub fn build_routes(inputs: &[ProxyRouteInput]) -> (r: Result<Vec<ProxyRoute>, String>)
    ensures
        table_outcome(r) == table_expected(table_of(input_views(inputs@))),
{
    let mut routes: Vec<ProxyRoute> = Vec::new();
    let mut i: usize = 0;
    let ghost all = input_views(inputs@);
    assert(all.take(0) =~= Seq::<RouteInputView>::empty());
    assert(route_views(routes@) =~= Seq::<RouteView>::empty());
    while i < inputs.len()
        invariant
            i <= inputs.len(),
            all == input_views(inputs@),
            table_of(all.take(i as int)) == Ok::<Seq<RouteView>, TargetError>(
                route_views(routes@),
            ),
        decreases inputs.len() - i,
    {
        let item = &inputs[i];
        proof {
            assert(all.take(i + 1).drop_last() =~= all.take(i as int));
            assert(all.take(i + 1).last() == item@);
        }
        if item.enabled {
            match route_from_input(item) {
                Err(m) => {
                    proof {
                        lemma_table_error_stays(all, i + 1);
                    }
                    return Err(m);
                },
                Ok(route) => {
                    let k = entry_point(&routes, &route);
                    let ghost before = route_views(routes@);
                    let ghost rv = route@;
                    routes.insert(k, route);
                    assert(route_views(routes@) =~= before.insert(k as int, rv));
                },
            }
        }
        i += 1;
    }
    assert(all.take(inputs.len() as int) =~= all);
    Ok(routes)
}

/// The position of the first route of a table that admits a request, or the
/// table's length if none does.
pub open spec fn first_admitting(table: Seq<RouteView>, host: Option<Seq<char>>, path: Seq<char>) -> int
    decreases table.len(),
{
    if table.len() == 0 {
        0
    } else if table[0].admits(host, path) {
        0
    } else {
        1 + first_admitting(table.drop_first(), host, path)
    }
}

pub proof fn lemma_first_admitting(table: Seq<RouteView>, host: Option<Seq<char>>, path: Seq<char>)
    ensures
        0 <= first_admitting(table, host, path) <= table.len(),
        forall|j: int|
            0 <= j < first_admitting(table, host, path) ==> !(#[trigger] table[j]).admits(
                host,
                path,
            ),
        first_admitting(table, host, path) < table.len() ==> table[first_admitting(
            table,
            host,
            path,
        )].admits(host, path),
    decreases table.len(),
{
    if table.len() > 0 && !table[0].admits(host, path) {
        lemma_first_admitting(table.drop_first(), host, path);
        assert forall|j: int| 0 <= j < first_admitting(table, host, path) implies !(
        #[trigger] table[j]).admits(host, path) by {
            if j > 0 {
                assert(table[j] == table.drop_first()[j - 1]);
            }
        }
    }
}

fn route_admits(route: &ProxyRoute, named: &Option<Vec<char>>, path: &Vec<char>) -> (r: bool)
    ensures
        r == (match route@.host {
            None => true,
            Some(expect) => match named {
                Some(n) => n@ == expect,
                None => false,
            },
        } && path_matches(route@.path_prefix, path@)),
{
    let host_ok = match &route.host {
        None => true,
        Some(expect) => match named {
            None => false,
            Some(actual) => {
                let e = chars_of(expect.as_str());
                chars_eq(&e, actual)
            },
        },
    };
    if !host_ok {
        return false;
    }
    let prefix = chars_of(route.path_prefix.as_str());
    path_match_chars(&prefix, path)
}

/// The position in the table of the first route that admits a request.
/// `request_host` is the host as the request names it; it is brought to
/// normal form here.
pub fn select_route_index(
    routes: &[ProxyRoute],
    request_host: Option<&str>,
    request_path: &str,
) -> (r: Option<usize>)
    ensures
        ({
            let k = first_admitting(route_views(routes@), opt_str_text(request_host), request_path@);
            match r {
                Some(i) => i == k && k < routes@.len(),
                None => k == routes@.len(),
            }
        }),
{
    let named: Option<Vec<char>> = match request_host {
        Some(h) => match normalize_host_value(h) {
            Some(n) => Some(chars_of(n.as_str())),
            None => None,
        },
        None => None,
    };
    let path = chars_of(request_path);
    let ghost table = route_views(routes@);
    let ghost h = opt_str_text(request_host);
    let mut k: usize = 0;
    assert(table.skip(0) =~= table);
    while k < routes.len()
        invariant
            k <= routes@.len(),
            table == route_views(routes@),
            path@ == request_path@,
            h == opt_str_text(request_host),
            named_host(h) == match named {
                Some(x) => Some(x@),
                None => None,
            },
            first_admitting(table, h, path@) == k + first_admitting(
                table.skip(k as int),
                h,
                path@,
            ),
        decreases routes@.len() - k,
    {
        proof {
            assert(table.skip(k as int).drop_first() =~= table.skip(k + 1));
            assert(table.skip(k as int)[0] == routes@[k as int]@);
        }
        if route_admits(&routes[k], &named, &path) {
            return Some(k);
        }
        k += 1;
    }
    None
}

/// Chooses the route for a request: the first of the table that admits
/// the host it names and the path it asks for.
pub fn select_route<'a>(
    routes: &'a [ProxyRoute],
    request_host: Option<&str>,
    request_path: &str,
) -> (r: Option<&'a ProxyRoute>)
    ensures
        ({
            let k = first_admitting(route_views(routes@), opt_str_text(request_host), request_path@);
            match r {
                Some(route) => k < routes@.len() && *route == routes@[k],
                None => k == routes@.len(),
            }
        }),
{
    match select_route_index(routes, request_host, request_path) {
        Some(i) => Some(&routes[i]),
        None => None,
    }
}

/// The path sent upstream: with `strip_prefix`, and a prefix other than `/`
/// that the path begins with, the prefix is cut and a leading `/` restored;
/// otherwise the path as it came.
pub open spec fn forwarded_path(route: RouteView, path: Seq<char>) -> Seq<char> {
    if route.strip_prefix && route.path_prefix != seq!['/'] && starts_with(
        path,
        route.path_prefix,
    ) {
        let rest = path.skip(route.path_prefix.len() as int);
        if rest.len() == 0 {
            seq!['/']
        } else if rest[0] == '/' {
            rest
        } else {
            seq!['/'] + rest
        }
    } else {
        path
    }
}

/// The request target sent upstream: the forwarded path, then `?` and the
/// query where there is a query that is not empty.
pub open spec fn forwarded_target(route: RouteView, path: Seq<char>, query: Option<Seq<char>>) -> Seq<
    char,
> {
    match query {
        Some(q) => if q.len() > 0 {
            forwarded_path(route, path) + seq!['?'] + q
        } else {
            forwarded_path(route, path)
        },
        None => forwarded_path(route, path),
    }
}

/// The absolute URI of the upstream request.
pub open spec fn upstream_uri(route: RouteView, path: Seq<char>, query: Option<Seq<char>>) -> Seq<
    char,
> {
    route.target_scheme.name() + seq![':', '/', '/'] + route.authority() + forwarded_target(
        route,
        path,
        query,
    )
}

fn single(c: char) -> (r: Vec<char>)
    ensures
        r@ == seq![c],
{
    let mut v: Vec<char> = Vec::new();
    v.push(c);
    assert(v@ =~= seq![c]);
    v
}

fn forwarded_target_chars(path: &str, query: Option<&str>, route: &ProxyRoute) -> (r: Vec<char>)
    ensures
        r@ == forwarded_target(route@, path@, opt_str_text(query)),
{
    let p = chars_of(path);
    let prefix = chars_of(route.path_prefix.as_str());
    let slash = single('/');
    let mut rewritten = copy_range(&p, 0, p.len());
    assert(rewritten@ =~= p@);
    if route.strip_prefix && !chars_eq(&prefix, &slash) && starts_with_chars(&p, &prefix) {
        let rest = copy_range(&p, prefix.len(), p.len());
        assert(rest@ =~= p@.skip(prefix.len() as int));
        rewritten =
        if rest.len() == 0 {
            slash
        } else if rest[0] == '/' {
            rest
        } else {
            concat_chars(&slash, &rest)
        };
    }
    match query {
        Some(q) => {
            let qc = chars_of(q);
            if qc.len() > 0 {
                let mark = single('?');
                let head = concat_chars(&rewritten, &mark);
                concat_chars(&head, &qc)
            } else {
                rewritten
            }
        },
        None => rewritten,
    }
}

/// Rewrites path and query of a request for the upstream of `route`.
pub fn rewrite_path_and_query(path: &str, query: Option<&str>, route: &ProxyRoute) -> (r: String)
    ensures
        r@ == forwarded_target(route@, path@, opt_str_text(query)),
{
    let t = forwarded_target_chars(path, query, route);
    string_of(&t)
}

/// Spells the absolute URI that the request is sent to.
/// Why `http`'s `Uri` refuses to parse a text, in the words of its error;
/// `None` where it accepts the text.
pub uninterp spec fn uri_refusal(text: Seq<char>) -> Option<Seq<char>>;

/// Parses with `Uri`'s `from_str`, as `str::parse` calls it.
///
/// Trusted: the result is the refusal named above: the parser's error as
/// it displays itself, `None` where the parser accepts the text.
#[verifier::external_body]
fn refusal_of_uri(text: &str) -> (r: Option<String>)
    ensures
        opt_text(r) == uri_refusal(text@),
{
    match text.parse::<Uri>() {
        Ok(_) => None,
        Err(e) => Some(e.to_string()),
    }
}

/// What a result of two strings holds.
pub open spec fn uri_outcome(r: Result<String, String>) -> Result<Seq<char>, Seq<char>> {
    match r {
        Ok(u) => Ok(u@),
        Err(m) => Err(m@),
    }
}

/// An upstream address as it is used: itself where the parser accepts it,
/// else the diagnostic, which ends in the parser's words.
pub open spec fn checked_uri_text(text: Seq<char>, refusal: Option<Seq<char>>) -> Result<
    Seq<char>,
    Seq<char>,
> {
    match refusal {
        None => Ok(text),
        Some(why) => Err("构建上游地址失败: "@ + why),
    }
}

/// Decides on an upstream address from what the parser said of it.
pub fn checked_uri(text: String, refusal: Option<String>) -> (r: Result<String, String>)
    ensures
        uri_outcome(r) == checked_uri_text(text@, opt_text(refusal)),
{
    match refusal {
        None => Ok(text),
        Some(why) => {
            let head = chars_of("构建上游地址失败: ");
            let tail = chars_of(why.as_str());
            let all = concat_chars(&head, &tail);
            Err(string_of(&all))
        },
    }
}

fn upstream_uri_text(path: &str, query: Option<&str>, route: &ProxyRoute) -> (r: String)
    ensures
        r@ == upstream_uri(route@, path@, opt_str_text(query)),
{
    let scheme = chars_of(route.target_scheme.as_str());
    let sep = chars_of("://");
    proof {
        reveal_strlit("://");
        assert(sep@ =~= seq![':', '/', '/']);
    }
    let authority = route.target_authority();
    let authority_chars = chars_of(authority.as_str());
    let target = forwarded_target_chars(path, query, route);
    let a = concat_chars(&scheme, &sep);
    let b = concat_chars(&a, &authority_chars);
    let c = concat_chars(&b, &target);
    string_of(&c)
}

/// The address of the upstream resource for a request on a route, or the
/// diagnostic where `http`'s `Uri` does not accept it.
pub fn build_upstream_uri(path: &str, query: Option<&str>, route: &ProxyRoute) -> (r: Result<
    String,
    String,
>)
    ensures
        uri_outcome(r) == checked_uri_text(
            upstream_uri(route@, path@, opt_str_text(query)),
            uri_refusal(upstream_uri(route@, path@, opt_str_text(query))),
        ),
{
    let text = upstream_uri_text(path, query, route);
    let refusal = refusal_of_uri(text.as_str());
    checked_uri(text, refusal)
}

impl ProxyRoute {
    /// Whether connections to this route's upstream go through the client
    /// that does not check certificates: only for an `https` target that
    /// allows it.
    pub fn uses_insecure_client(&self) -> (r: bool)
        ensures
            r == (self.allow_insecure_tls && self.target_scheme == TargetScheme::Https),
    {
        self.allow_insecure_tls && self.target_scheme == TargetScheme::Https
    }
}

/// Whether no route of the table strictly precedes one that stands before it.
pub open spec fn is_ranked(table: Seq<RouteView>) -> bool {
    forall|i: int, j: int|
        0 <= i < j < table.len() ==> !(#[trigger] table[j]).precedes(#[trigger] table[i])
}

/// How many of the configured routes are enabled.
pub open spec fn enabled_count(inputs: Seq<RouteInputView>) -> nat
    decreases inputs.len(),
{
    if inputs.len() == 0 {
        0
    } else {
        enabled_count(inputs.drop_last()) + if inputs.last().enabled {
            1nat
        } else {
            0nat
        }
    }
}

/// A route that enters a ranked table at its entry index leaves it ranked.
pub proof fn lemma_entry_keeps_ranked(table: Seq<RouteView>, r: RouteView)
    requires
        is_ranked(table),
    ensures
        is_ranked(table.insert(entry_index(table, r), r)),
{
    let k = entry_index(table, r);
    lemma_entry_index(table, r);
    let out = table.insert(k, r);
    assert forall|i: int, j: int| 0 <= i < j < out.len() implies !(#[trigger] out[j]).precedes(
        #[trigger] out[i],
    ) by {
        if j < k {
            assert(out[i] == table[i] && out[j] == table[j]);
        } else if j == k {
            assert(out[i] == table[i]);
        } else if i < k {
            assert(out[i] == table[i] && out[j] == table[j - 1]);
        } else if i == k {
            assert(out[j] == table[j - 1]);
            assert(r.precedes(table[k]));
            if j - 1 > k {
                assert(!table[j - 1].precedes(table[k]));
            }
        } else {
            assert(out[i] == table[i - 1] && out[j] == table[j - 1]);
        }
    }
}

/// A table built from configured routes is ranked, and holds as many routes
/// as there are enabled inputs.
pub proof fn lemma_table_ranked(inputs: Seq<RouteInputView>)
    requires
        table_of(inputs) is Ok,
    ensures
        is_ranked(table_of(inputs)->Ok_0),
        table_of(inputs)->Ok_0.len() == enabled_count(inputs),
    decreases inputs.len(),
{
    if inputs.len() > 0 {
        lemma_table_ranked(inputs.drop_last());
        if inputs.last().enabled {
            let old_table = table_of(inputs.drop_last())->Ok_0;
            lemma_entry_keeps_ranked(old_table, route_of(inputs.last())->Ok_0);
            lemma_entry_index(old_table, route_of(inputs.last())->Ok_0);
        }
    }
}

/// Every enabled input has its route in the table built from the inputs.
pub proof fn lemma_table_holds_enabled(inputs: Seq<RouteInputView>, i: int)
    requires
        table_of(inputs) is Ok,
        0 <= i < inputs.len(),
        inputs[i].enabled,
    ensures
        route_of(inputs[i]) is Ok,
        table_of(inputs)->Ok_0.contains(route_of(inputs[i])->Ok_0),
    decreases inputs.len(),
{
    let before = inputs.drop_last();
    let old_table = table_of(before)->Ok_0;
    let table = table_of(inputs)->Ok_0;
    if i < inputs.len() - 1 {
        assert(inputs[i] == before[i]);
        lemma_table_holds_enabled(before, i);
        if inputs.last().enabled {
            let r = route_of(inputs.last())->Ok_0;
            let k = entry_index(old_table, r);
            lemma_entry_index(old_table, r);
            let x = route_of(inputs[i])->Ok_0;
            let m = choose|m: int| 0 <= m < old_table.len() && old_table[m] == x;
            if m < k {
                assert(table[m] == x);
            } else {
                assert(table[m + 1] == x);
            }
        }
    } else {
        let r = route_of(inputs.last())->Ok_0;
        let k = entry_index(old_table, r);
        lemma_entry_index(old_table, r);
        assert(table[k] == r);
    }
}

/// Every route of a table built from inputs is the route of an enabled input.
pub proof fn lemma_table_entry_origin(inputs: Seq<RouteInputView>, m: int) -> (i: int)
    requires
        table_of(inputs) is Ok,
        0 <= m < table_of(inputs)->Ok_0.len(),
    ensures
        0 <= i < inputs.len(),
        inputs[i].enabled,
        route_of(inputs[i]) == Ok::<RouteView, TargetError>(table_of(inputs)->Ok_0[m]),
    decreases inputs.len(),
{
    let before = inputs.drop_last();
    let old_table = table_of(before)->Ok_0;
    let table = table_of(inputs)->Ok_0;
    if inputs.last().enabled {
        let r = route_of(inputs.last())->Ok_0;
        let k = entry_index(old_table, r);
        lemma_entry_index(old_table, r);
        if m == k {
            inputs.len() - 1
        } else {
            let n = if m < k {
                m
            } else {
                m - 1
            };
            assert(table[m] == old_table[n]);
            let i = lemma_table_entry_origin(before, n);
            assert(inputs[i] == before[i]);
            i
        }
    } else {
        let i = lemma_table_entry_origin(before, m);
        assert(inputs[i] == before[i]);
        i
    }
}

/// The route chosen from a table built from configured routes is the best
/// that admits the request: it has the longest prefix among the admitting
/// routes, and where another admitting route with a prefix as long names a
/// host, so does the chosen one. No route is chosen only when none admits
/// the request.
pub proof fn lemma_selection_is_best(
    inputs: Seq<RouteInputView>,
    host: Option<Seq<char>>,
    path: Seq<char>,
)
    requires
        table_of(inputs) is Ok,
    ensures
        ({
            let table = table_of(inputs)->Ok_0;
            let k = first_admitting(table, host, path);
            &&& 0 <= k <= table.len()
            &&& k == table.len() ==> forall|j: int|
                0 <= j < table.len() ==> !(#[trigger] table[j]).admits(host, path)
            &&& k < table.len() ==> table[k].admits(host, path) && forall|j: int|
                0 <= j < table.len() && (#[trigger] table[j]).admits(host, path) ==> {
                    &&& table[j].weight() <= table[k].weight()
                    &&& table[j].weight() == table[k].weight() && table[j].host is Some
                        ==> table[k].host is Some
                }
        }),
{
    let table = table_of(inputs)->Ok_0;
    let k = first_admitting(table, host, path);
    lemma_table_ranked(inputs);
    lemma_first_admitting(table, host, path);
    if k < table.len() {
        assert forall|j: int|
            0 <= j < table.len() && (#[trigger] table[j]).admits(host, path) implies {
            &&& table[j].weight() <= table[k].weight()
            &&& table[j].weight() == table[k].weight() && table[j].host is Some
                ==> table[k].host is Some
        } by {
            if j > k {
                assert(!table[j].precedes(table[k]));
            }
        }
    }
}

/// The prefix `/` covers every path.
pub proof fn lemma_root_prefix_covers_all(path: Seq<char>)
    ensures
        path_matches(seq!['/'], path),
{
}

} // verus!
