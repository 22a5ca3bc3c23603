use krate::routes::{
    build_routes, build_upstream_uri, checked_uri, normalize_host_value, normalize_path_prefix, parse_target,
    path_match, rewrite_path_and_query, select_route, select_route_index, ProxyRoute,
    ProxyRouteInput, TargetError, TargetScheme,
};

fn enabled_route(host: &str, path_prefix: &str, target: &str) -> ProxyRouteInput {
    ProxyRouteInput {
        id: String::new(),
        name: String::new(),
        enabled: true,
        host: host.to_string(),
        path_prefix: path_prefix.to_string(),
        target: target.to_string(),
        strip_prefix: false,
        allow_insecure_tls: false,
    }
}

fn route(prefix: &str, strip: bool) -> ProxyRoute {
    ProxyRoute {
        host: None,
        path_prefix: prefix.to_string(),
        target_scheme: TargetScheme::Http,
        target_host: "127.0.0.1".to_string(),
        target_port: 3000,
        strip_prefix: strip,
        allow_insecure_tls: false,
    }
}

#[test]
fn parse_target_supports_http_https_ws_wss_and_case_insensitive_scheme() {
    let (scheme_http, host_http, port_http) = parse_target("HTTP://example.com").unwrap();
    assert_eq!(scheme_http, TargetScheme::Http);
    assert_eq!(host_http, "example.com");
    assert_eq!(port_http, 80);

    let (scheme_https, host_https, port_https) =
        parse_target("Https://api.example.com:8443").unwrap();
    assert_eq!(scheme_https, TargetScheme::Https);
    assert_eq!(host_https, "api.example.com");
    assert_eq!(port_https, 8443);

    let (scheme_ws, host_ws, port_ws) = parse_target("ws://socket.local").unwrap();
    assert_eq!(scheme_ws, TargetScheme::Http);
    assert_eq!(host_ws, "socket.local");
    assert_eq!(port_ws, 80);

    let (scheme_wss, host_wss, port_wss) = parse_target("WSS://socket.secure.local").unwrap();
    assert_eq!(scheme_wss, TargetScheme::Https);
    assert_eq!(host_wss, "socket.secure.local");
    assert_eq!(port_wss, 443);
}

#[test]
fn parse_target_rejects_path() {
    let err = parse_target("https://example.com/api").unwrap_err();
    assert!(err.contains("暂不支持路径"));
}

#[test]
fn rewrite_path_and_query_respects_strip_prefix() {
    let route = ProxyRoute {
        host: None,
        path_prefix: "/api".to_string(),
        target_scheme: TargetScheme::Http,
        target_host: "127.0.0.1".to_string(),
        target_port: 3000,
        strip_prefix: true,
        allow_insecure_tls: false,
    };

    let uri: http::Uri = "/api/user/list?page=1".parse().unwrap();
    assert_eq!(
        rewrite_path_and_query(uri.path(), uri.query(), &route),
        "/user/list?page=1"
    );
}

#[test]
fn build_routes_prefers_more_specific_host_when_prefix_equal() {
    let routes = build_routes(&[
        enabled_route("", "/api", "http://127.0.0.1:3001"),
        enabled_route("api.example.com", "/api", "http://127.0.0.1:3002"),
    ])
    .unwrap();

    let selected = select_route(&routes, Some("api.example.com"), "/api/users").unwrap();
    assert_eq!(selected.host.as_deref(), Some("api.example.com"));
    assert_eq!(selected.target_port, 3002);
}

#[test]
fn build_routes_prefers_longest_path_prefix() {
    let routes = build_routes(&[
        enabled_route("", "/api", "http://127.0.0.1:3001"),
        enabled_route("", "/api/admin", "http://127.0.0.1:3002"),
    ])
    .unwrap();

    let selected = select_route(&routes, None, "/api/admin/users").unwrap();
    assert_eq!(selected.path_prefix, "/api/admin");
    assert_eq!(selected.target_port, 3002);
}

#[test]
fn path_match_handles_boundary_correctly() {
    assert!(path_match("/", "/anything"));
    assert!(path_match("/api", "/api"));
    assert!(path_match("/api", "/api/user"));
    assert!(!path_match("/api", "/apix"));
}

#[test]
fn path_match_root_prefix_covers_every_path() {
    for path in ["", "/", "/a", "/a/b?c", "no-slash", "/日本語"] {
        assert!(path_match("/", path));
    }
    assert!(path_match("/api", "/api/x"));
    assert!(!path_match("/api", "/ap"));
    assert!(!path_match("/api", "/API"));
    assert!(path_match("", "/x"));
    assert!(!path_match("", "x"));
}

#[test]
fn parse_target_reports_each_error() {
    assert_eq!(parse_target("").unwrap_err(), TargetError::Empty.message());
    assert_eq!(parse_target("   ///").unwrap_err(), "目标地址不能为空");
    assert_eq!(
        parse_target("http://").unwrap_err(),
        "目标地址必须以 http://、https://、ws:// 或 wss:// 开头"
    );
    assert_eq!(
        parse_target("ftp://example.com").unwrap_err(),
        "目标地址必须以 http://、https://、ws:// 或 wss:// 开头"
    );
    assert_eq!(
        parse_target("http://a/b").unwrap_err(),
        "目标地址暂不支持路径，请只填写主机和端口"
    );
    assert_eq!(parse_target("http://[::1]:80").unwrap_err(), "当前版本暂不支持 IPv6 地址");
    assert_eq!(parse_target("http://:80").unwrap_err(), "目标主机不能为空");
    assert_eq!(parse_target("http://a:port").unwrap_err(), "目标端口非法");
    assert_eq!(parse_target("http://a:65536").unwrap_err(), "目标端口非法");
    assert_eq!(parse_target("http://a:").unwrap_err(), "目标端口非法");
    assert_eq!(parse_target("http://a:+").unwrap_err(), "目标端口非法");
    assert_eq!(parse_target("http://a:-1").unwrap_err(), "目标端口非法");
}

#[test]
fn parse_target_reads_ports_as_decimal_numbers() {
    assert_eq!(
        parse_target("  http://example.com:8080//  ").unwrap(),
        (TargetScheme::Http, "example.com".to_string(), 8080)
    );
    assert_eq!(parse_target("http://a:65535").unwrap().2, 65535);
    assert_eq!(parse_target("http://a:0").unwrap().2, 0);
    assert_eq!(parse_target("http://a:+80").unwrap().2, 80);
    assert_eq!(parse_target("http://a:000443").unwrap().2, 443);
    assert_eq!(
        parse_target("https:// host : 9 ").unwrap(),
        (TargetScheme::Https, "host".to_string(), 9)
    );
}

#[test]
fn scheme_names_and_default_ports() {
    assert_eq!(TargetScheme::Http.as_str(), "http");
    assert_eq!(TargetScheme::Https.as_str(), "https");
    assert_eq!(TargetScheme::Http.default_port(), 80);
    assert_eq!(TargetScheme::Https.default_port(), 443);
}

#[test]
fn target_authority_leaves_out_the_default_port() {
    let mut r = route("/", false);
    assert_eq!(r.target_authority(), "127.0.0.1:3000");
    r.target_port = 80;
    assert_eq!(r.target_authority(), "127.0.0.1");
    r.target_scheme = TargetScheme::Https;
    assert_eq!(r.target_authority(), "127.0.0.1:80");
    r.target_port = 443;
    assert_eq!(r.target_authority(), "127.0.0.1");
    r.target_port = 65535;
    assert_eq!(r.target_authority(), "127.0.0.1:65535");
    r.target_port = 0;
    assert_eq!(r.target_authority(), "127.0.0.1:0");
}

#[test]
fn normalize_path_prefix_cases() {
    assert_eq!(normalize_path_prefix(""), "/");
    assert_eq!(normalize_path_prefix("   "), "/");
    assert_eq!(normalize_path_prefix("/"), "/");
    assert_eq!(normalize_path_prefix("api"), "/api");
    assert_eq!(normalize_path_prefix(" /api/ "), "/api");
    assert_eq!(normalize_path_prefix("/api///"), "/api");
    assert_eq!(normalize_path_prefix("/a/b/"), "/a/b");
    assert_eq!(normalize_path_prefix("//"), "/");
    assert_eq!(normalize_path_prefix(" /// "), "/");
    assert_eq!(normalize_path_prefix("a//"), "/a");
}

#[test]
fn normal_prefix_begins_with_a_slash_and_ends_without() {
    for raw in ["", "/", "//", "///", "x", "x/", "/x/y//", "  /  ", " a b /"] {
        let p = normalize_path_prefix(raw);
        assert!(p.starts_with('/'), "{raw:?} gave {p:?}");
        assert!(p == "/" || !p.ends_with('/'), "{raw:?} gave {p:?}");
    }
}

#[test]
fn normalize_host_value_cases() {
    assert_eq!(normalize_host_value(""), None);
    assert_eq!(normalize_host_value("*"), None);
    assert_eq!(normalize_host_value("  *  "), None);
    assert_eq!(normalize_host_value(":8080"), None);
    assert_eq!(normalize_host_value("Example.COM"), Some("example.com".to_string()));
    assert_eq!(normalize_host_value(" Example.com:8080 "), Some("example.com".to_string()));
    assert_eq!(normalize_host_value("host :80"), Some("host".to_string()));
    assert_eq!(normalize_host_value("\u{3000}a.b\u{00A0}"), Some("a.b".to_string()));
}

#[test]
fn build_routes_drops_disabled_and_keeps_order_within_a_rank() {
    let mut off = enabled_route("", "/zzzzzzzz", "not a target");
    off.enabled = false;
    let routes = build_routes(&[
        enabled_route("", "/a", "http://h:1"),
        off,
        enabled_route("x", "/bb", "http://h:2"),
        enabled_route("", "/b", "http://h:3"),
        enabled_route("y", "/a", "http://h:4"),
        enabled_route("", "/bb", "http://h:5"),
        enabled_route("z", "/bb", "http://h:6"),
    ])
    .unwrap();
    let ports: Vec<u16> = routes.iter().map(|r| r.target_port).collect();
    assert_eq!(ports, vec![2, 6, 5, 4, 1, 3]);
}

#[test]
fn build_routes_reports_the_first_bad_target() {
    let err = build_routes(&[
        enabled_route("", "/a", "http://ok"),
        enabled_route("", "/b", "http://a/b"),
        enabled_route("", "/c", "nonsense"),
    ])
    .unwrap_err();
    assert_eq!(err, "目标地址暂不支持路径，请只填写主机和端口");
    assert!(build_routes(&[]).unwrap().is_empty());
}

#[test]
fn select_route_takes_the_first_that_admits() {
    let routes = build_routes(&[
        enabled_route("", "/api", "http://127.0.0.1:3001"),
        enabled_route("", "/api/admin", "http://127.0.0.1:3002"),
        enabled_route("only.example", "/", "http://127.0.0.1:3003"),
    ])
    .unwrap();
    assert_eq!(select_route(&routes, None, "/api/admin/x").unwrap().target_port, 3002);
    assert_eq!(select_route(&routes, None, "/api/users").unwrap().target_port, 3001);
    assert_eq!(select_route_index(&routes, None, "/api/users"), Some(1));
    assert!(select_route(&routes, None, "/other").is_none());
    assert!(select_route(&routes, Some("else.example"), "/other").is_none());
    assert_eq!(
        select_route(&routes, Some("only.example"), "/other").unwrap().target_port,
        3003
    );
    assert_eq!(select_route_index(&routes, Some("only.example"), "/api"), Some(1));
    assert!(select_route(&[], None, "/").is_none());
}

#[test]
fn rewrite_path_and_query_cases() {
    let strip = route("/api", true);
    assert_eq!(rewrite_path_and_query("/api", None, &strip), "/");
    assert_eq!(rewrite_path_and_query("/api/users", Some("p=1"), &strip), "/users?p=1");
    assert_eq!(rewrite_path_and_query("/apix", None, &strip), "/x");
    assert_eq!(rewrite_path_and_query("/other", Some(""), &strip), "/other");
    let keep = route("/api", false);
    assert_eq!(rewrite_path_and_query("/api/users", Some("p=1"), &keep), "/api/users?p=1");
    let root = route("/", true);
    assert_eq!(rewrite_path_and_query("/a/b", None, &root), "/a/b");
}

#[test]
fn build_upstream_uri_spells_scheme_authority_and_target() {
    let mut r = route("/api", true);
    assert_eq!(
        build_upstream_uri("/api/users", Some("p=1"), &r).unwrap(),
        "http://127.0.0.1:3000/users?p=1"
    );
    r.target_scheme = TargetScheme::Https;
    r.target_port = 443;
    r.target_host = "up.example".to_string();
    assert_eq!(build_upstream_uri("/api", None, &r).unwrap(), "https://up.example/");
}

#[test]
fn build_upstream_uri_refuses_what_does_not_parse() {
    let r = route("/api", true);
    assert_eq!(
        build_upstream_uri("/api/a b", None, &r).unwrap_err(),
        "构建上游地址失败: invalid uri character"
    );
    let long = format!("/api/{}", "x".repeat(70_000));
    assert_eq!(
        build_upstream_uri(&long, None, &r).unwrap_err(),
        "构建上游地址失败: uri too long"
    );
    assert!(build_upstream_uri("/api/a%20b", Some("q=1&r=2"), &r).is_ok());
}

#[test]
fn checked_uri_keeps_an_accepted_address_and_words_a_refusal() {
    assert_eq!(checked_uri("http://a/b".to_string(), None), Ok("http://a/b".to_string()));
    assert_eq!(
        checked_uri("http://a/b".to_string(), Some("why".to_string())),
        Err("构建上游地址失败: why".to_string())
    );
    assert_eq!(checked_uri(String::new(), Some(String::new())), Err("构建上游地址失败: ".to_string()));
}

#[test]
fn insecure_client_only_for_https_routes_that_allow_it() {
    let mut r = route("/", false);
    assert!(!r.uses_insecure_client());
    r.allow_insecure_tls = true;
    assert!(!r.uses_insecure_client());
    r.target_scheme = TargetScheme::Https;
    assert!(r.uses_insecure_client());
    r.allow_insecure_tls = false;
    assert!(!r.uses_insecure_client());
}

#[test]
fn select_route_reads_the_host_in_any_case_and_without_its_port() {
    let routes = build_routes(&[
        enabled_route("", "/api", "http://127.0.0.1:3001"),
        enabled_route("api.example.com", "/api", "http://127.0.0.1:3002"),
    ])
    .unwrap();
    for host in ["api.example.com", "API.Example.com:8080", "  Api.Example.Com  ", "api.example.com:"] {
        let chosen = select_route(&routes, Some(host), "/api/users").unwrap();
        assert_eq!(chosen.target_port, 3002, "{host:?}");
        assert_eq!(select_route_index(&routes, Some(host), "/api"), Some(0), "{host:?}");
    }
    for host in ["other.example.com", "api.example.com.", "*", "", ":8080"] {
        let chosen = select_route(&routes, Some(host), "/api/users").unwrap();
        assert_eq!(chosen.target_port, 3001, "{host:?}");
    }
    assert_eq!(select_route(&routes, None, "/api/users").unwrap().target_port, 3001);
}

#[test]
fn route_for_a_host_alone_turns_away_other_hosts() {
    let routes = build_routes(&[enabled_route("Only.Example:443", "/", "http://127.0.0.1:1")]).unwrap();
    assert_eq!(routes[0].host.as_deref(), Some("only.example"));
    assert!(select_route(&routes, Some("ONLY.example:9"), "/x").is_some());
    assert!(select_route(&routes, Some("not.example"), "/x").is_none());
    assert!(select_route(&routes, None, "/x").is_none());
}
