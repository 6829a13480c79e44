use pear::rule::{
    find_proxy, join_url_paths, merge_queries, normalize_base_path, parse_base_path_and_query,
    parse_upstream_authority, proxied_target, trim_proxy_prefix, ProxyRule, Upstream,
    UpstreamScheme,
};

fn rule(prefix: &str, target: &str) -> ProxyRule {
    ProxyRule::new(prefix, target).expect("proxy rule should parse")
}

#[test]
fn proxied_target_replaces_prefix_with_upstream_base_path() {
    let proxy = ProxyRule::new("/api", "http://127.0.0.1:3000/backend")
        .expect("proxy rule should parse");
    assert_eq!(
        proxied_target("/api/users?id=1", &proxy),
        "/backend/users?id=1"
    );
}

#[test]
fn proxied_target_merges_fixed_upstream_query_with_request_query() {
    let proxy = ProxyRule::new("/api", "http://127.0.0.1:3000/backend?fixed=1")
        .expect("proxy rule should parse");
    assert_eq!(
        proxied_target("/api/users?id=1&name=test", &proxy),
        "/backend/users?fixed=1&id=1&name=test"
    );
}

#[test]
fn proxied_target_preserves_prefix_for_root_upstream_and_appends_fixed_query() {
    let proxy = ProxyRule::new("/api", "http://127.0.0.1:3000?fixed=1")
        .expect("proxy rule should parse");
    assert_eq!(proxied_target("/api/users", &proxy), "/api/users?fixed=1");
    assert_eq!(
        proxied_target("/api/users?id=1", &proxy),
        "/api/users?fixed=1&id=1"
    );
}

#[test]
fn parses_https_upstream_and_omits_default_port_in_host_header() {
    let proxy =
        ProxyRule::new("/secure", "https://localhost/base").expect("https proxy should parse");

    assert_eq!(proxy.upstream.scheme, UpstreamScheme::Https);
    assert_eq!(proxy.upstream.host, "localhost");
    assert_eq!(proxy.upstream.port, 443);
    assert_eq!(proxy.upstream.base_path, "/base");
    assert_eq!(proxy.upstream.authority_header(), "localhost");
}

#[test]
fn bare_upstream_keeps_the_target() {
    let proxy = rule("/api", "http://127.0.0.1:3000");
    assert_eq!(proxied_target("/api/users", &proxy), "/api/users");
    assert_eq!(proxied_target("/api/users?a=1?b", &proxy), "/api/users?a=1?b");
    assert_eq!(proxied_target("/api?", &proxy), "/api");
}

#[test]
fn target_without_the_prefix_is_joined_whole() {
    let proxy = rule("/api", "http://h/base/");
    assert_eq!(proxied_target("/api", &proxy), "/base");
    assert_eq!(proxied_target("/api//x", &proxy), "/base/x");
    assert_eq!(proxied_target("/other", &proxy), "/base/other");
}

#[test]
fn authority_shows_other_ports() {
    assert_eq!(rule("/a", "http://h:8080").upstream.authority_header(), "h:8080");
    assert_eq!(rule("/a", "http://h:80").upstream.authority_header(), "h");
    assert_eq!(rule("/a", "http://h:443").upstream.authority_header(), "h:443");
    assert_eq!(rule("/a", "https://h:443").upstream.authority_header(), "h");
    assert_eq!(rule("/a", "https://h").upstream.scheme_name(), "https");
    assert_eq!(rule("/a", "http://h").upstream.scheme_name(), "http");
}

#[test]
fn rules_cover_their_prefix_and_what_is_below() {
    let proxy = rule("/api/", "http://h");
    assert_eq!(proxy.prefix, "/api");
    assert!(proxy.matches("/api"));
    assert!(proxy.matches("/api/"));
    assert!(proxy.matches("/api/users"));
    assert!(!proxy.matches("/apix"));
    assert!(!proxy.matches("/ap"));
    let root = rule("/", "http://h");
    assert_eq!(root.prefix, "/");
    assert!(root.matches("/"));
    assert!(root.matches("//x"));
    assert!(!root.matches("/x"));
}

#[test]
fn longest_prefix_wins_and_then_the_later_rule() {
    let rules = vec![
        rule("/api", "http://one"),
        rule("/api/v2", "http://two"),
        rule("/api", "http://three"),
    ];
    assert_eq!(find_proxy(&rules, "/api/v2/x?y").unwrap().upstream.host, "two");
    assert_eq!(find_proxy(&rules, "/api/x").unwrap().upstream.host, "three");
    assert_eq!(find_proxy(&rules, "/api?x=/api/v2").unwrap().upstream.host, "three");
    assert!(find_proxy(&rules, "/other").is_none());
    assert!(find_proxy(&[], "/api").is_none());
}

#[test]
fn length_of_a_prefix_is_in_bytes() {
    let rules = vec![rule("/ä", "http://one"), rule("/ä", "http://two")];
    assert_eq!(find_proxy(&rules, "/ä/b").unwrap().upstream.host, "two");
}

#[test]
fn rule_texts() {
    let parsed = ProxyRule::parse("/api=http://h:81/b?x=y").unwrap();
    assert_eq!(parsed.prefix, "/api");
    assert_eq!(parsed.upstream.host, "h");
    assert_eq!(parsed.upstream.port, 81);
    assert_eq!(parsed.upstream.base_path, "/b");
    assert_eq!(parsed.upstream.base_query.as_deref(), Some("x=y"));
    assert_eq!(
        ProxyRule::parse("/api").unwrap_err(),
        "Invalid proxy rule '/api', expected /path=http[s]://host:port"
    );
    assert_eq!(
        ProxyRule::parse("api=http://h").unwrap_err(),
        "Proxy prefix must start with '/': api"
    );
    assert_eq!(
        ProxyRule::parse("/api=ftp://h").unwrap_err(),
        "Proxy target must start with http:// or https://: ftp://h"
    );
}

#[test]
fn upstream_texts() {
    let no_path = Upstream::parse("http://h").unwrap();
    assert_eq!(no_path.base_path, "/");
    assert_eq!(no_path.base_query, None);
    assert_eq!(no_path.port, 80);
    let query_only = Upstream::parse("http://h?a=1").unwrap();
    assert_eq!(query_only.host, "h");
    assert_eq!(query_only.base_path, "/");
    assert_eq!(query_only.base_query.as_deref(), Some("a=1"));
    let empty_query = Upstream::parse("http://h/x//?").unwrap();
    assert_eq!(empty_query.base_path, "/x");
    assert_eq!(empty_query.base_query, None);
    assert_eq!(
        Upstream::parse("http:///x").unwrap_err(),
        "Missing proxy upstream host: http:///x"
    );
    assert_eq!(
        Upstream::parse("https://").unwrap_err(),
        "Missing proxy upstream host: https://"
    );
    assert_eq!(
        Upstream::parse("http://h:x").unwrap_err(),
        "Invalid proxy upstream port: x"
    );
}

#[test]
fn authorities() {
    let ok = |host: &str, port: u16| Ok((host.to_string(), port));
    assert_eq!(parse_upstream_authority("h", 80), ok("h", 80));
    assert_eq!(parse_upstream_authority("h:1", 80), ok("h", 1));
    assert_eq!(parse_upstream_authority(":1", 80), ok(":1", 80));
    assert_eq!(parse_upstream_authority("::1", 80), ok("::1", 80));
    assert_eq!(parse_upstream_authority("[::1]", 443), ok("::1", 443));
    assert_eq!(parse_upstream_authority("[::1]:99", 443), ok("::1", 99));
    let err = |message: &str| Err(message.to_string());
    assert_eq!(
        parse_upstream_authority("[::1", 80),
        err("Invalid IPv6 proxy upstream authority: [::1")
    );
    assert_eq!(
        parse_upstream_authority("[]", 80),
        err("Missing proxy upstream host: []")
    );
    assert_eq!(
        parse_upstream_authority("[::1]x", 80),
        err("Invalid IPv6 proxy upstream authority: [::1]x")
    );
    assert_eq!(
        parse_upstream_authority("[::1]:x", 80),
        err("Invalid proxy upstream port in authority: [::1]:x")
    );
    assert_eq!(
        parse_upstream_authority("h:", 80),
        err("Invalid proxy upstream port: ")
    );
    assert_eq!(
        parse_upstream_authority("h:65536", 80),
        err("Invalid proxy upstream port: 65536")
    );
}

#[test]
fn parts_of_urls() {
    assert_eq!(trim_proxy_prefix("/a//"), "/a");
    assert_eq!(trim_proxy_prefix("//"), "/");
    assert_eq!(trim_proxy_prefix("/"), "/");
    assert_eq!(normalize_base_path("//a/b//"), "/a/b");
    assert_eq!(normalize_base_path("/"), "/");
    assert_eq!(normalize_base_path(""), "/");
    assert_eq!(join_url_paths("/a/", "/b"), "/a/b");
    assert_eq!(join_url_paths("/a/", "//"), "/a");
    assert_eq!(join_url_paths("/", "x"), "/x");
    assert_eq!(parse_base_path_and_query("a/?b?c"), ("/a".to_string(), Some("b?c".to_string())));
    assert_eq!(parse_base_path_and_query("?"), ("/".to_string(), None));
}

#[test]
fn queries_are_merged() {
    assert_eq!(merge_queries(None, ""), None);
    assert_eq!(merge_queries(Some(""), ""), None);
    assert_eq!(merge_queries(Some("a"), "").as_deref(), Some("a"));
    assert_eq!(merge_queries(None, "b").as_deref(), Some("b"));
    assert_eq!(merge_queries(Some(""), "b").as_deref(), Some("b"));
    assert_eq!(merge_queries(Some("a"), "b").as_deref(), Some("a&b"));
}
