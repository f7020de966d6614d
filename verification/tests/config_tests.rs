use cps_server::cacher::Cacher;
use cps_server::config::{config_file_path, Config, Markdown, Proxy, ProxyTarget, Server};
use cps_server::proxy::{forward_path, forward_url, keeps_response_header};
use std::cell::Cell;

fn sample_config(title: &str) -> Config {
    Config {
        title: title.to_string(),
        server: Server {
            port: 8080,
            root_dir: "./www".to_string(),
            static_dir: vec!["static".to_string()],
            static_ext: vec!["js".to_string(), "css".to_string()],
        },
        proxy: vec![Proxy::new(
            "/api",
            vec![ProxyTarget { url: "http://example.com/".to_string(), weights: 1 }],
        )],
        markdown: Some(Markdown { dir: Some("docs".to_string()) }),
    }
}

#[test]
fn proxy_new_keeps_path_and_targets() {
    let p = Proxy::new("/svc", vec![ProxyTarget { url: "http://a".to_string(), weights: 3 }]);
    assert_eq!(p.path, "/svc");
    assert_eq!(p.target.len(), 1);
    assert_eq!(p.target[0].url, "http://a");
    assert_eq!(p.target[0].weights, 3);
}

#[test]
fn config_path_defaults_when_empty() {
    assert_eq!(config_file_path(""), "config.toml");
    assert_eq!(config_file_path("config.json"), "config.json");
}

#[test]
fn duplicate_copies_everything() {
    let c = sample_config("t");
    let d = c.duplicate();
    assert_eq!(d.title, "t");
    assert_eq!(d.server.port, 8080);
    assert_eq!(d.server.static_ext, vec!["js", "css"]);
    assert_eq!(d.proxy[0].path, "/api");
    assert_eq!(d.proxy[0].target[0].url, "http://example.com/");
    assert_eq!(d.markdown.unwrap().dir, Some("docs".to_string()));
}

#[test]
fn cacher_computes_once_per_path() {
    let calls = Cell::new(0u32);
    let mut cache = Cacher::new(|path: &str| {
        calls.set(calls.get() + 1);
        sample_config(path)
    });
    let a = cache.value("a.json");
    assert_eq!(a.title, "a.json");
    assert_eq!(calls.get(), 1);
    let again = cache.value("a.json");
    assert_eq!(again.title, "a.json");
    assert_eq!(again.server.root_dir, "./www");
    assert_eq!(calls.get(), 1);
    let b = cache.value("b.json");
    assert_eq!(b.title, "b.json");
    assert_eq!(calls.get(), 2);
}

#[test]
fn forward_path_strips_prefix() {
    assert_eq!(forward_path("/api/users/1", 4), "/users/1");
    assert_eq!(forward_path("/api", 4), "");
}

#[test]
fn forward_url_rewrites_path_and_query() {
    let p = Proxy::new("/api", vec![ProxyTarget { url: "http://example.com/base".to_string(), weights: 1 }]);
    assert_eq!(forward_url(&p, "/api/users/1", Some("x=1")), Some("http://example.com/users/1?x=1".to_string()));
    assert_eq!(forward_url(&p, "/api/users/1", None), Some("http://example.com/users/1".to_string()));
    assert_eq!(forward_url(&p, "/api", None), Some("http://example.com/".to_string()));
}

#[test]
fn forward_url_replaces_target_query() {
    let p = Proxy::new("/p", vec![ProxyTarget { url: "https://h:8443/?old=1".to_string(), weights: 1 }]);
    assert_eq!(forward_url(&p, "/p/a b", None), Some("https://h:8443/a%20b".to_string()));
}

#[test]
fn forward_url_of_invalid_target() {
    let p = Proxy::new("/api", vec![ProxyTarget { url: "not a url".to_string(), weights: 1 }]);
    assert_eq!(forward_url(&p, "/api/x", None), None);
}

#[test]
fn hop_headers_are_dropped() {
    assert!(!keeps_response_header("connection"));
    assert!(!keeps_response_header("content-length"));
    assert!(keeps_response_header("content-type"));
    assert!(keeps_response_header("Connection"));
}

#[test]
fn forward_url_uses_only_first_target() {
    let p1 = Proxy::new("/api", vec![ProxyTarget { url: "http://one.example/".to_string(), weights: 1 }]);
    let p2 = Proxy::new(
        "/api",
        vec![
            ProxyTarget { url: "http://one.example/".to_string(), weights: 9 },
            ProxyTarget { url: "http://two.example/".to_string(), weights: 1 },
        ],
    );
    assert_eq!(forward_url(&p1, "/api/q", Some("a=1")), forward_url(&p2, "/api/q", Some("a=1")));
    assert_eq!(forward_url(&p2, "/api/q", Some("a=1")), Some("http://one.example/q?a=1".to_string()));
}
