use rebound::circuit::CircuitBuilder;
use rebound::circuit::CircuitNode;
use rebound::circuit::CircuitType;
use rebound::conf::ReboundRule;
use rebound::engine::ReboundEngine;
use rebound::path::CircuitPath;
use rebound::request::ReboundIngressRequestBuilder;
use rebound::request::ReboundRequest;
use rebound::request::ReboundRequestType;
use rebound::strmap::StrMap;

fn rule(pattern: &str, upstream: &str) -> ReboundRule {
    ReboundRule {
        pattern: pattern.to_string(),
        preserve_hdrs: true,
        additional_hdrs: StrMap::new(),
        preserve_query: true,
        additional_query: StrMap::new(),
        preserve_path: true,
        upstream: upstream.to_string(),
    }
}

fn request(url: &str, method: ReboundRequestType, body: Option<Vec<u8>>) -> ReboundRequest {
    let mut b = ReboundIngressRequestBuilder::new();
    b.with_url(url.to_string());
    b.with_method(method);
    b.with_headers(vec![]);
    b.with_body(body);
    b.build()
}

fn engine_for(rules: Vec<ReboundRule>) -> ReboundEngine {
    let mut builder = CircuitBuilder::new(rules);
    ReboundEngine::new(builder.build())
}

#[test]
fn passthrough_with_bare_upstream() {
    // A bare upstream carries the full inbound path through verbatim.
    let mut engine = engine_for(vec![rule("/api", "http://backend:9000")]);
    let req = request("/api/users/42?x=1", ReboundRequestType::Get, None);
    assert_eq!(req.uri, "/api/users/42");
    let out = engine.get(&req).expect("rule should match");
    assert_eq!(out.uri, "http://backend:9000/api/users/42");
    assert!(matches!(out.method, ReboundRequestType::Get));
    assert!(out.body.is_none());
    assert_eq!(out.query_params.get("x").unwrap(), "1");
    assert_eq!(out.query_params.len(), 1);
}

#[test]
fn path_remount_strips_matched_prefix() {
    // A path-bearing upstream mounts the tail past the matched prefix.
    let mut engine = engine_for(vec![rule("/old", "http://backend:9000/new/")]);
    let req = request("/old/foo", ReboundRequestType::Get, None);
    let out = engine.get(&req).expect("rule should match");
    assert_eq!(out.uri, "http://backend:9000/new/foo");
}

#[test]
fn strip_path_forwards_empty_tail() {
    let mut r = rule("/hide", "http://backend:9000/exposed");
    r.preserve_path = false;
    let mut engine = engine_for(vec![r]);
    let req = request("/hide/anything", ReboundRequestType::Post, Some(b"X".to_vec()));
    let out = engine.get(&req).expect("rule should match");
    assert_eq!(out.uri, "http://backend:9000/exposed");
    assert!(matches!(out.method, ReboundRequestType::Post));
    assert_eq!(out.body.as_ref().unwrap(), &b"X".to_vec());
}

#[test]
fn header_and_query_injection() {
    let mut r = rule("/r", "http://backend:9000");
    r.preserve_hdrs = false;
    r.additional_hdrs.insert("X-Auth".to_string(), "k".to_string());
    r.additional_query.insert("v".to_string(), "2".to_string());
    let mut engine = engine_for(vec![r]);
    let mut b = ReboundIngressRequestBuilder::new();
    b.with_url("/r/a?u=1".to_string());
    b.with_method(ReboundRequestType::Get);
    b.with_headers(vec![("Cookie".to_string(), "c".to_string())]);
    b.with_body(None);
    let req = b.build();
    let out = engine.get(&req).expect("rule should match");
    assert_eq!(out.headers.len(), 1);
    assert_eq!(out.headers.get("X-Auth").unwrap(), "k");
    assert!(out.headers.get("Cookie").is_none());
    assert_eq!(out.query_params.len(), 2);
    assert_eq!(out.query_params.get("u").unwrap(), "1");
    assert_eq!(out.query_params.get("v").unwrap(), "2");
}

#[test]
fn no_match_yields_none() {
    let mut engine = engine_for(vec![rule("/a", "http://u1")]);
    let req = request("/x", ReboundRequestType::Get, None);
    assert!(engine.get(&req).is_none());
}

#[test]
fn longest_prefix_rule_rewrites() {
    let mut engine = engine_for(vec![rule("/a", "http://u1"), rule("/a/b", "http://u2")]);
    let req = request("/a/b/c", ReboundRequestType::Get, None);
    let out = engine.get(&req).expect("rule should match");
    assert_eq!(out.uri, "http://u2/a/b/c");
}

#[test]
fn preserved_headers_with_no_additions_pass_through() {
    // With headers preserved and nothing added, the maps come out equal.
    let mut engine = engine_for(vec![rule("/a", "http://u1")]);
    let mut b = ReboundIngressRequestBuilder::new();
    b.with_url("/a/x".to_string());
    b.with_method(ReboundRequestType::Get);
    b.with_headers(vec![
        ("H1".to_string(), "v1".to_string()),
        ("H2".to_string(), "v2".to_string()),
    ]);
    b.with_body(None);
    let req = b.build();
    let out = engine.get(&req).expect("rule should match");
    assert_eq!(out.headers.len(), 2);
    assert_eq!(out.headers.get("H1").unwrap(), "v1");
    assert_eq!(out.headers.get("H2").unwrap(), "v2");
}

#[test]
fn dropped_headers_with_no_additions_are_empty() {
    let mut r = rule("/a", "http://u1");
    r.preserve_hdrs = false;
    let mut engine = engine_for(vec![r]);
    let mut b = ReboundIngressRequestBuilder::new();
    b.with_url("/a/x".to_string());
    b.with_method(ReboundRequestType::Get);
    b.with_headers(vec![("H1".to_string(), "v1".to_string())]);
    b.with_body(None);
    let req = b.build();
    let out = engine.get(&req).expect("rule should match");
    assert_eq!(out.headers.len(), 0);
}

#[test]
fn apply_on_error_node_is_none() {
    let node = CircuitNode::error();
    let req = request("/a", ReboundRequestType::Get, None);
    assert!(req.apply(&node).is_none());
}

#[test]
fn applying_twice_rooted_at_upstream_is_idempotent() {
    // First application: /old/foo under rule /old -> http://b/new/ gives
    // http://b/new/foo. Re-applying the rule to the request as the upstream
    // sees it (path /new/foo, matched at the upstream path /new/) gives the
    // same URL again.
    let r = rule("/old", "http://b/new/");
    let node = CircuitNode {
        circuit_type: CircuitType::Routable,
        rule: Some(r.duplicate()),
        path: Some(CircuitPath::parse("/old/")),
    };
    let first = request("/old/foo", ReboundRequestType::Get, None).apply(&node).unwrap();
    assert_eq!(first.uri, "http://b/new/foo");

    let upstream_node = CircuitNode {
        circuit_type: CircuitType::Routable,
        rule: node.rule,
        path: Some(CircuitPath::parse("/new/")),
    };
    let second = request("/new/foo", ReboundRequestType::Get, None)
        .apply(&upstream_node)
        .unwrap();
    assert_eq!(second.uri, first.uri);
}

#[test]
fn applying_twice_with_bare_upstream_is_idempotent() {
    let r = rule("/api", "http://backend:9000");
    let node = CircuitNode {
        circuit_type: CircuitType::Routable,
        rule: Some(r),
        path: Some(CircuitPath::parse("/api/")),
    };
    let first = request("/api/u/1", ReboundRequestType::Get, None).apply(&node).unwrap();
    assert_eq!(first.uri, "http://backend:9000/api/u/1");
    // Rooted at the upstream the path is unchanged; the bare upstream
    // carries it through verbatim again.
    let second = request("/api/u/1", ReboundRequestType::Get, None).apply(&node).unwrap();
    assert_eq!(second.uri, first.uri);
}
