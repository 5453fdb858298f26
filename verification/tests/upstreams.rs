use rebound::path::CircuitPath;
use rebound::upstream::CircuitUpstream;
use rebound::upstream::CircuitUpstreamSchema;
use rebound::upstream::get_circuit_schema;

#[test]
fn schema_http() {
    let s = get_circuit_schema(&"http://h/x".to_string());
    assert!(matches!(s, CircuitUpstreamSchema::Http));
}

#[test]
fn schema_https() {
    let s = get_circuit_schema(&"https://h/x".to_string());
    assert!(matches!(s, CircuitUpstreamSchema::Https));
}

#[test]
fn schema_defaults_to_http() {
    let s = get_circuit_schema(&"backend:9000/x".to_string());
    assert!(matches!(s, CircuitUpstreamSchema::Http));
}

#[test]
fn parse_bare_host() {
    let u = CircuitUpstream::parse(&"http://backend:9000".to_string());
    assert!(matches!(u.schema, CircuitUpstreamSchema::Http));
    assert_eq!(u.host, "backend:9000");
    assert!(u.path_undefined());
    assert!(!u.path.is_resource_dir);
}

#[test]
fn parse_host_with_path() {
    let u = CircuitUpstream::parse(&"https://h/new/deep/".to_string());
    assert!(matches!(u.schema, CircuitUpstreamSchema::Https));
    assert_eq!(u.host, "h");
    assert_eq!(u.path.ordered_path, vec!["new".to_string(), "deep".to_string()]);
    assert!(u.path.is_resource_dir);
}

#[test]
fn parse_without_scheme() {
    let u = CircuitUpstream::parse(&"backend:9000/x".to_string());
    assert!(matches!(u.schema, CircuitUpstreamSchema::Http));
    assert_eq!(u.host, "backend:9000");
    assert_eq!(u.path.ordered_path, vec!["x".to_string()]);
}

#[test]
fn to_string_bare_host_keeps_trailing_slash() {
    let u = CircuitUpstream::parse(&"http://backend:9000".to_string());
    assert_eq!(u.to_string(), "http://backend:9000/");
}

#[test]
fn to_string_with_path() {
    let u = CircuitUpstream::parse(&"http://h/a/b".to_string());
    assert_eq!(u.to_string(), "http://h/a/b");
}

#[test]
fn to_string_with_directory_path() {
    let u = CircuitUpstream::parse(&"http://h/a/".to_string());
    assert_eq!(u.to_string(), "http://h/a/");
}

#[test]
fn join_appends_tail() {
    let u = CircuitUpstream::parse(&"http://h/new/".to_string());
    let tail = CircuitPath::parse("foo");
    let j = u.join(&tail);
    assert_eq!(j.to_string(), "http://h/new/foo");
}

#[test]
fn schema_text() {
    assert_eq!(CircuitUpstreamSchema::Http.into_str(), "http://");
    assert_eq!(CircuitUpstreamSchema::Https.into_str(), "https://");
}
