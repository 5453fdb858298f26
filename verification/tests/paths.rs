use rebound::path::CircuitPath;

fn segments(p: &CircuitPath) -> Vec<String> {
    p.ordered_path.clone()
}

#[test]
fn parse_plain_path() {
    let p = CircuitPath::parse("/a/b");
    assert_eq!(segments(&p), vec!["a".to_string(), "b".to_string()]);
    assert!(!p.is_resource_dir);
}

#[test]
fn parse_directory_path() {
    let p = CircuitPath::parse("/a/b/");
    assert_eq!(segments(&p), vec!["a".to_string(), "b".to_string()]);
    assert!(p.is_resource_dir);
}

#[test]
fn parse_empty_and_root() {
    let p = CircuitPath::parse("");
    assert!(segments(&p).is_empty());
    assert!(!p.is_resource_dir);
    let q = CircuitPath::parse("/");
    assert!(segments(&q).is_empty());
    assert!(q.is_resource_dir);
}

#[test]
fn parse_drops_empty_segments() {
    let p = CircuitPath::parse("//a///b//");
    assert_eq!(segments(&p), vec!["a".to_string(), "b".to_string()]);
    assert!(p.is_resource_dir);
}

#[test]
fn to_string_plain() {
    let p = CircuitPath::parse("/a/b");
    assert_eq!(p.to_string(), "a/b");
}

#[test]
fn to_string_directory() {
    let p = CircuitPath::parse("/a/b/");
    assert_eq!(p.to_string(), "a/b/");
}

#[test]
fn to_string_empty() {
    let p = CircuitPath::parse("");
    assert_eq!(p.to_string(), "");
    let q = CircuitPath::parse("/");
    assert_eq!(q.to_string(), "/");
}

#[test]
fn round_trip_keeps_segments() {
    for text in ["/a/b", "/a/b/", "/x", "", "/", "//m//n/"] {
        let p = CircuitPath::parse(text);
        let back = CircuitPath::parse(&p.to_string());
        assert_eq!(segments(&back), segments(&p));
        assert_eq!(back.is_resource_dir, p.is_resource_dir);
    }
}

#[test]
fn join_concatenates_and_takes_other_marker() {
    let a = CircuitPath::parse("/a/b");
    let b = CircuitPath::parse("/c/");
    let j = a.join(&b);
    assert_eq!(segments(&j), vec!["a".to_string(), "b".to_string(), "c".to_string()]);
    assert!(j.is_resource_dir);
}

#[test]
fn diff_strips_common_prefix() {
    let req = CircuitPath::parse("/old/foo");
    let node = CircuitPath::parse("/old/");
    let d = req.get_diff(&node);
    assert_eq!(segments(&d), vec!["foo".to_string()]);
    // The suffix keeps the request's own directory marker.
    assert!(!d.is_resource_dir);
}

#[test]
fn diff_stops_at_first_mismatch() {
    let a = CircuitPath::parse("/a/x/b");
    let b = CircuitPath::parse("/a/y/b");
    let d = a.get_diff(&b);
    assert_eq!(segments(&d), vec!["x".to_string(), "b".to_string()]);
}

#[test]
fn diff_of_unrelated_paths_is_whole() {
    let a = CircuitPath::parse("/a/b");
    let b = CircuitPath::parse("/x");
    let d = a.get_diff(&b);
    assert_eq!(segments(&d), vec!["a".to_string(), "b".to_string()]);
}

#[test]
fn prefix_matches_shorter_into_longer() {
    let a = CircuitPath::parse("/a");
    let b = CircuitPath::parse("/a/b/c");
    assert!(a.prefix_matches(&b));
    assert!(!b.prefix_matches(&a));
}

#[test]
fn prefix_matches_equal_paths() {
    let a = CircuitPath::parse("/a/b");
    let b = CircuitPath::parse("/a/b/");
    assert!(a.prefix_matches(&b));
    assert!(b.prefix_matches(&a));
}

#[test]
fn prefix_matches_rejects_mismatch() {
    let a = CircuitPath::parse("/a/x");
    let b = CircuitPath::parse("/a/y/z");
    assert!(!a.prefix_matches(&b));
}

#[test]
fn empty_path_matches_everything() {
    let root = CircuitPath::parse("/");
    let b = CircuitPath::parse("/a/b");
    assert!(root.prefix_matches(&b));
}
