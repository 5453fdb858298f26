use rebound::circuit::CircuitBuilder;
use rebound::circuit::CircuitType;
use rebound::conf::ReboundRule;
use rebound::path::CircuitPath;
use rebound::strmap::StrMap;

fn rule(pattern: &str, upstream: &str) -> ReboundRule {
    ReboundRule {
        pattern: pattern.to_string(),
        preserve_hdrs: true,
        additional_hdrs: StrMap::new(),
        preserve_query: true,
        additional_query: StrMap::new(),
        preserve_path: true,
        upstream: upstream.to_string(),
    }
}

#[test]
fn empty_rules_resolve_to_error() {
    let mut builder = CircuitBuilder::new(vec![]);
    let circuit = builder.build();
    let node = circuit.get_node(&CircuitPath::parse("/anything"));
    assert!(matches!(node.circuit_type, CircuitType::Error));
    assert!(node.rule.is_none());
}

#[test]
fn single_rule_matches_its_prefix() {
    let mut builder = CircuitBuilder::new(vec![rule("/api", "http://u1")]);
    let circuit = builder.build();
    let node = circuit.get_node(&CircuitPath::parse("/api/users/42"));
    assert!(matches!(node.circuit_type, CircuitType::Routable));
    assert_eq!(node.rule.as_ref().unwrap().pattern, "/api");
}

#[test]
fn no_match_returns_error_node() {
    // A rule for /a does not catch /x.
    let mut builder = CircuitBuilder::new(vec![rule("/a", "http://u1")]);
    let circuit = builder.build();
    let node = circuit.get_node(&CircuitPath::parse("/x"));
    assert!(matches!(node.circuit_type, CircuitType::Error));
}

#[test]
fn longest_prefix_wins() {
    // Rules in order /a then /a/b: /a/b/c resolves to the deeper one.
    let mut builder = CircuitBuilder::new(vec![rule("/a", "http://u1"), rule("/a/b", "http://u2")]);
    let circuit = builder.build();
    let node = circuit.get_node(&CircuitPath::parse("/a/b/c"));
    assert_eq!(node.rule.as_ref().unwrap().upstream, "http://u2");
}

#[test]
fn longest_prefix_wins_regardless_of_order() {
    // The deeper rule declared first still wins on a deep request.
    let mut builder = CircuitBuilder::new(vec![rule("/a/b", "http://u2"), rule("/a", "http://u1")]);
    let circuit = builder.build();
    let node = circuit.get_node(&CircuitPath::parse("/a/b/c"));
    assert_eq!(node.rule.as_ref().unwrap().upstream, "http://u2");
    let shallow = circuit.get_node(&CircuitPath::parse("/a/x"));
    assert_eq!(shallow.rule.as_ref().unwrap().upstream, "http://u1");
}

#[test]
fn sibling_rules_do_not_shadow() {
    let mut builder = CircuitBuilder::new(vec![
        rule("/one", "http://u1"),
        rule("/two", "http://u2"),
        rule("/three", "http://u3"),
    ]);
    let circuit = builder.build();
    assert_eq!(
        circuit.get_node(&CircuitPath::parse("/two/x")).rule.as_ref().unwrap().upstream,
        "http://u2"
    );
    assert_eq!(
        circuit.get_node(&CircuitPath::parse("/three")).rule.as_ref().unwrap().upstream,
        "http://u3"
    );
}

#[test]
fn deep_chain_resolves_to_deepest_match() {
    let mut builder = CircuitBuilder::new(vec![
        rule("/a", "http://u1"),
        rule("/a/b", "http://u2"),
        rule("/a/b/c", "http://u3"),
    ]);
    let circuit = builder.build();
    assert_eq!(
        circuit.get_node(&CircuitPath::parse("/a/b/c/d")).rule.as_ref().unwrap().upstream,
        "http://u3"
    );
    assert_eq!(
        circuit.get_node(&CircuitPath::parse("/a/b/x")).rule.as_ref().unwrap().upstream,
        "http://u2"
    );
    assert_eq!(
        circuit.get_node(&CircuitPath::parse("/a")).rule.as_ref().unwrap().upstream,
        "http://u1"
    );
}

#[test]
fn circuit_layout_has_error_root_and_one_link_per_rule() {
    let mut builder = CircuitBuilder::new(vec![rule("/a", "http://u1"), rule("/a/b", "http://u2")]);
    let circuit = builder.build();
    assert_eq!(circuit.head_index, 0);
    assert_eq!(circuit.nodes.len(), 3);
    assert_eq!(circuit.links.len(), 2);
    assert!(matches!(circuit.nodes[0].circuit_type, CircuitType::Error));
    // The deeper rule hangs under the shallower one, not under the root.
    assert_eq!(circuit.links[1].from, 1);
    assert_eq!(circuit.links[1].to, 2);
}

#[test]
fn rule_node_paths_carry_directory_marker() {
    let mut builder = CircuitBuilder::new(vec![rule("/a", "http://u1")]);
    let circuit = builder.build();
    let p = circuit.nodes[1].path.as_ref().unwrap();
    assert_eq!(p.ordered_path, vec!["a".to_string()]);
    assert!(p.is_resource_dir);
}
