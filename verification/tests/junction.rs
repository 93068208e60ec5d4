use nimby_graph::junction::{Junction, RoutingRule};

fn test_junction() -> Junction {
    Junction { name: Some("Test".to_string()), routing_rules: vec![] }
}

#[test]
fn test_routing_rule_creation() {
    let rule = RoutingRule { from_edge: 0, to_edge: 1, allowed: true };
    assert_eq!(rule.from_edge, 0);
    assert_eq!(rule.to_edge, 1);
    assert!(rule.allowed);
}

#[test]
fn test_is_routing_allowed_default() {
    let junction = test_junction();
    assert!(junction.is_routing_allowed(0, 1));
    assert!(junction.is_routing_allowed(1, 0));
    assert!(!junction.is_routing_allowed(0, 0));
}

#[test]
fn test_is_routing_allowed_with_rules() {
    let mut junction = test_junction();
    junction.set_routing_rule(0, 1, false);
    assert!(!junction.is_routing_allowed(0, 1));
    assert!(junction.is_routing_allowed(1, 0));
    assert!(junction.is_routing_allowed(0, 2));
}

#[test]
fn test_set_routing_rule() {
    let mut junction = test_junction();
    junction.set_routing_rule(0, 1, false);
    assert_eq!(junction.routing_rules.len(), 1);
    assert!(!junction.routing_rules[0].allowed);
    junction.set_routing_rule(0, 1, true);
    assert_eq!(junction.routing_rules.len(), 1);
    assert!(junction.routing_rules[0].allowed);
    junction.set_routing_rule(1, 2, false);
    assert_eq!(junction.routing_rules.len(), 2);
}

#[test]
fn test_remove_routing_rule() {
    let mut junction = Junction {
        name: Some("Test".to_string()),
        routing_rules: vec![RoutingRule { from_edge: 0, to_edge: 1, allowed: false }],
    };
    assert_eq!(junction.routing_rules.len(), 1);
    junction.remove_routing_rule(0, 1);
    assert_eq!(junction.routing_rules.len(), 0);
    assert!(junction.is_routing_allowed(0, 1));
}

#[test]
fn test_get_allowed_outgoing_edges() {
    let mut junction = test_junction();
    junction.set_routing_rule(0, 1, false);
    junction.set_routing_rule(0, 2, false);
    let all_edges = vec![0, 1, 2, 3];
    let allowed = junction.get_allowed_outgoing_edges(0, &all_edges);
    assert_eq!(allowed.len(), 1);
    assert_eq!(allowed[0], 3);
}

#[test]
fn test_asymmetric_routing() {
    let mut junction = test_junction();
    junction.set_routing_rule(1, 0, false);
    assert!(junction.is_routing_allowed(0, 1));
    assert!(!junction.is_routing_allowed(1, 0));
}

#[test]
fn test_set_routing_rule_same_edge_ignored() {
    let mut junction = test_junction();
    junction.set_routing_rule(4, 4, true);
    assert!(junction.routing_rules.is_empty());
    assert!(!junction.is_routing_allowed(4, 4));
}

#[test]
fn test_first_matching_rule_decides() {
    let junction = Junction {
        name: None,
        routing_rules: vec![
            RoutingRule { from_edge: 2, to_edge: 3, allowed: false },
            RoutingRule { from_edge: 2, to_edge: 3, allowed: true },
        ],
    };
    assert!(!junction.is_routing_allowed(2, 3));
}

#[test]
fn test_remove_removes_every_matching_rule() {
    let mut junction = Junction {
        name: None,
        routing_rules: vec![
            RoutingRule { from_edge: 2, to_edge: 3, allowed: false },
            RoutingRule { from_edge: 3, to_edge: 2, allowed: false },
            RoutingRule { from_edge: 2, to_edge: 3, allowed: true },
        ],
    };
    junction.remove_routing_rule(2, 3);
    assert_eq!(junction.routing_rules, vec![RoutingRule { from_edge: 3, to_edge: 2, allowed: false }]);
    assert!(junction.is_routing_allowed(2, 3));
    assert!(!junction.is_routing_allowed(3, 2));
}

#[test]
fn test_junction_creation() {
    let junction = Junction { name: Some("Test Junction".to_string()), routing_rules: vec![] };

    assert_eq!(junction.name, Some("Test Junction".to_string()));
    assert_eq!(junction.routing_rules.len(), 0);
}
