use provenance::store::cache::gaps::model::ScopedEdge;
use provenance::store::cache::graph::{Edge, EdgeType, NodeType};
use provenance::store::cache::impact::{
    analyze_impact, direction_key, ImpactDirection, ImpactOptions,
};

fn edge(edge_type: EdgeType, from: (NodeType, &str), to: (NodeType, &str)) -> Edge {
    Edge {
        edge_type,
        from_type: from.0,
        from_id: from.1.to_string(),
        to_type: to.0,
        to_id: to.1.to_string(),
    }
}

fn scoped(scope: &str, edges: Vec<Edge>) -> Vec<ScopedEdge> {
    edges
        .into_iter()
        .enumerate()
        .map(|(i, edge)| ScopedEdge { id: format!("edge_{i}"), scope_id: scope.to_string(), edge })
        .collect()
}

fn chain() -> Vec<ScopedEdge> {
    scoped("default", chain_edges())
}

fn chain_edges() -> Vec<Edge> {
    vec![
        edge(EdgeType::References, (NodeType::Source, "src"), (NodeType::Requirement, "req")),
        edge(EdgeType::Resolves, (NodeType::Resolution, "res"), (NodeType::Requirement, "req")),
        edge(EdgeType::Produces, (NodeType::Requirement, "req"), (NodeType::Rule, "rule_b")),
        edge(EdgeType::Produces, (NodeType::Requirement, "req"), (NodeType::Rule, "rule_a")),
        edge(EdgeType::DependsOn, (NodeType::Rule, "rule_a"), (NodeType::Rule, "rule_c")),
    ]
}

#[test]
fn impact_lists_each_record_at_its_fewest_hops_in_key_order() {
    let view = analyze_impact(
        "default",
        NodeType::Source,
        "src",
        &chain(),
        ImpactOptions { max_hops: 5, follow_indirect: false },
    );
    let listed: Vec<(NodeType, &str, u32, ImpactDirection)> = view
        .nodes
        .iter()
        .map(|n| (n.node_type, n.id.as_str(), n.hop_distance, n.direction))
        .collect();
    assert_eq!(
        listed,
        vec![
            (NodeType::Requirement, "req", 1, ImpactDirection::Downstream),
            (NodeType::Rule, "rule_a", 2, ImpactDirection::Downstream),
            (NodeType::Rule, "rule_b", 2, ImpactDirection::Downstream),
        ]
    );
    assert!(!view.truncated);
    assert_eq!(view.origin_id, "src");
}

#[test]
fn indirect_edges_are_followed_on_request_and_limits_truncate() {
    let view = analyze_impact(
        "default",
        NodeType::Requirement,
        "req",
        &chain(),
        ImpactOptions { max_hops: 1, follow_indirect: true },
    );
    let listed: Vec<(&str, u32, &str)> = view
        .nodes
        .iter()
        .map(|n| (n.id.as_str(), n.hop_distance, direction_key(n.direction)))
        .collect();
    assert_eq!(
        listed,
        vec![("res", 1, "upstream"), ("rule_a", 1, "downstream"), ("rule_b", 1, "downstream"), ("src", 1, "upstream")]
    );
    assert!(view.truncated);
    let deeper = analyze_impact(
        "default",
        NodeType::Requirement,
        "req",
        &chain(),
        ImpactOptions { max_hops: 3, follow_indirect: true },
    );
    assert!(deeper.nodes.iter().any(|n| n.id == "rule_c" && n.hop_distance == 2));
    assert!(!deeper.truncated);
}

#[test]
fn a_zero_hop_walk_only_reports_truncation() {
    let view = analyze_impact(
        "default",
        NodeType::Rule,
        "rule_a",
        &chain(),
        ImpactOptions { max_hops: 0, follow_indirect: false },
    );
    assert!(view.nodes.is_empty());
    assert!(view.truncated);
}

#[test]
fn impact_follows_only_the_edges_of_its_scope() {
    let mut edges = chain();
    edges.extend(scoped(
        "other",
        vec![edge(EdgeType::Produces, (NodeType::Requirement, "req"), (NodeType::Rule, "rule_other"))],
    ));
    let options = ImpactOptions { max_hops: 5, follow_indirect: false };
    let view = analyze_impact("default", NodeType::Source, "src", &edges, options);
    assert!(!view.nodes.iter().any(|n| n.id == "rule_other"));
    assert_eq!(view, analyze_impact("default", NodeType::Source, "src", &chain(), options));
    assert!(analyze_impact("elsewhere", NodeType::Source, "src", &edges, options).nodes.is_empty());
}
