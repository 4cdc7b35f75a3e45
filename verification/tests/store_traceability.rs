use provenance::store::cache::graph::{Edge, EdgeType, NodeType};
use provenance::store::cache::rules::RuleRecord;
use provenance::store::cache::traceability::trace_rule;

fn edge(edge_type: EdgeType, from: (NodeType, &str), to: (NodeType, &str)) -> Edge {
    Edge {
        edge_type,
        from_type: from.0,
        from_id: from.1.to_string(),
        to_type: to.0,
        to_id: to.1.to_string(),
    }
}

fn rules(v: &[&str]) -> Vec<RuleRecord> {
    v.iter().map(|s| RuleRecord { id: s.to_string(), severity: "error".to_string() }).collect()
}

fn ids(v: &[&str]) -> Vec<String> {
    v.iter().map(|s| s.to_string()).collect()
}

#[test]
fn a_rule_walks_back_to_its_decision_requirement_and_source() {
    let edges = vec![
        edge(EdgeType::Produces, (NodeType::Resolution, "res_1"), (NodeType::Rule, "rule_1")),
        edge(EdgeType::Resolves, (NodeType::Resolution, "res_1"), (NodeType::Requirement, "req_1")),
        edge(EdgeType::Produces, (NodeType::Requirement, "req_2"), (NodeType::Rule, "rule_1")),
        edge(EdgeType::References, (NodeType::Source, "src_1"), (NodeType::Requirement, "req_1")),
        edge(EdgeType::References, (NodeType::Source, "src_2"), (NodeType::Requirement, "req_3")),
    ];
    let view = trace_rule(
        &rules(&["rule_1", "rule_2"]),
        &ids(&["res_0", "res_1"]),
        &ids(&["req_1", "req_2", "req_3"]),
        &ids(&["src_2", "src_1"]),
        &edges,
        "rule_1",
    )
    .unwrap();
    assert_eq!(view.rule, rules(&["rule_1"])[0]);
    assert_eq!(view.resolutions, ids(&["res_1"]));
    assert_eq!(view.requirements, ids(&["req_1", "req_2"]));
    assert_eq!(view.sources, ids(&["src_1"]));
    assert_eq!(view.edges, edges);
}

#[test]
fn an_unknown_rule_is_not_found() {
    let result = trace_rule(&rules(&["rule_1"]), &[], &[], &[], &[], "rule_9");
    assert_eq!(result, Err("rule not found".to_string()));
}

#[test]
fn a_rule_produced_by_a_requirement_alone_traces_to_it_and_its_source() {
    let edges = vec![
        edge(EdgeType::Produces, (NodeType::Requirement, "req_q"), (NodeType::Rule, "rule_1")),
        edge(EdgeType::References, (NodeType::Source, "src_q"), (NodeType::Requirement, "req_q")),
    ];
    let view = trace_rule(&rules(&["rule_1"]), &[], &ids(&["req_q"]), &ids(&["src_q"]), &edges, "rule_1").unwrap();
    assert!(view.resolutions.is_empty());
    assert_eq!(view.requirements, ids(&["req_q"]));
    assert_eq!(view.sources, ids(&["src_q"]));
}
