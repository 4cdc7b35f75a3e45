use provenance::store::cache::gaps::compute_gaps;
use provenance::store::cache::graph::{Edge, EdgeType, NodeType};
use provenance::store::cache::GapKind;
use provenance::store::cache::gaps::model::{
    GapGraph, RequirementEntry, ResolutionEntry, ScopedEdge, SourceEntry,
};
use provenance::store::cache::health::{coverage_health, orphan_rules, scope_health, scope_health_at, RequirementRecord};
use provenance::store::cache::stale::ResolutionRecord;
use provenance::store::cache::rules::{rules_for_resolution, DownstreamRuleQuery, RulePolicy, RuleRecord};

fn edge(edge_type: EdgeType, from: (NodeType, &str), to: (NodeType, &str)) -> Edge {
    Edge {
        edge_type,
        from_type: from.0,
        from_id: from.1.to_string(),
        to_type: to.0,
        to_id: to.1.to_string(),
    }
}

fn fixture() -> (Vec<RequirementRecord>, Vec<String>, Vec<Edge>) {
    let requirements = vec![
        RequirementRecord { id: "req_a".to_string(), resolved: false },
        RequirementRecord { id: "req_b".to_string(), resolved: true },
    ];
    let rules = vec!["rule_1".to_string(), "rule_2".to_string()];
    let edges = vec![
        edge(EdgeType::References, (NodeType::Source, "src_1"), (NodeType::Requirement, "req_a")),
        edge(EdgeType::Resolves, (NodeType::Resolution, "res_1"), (NodeType::Requirement, "req_a")),
        edge(EdgeType::Produces, (NodeType::Requirement, "req_a"), (NodeType::Rule, "rule_1")),
        edge(EdgeType::Produces, (NodeType::Resolution, "res_1"), (NodeType::Rule, "rule_1")),
    ];
    (requirements, rules, edges)
}

#[test]
fn health_counts_links_resolutions_and_rules() {
    let (requirements, rules, edges) = fixture();
    let health = coverage_health(&requirements, &rules, &edges, 3, 4);
    assert_eq!(health.requirements.total, 2);
    assert_eq!(health.source_linked_requirements, 1);
    assert_eq!(health.resolved_requirements, 2);
    assert_eq!(health.requirements_with_rules, 1);
    assert_eq!(health.rules.total, 2);
    assert_eq!(health.rules.with_complete_traceability, 1);
    assert_eq!(health.stale.total, 3);
    assert_eq!(health.gaps.total, 4);
}

#[test]
fn orphan_rules_list_what_they_miss() {
    let (_, rules, edges) = fixture();
    let orphans = orphan_rules(&rules, &edges);
    assert_eq!(orphans.len(), 1);
    assert_eq!(orphans[0].rule_id, "rule_2");
    assert_eq!(
        orphans[0].missing,
        vec!["requirement".to_string(), "resolution".to_string(), "source".to_string()]
    );
}

#[test]
fn downstream_rules_and_policies() {
    let (_, _, edges) = fixture();
    let rules = vec![
        RuleRecord { id: "rule_1".to_string(), severity: "error".to_string() },
        RuleRecord { id: "rule_2".to_string(), severity: "warning".to_string() },
    ];
    let produced = rules_for_resolution(&rules, &edges, "res_1");
    assert_eq!(produced.len(), 1);
    assert_eq!(produced[0].id, "rule_1");
    let any = RulePolicy { severities: vec![], minimum: 1 };
    assert!(any.matches(&produced));
    assert!(!RulePolicy { severities: vec![], minimum: 2 }.matches(&produced));
    assert!(!RulePolicy { severities: vec!["warning".to_string()], minimum: 0 }.matches(&produced));
    assert!(RulePolicy { severities: vec!["error".to_string()], minimum: 0 }.matches(&produced));
}

#[test]
fn downstream_query_follows_resolutions_of_a_requirement() {
    let edges = vec![
        edge(EdgeType::Resolves, (NodeType::Resolution, "res_1"), (NodeType::Requirement, "req_a")),
        edge(EdgeType::Produces, (NodeType::Resolution, "res_1"), (NodeType::Rule, "rule_2")),
        edge(EdgeType::Produces, (NodeType::Requirement, "req_a"), (NodeType::Rule, "rule_3")),
        edge(EdgeType::Produces, (NodeType::Resolution, "res_2"), (NodeType::Rule, "rule_1")),
    ];
    let resolutions = vec!["res_1".to_string(), "res_2".to_string()];
    let rules = vec![
        RuleRecord { id: "rule_1".to_string(), severity: "error".to_string() },
        RuleRecord { id: "rule_2".to_string(), severity: "error".to_string() },
        RuleRecord { id: "rule_3".to_string(), severity: "warning".to_string() },
    ];
    let query = DownstreamRuleQuery::new(&edges, &resolutions, &rules);
    let ids = |found: Vec<RuleRecord>| found.into_iter().map(|r| r.id).collect::<Vec<_>>();
    assert_eq!(ids(query.for_requirement("req_a")), vec!["rule_2".to_string(), "rule_3".to_string()]);
    assert_eq!(ids(query.for_resolution("res_2")), vec!["rule_1".to_string()]);
    assert!(query.for_requirement("req_b").is_empty());
}

fn scoped(scope: &str, e: Edge) -> ScopedEdge {
    ScopedEdge { id: format!("{}-{}", e.from_id, e.to_id), scope_id: scope.to_string(), edge: e }
}

fn traced_graph() -> GapGraph {
    GapGraph {
        scope: "default".to_string(),
        sources: vec![SourceEntry { id: "src_1".to_string(), superseded_by: None }],
        requirements: vec![RequirementEntry {
            id: "req_a".to_string(),
            resolved: true,
            domain_id: Some("dom".to_string()),
            source_refs: vec!["src_1".to_string()],
        }],
        resolutions: vec![ResolutionEntry { id: "res_1".to_string(), approved: true, superseded_by: None }],
        rules: vec![RuleRecord { id: "rule_1".to_string(), severity: "high".to_string() }],
        topics: vec![],
        questions: vec![],
        edges: vec![
            scoped("default", edge(EdgeType::Resolves, (NodeType::Resolution, "res_1"), (NodeType::Requirement, "req_a"))),
            scoped("default", edge(EdgeType::Produces, (NodeType::Resolution, "res_1"), (NodeType::Rule, "rule_1"))),
            scoped("default", edge(EdgeType::Produces, (NodeType::Requirement, "req_a"), (NodeType::Rule, "rule_1"))),
            scoped("other", edge(EdgeType::References, (NodeType::Source, "src_1"), (NodeType::Requirement, "req_a"))),
        ],
        threads: vec![],
    }
}

#[test]
fn scope_health_counts_the_scope_and_its_gaps() {
    let graph = traced_graph();
    let health = scope_health(&graph, 2);
    assert_eq!(health.requirements.total, 1);
    assert_eq!(health.source_linked_requirements, 0);
    assert_eq!(health.resolved_requirements, 1);
    assert_eq!(health.requirements_with_rules, 1);
    assert_eq!(health.rules.total, 1);
    assert_eq!(health.rules.with_complete_traceability, 0);
    assert_eq!(health.stale.total, 2);
    assert_eq!(health.gaps.total, 0);

    let mut unreferenced = graph.clone();
    unreferenced.requirements[0].source_refs.clear();
    assert_eq!(scope_health(&unreferenced, 0).gaps.total, 2);
}

fn seeded_graph_with_unsourced_chain() -> (GapGraph, Vec<RequirementRecord>, Vec<String>, Vec<Edge>) {
    let plain = vec![
        edge(EdgeType::References, (NodeType::Source, "source_schads"), (NodeType::Requirement, "req_schads_overtime")),
        edge(EdgeType::Resolves, (NodeType::Resolution, "res_schads_overtime"), (NodeType::Requirement, "req_schads_overtime")),
        edge(EdgeType::Produces, (NodeType::Requirement, "req_schads_overtime"), (NodeType::Rule, "rule_schads_pay_001")),
        edge(EdgeType::Produces, (NodeType::Resolution, "res_schads_overtime"), (NodeType::Rule, "rule_schads_pay_001")),
        edge(EdgeType::Resolves, (NodeType::Resolution, "res_unsourced"), (NodeType::Requirement, "req_unsourced")),
        edge(EdgeType::Produces, (NodeType::Requirement, "req_unsourced"), (NodeType::Rule, "rule_unsourced")),
        edge(EdgeType::Produces, (NodeType::Resolution, "res_unsourced"), (NodeType::Rule, "rule_unsourced")),
    ];
    let requirement = |id: &str, refs: Vec<String>| RequirementEntry {
        id: id.to_string(),
        resolved: true,
        domain_id: Some("domain".to_string()),
        source_refs: refs,
    };
    let resolution = |id: &str| ResolutionEntry { id: id.to_string(), approved: true, superseded_by: None };
    let rule = |id: &str| RuleRecord { id: id.to_string(), severity: "high".to_string() };
    let graph = GapGraph {
        scope: "default".to_string(),
        sources: vec![SourceEntry { id: "source_schads".to_string(), superseded_by: None }],
        requirements: vec![
            requirement("req_schads_overtime", vec!["source_schads".to_string()]),
            requirement("req_unsourced", vec![]),
        ],
        resolutions: vec![resolution("res_schads_overtime"), resolution("res_unsourced")],
        rules: vec![rule("rule_schads_pay_001"), rule("rule_unsourced")],
        topics: vec![],
        questions: vec![],
        edges: plain.iter().cloned().map(|e| scoped("default", e)).collect(),
        threads: vec![],
    };
    let requirements = vec![
        RequirementRecord { id: "req_schads_overtime".to_string(), resolved: true },
        RequirementRecord { id: "req_unsourced".to_string(), resolved: true },
    ];
    let rules = vec!["rule_schads_pay_001".to_string(), "rule_unsourced".to_string()];
    (graph, requirements, rules, plain)
}

#[test]
fn orphan_report_wants_a_source_behind_the_producing_requirement() {
    let (graph, requirements, rules, edges) = seeded_graph_with_unsourced_chain();
    let orphans = orphan_rules(&rules, &edges);
    let orphan_ids: Vec<&str> = orphans.iter().map(|orphan| orphan.rule_id.as_str()).collect();
    assert_eq!(orphan_ids, vec!["rule_unsourced"]);
    assert_eq!(orphans[0].missing, vec!["source".to_string()]);

    let gaps = compute_gaps(&graph);
    assert!(!gaps.iter().any(|gap| gap.kind == GapKind::OrphanRule && gap.node_id == "rule_unsourced"));
    assert_eq!(coverage_health(&requirements, &rules, &edges, 0, 0).rules.with_complete_traceability, 1);
    assert_eq!(scope_health(&graph, 0).rules.with_complete_traceability, 1);
}

#[test]
fn scope_health_at_a_time_counts_the_stale_resolutions_too() {
    let graph = traced_graph();
    let resolution = |id: &str, superseded: bool| ResolutionRecord {
        id: id.to_string(),
        approved: true,
        approved_at: Some(0),
        superseded,
        review_on: None,
    };
    let resolutions = vec![resolution("res_1", true), resolution("res_2", false)];
    let health = scope_health_at(&graph, &resolutions, 0);
    assert_eq!(health, scope_health(&graph, 1));
    assert_eq!(health.stale.total, 1);
    assert_eq!(health.gaps.total, 0);
    assert_eq!(scope_health_at(&graph, &[resolution("res_2", false)], 0).stale.total, 0);
}
