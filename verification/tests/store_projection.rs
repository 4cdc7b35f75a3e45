use provenance::store::graph_reference::projection::{
    project_graph, sort_records, validate_scope_ownership, GraphExport, ManifestReading, ProjectedRecord,
    ProjectionReading,
};
use provenance::store::graph_reference::GraphReferenceError;

fn record(id: &str, scope: &str, version: u32, body: &str) -> ProjectedRecord {
    ProjectedRecord {
        id: id.to_string(),
        scope_id: scope.to_string(),
        schema_version: version,
        body: body.as_bytes().to_vec(),
    }
}

fn empty_graph() -> GraphExport {
    GraphExport {
        schema_version: 1,
        scope: record("default", "default", 1, "{}"),
        sources: vec![],
        domains: vec![],
        requirements: vec![],
        boundaries: vec![],
        topics: vec![],
        questions: vec![],
        resolutions: vec![],
        rules: vec![],
        services: vec![],
        service_bindings: vec![],
        edges: vec![],
    }
}

#[test]
fn records_of_schema_version_one_pass() {
    let mut graph = empty_graph();
    graph.sources = vec![record("src_a", "default", 1, "{}")];
    graph.edges = vec![record("edge_a", "default", 1, "{}")];
    assert_eq!(graph.validate_schema_versions(), Ok(()));
    assert_eq!(validate_scope_ownership(&graph, "default"), Ok(()));
}

#[test]
fn the_first_record_of_another_schema_version_is_named() {
    let mut graph = empty_graph();
    graph.topics = vec![record("topic_a", "default", 1, "{}"), record("topic_b", "default", 2, "{}")];
    graph.edges = vec![record("edge_a", "default", 3, "{}")];
    assert_eq!(
        graph.validate_schema_versions(),
        Err(GraphReferenceError::Incomplete {
            detail: "topic 'topic_b' has unsupported schema_version 2; expected 1".to_string()
        })
    );
    graph.topics.clear();
    graph.service_bindings = vec![record("binding_a", "default", 7, "{}")];
    assert_eq!(
        graph.validate_schema_versions(),
        Err(GraphReferenceError::Incomplete {
            detail: "service binding 'binding_a' has unsupported schema_version 7; expected 1".to_string()
        })
    );
}

#[test]
fn a_record_of_another_scope_is_named() {
    let mut graph = empty_graph();
    graph.requirements = vec![record("req_a", "other", 1, "{}")];
    assert_eq!(
        validate_scope_ownership(&graph, "default"),
        Err(GraphReferenceError::Incomplete {
            detail: "requirement 'req_a' belongs to scope 'other', not 'default'".to_string()
        })
    );
}

#[test]
fn records_are_sorted_by_id_and_ties_keep_their_order() {
    let mut graph = empty_graph();
    graph.rules = vec![
        record("rule_b", "default", 1, "first b"),
        record("rule_a", "default", 1, "first a"),
        record("rule_c", "default", 1, "c"),
        record("rule_a", "default", 1, "second a"),
        record("Rule_z", "default", 1, "upper"),
    ];
    sort_records(&mut graph);
    let order: Vec<(&str, &str)> = graph
        .rules
        .iter()
        .map(|r| (r.id.as_str(), std::str::from_utf8(&r.body).unwrap()))
        .collect();
    assert_eq!(
        order,
        vec![
            ("Rule_z", "upper"),
            ("rule_a", "first a"),
            ("rule_a", "second a"),
            ("rule_b", "first b"),
            ("rule_c", "c"),
        ]
    );
}

fn reading() -> ProjectionReading {
    ProjectionReading {
        scope_check: Ok(()),
        manifest: Ok(ManifestReading {
            schema_version: 1,
            scopes: vec![record("other", "other", 1, "other scope"), record("default", "default", 1, "default scope")],
        }),
        sources: Ok(vec![record("src_b", "default", 1, "b"), record("src_a", "default", 1, "a")]),
        domains: Ok(vec![]),
        requirements: Ok(vec![record("req_a", "default", 1, "{}")]),
        boundaries: Ok(vec![]),
        topics: Ok(vec![]),
        questions: Ok(vec![]),
        resolutions: Ok(vec![]),
        rules: Ok(vec![]),
        services: Ok(vec![]),
        service_bindings: Ok(vec![]),
        edges: Ok(vec![
            record("edge_z", "default", 1, "{}"),
            record("edge_other", "other", 1, "{}"),
            record("edge_a", "default", 1, "{}"),
        ]),
    }
}

fn ids(records: &[ProjectedRecord]) -> Vec<&str> {
    records.iter().map(|r| r.id.as_str()).collect()
}

#[test]
fn a_projection_keeps_the_scope_edges_sorted_by_id() {
    let graph = project_graph("default", reading()).unwrap();
    assert_eq!(graph.scope.body, b"default scope".to_vec());
    assert_eq!(ids(&graph.sources), vec!["src_a", "src_b"]);
    assert_eq!(ids(&graph.edges), vec!["edge_a", "edge_z"]);
    assert_eq!(ids(&graph.requirements), vec!["req_a"]);
}

#[test]
fn projection_failures_name_the_first_step_that_failed() {
    let mut r = reading();
    r.manifest = Ok(ManifestReading { schema_version: 2, scopes: vec![] });
    assert_eq!(
        project_graph("default", r),
        Err(GraphReferenceError::Incomplete { detail: "unsupported manifest schema_version 2".to_string() })
    );
    assert_eq!(
        project_graph("payroll", reading()),
        Err(GraphReferenceError::Missing { detail: "scope 'payroll' is absent from the pinned manifest".to_string() })
    );
    let mut r = reading();
    r.topics = Err("topics shard is unreadable".to_string());
    assert_eq!(
        project_graph("default", r),
        Err(GraphReferenceError::Incomplete { detail: "topics shard is unreadable".to_string() })
    );
    let mut r = reading();
    r.requirements = Ok(vec![record("req_a", "other", 1, "{}")]);
    assert_eq!(
        project_graph("default", r),
        Err(GraphReferenceError::Incomplete {
            detail: "requirement 'req_a' belongs to scope 'other', not 'default'".to_string()
        })
    );
    let mut r = reading();
    r.scope_check = Err("scope id must not be empty".to_string());
    assert_eq!(
        project_graph("default", r),
        Err(GraphReferenceError::Incomplete { detail: "scope id must not be empty".to_string() })
    );
}
