use provenance::store::cache::materialize::{
    check_materialization, validate_edge_scopes, validate_scope_ownership, ScopeRecords,
};

fn named(scope: &str, n: usize) -> Vec<String> {
    vec![scope.to_string(); n]
}

fn scope(id: &str) -> ScopeRecords {
    ScopeRecords {
        scope_id: id.to_string(),
        sources: named(id, 1),
        domains: named(id, 1),
        requirements: named(id, 2),
        boundaries: Vec::new(),
        topics: named(id, 1),
        questions: Vec::new(),
        resolutions: named(id, 1),
        rules: named(id, 3),
        services: Vec::new(),
        service_bindings: Vec::new(),
        threads: named(id, 1),
        messages: named(id, 2),
        contributions: 1,
        synthesis_packets: 0,
        proposal_cards: 2,
        promotion_decisions: 1,
    }
}

#[test]
fn every_record_and_edge_is_counted() {
    let manifest = vec!["default".to_string(), "payroll".to_string()];
    let edges = vec!["default".to_string(), "payroll".to_string(), "payroll".to_string()];
    let scopes = vec![scope("default"), scope("payroll")];
    assert_eq!(check_materialization(&manifest, &edges, &scopes), Ok(2 * 16 + 3));
    assert_eq!(check_materialization(&manifest, &[], &[]), Ok(0));
}

#[test]
fn an_edge_outside_the_manifest_stops_the_rebuild() {
    let manifest = vec!["default".to_string()];
    let edges = vec!["default".to_string(), "elsewhere".to_string()];
    assert_eq!(
        validate_edge_scopes(&manifest, &edges),
        Err("edge scope_id must name a manifest scope".to_string())
    );
    assert_eq!(
        check_materialization(&manifest, &edges, &[scope("default")]),
        Err("edge scope_id must name a manifest scope".to_string())
    );
}

#[test]
fn a_record_of_another_scope_is_named_by_its_family() {
    let mut records = scope("default");
    assert_eq!(validate_scope_ownership(&records), Ok(()));
    records.service_bindings = vec!["payroll".to_string()];
    records.messages = vec!["payroll".to_string()];
    assert_eq!(
        validate_scope_ownership(&records),
        Err("service binding scope_id must match containing scope".to_string())
    );
    let manifest = vec!["default".to_string(), "payroll".to_string()];
    assert_eq!(
        check_materialization(&manifest, &[], &[scope("payroll"), records]),
        Err("service binding scope_id must match containing scope".to_string())
    );
}
