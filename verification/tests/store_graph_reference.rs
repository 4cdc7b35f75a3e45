use provenance::store::cache::graph::NodeType;
use provenance::store::graph_reference::projection::{GraphExport, ProjectedRecord};
use provenance::store::graph_reference::{
    digest, reference_identity, validate_correlation, validate_prefixed_hash, CommitReading,
    ExactExport, ExternalCorrelation, GraphCounts, GraphReference, GraphReferenceError,
    GraphReferences, IssueReading, ProjectedGraph, STORE_PATH,
};

fn record(id: &str, scope: &str, version: u32) -> ProjectedRecord {
    ProjectedRecord {
        id: id.to_string(),
        scope_id: scope.to_string(),
        schema_version: version,
        body: b"{}".to_vec(),
    }
}

fn records(kind: &str, n: usize) -> Vec<ProjectedRecord> {
    (0..n).map(|i| record(&format!("{kind}_{i}"), "payroll", 1)).collect()
}

fn export() -> GraphExport {
    GraphExport {
        schema_version: 1,
        scope: record("payroll", "payroll", 1),
        sources: records("source", 1),
        domains: records("domain", 2),
        requirements: records("requirement", 3),
        boundaries: records("boundary", 4),
        topics: records("topic", 5),
        questions: records("question", 6),
        resolutions: records("resolution", 7),
        rules: records("rule", 8),
        services: records("service", 9),
        service_bindings: records("binding", 10),
        edges: records("edge", 11),
    }
}

fn counts() -> GraphCounts {
    GraphCounts {
        sources: 1,
        domains: 2,
        requirements: 3,
        boundaries: 4,
        topics: 5,
        questions: 6,
        resolutions: 7,
        rules: 8,
        services: 9,
        service_bindings: 10,
        edges: 11,
    }
}

const COMMIT: &str = "0123456789abcdef0123456789abcdef01234567";

fn repo_id() -> String {
    format!("git1_{}", "a".repeat(64))
}

fn reading(graph: &[u8]) -> IssueReading {
    IssueReading {
        commit: Ok(COMMIT.to_string()),
        committed: Ok(graph.to_vec()),
        index: Ok(graph.to_vec()),
        worktree: Ok(graph.to_vec()),
        repository_id: Ok(repo_id()),
    }
}

#[test]
fn digests_are_lowercase_sha256_hex() {
    assert_eq!(
        digest(b""),
        "sha256:e3b0c44298fc1c149afbf4c8996fb92427ae41e4649b934ca495991b7852b855"
    );
    assert_eq!(
        digest(b"abc"),
        "sha256:ba7816bf8f01cfea414140de5dae2223b00361a396177a9cb410ff61f20015ad"
    );
}

#[test]
fn reference_identity_hashes_the_framed_parts() {
    let id = reference_identity("git1_x", STORE_PATH, "scope", COMMIT, "sha256:y");
    assert!(id.starts_with("grf1_"));
    assert_eq!(id.len(), 5 + 64);
    assert_ne!(id, reference_identity("git1_x", STORE_PATH, "scope2", COMMIT, "sha256:y"));
    assert_eq!(id, reference_identity("git1_x", STORE_PATH, "scope", COMMIT, "sha256:y"));
}

#[test]
fn issued_references_verify_and_show() {
    let refs = GraphReferences::for_repository("/repo".to_string());
    let graph = b"{\"schema_version\":1}";
    let reference = refs
        .issue("payroll", None, None, reading(graph))
        .expect("clean state issues a reference");
    assert_eq!(reference.schema_version, 1);
    assert_eq!(reference.commit, COMMIT);
    assert_eq!(reference.store_path, STORE_PATH);
    assert_eq!(reference.graph_digest, digest(graph));
    assert_eq!(
        reference.reference_id,
        reference_identity(&repo_id(), STORE_PATH, "payroll", COMMIT, &digest(graph))
    );
    let checked = reference.clone().validated(Ok(()));
    assert_eq!(checked, Ok(reference.clone()));

    let commit_reading = || CommitReading {
        commit: Ok(COMMIT.to_string()),
        repository_id: Ok(repo_id()),
        graph: Ok(ProjectedGraph { canonical: graph.to_vec(), graph: export() }),
    };
    let verification = refs.verify(&reference, commit_reading()).unwrap();
    assert!(verification.valid);
    assert_eq!(verification.operation, "verify");
    assert_eq!(verification.reference_id, reference.reference_id);
    let summary = refs.show(&reference, commit_reading()).unwrap();
    assert_eq!(summary.operation, "show");
    assert_eq!(summary.counts, counts());
    assert_eq!(summary.reference, reference);
    let exported = refs.exact_export(&reference, commit_reading()).unwrap();
    assert_eq!(exported.operation, "exact-export");
    assert_eq!(exported.reference_id, reference.reference_id);
    assert_eq!(exported.graph, export());

    let changed = CommitReading {
        commit: Ok(COMMIT.to_string()),
        repository_id: Ok(repo_id()),
        graph: Ok(ProjectedGraph { canonical: b"{}".to_vec(), graph: export() }),
    };
    assert_eq!(
        refs.verify(&reference, changed),
        Err(GraphReferenceError::Mismatched {
            field: "graph_digest",
            expected: digest(graph),
            actual: digest(b"{}"),
        })
    );
}

#[test]
fn an_implicit_head_needs_a_clean_scope() {
    let refs = GraphReferences::for_repository("/repo".to_string());
    let mut dirty = reading(b"one");
    dirty.worktree = Ok(b"two".to_vec());
    assert_eq!(
        refs.issue("payroll", None, None, dirty),
        Err(GraphReferenceError::Incomplete {
            detail: "implicit HEAD requires clean canonical state for scope 'payroll'; commit graph changes first".to_string(),
        })
    );
    let mut explicit = reading(b"one");
    explicit.worktree = Ok(b"two".to_vec());
    assert!(refs.issue("payroll", Some("HEAD~1"), None, explicit).is_ok());
}

#[test]
fn blank_correlations_are_refused_first() {
    let refs = GraphReferences::for_repository("/repo".to_string());
    let blank = ExternalCorrelation { system: " \t".to_string(), key: "k".to_string() };
    assert!(validate_correlation(&blank).is_err());
    let mut failing = reading(b"g");
    failing.commit = Err(GraphReferenceError::Missing { detail: "no HEAD".to_string() });
    assert_eq!(
        refs.issue("s", None, Some(blank), failing),
        Err(GraphReferenceError::Incomplete {
            detail: "external correlation system and key must not be empty".to_string(),
        })
    );
    let ok = ExternalCorrelation { system: "jira".to_string(), key: "PAY-1".to_string() };
    assert_eq!(validate_correlation(&ok), Ok(()));
}

#[test]
fn malformed_references_are_incomplete() {
    assert_eq!(
        validate_prefixed_hash("reference_id", "grf2_00", "grf1_", 64),
        Err(GraphReferenceError::Incomplete {
            detail: "reference_id must start with 'grf1_'".to_string(),
        })
    );
    assert_eq!(
        validate_prefixed_hash("graph_digest", "sha256:ABC", "sha256:", 64),
        Err(GraphReferenceError::Incomplete {
            detail: "graph_digest must contain 64 hexadecimal characters".to_string(),
        })
    );
    let reference = GraphReference {
        schema_version: 2,
        reference_id: String::new(),
        repository_id: String::new(),
        store_path: String::new(),
        scope_id: String::new(),
        commit: String::new(),
        graph_digest: String::new(),
        correlation: None,
    };
    assert_eq!(
        reference.validated(Ok(())),
        Err(GraphReferenceError::Incomplete {
            detail: "unsupported schema_version 2; expected 1".to_string(),
        })
    );
    let _ = NodeType::Rule;
}

#[test]
fn error_messages_read_like_their_variants() {
    let e = GraphReferenceError::Mismatched {
        field: "commit",
        expected: "a".to_string(),
        actual: "b".to_string(),
    };
    assert_eq!(e.message(), "mismatched graph reference commit: expected a, actual b");
    let e = GraphReferenceError::Missing { detail: "x".to_string() };
    assert_eq!(e.message(), "missing graph reference data: x");
}

#[test]
fn counts_are_the_sizes_of_the_families() {
    assert_eq!(GraphCounts::of(&export()), counts());
}

fn reference_id() -> String {
    format!("grf1_{}", "b".repeat(64))
}

#[test]
fn an_exact_export_document_is_checked_before_use() {
    let accepted = ExactExport::validated(1, "exact-export".to_string(), reference_id(), export()).unwrap();
    assert_eq!(accepted.schema_version, 1);
    assert_eq!(accepted.graph, export());
    assert_eq!(
        ExactExport::validated(1, "verify".to_string(), reference_id(), export()).err(),
        Some(GraphReferenceError::Incomplete {
            detail: "exact export must use schema_version 1 and operation 'exact-export'".to_string()
        })
    );
    assert_eq!(
        ExactExport::validated(1, "exact-export".to_string(), "grf1_xyz".to_string(), export()).err(),
        Some(GraphReferenceError::Incomplete {
            detail: "reference_id must contain 64 hexadecimal characters".to_string()
        })
    );
    let mut old = export();
    old.schema_version = 2;
    assert_eq!(
        ExactExport::validated(1, "exact-export".to_string(), reference_id(), old).err(),
        Some(GraphReferenceError::Incomplete { detail: "graph schema_version must be 1".to_string() })
    );
    let mut foreign = export();
    foreign.rules[3].scope_id = "other".to_string();
    assert_eq!(
        ExactExport::validated(1, "exact-export".to_string(), reference_id(), foreign).err(),
        Some(GraphReferenceError::Incomplete {
            detail: "rule 'rule_3' belongs to scope 'other', not 'payroll'".to_string()
        })
    );
}
