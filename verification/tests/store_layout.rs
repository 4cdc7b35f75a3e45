use provenance::store::layout::{
    edges_path, locate_repo_root, requirements_path, service_bindings_path, ProvenanceLayout, RootCandidate,
};

#[test]
fn the_cache_database_sits_under_the_provenance_directory() {
    let layout = ProvenanceLayout::new("/tmp/repo".to_string());
    assert_eq!(layout.cache_db_path().as_str(), "/tmp/repo/.provenance/cache/provenance.db");
    assert_eq!(layout.state_dir(), "/tmp/repo/.provenance/state");
}

#[test]
fn shard_paths_sit_under_their_scope() {
    let layout = ProvenanceLayout::new("/tmp/repo".to_string());
    assert_eq!(
        requirements_path(&layout, "default"),
        "/tmp/repo/.provenance/state/scopes/default/requirements/req.jsonl"
    );
    assert_eq!(
        service_bindings_path(&layout, "payroll"),
        "/tmp/repo/.provenance/state/scopes/payroll/services/service_binding.jsonl"
    );
    assert_eq!(edges_path(&layout), "/tmp/repo/.provenance/state/edges/edges-00.jsonl");
    assert_eq!(layout.scopes_dir(), "/tmp/repo/.provenance/state/scopes");
}

fn candidate(path: &str, has_git: bool, has_manifest: bool) -> RootCandidate {
    RootCandidate { path: path.to_string(), has_git, has_manifest }
}

#[test]
fn the_nearest_marked_directory_is_the_root() {
    let candidates = vec![
        candidate("/repo/crates/core", false, false),
        candidate("/repo/crates", false, true),
        candidate("/repo", true, false),
    ];
    assert_eq!(locate_repo_root("/repo/crates/core", &candidates), Ok("/repo/crates".to_string()));
    assert_eq!(
        locate_repo_root("/elsewhere", &[candidate("/elsewhere", false, false)]),
        Err("could not locate repository root from /elsewhere".to_string())
    );
}
