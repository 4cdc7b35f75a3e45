use provenance::store::merge::ShardFamily;

#[test]
fn the_edges_shard_is_recognized_by_its_directories() {
    assert_eq!(
        ShardFamily::for_shard_path(".provenance/state/edges/scope.jsonl"),
        ShardFamily::Edges
    );
    assert_eq!(
        ShardFamily::for_shard_path("/tmp/fixture/state/edges/x.jsonl"),
        ShardFamily::Edges
    );
    assert_eq!(
        ShardFamily::for_shard_path(".provenance/state/rules/scope.jsonl"),
        ShardFamily::Unrecognized
    );
    assert_eq!(ShardFamily::for_shard_path("edges.jsonl"), ShardFamily::Unrecognized);
    assert_eq!(
        ShardFamily::from_directory_names(Some("edges"), Some("state")),
        ShardFamily::Edges
    );
    assert_eq!(
        ShardFamily::from_directory_names(Some("edges"), None),
        ShardFamily::Unrecognized
    );
}

#[test]
fn recognizes_the_edges_shard_by_its_directory() {
    assert_eq!(ShardFamily::for_shard_path(".provenance/state/edges/edges-00.jsonl"), ShardFamily::Edges);
    assert_eq!(ShardFamily::for_shard_path("/repo/.provenance/state/edges/edges-01.jsonl"), ShardFamily::Edges);
}
