use provenance::store::migrations::{migration_ids, pending_migrations, sql_statements};

#[test]
fn migrations_are_listed_in_order() {
    let ids = migration_ids();
    assert_eq!(ids.len(), 13);
    assert_eq!(ids[0], "001");
    assert_eq!(ids[12], "013");
    let mut sorted = ids.clone();
    sorted.sort();
    assert_eq!(sorted, ids);
}

#[test]
fn a_fresh_cache_needs_every_migration_and_a_current_one_none() {
    assert_eq!(pending_migrations(&[]), migration_ids());
    assert!(pending_migrations(&migration_ids()).is_empty());
}

#[test]
fn only_the_migrations_not_recorded_are_pending() {
    let applied = vec!["001".to_string(), "003".to_string(), "999".to_string()];
    let pending = pending_migrations(&applied);
    assert_eq!(pending.len(), 11);
    assert_eq!(pending[0], "002");
    assert_eq!(pending[1], "004");
    assert!(!pending.contains(&"001".to_string()));
}

#[test]
fn a_script_splits_into_trimmed_statements() {
    let sql = "CREATE TABLE a (id TEXT);\n\n  CREATE INDEX a_id ON a (id) ;\n;  ";
    assert_eq!(
        sql_statements(sql),
        vec!["CREATE TABLE a (id TEXT)".to_string(), "CREATE INDEX a_id ON a (id)".to_string()]
    );
    assert!(sql_statements("  ;\n; ").is_empty());
}
