use provenance::store::merge::records::{merge_records, Record};
use provenance::store::merge::MergeConflictKind;

fn record(id: &str, statement: &str) -> Record {
    let content = format!("{{\"id\":\"{id}\",\"statement\":\"{statement}\"}}").into_bytes();
    Record { id: id.to_string(), key: content.clone(), content }
}

fn ids(records: &[Record]) -> Vec<&str> {
    records.iter().map(|record| record.id.as_str()).collect()
}

#[test]
fn merge_keeps_one_sided_additions_and_sorts_by_stable_key() {
    let merged = merge_records(&[], &[record("rule_b", "b")], &[record("rule_a", "a")])
        .unwrap()
        .unwrap_clean();

    assert_eq!(ids(&merged), vec!["rule_a", "rule_b"]);
}

#[test]
fn merge_collapses_identical_edits() {
    let base = [record("rule_a", "old")];
    let ours = [record("rule_a", "new")];
    let theirs = [record("rule_a", "new")];

    let merged = merge_records(&base, &ours, &theirs).unwrap().unwrap_clean();

    assert_eq!(merged, vec![record("rule_a", "new")]);
}

#[test]
fn merge_reports_divergent_edits() {
    let base = [record("rule_a", "old")];
    let ours = [record("rule_a", "ours")];
    let theirs = [record("rule_a", "theirs")];

    let conflicts = merge_records(&base, &ours, &theirs)
        .unwrap()
        .unwrap_conflicts();

    assert_eq!(conflicts[0].kind, MergeConflictKind::DivergentEdit);
    assert_eq!(conflicts[0].record_id, "rule_a");
}

#[test]
fn merge_reports_delete_modify_conflict() {
    let base = [record("rule_a", "old")];
    let theirs = [record("rule_a", "new")];

    let conflicts = merge_records(&base, &[], &theirs)
        .unwrap()
        .unwrap_conflicts();

    assert_eq!(conflicts[0].kind, MergeConflictKind::DeleteModify);
    assert_eq!(conflicts[0].record_id, "rule_a");
}

#[test]
fn one_sided_changes_and_deletions_win_over_the_base() {
    let base = [record("a", "1"), record("b", "1"), record("c", "1")];
    let ours = [record("a", "2"), record("b", "1"), record("c", "1")];
    let theirs = [record("a", "1"), record("c", "1")];
    let merged = merge_records(&base, &ours, &theirs).unwrap().unwrap_clean();
    assert_eq!(merged, vec![record("a", "2"), record("c", "1")]);
}

#[test]
fn a_side_with_a_repeated_id_is_refused() {
    let ours = [record("a", "1"), record("b", "1"), record("a", "2")];
    assert_eq!(
        merge_records(&[], &ours, &[]).unwrap_err(),
        "duplicate record id a"
    );
}

#[test]
fn an_untouched_side_gives_way_to_the_other_in_either_position() {
    let base = [record("rule_b", "b"), record("rule_a", "a")];
    let changed = [record("rule_c", "c"), record("rule_a", "a2")];
    let sorted = vec![record("rule_a", "a2"), record("rule_c", "c")];
    assert_eq!(merge_records(&base, &base, &changed).unwrap().unwrap_clean(), sorted);
    assert_eq!(merge_records(&base, &changed, &base).unwrap().unwrap_clean(), sorted);
    assert_eq!(merge_records(&base, &changed, &changed).unwrap().unwrap_clean(), sorted);
}

#[test]
fn swapping_the_sides_changes_neither_a_clean_result_nor_the_conflicting_ids() {
    let base = [record("rule_a", "a"), record("rule_b", "b")];
    let ours = [record("rule_a", "ours"), record("rule_c", "c")];
    let theirs = [record("rule_a", "a"), record("rule_b", "b"), record("rule_d", "d")];
    assert_eq!(
        merge_records(&base, &ours, &theirs).unwrap().unwrap_clean(),
        merge_records(&base, &theirs, &ours).unwrap().unwrap_clean()
    );
    let theirs_edit = [record("rule_a", "theirs"), record("rule_b", "b")];
    let left = merge_records(&base, &ours, &theirs_edit).unwrap().unwrap_conflicts();
    let right = merge_records(&base, &theirs_edit, &ours).unwrap().unwrap_conflicts();
    let conflict_ids = |cs: &[provenance::store::merge::records::MergeConflict]| {
        cs.iter().map(|c| c.record_id.clone()).collect::<Vec<_>>()
    };
    assert_eq!(conflict_ids(&left), conflict_ids(&right));
    assert_eq!(conflict_ids(&left), vec!["rule_a".to_string()]);
}

#[test]
fn records_with_equal_comparison_keys_count_as_unchanged() {
    let zero = b"{\"id\":\"a\",\"x\":0.0}".to_vec();
    let base = [Record { id: "a".to_string(), content: zero.clone(), key: zero.clone() }];
    let ours = [Record { id: "a".to_string(), content: b"{\"id\":\"a\",\"x\":-0.0}".to_vec(), key: zero.clone() }];
    let one = b"{\"id\":\"a\",\"x\":1.0}".to_vec();
    let theirs = [Record { id: "a".to_string(), content: one.clone(), key: one.clone() }];
    let merged = merge_records(&base, &ours, &theirs).unwrap().unwrap_clean();
    assert_eq!(merged, theirs.to_vec());
    let deleted = merge_records(&base, &ours, &[]).unwrap().unwrap_clean();
    assert!(deleted.is_empty());
}
