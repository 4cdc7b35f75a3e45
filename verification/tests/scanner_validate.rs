use provenance::scanner::validate::{validate_annotations, validate_bindings};
use provenance::scanner::walker::scan_file;
use provenance::scanner::Language;

#[test]
fn binding_validation_warns_for_dangling_verifies_and_duplicate_rule() {
    let scan = scan_file(
        "rules.rs",
        Language::Rust,
        "#[verifies(\"rule_orphaned\", examples)]\nfn checks_nothing() {}\n\
         #[rule(\"rule_twice\")]\nfn first() {}\n#[rule(\"rule_twice\")]\nfn second() {}",
    );

    let warnings = validate_bindings(
        &[scan],
        vec!["rule_orphaned".to_string(), "rule_twice".to_string()],
    );

    let messages = warnings
        .iter()
        .map(|w| w.message.as_str())
        .collect::<Vec<_>>();
    assert!(messages
        .iter()
        .any(|m| m.contains("no #[rule] function to verify")));
    assert!(messages
        .iter()
        .any(|m| m.contains("a rule is one function")));
}

#[test]
fn coverage_validation_warns_for_unknown_rule_code_with_location() {
    let scan = scan_file(
        "unknown_rule.rs",
        Language::Rust,
        "// heading\n// @provenance rule: UNKNOWN-RULE\nfn test_rule() {}",
    );

    let warnings = validate_annotations(&[scan], vec!["SCHADS-PAY-001".to_string()]);

    assert_eq!(warnings[0].rule_code, "UNKNOWN-RULE");
    assert_eq!(warnings[0].file_path, "unknown_rule.rs");
    assert_eq!(warnings[0].line, 2);
}

#[test]
fn binding_warnings_name_each_problem_exactly() {
    let scan = scan_file(
        "rules.rs",
        Language::Rust,
        "#[rule(\"rule_a\")]\nfn a() {}\n#[verifies(\"rule_a\", property)]\nfn checks_a() {}\n#[rule(\"rule_b\")]\nfn b() {}",
    );
    let warnings = validate_bindings(&[scan], vec!["rule_a".to_string()]);
    assert_eq!(warnings.len(), 1);
    assert_eq!(warnings[0].message, "unknown rule id `rule_b`");
    assert_eq!(warnings[0].line, 5);
}
