use provenance::scanner::parser::{CoverageLevel, Verification};
use provenance::scanner::walker::{scan_file, AttributeBinding};
use provenance::scanner::{skips_directory, Language};

#[test]
fn scans_rust_annotation_with_location() {
    let scan = scan_file(
        "payroll.rs",
        Language::Rust,
        "// @provenance rule: SCHADS-PAY-001\nfn pays_overtime() {}",
    );

    assert_eq!(scan.annotations[0].line, 1);
    assert_eq!(
        scan.annotations[0].function_name.as_deref(),
        Some("pays_overtime")
    );
}

#[test]
fn scans_rule_attribute_with_item_name() {
    let scan = scan_file(
        "edge_validation.rs",
        Language::Rust,
        "#[rule(\"rule_prov_edge_endpoint_table\")]\npub fn validate_edge_endpoint() {}",
    );

    assert_eq!(
        scan.bindings,
        vec![AttributeBinding {
            file_path: "edge_validation.rs".to_string(),
            line: 1,
            item_name: Some("validate_edge_endpoint".to_string()),
            rule_id: "rule_prov_edge_endpoint_table".to_string(),
            verification: None,
        }]
    );
}

#[test]
fn scans_verifies_attribute_past_test_attribute() {
    let scan = scan_file(
        "edge_validation.rs",
        Language::Rust,
        "#[test]\n#[verifies(\"rule_prov_edge_endpoint_table\", exhaustion)]\nfn endpoint_table_conforms_to_rule_leaf() {}",
    );

    assert_eq!(scan.bindings.len(), 1);
    assert_eq!(
        scan.bindings[0].verification,
        Some(Verification::Exhaustion)
    );
    assert_eq!(
        scan.bindings[0].item_name.as_deref(),
        Some("endpoint_table_conforms_to_rule_leaf")
    );
}

#[test]
fn scans_construction_verifies_attribute_on_a_type() {
    let scan = scan_file(
        "tokens.rs",
        Language::Rust,
        "#[verifies(\"rule_redacted_display\", construction)]\npub struct RedactedToken(String);",
    );

    assert_eq!(
        scan.bindings[0].verification,
        Some(Verification::Construction)
    );
    assert_eq!(scan.bindings[0].item_name.as_deref(), Some("RedactedToken"));
}

#[test]
fn scans_legacy_statesman_annotation_with_location() {
    let scan = scan_file(
        "payroll.rs",
        Language::Rust,
        "// @statesman rule: SCHADS-PAY-001\nfn pays_overtime() {}",
    );

    assert_eq!(scan.annotations.len(), 1);
    assert_eq!(scan.annotations[0].line, 1);
}

#[test]
fn scans_python_decorator_annotation_on_decorated_function() {
    let scan = scan_file(
        "payroll.py",
        Language::Python,
        r"# @provenance coverage: partial
# @provenance rule: SCHADS-PAY-001
@cached
def pays_overtime():
    pass
",
    );

    assert_eq!(scan.annotations.len(), 1);
    assert_eq!(
        scan.annotations[0].annotation.coverage,
        CoverageLevel::Partial
    );
    assert_eq!(
        scan.annotations[0].function_name.as_deref(),
        Some("pays_overtime")
    );
}

#[test]
fn scans_go_receiver_method_after_block_comment() {
    let scan = scan_file(
        "payroll.go",
        Language::Go,
        r"/*
 * @provenance rule: SCHADS-PAY-002
 */
func (s *Service) PaysOvertime() bool { return true }
",
    );

    assert_eq!(scan.annotations.len(), 1);
    assert_eq!(
        scan.annotations[0].function_name.as_deref(),
        Some("PaysOvertime")
    );
}

#[test]
fn reports_malformed_directive_location() {
    let scan = scan_file(
        "payroll.rs",
        Language::Rust,
        "// @provenance rule SCHADS-PAY-001\nfn pays_overtime() {}\n",
    );

    assert_eq!(scan.annotations.len(), 0);
    assert_eq!(scan.warnings[0].line, 1);
    assert!(scan.warnings[0].message.contains("malformed directive"));
}

#[test]
fn attributes_are_read_in_rust_files_only() {
    let scan = scan_file(
        "rules.py",
        Language::Python,
        "#[rule(\"rule_x\")]\ndef f(): pass",
    );
    assert!(scan.bindings.is_empty());
    let scan = scan_file("rules.rs", Language::Rust, "  #[rule(\"\")]\nfn f() {}");
    assert!(scan.bindings.is_empty());
}

#[test]
fn a_script_function_keyword_names_the_function() {
    let scan = scan_file(
        "pay.ts",
        Language::TypeScript,
        "// @provenance rule: R-1\nfunction paysOvertime(hours) {}",
    );
    assert_eq!(
        scan.annotations[0].function_name.as_deref(),
        Some("paysOvertime")
    );
    assert_eq!(scan.file_path, "pay.ts");
    assert_eq!(scan.language, Language::TypeScript);
}

#[test]
fn dependency_build_and_metadata_directories_are_skipped_below_the_root() {
    assert!(skips_directory("node_modules", 1));
    assert!(skips_directory("target", 3));
    assert!(skips_directory(".git", 1));
    assert!(!skips_directory("node_modules", 0));
    assert!(!skips_directory("target", 0));
    assert!(!skips_directory("node_modules_cache", 1));
    assert!(!skips_directory("targeting", 1));
    assert!(!skips_directory(".github", 1));
    assert!(!skips_directory("src", 2));
}
