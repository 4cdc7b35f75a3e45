use provenance::scanner::parser::{parse_annotations, CoverageLevel};

#[test]
fn parses_shared_fields_across_multiple_provenance_rules() {
    let parsed = parse_annotations(
        r"
            @provenance name: Payroll thresholds
            @provenance coverage: full
            @provenance rule: SCHADS-PAY-001
            @provenance rule: SCHADS-PAY-002
            ",
    );

    assert_eq!(parsed.annotations.len(), 2);
    assert_eq!(
        parsed.annotations[0].name.as_deref(),
        Some("Payroll thresholds")
    );
    assert_eq!(parsed.annotations[1].coverage, CoverageLevel::Full);
}

#[test]
fn parses_statesman_marker_as_legacy_alias() {
    let parsed = parse_annotations("@statesman rule: SCHADS-PAY-001");

    assert_eq!(parsed.annotations.len(), 1);
    assert_eq!(parsed.annotations[0].rule, "SCHADS-PAY-001");
}

#[test]
fn later_fields_set_the_latest_annotation_only() {
    let parsed = parse_annotations(
        "// @provenance rule: A\n// @provenance tags: one, , two ,\n// @provenance rule: B\n// @provenance coverage: PARTIAL",
    );
    assert_eq!(parsed.annotations.len(), 2);
    assert_eq!(parsed.annotations[0].tags, vec!["one".to_string(), "two".to_string()]);
    assert_eq!(parsed.annotations[0].coverage, CoverageLevel::Full);
    assert!(parsed.annotations[1].tags.is_empty());
    assert_eq!(parsed.annotations[1].coverage, CoverageLevel::Partial);
    assert!(parsed.warnings.is_empty());
}

#[test]
fn each_problem_gives_its_warning_on_its_line() {
    let parsed = parse_annotations(
        "@provenance rule SCHADS\n@provenance name:\n@provenance coverage: most\n@provenance confidence: high\n@provenance color: red",
    );
    let warnings: Vec<(usize, &str)> = parsed
        .warnings
        .iter()
        .map(|w| (w.line, w.message.as_str()))
        .collect();
    assert_eq!(
        warnings,
        vec![
            (1, "malformed directive: expected `key: value` after @provenance"),
            (2, "empty value for field `name`"),
            (3, "invalid coverage level `most`, using default"),
            (4, "invalid confidence `high`, using default"),
            (5, "unknown field `color`"),
            (0, "found @provenance directives but no rule annotations"),
        ]
    );
}

#[test]
fn an_accepted_confidence_keeps_its_text() {
    let parsed = parse_annotations("@provenance confidence: 0.75\n@provenance rule: R");
    assert_eq!(parsed.annotations[0].confidence.as_deref(), Some("0.75"));
    let default = parse_annotations("@provenance rule: R");
    assert_eq!(default.annotations[0].confidence, None);
}

#[test]
fn comment_text_without_markers_gives_nothing() {
    let parsed = parse_annotations("// just a comment\n/* nothing here */");
    assert!(parsed.annotations.is_empty());
    assert!(parsed.warnings.is_empty());
}

#[test]
fn coverage_level_names_round_trip() {
    for level in [CoverageLevel::Full, CoverageLevel::Partial, CoverageLevel::Indirect] {
        assert_eq!(CoverageLevel::parse(level.as_str()), Ok(level));
    }
    assert_eq!(
        CoverageLevel::parse("Nope"),
        Err("invalid coverage level: nope".to_string())
    );
    assert_eq!(CoverageLevel::default(), CoverageLevel::Full);
}
