use provenance::ste100::protected_spans::analyze;
use provenance::ste100::sentence::Sentence;
use provenance::ste100::word_count::{count, Count};
use provenance::ste100::{check_descriptive, FindingKind, RuleNumber, Span};

const MESSAGE: &str = "This descriptive sentence has more than 25 words.";

fn words_63(count: usize) -> String {
    (0..count).map(|_| "word").collect::<Vec<_>>().join(" ")
}

fn sentence(count: usize) -> String {
    format!("{}.", words_63(count))
}

fn rule_6_3_spans(text: &str) -> Vec<Span> {
    check_descriptive(text)
        .findings
        .into_iter()
        .filter(|finding| finding.rule == RuleNumber::SixThree)
        .map(|finding| {
            assert_eq!(finding.kind, FindingKind::Violation);
            assert_eq!(finding.message, MESSAGE);
            finding.span
        })
        .collect()
}

#[test]
fn determinate_limit_is_exactly_25_words_63() {
    for count in 0..=40 {
        let text = sentence(count);
        let expected = if count > 25 {
            vec![Span {
                start: 0,
                end: text.len(),
            }]
        } else {
            vec![]
        };
        assert_eq!(rule_6_3_spans(&text), expected, "count {count}");
    }
}

#[test]
fn exactly_25_passes_and_exactly_26_has_one_finding() {
    assert!(check_descriptive(&sentence(25)).findings.is_empty());

    let text = sentence(26);
    let report = check_descriptive(&text);
    assert_eq!(report.findings.len(), 1);
    assert_eq!(report.findings[0].rule, RuleNumber::SixThree);
    assert_eq!(
        report.findings[0].span,
        Span {
            start: 0,
            end: text.len()
        }
    );
}

#[test]
fn ordinary_colon_does_not_end_a_sentence() {
    let text = format!("{}: {}.", words_63(13), words_63(13));
    assert_eq!(
        rule_6_3_spans(&text),
        vec![Span {
            start: 0,
            end: text.len()
        }]
    );
}

#[test]
fn list_like_colon_and_newline_is_not_counted_as_one_ordinary_sentence() {
    let text = format!("{}:\n  {}.", words_63(13), words_63(13));
    assert!(rule_6_3_spans(&text).is_empty());
}

#[test]
fn terminal_punctuation_and_unicode_offsets_define_sentence_spans() {
    let first = "é is ready! ";
    let second = format!("{}? ", words_63(26));
    let third = sentence(26);
    let text = format!("{first}{second}{third}");
    assert_eq!(
        rule_6_3_spans(&text),
        vec![
            Span {
                start: first.len(),
                end: first.len() + second.trim_end().len(),
            },
            Span {
                start: first.len() + second.len(),
                end: text.len(),
            },
        ]
    );
}

#[test]
fn six_short_sentences_are_not_a_sentence_length_violation() {
    let text = (0..6).map(|_| sentence(25)).collect::<Vec<_>>().join(" ");
    assert!(rule_6_3_spans(&text).is_empty());
}

#[test]
fn parenthetical_text_counts_once_outside_and_as_a_sentence_inside() {
    let outer_passes = format!("{} ({}).", words_63(24), words_63(10));
    assert!(rule_6_3_spans(&outer_passes).is_empty());

    let inner = words_63(26);
    let text = format!("{} ({inner}).", words_63(2));
    let start = text.find('(').unwrap() + 1;
    assert_eq!(
        rule_6_3_spans(&text),
        vec![Span {
            start,
            end: start + inner.len(),
        }]
    );
}

#[test]
fn a_balanced_explicit_quotation_counts_as_one_word() {
    let text = format!("{} \"{}\".", words_63(24), words_63(8));
    assert!(rule_6_3_spans(&text).is_empty());
}

#[test]
fn hyphenated_groups_each_count_as_one_word() {
    for count in 1..=30 {
        let text = format!("{}.", vec!["alpha-beta-gamma"; count].join(" "));
        assert_eq!(rule_6_3_spans(&text).is_empty(), count <= 25);
    }
}

#[test]
fn mechanically_unambiguous_numbers_each_count_as_one_word() {
    for count in 1..=30 {
        let text = format!("{}.", vec!["123"; count].join(" "));
        assert_eq!(rule_6_3_spans(&text).is_empty(), count <= 25);
    }
}

#[test]
fn unresolved_rule_8_6_meaning_prevents_a_strict_finding() {
    let possible_unit = format!("{} 10 widgets remain.", words_63(24));
    let possible_multiword_name = format!("{} Alpha Beta remain.", words_63(24));
    assert!(rule_6_3_spans(&possible_unit).is_empty());
    assert!(rule_6_3_spans(&possible_multiword_name).is_empty());
}

#[test]
fn unbalanced_parentheses_and_quotes_cannot_produce_strict_findings() {
    let unbalanced_parenthesis = format!("({}.", words_63(26));
    let unbalanced_quote = format!("\"{}.", words_63(26));
    let unbalanced_curly_quote = format!("“{}.", words_63(26));
    assert!(rule_6_3_spans(&unbalanced_parenthesis).is_empty());
    assert!(rule_6_3_spans(&unbalanced_quote).is_empty());
    assert!(rule_6_3_spans(&unbalanced_curly_quote).is_empty());
}

#[test]
fn nested_parentheses_and_unclear_internal_punctuation_are_indeterminate() {
    let nested = format!("({} (note)).", words_63(26));
    let apostrophes = format!("{}.", vec!["operator's"; 13].join(" "));
    let slashes = format!("{}.", vec!["input/output"; 13].join(" "));
    assert!(rule_6_3_spans(&nested).is_empty());
    assert!(rule_6_3_spans(&apostrophes).is_empty());
    assert!(rule_6_3_spans(&slashes).is_empty());
}

#[test]
fn curly_apostrophes_and_prime_like_marks_are_indeterminate() {
    for token in ["operator’s", "operator‘s", "operator′s"] {
        let text = format!("{}.", vec![token; 13].join(" "));
        assert!(rule_6_3_spans(&text).is_empty(), "token {token:?}");
    }
}

#[test]
fn digit_first_alphanumeric_candidates_are_indeterminate() {
    let text = format!("{}.", vec!["1A"; 13].join(" "));
    assert!(rule_6_3_spans(&text).is_empty());
}

#[test]
fn unresolved_multiword_names_are_indeterminate_without_grouping_them() {
    let uppercase = format!("{}.", vec!["ALPHA BETA"; 13].join(" "));
    let lowercase_connector = format!("{} Bank of America.", words_63(23));
    assert!(rule_6_3_spans(&uppercase).is_empty());
    assert!(rule_6_3_spans(&lowercase_connector).is_empty());
}

#[test]
fn balanced_curly_double_quotation_counts_as_one_word() {
    let text = format!("{} “{}”.", words_63(24), words_63(8));
    assert!(rule_6_3_spans(&text).is_empty());
}

#[test]
fn parenthetical_text_with_internal_sentence_punctuation_is_indeterminate() {
    let text = format!("note ({}. {}).", words_63(13), words_63(13));
    assert!(rule_6_3_spans(&text).is_empty());
}

#[test]
fn rule_8_1_and_rule_6_3_findings_have_stable_source_order() {
    let text = format!("{}; word.", words_63(25));
    let first = check_descriptive(&text);
    assert_eq!(first.findings.len(), 2);
    assert_eq!(first.findings[0].rule, RuleNumber::SixThree);
    assert_eq!(
        first.findings[0].span,
        Span {
            start: 0,
            end: text.len()
        }
    );
    assert_eq!(first.findings[1].rule, RuleNumber::EightOne);
    assert_eq!(first.findings[1].span.start, words_63(25).len());

    for _ in 0..10 {
        assert_eq!(check_descriptive(&text), first);
    }
}

#[test]
fn a_parenthetical_and_a_quotation_each_count_once() {
    let text = "Set the valve (the red one) to \"open now\" at once.";
    let protected = analyze(text);
    let whole = Sentence { start: 0, end: text.len(), indeterminate: false };
    assert_eq!(count(text, whole, &protected), Count::Exact(8));
    let measured = "Set the valve to 25 bar.";
    let all_measured = Sentence { start: 0, end: measured.len(), indeterminate: false };
    assert_eq!(count(measured, all_measured, &analyze(measured)), Count::Indeterminate);
    let unsure = Sentence { start: 0, end: text.len(), indeterminate: true };
    assert_eq!(count(text, unsure, &protected), Count::Indeterminate);
    let slash = "Use the input/output valve.";
    let all = Sentence { start: 0, end: slash.len(), indeterminate: false };
    assert_eq!(count(slash, all, &analyze(slash)), Count::Indeterminate);
}

#[test]
fn findings_lie_within_the_text_in_start_order() {
    let text = format!("Do not stop; it's {} here. Stop; now.", words_63(30));
    let report = check_descriptive(&text);
    assert!(report.findings.len() >= 3);
    assert!(report.findings.windows(2).all(|w| w[0].span.start <= w[1].span.start));
    assert!(report
        .findings
        .iter()
        .all(|f| f.kind == FindingKind::Violation && f.span.start < f.span.end && f.span.end <= text.len()));
}
