use provenance::ste100::{check_descriptive, RuleNumber, Span};

fn findings(text: &str) -> Vec<(RuleNumber, Span)> {
    check_descriptive(text)
        .findings
        .into_iter()
        .map(|finding| (finding.rule, finding.span))
        .collect()
}

fn words(count: usize) -> String {
    vec!["word"; count].join(" ")
}

#[test]
fn straight_quotes_protect_only_their_contents() {
    assert_eq!(
        findings("é \"can't; stop\" can't;"),
        vec![
            (RuleNumber::FourTwo, Span { start: 17, end: 22 }),
            (RuleNumber::EightOne, Span { start: 22, end: 23 }),
        ]
    );
}

#[test]
fn curly_quotes_and_unicode_prefixes_preserve_byte_spans() {
    assert_eq!(
        findings("α “won’t;” β;"),
        vec![(RuleNumber::EightOne, Span { start: 20, end: 21 })]
    );
}

#[test]
fn several_balanced_quotes_protect_each_delimited_span() {
    let text = "\"can't;\" outside; “won’t;” can't";
    let outside_semicolon = text.find("outside;").unwrap() + "outside".len();
    let outside_contraction = text.rfind("can't").unwrap();

    assert_eq!(
        findings(text),
        vec![
            (
                RuleNumber::EightOne,
                Span {
                    start: outside_semicolon,
                    end: outside_semicolon + 1,
                },
            ),
            (
                RuleNumber::FourTwo,
                Span {
                    start: outside_contraction,
                    end: outside_contraction + "can't".len(),
                },
            ),
        ]
    );
}

#[test]
fn unmatched_opening_quote_makes_strict_checks_indeterminate() {
    assert!(findings("\"can't; outside;").is_empty());
}

#[test]
fn unmatched_curly_close_makes_strict_checks_indeterminate() {
    assert!(findings("can't;” outside;").is_empty());
}

#[test]
fn mixed_delimiters_make_strict_checks_indeterminate() {
    assert!(findings("“can't;\" outside;").is_empty());
}

#[test]
fn nested_quotes_make_strict_checks_indeterminate() {
    assert!(findings("“outer “can't;” outside;”").is_empty());
}

#[test]
fn indeterminate_quotes_prevent_a_strict_sentence_length_finding() {
    let text = format!("“{} “can't;” outside;”.", words(26));
    assert!(findings(&text).is_empty());
}

#[test]
fn protected_quotation_still_counts_as_one_word() {
    let at_limit = format!("{} \"can't; use these eight source words\".", words(24));
    assert!(findings(&at_limit).is_empty());

    let above_limit = format!("{} “won’t; use these eight source words”.", words(25));
    assert_eq!(
        findings(&above_limit),
        vec![(
            RuleNumber::SixThree,
            Span {
                start: 0,
                end: above_limit.len(),
            },
        )]
    );
}
