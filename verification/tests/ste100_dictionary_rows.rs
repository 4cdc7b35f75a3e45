use provenance::ste100::dictionary::{cell_text, headword_cell_text, parse_entry};
use provenance::ste100::{DictionaryStatus, PartOfSpeech};

fn cells(words: &str, meaning: &str, ste: &str, non_ste: &str) -> [String; 4] {
    [words.to_string(), meaning.to_string(), ste.to_string(), non_ste.to_string()]
}

fn strings(v: &[&str]) -> Vec<String> {
    v.iter().map(|s| s.to_string()).collect()
}

#[test]
fn an_approved_row_lists_its_headword_and_forms() {
    let entry = parse_entry(&cells("FOLLOW (v), FOLLOWS, FOLLOWED,", "COME AFTER", "FOLLOW THE STEPS", "")).unwrap();
    assert_eq!(entry.headword, "FOLLOW");
    assert_eq!(entry.word_forms, strings(&["FOLLOW", "FOLLOWS", "FOLLOWED"]));
    assert_eq!(entry.part_of_speech, PartOfSpeech::Verb);
    assert_eq!(entry.status, DictionaryStatus::Approved);
    assert_eq!(entry.approved_meaning_or_alternatives, "COME AFTER");
    assert_eq!(entry.ste_example, "FOLLOW THE STEPS");
    assert_eq!(entry.non_ste_example, None);
}

#[test]
fn an_unapproved_row_keeps_its_non_ste_example() {
    let entry = parse_entry(&cells("abandon (v)", "STOP", "STOP THE TEST", "Abandon the test")).unwrap();
    assert_eq!(entry.headword, "abandon");
    assert_eq!(entry.word_forms, strings(&["abandon"]));
    assert_eq!(entry.status, DictionaryStatus::Unapproved);
    assert_eq!(entry.non_ste_example.as_deref(), Some("Abandon the test"));
}

#[test]
fn an_or_label_lists_each_alternative() {
    let entry = parse_entry(&cells("aboard (or on board, onboard) (adv)", "IN", "IN THE AIRCRAFT", "Aboard the aircraft")).unwrap();
    assert_eq!(entry.headword, "aboard");
    assert_eq!(entry.word_forms, strings(&["aboard", "on board", "onboard"]));
    assert_eq!(entry.part_of_speech, PartOfSpeech::Adverb);
}

#[test]
fn a_qualifier_is_one_extra_form() {
    let entry = parse_entry(&cells("LEFT (direction) (adj)", "OPPOSITE OF RIGHT", "TURN LEFT", "")).unwrap();
    assert_eq!(entry.headword, "LEFT");
    assert_eq!(entry.word_forms, strings(&["LEFT", "direction"]));
    assert_eq!(entry.part_of_speech, PartOfSpeech::Adjective);
}

#[test]
fn the_earliest_marker_splits_the_cell() {
    let entry = parse_entry(&cells("AS (conj) (adv)", "BECAUSE", "AS IT IS", "")).unwrap();
    assert_eq!(entry.part_of_speech, PartOfSpeech::Conjunction);
    assert_eq!(entry.word_forms, strings(&["AS", "(adv)"]));
}

#[test]
fn a_prefix_needs_no_examples() {
    let entry = parse_entry(&cells("un- (prefix)", "NOT", "", "")).unwrap();
    assert_eq!(entry.part_of_speech, PartOfSpeech::Prefix);
    assert_eq!(entry.status, DictionaryStatus::Unapproved);
}

#[test]
fn a_row_without_a_marker_is_refused() {
    assert_eq!(
        parse_entry(&cells("ABOUT", "CONCERNING", "ABOUT THE TEST", "")),
        Err("an entry has no recognized part of speech".to_string())
    );
}

#[test]
fn a_mixed_case_headword_is_refused() {
    assert_eq!(
        parse_entry(&cells("About (prep)", "CONCERNING", "ABOUT THE TEST", "")),
        Err("an entry headword is neither uppercase nor lowercase".to_string())
    );
}

#[test]
fn missing_columns_are_named() {
    assert_eq!(
        parse_entry(&cells("ABOUT (prep)", "", "ABOUT THE TEST", "")),
        Err("an entry has no approved meaning or alternatives column data".to_string())
    );
    assert_eq!(
        parse_entry(&cells("ABOUT (prep)", "CONCERNING", "", "")),
        Err("an entry has no STE example column data".to_string())
    );
    assert_eq!(
        parse_entry(&cells("abandon (v)", "STOP", "STOP THE TEST", "")),
        Err("an entry has no non-STE example column data".to_string())
    );
}

#[test]
fn cell_text_collapses_white_space() {
    assert_eq!(cell_text(&strings(&["  Concerning the", "subject  ", ""])), "Concerning the subject");
    assert_eq!(cell_text(&[]), "");
}

#[test]
fn headword_lines_rejoin_wrapped_words() {
    assert_eq!(headword_cell_text(&strings(&["ABOUT", "(prep)"])), "ABOUT (prep)");
    assert_eq!(headword_cell_text(&strings(&["MAIN-", "TENANCE (n)"])), "MAINTENANCE (n)");
    assert_eq!(headword_cell_text(&strings(&["FOL", "LOW (v)"])), "FOLLOW (v)");
    assert_eq!(headword_cell_text(&strings(&["FOLLOW (v),", "FOLLOWS"])), "FOLLOW (v), FOLLOWS");
    assert_eq!(headword_cell_text(&strings(&["FOL  ", "   ", " LOW (v)"])), "FOLLOW (v)");
    assert_eq!(headword_cell_text(&strings(&["TO BE", "ABLE (adj)"])), "TO BE ABLE (adj)");
}
