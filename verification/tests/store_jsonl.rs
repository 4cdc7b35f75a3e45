use provenance::store::jsonl::{jsonl_document, record_lines};

#[test]
fn a_document_ends_every_record_with_a_newline() {
    assert_eq!(jsonl_document(&["{\"id\":\"one\"}".to_string()]), "{\"id\":\"one\"}\n");
    assert_eq!(
        jsonl_document(&["{\"id\":\"a\"}".to_string(), "{\"id\":\"b\"}".to_string()]),
        "{\"id\":\"a\"}\n{\"id\":\"b\"}\n"
    );
    assert_eq!(jsonl_document(&[]), "");
}

#[test]
fn blank_lines_hold_no_record() {
    let text = "{\"id\":\"a\"}\r\n\n   \n{\"id\":\"b\"}";
    assert_eq!(record_lines(text), vec!["{\"id\":\"a\"}".to_string(), "{\"id\":\"b\"}".to_string()]);
    assert!(record_lines("").is_empty());
    assert!(record_lines("\n \t\n").is_empty());
}

#[test]
fn record_lines_read_back_what_a_document_wrote() {
    let lines = vec!["{\"id\":\"a\"}".to_string(), "{\"id\":\"b\",\"n\":1}".to_string()];
    assert_eq!(record_lines(&jsonl_document(&lines)), lines);
}
