use provenance::ste100::pages::{
    compact_page_text, is_dictionary_page, select_dictionary_pages, DictionaryImportError, PageReading,
};

fn words(text: &str) -> Vec<String> {
    text.split(' ').map(str::to_string).collect()
}

fn page(page_index: usize, text: &str, fallback_mapping: Option<Result<bool, String>>) -> PageReading {
    PageReading { page_index, words: words(text), fallback_mapping }
}

fn title() -> PageReading {
    page(0, "ASD-STE100 Simplified Technical English Issue 9", None)
}

fn totals() -> PageReading {
    page(1, "875 approved words and 1274 words in all", None)
}

#[test]
fn a_page_text_is_compacted_and_upper_cased() {
    let compact: String = compact_page_text(&words("Page 2-1- 3  able\tADJ")).into_iter().collect();
    assert_eq!(compact, "PAGE2-1-3ABLEADJ");
    assert!(is_dictionary_page(&words("Page 2-1-4")));
    assert!(!is_dictionary_page(&words("Page 1-1-4")));
}

#[test]
fn dictionary_pages_are_picked_in_page_order() {
    let pages = vec![
        title(),
        totals(),
        page(2, "Page 2-1-1 able", Some(Ok(false))),
        page(3, "Rules", None),
        page(4, "page 2-1-2 about", Some(Ok(false))),
    ];
    assert_eq!(select_dictionary_pages(&pages), Ok(vec![2, 4]));
}

#[test]
fn a_fallback_mapping_on_a_dictionary_page_is_refused_at_that_page() {
    let pages = vec![page(5, "Page 2-1-1 able", Some(Ok(true))), title()];
    assert_eq!(
        select_dictionary_pages(&pages),
        Err(DictionaryImportError::UnreliableText {
            page: 6,
            reason: "the PDF decoder used fallback character mappings".to_string()
        })
    );
}

#[test]
fn a_document_must_identify_itself_state_its_totals_and_hold_a_dictionary() {
    let dictionary = page(2, "Page 2-1-1 able", Some(Ok(false)));
    assert_eq!(
        select_dictionary_pages(&[totals(), page(2, "Page 2-1-1 able", Some(Ok(false)))]),
        Err(DictionaryImportError::UnsupportedDocument {
            reason: "the PDF does not identify ASD-STE100 Issue 9".to_string()
        })
    );
    assert_eq!(
        select_dictionary_pages(&[title(), dictionary]),
        Err(DictionaryImportError::UnsupportedDocument {
            reason: "the PDF does not state the Issue 9 dictionary word totals".to_string()
        })
    );
    assert_eq!(select_dictionary_pages(&[title(), totals()]), Err(DictionaryImportError::DictionaryNotFound));
}
