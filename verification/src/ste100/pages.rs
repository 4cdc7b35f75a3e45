//! Which pages of a decoded dictionary PDF hold the Issue 9 dictionary, read
//! from the words found on each page.
use vstd::prelude::*;
use crate::scanner::chars::{find, find_from};
use crate::text::{decode, is_whitespace, to_uppercase, uppercased, whitespace};

verus! {

pub const FALLBACK_MAPPING_REASON: &'static str = "the PDF decoder used fallback character mappings";
pub const SPANS_NOT_READ_REASON: &'static str = "the page's text spans were not read";
pub const NO_IDENTITY_REASON: &'static str = "the PDF does not identify ASD-STE100 Issue 9";
pub const NO_TOTALS_REASON: &'static str = "the PDF does not state the Issue 9 dictionary word totals";

/// Why a dictionary import is refused.
#[derive(Clone, Debug, PartialEq, Eq)]
pub enum DictionaryImportError {
    InvalidPdf { message: String },
    UnreliableText { page: usize, reason: String },
    UnsupportedDocument { reason: String },
    DictionaryNotFound,
    InvalidStructure { approved_rows: usize, unapproved_rows: usize, reason: String },
}

/// The error as plain values.
pub enum ImportErrorView {
    InvalidPdf { message: Seq<char> },
    UnreliableText { page: int, reason: Seq<char> },
    UnsupportedDocument { reason: Seq<char> },
    DictionaryNotFound,
    InvalidStructure { approved_rows: int, unapproved_rows: int, reason: Seq<char> },
}

impl View for DictionaryImportError {
    type V = ImportErrorView;

    open spec fn view(&self) -> ImportErrorView {
        match self {
            DictionaryImportError::InvalidPdf { message } => ImportErrorView::InvalidPdf { message: message@ },
            DictionaryImportError::UnreliableText { page, reason } => ImportErrorView::UnreliableText {
                page: *page as int,
                reason: reason@,
            },
            DictionaryImportError::UnsupportedDocument { reason } => ImportErrorView::UnsupportedDocument {
                reason: reason@,
            },
            DictionaryImportError::DictionaryNotFound => ImportErrorView::DictionaryNotFound,
            DictionaryImportError::InvalidStructure { approved_rows, unapproved_rows, reason } =>
                ImportErrorView::InvalidStructure {
                approved_rows: *approved_rows as int,
                unapproved_rows: *unapproved_rows as int,
                reason: reason@,
            },
        }
    }
}

/// The words of a page one after the other.
pub open spec fn joined_texts(words: Seq<Seq<char>>) -> Seq<char>
    decreases words.len(),
{
    if words.len() == 0 {
        seq![]
    } else {
        joined_texts(words.drop_last()) + words.last()
    }
}

/// The text without its white space.
pub open spec fn without_whitespace(s: Seq<char>) -> Seq<char>
    decreases s.len(),
{
    if s.len() == 0 {
        seq![]
    } else {
        without_whitespace(s.drop_last()) + if whitespace(s.last()) {
            seq![]
        } else {
            seq![s.last()]
        }
    }
}

/// A page's words run together, white space dropped, in upper case.
pub open spec fn compact_of(words: Seq<Seq<char>>) -> Seq<char> {
    uppercased(without_whitespace(joined_texts(words)))
}

/// `pat` occurs in `t`.
pub open spec fn holds(t: Seq<char>, pat: Seq<char>) -> bool {
    find_from(t, pat, 0) is Some
}

/// The compact text names ASD-STE100 Simplified Technical English, Issue 9.
pub open spec fn names_issue_9(t: Seq<char>) -> bool {
    (holds(t, "ASD-STE100SIMPLIFIEDTECHNICALENGLISH"@) || holds(t, "ASDSTE100SIMPLIFIEDTECHNICALENGLISH"@))
        && holds(t, "ISSUE9"@)
}

/// The compact text states the Issue 9 word totals.
pub open spec fn states_word_totals(t: Seq<char>) -> bool {
    holds(t, "875APPROVEDWORDS"@) && holds(t, "1274WORDS"@)
}

/// The compact text carries a Part 2 dictionary page number.
pub open spec fn dictionary_page(t: Seq<char>) -> bool {
    holds(t, "PAGE2-1-"@)
}

pub open spec fn words_view(v: Seq<String>) -> Seq<Seq<char>> {
    v.map_values(|s: String| s@)
}

/// The compact text of a page: its words run together, white space
/// dropped, in upper case.
pub fn compact_page_text(words: &[String]) -> (r: Vec<char>)
    ensures
        r@ == compact_of(words_view(words@)),
{
    let ghost wv = words_view(words@);
    let mut kept: Vec<char> = Vec::new();
    let mut i: usize = 0;
    while i < words.len()
        invariant
            0 <= i <= words@.len(),
            wv == words_view(words@),
            kept@ == without_whitespace(joined_texts(wv.subrange(0, i as int))),
        decreases words@.len() - i,
    {
        let (chars, _) = decode(words[i].as_str());
        let ghost base = joined_texts(wv.subrange(0, i as int));
        let mut j: usize = 0;
        while j < chars.len()
            invariant
                0 <= j <= chars@.len(),
                kept@ == without_whitespace(base + chars@.subrange(0, j as int)),
            decreases chars@.len() - j,
        {
            let c = chars[j];
            proof {
                assert((base + chars@.subrange(0, j + 1)).drop_last() =~= base + chars@.subrange(0, j as int));
                assert((base + chars@.subrange(0, j + 1)).last() == c);
            }
            if !is_whitespace(c) {
                kept.push(c);
            }
            j = j + 1;
        }
        proof {
            let s = wv.subrange(0, i + 1);
            assert(s.drop_last() =~= wv.subrange(0, i as int));
            assert(s.last() == words@[i as int]@);
            assert(chars@.subrange(0, chars@.len() as int) =~= chars@);
        }
        i = i + 1;
    }
    assert(wv.subrange(0, words@.len() as int) =~= wv);
    to_uppercase(kept.as_slice())
}

fn holds_text(t: &Vec<char>, pat: &str) -> (r: bool)
    ensures
        r == holds(t@, pat@),
{
    let (p, _) = decode(pat);
    find(t.as_slice(), p.as_slice()).is_some()
}

/// Whether a page carries a Part 2 dictionary page number.
pub fn is_dictionary_page(words: &[String]) -> (r: bool)
    ensures
        r == dictionary_page(compact_of(words_view(words@))),
{
    let t = compact_page_text(words);
    holds_text(&t, "PAGE2-1-")
}

/// What was read from one page: its index, the text of its words and, for
/// a dictionary page, whether the decoder's text spans used a fallback
/// character mapping (or why they could not be read).
pub struct PageReading {
    pub page_index: usize,
    pub words: Vec<String>,
    pub fallback_mapping: Option<Result<bool, String>>,
}

pub struct PageView {
    pub page_index: usize,
    pub words: Seq<Seq<char>>,
    pub fallback_mapping: Option<Result<bool, Seq<char>>>,
}

impl View for PageReading {
    type V = PageView;

    open spec fn view(&self) -> PageView {
        PageView {
            page_index: self.page_index,
            words: words_view(self.words@),
            fallback_mapping: match self.fallback_mapping {
                None => None,
                Some(Ok(b)) => Some(Ok(b)),
                Some(Err(e)) => Some(Err(e@)),
            },
        }
    }
}

/// What the pages read so far showed: the identity, the word totals, and
/// the dictionary pages in order.
pub struct PageScan {
    pub identity: bool,
    pub totals: bool,
    pub pages: Seq<usize>,
}

/// The refusal of an unreliable dictionary page, numbered from one.
pub open spec fn unreliable(page_index: usize, reason: Seq<char>) -> ImportErrorView {
    ImportErrorView::UnreliableText { page: page_index + 1, reason }
}

/// Reading the first `k` pages in order: a dictionary page whose spans
/// could not be read, were not read, or used a fallback mapping stops the
/// reading there.
pub open spec fn scan_pages(pages: Seq<PageView>, k: int) -> Result<PageScan, ImportErrorView>
    decreases k,
{
    if k <= 0 {
        Ok(PageScan { identity: false, totals: false, pages: seq![] })
    } else {
        match scan_pages(pages, k - 1) {
            Err(e) => Err(e),
            Ok(st) => {
                let p = pages[k - 1];
                let t = compact_of(p.words);
                let next = PageScan {
                    identity: st.identity || names_issue_9(t),
                    totals: st.totals || states_word_totals(t),
                    pages: st.pages,
                };
                if !dictionary_page(t) {
                    Ok(next)
                } else {
                    match p.fallback_mapping {
                        None => Err(unreliable(p.page_index, SPANS_NOT_READ_REASON@)),
                        Some(Err(reason)) => Err(unreliable(p.page_index, reason)),
                        Some(Ok(true)) => Err(unreliable(p.page_index, FALLBACK_MAPPING_REASON@)),
                        Some(Ok(false)) => Ok(PageScan { pages: st.pages.push(p.page_index), ..next }),
                    }
                }
            },
        }
    }
}

/// The dictionary pages of a document, or why it is refused: a document
/// must identify Issue 9, state its word totals and hold a dictionary page.
pub open spec fn dictionary_pages(pages: Seq<PageView>) -> Result<Seq<usize>, ImportErrorView> {
    match scan_pages(pages, pages.len() as int) {
        Err(e) => Err(e),
        Ok(st) => if !st.identity {
            Err(ImportErrorView::UnsupportedDocument { reason: NO_IDENTITY_REASON@ })
        } else if !st.totals {
            Err(ImportErrorView::UnsupportedDocument { reason: NO_TOTALS_REASON@ })
        } else if st.pages.len() == 0 {
            Err(ImportErrorView::DictionaryNotFound)
        } else {
            Ok(st.pages)
        },
    }
}

proof fn lemma_scan_stops(pages: Seq<PageView>, k: int, m: int)
    requires
        0 <= k <= m,
        scan_pages(pages, k) is Err,
    ensures
        scan_pages(pages, m) == scan_pages(pages, k),
    decreases m - k,
{
    if k < m {
        lemma_scan_stops(pages, k, m - 1);
    }
}

fn unreliable_error(page_index: usize, reason: String) -> (e: DictionaryImportError)
    requires
        page_index < usize::MAX,
    ensures
        e@ == unreliable(page_index, reason@),
{
    DictionaryImportError::UnreliableText { page: page_index + 1, reason }
}

/// Picks the dictionary pages of a decoded PDF from what was read on each
/// page, in page order, and checks that the document is Issue 9 with its
/// word totals.
pub fn select_dictionary_pages(pages: &[PageReading]) -> (r: Result<Vec<usize>, DictionaryImportError>)
    requires
        forall|k: int| 0 <= k < pages@.len() ==> (#[trigger] pages@[k]).page_index < usize::MAX,
    ensures
        match r {
            Ok(v) => dictionary_pages(pages@.map_values(|p: PageReading| p@)) == Ok::<Seq<usize>, ImportErrorView>(v@),
            Err(e) => dictionary_pages(pages@.map_values(|p: PageReading| p@)) == Err::<Seq<usize>, ImportErrorView>(e@),
        },
{
    let ghost pv = pages@.map_values(|p: PageReading| p@);
    let mut identity = false;
    let mut totals = false;
    let mut found: Vec<usize> = Vec::new();
    let mut k: usize = 0;
    while k < pages.len()
        invariant
            0 <= k <= pages@.len(),
            pv == pages@.map_values(|p: PageReading| p@),
            forall|j: int| 0 <= j < pages@.len() ==> (#[trigger] pages@[j]).page_index < usize::MAX,
            scan_pages(pv, k as int) == Ok::<PageScan, ImportErrorView>(
                PageScan { identity, totals, pages: found@ },
            ),
        decreases pages@.len() - k,
    {
        let page = &pages[k];
        assert(pv[k as int] == page@);
        let t = compact_page_text(page.words.as_slice());
        identity = identity || ((holds_text(&t, "ASD-STE100SIMPLIFIEDTECHNICALENGLISH") || holds_text(
            &t,
            "ASDSTE100SIMPLIFIEDTECHNICALENGLISH",
        )) && holds_text(&t, "ISSUE9"));
        totals = totals || (holds_text(&t, "875APPROVEDWORDS") && holds_text(&t, "1274WORDS"));
        if holds_text(&t, "PAGE2-1-") {
            match &page.fallback_mapping {
                None => {
                    let e = unreliable_error(page.page_index, SPANS_NOT_READ_REASON.to_owned());
                    proof {
                        lemma_scan_stops(pv, k + 1, pv.len() as int);
                    }
                    return Err(e);
                },
                Some(Err(reason)) => {
                    let e = unreliable_error(page.page_index, reason.clone());
                    proof {
                        lemma_scan_stops(pv, k + 1, pv.len() as int);
                    }
                    return Err(e);
                },
                Some(Ok(true)) => {
                    let e = unreliable_error(page.page_index, FALLBACK_MAPPING_REASON.to_owned());
                    proof {
                        lemma_scan_stops(pv, k + 1, pv.len() as int);
                    }
                    return Err(e);
                },
                Some(Ok(false)) => {
                    found.push(page.page_index);
                },
            }
        }
        k = k + 1;
    }
    assert(pv.len() == pages@.len());
    if !identity {
        return Err(DictionaryImportError::UnsupportedDocument { reason: NO_IDENTITY_REASON.to_owned() });
    }
    if !totals {
        return Err(DictionaryImportError::UnsupportedDocument { reason: NO_TOTALS_REASON.to_owned() });
    }
    if found.len() == 0 {
        return Err(DictionaryImportError::DictionaryNotFound);
    }
    Ok(found)
}

} // verus!
