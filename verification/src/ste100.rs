//! Deterministic descriptive-text checks from ASD-STE100 Issue 9.
pub mod contracted_verbs;
pub mod dictionary;
pub mod pages;
pub mod paragraph;
pub mod protected_spans;
pub mod sentence;
pub mod vocabulary;
pub mod word_count;

use std::ops::Range;

use vstd::prelude::*;
use crate::text::{
    byte_len, byte_offset, byte_offsets, char_index_at, char_width, decode, find_char_index, lemma_byte_len_is_encoding_len,
    lemma_byte_offset_monotonic, lemma_byte_offset_step, lemma_char_index_at, offsets_ok,
};
use vstd::utf8::encode_utf8;
use self::contracted_verbs::{lemma_run_end, run_end, token_char};
use self::contracted_verbs::{contracted_from, find_chars};
use self::paragraph::{aligned_range, lemma_paragraphs_aligned, paragraphs_of};
use self::protected_spans::{
    analyze_chars, lemma_protected_spans_aligned, protected_spans_of, protects_range, ProtectedSpans,
    QuoteReading,
};
use self::sentence::{aligned_sentence, lemma_sentences_aligned, sentences_in, Sentence};
use self::vocabulary::{classification, classify_chars};
use self::word_count::{count_chars, count_spec, units_from, Count};

verus! {

/// The analyzer implementation version included in every report.
pub const ANALYZER_VERSION: &'static str = "0.1.0";

/// A report from the fixed ASD-STE100 Issue 9 analyzer.
#[derive(Clone, Debug, PartialEq, Eq)]
pub struct Report {
    pub standard: Standard,
    pub issue: StandardIssue,
    pub analyzer_version: String,
    pub findings: Vec<Finding>,
}

/// The authority used by the analyzer.
#[derive(Clone, Copy, Debug, PartialEq, Eq, Structural)]
pub enum Standard {
    AsdSte100,
}

/// The fixed issue of the standard used by the analyzer.
#[derive(Clone, Copy, Debug, PartialEq, Eq, Structural)]
pub enum StandardIssue {
    Nine,
}

/// One nonconformance found in descriptive text.
#[derive(Clone, Debug, PartialEq, Eq)]
pub struct Finding {
    pub rule: RuleNumber,
    pub kind: FindingKind,
    pub span: Span,
    pub message: String,
}

/// An ASD-STE100 Issue 9 rule implemented by this analyzer.
#[derive(Clone, Copy, Debug, PartialEq, Eq, Structural)]
pub enum RuleNumber {
    OneOne,
    FourTwo,
    SixThree,
    SixSix,
    EightOne,
}

/// The disposition of a finding.
#[derive(Clone, Copy, Debug, PartialEq, Eq, Structural)]
pub enum FindingKind {
    Violation,
}

/// A half-open UTF-8 byte range in the analyzed text.
#[derive(Clone, Copy, Debug, PartialEq, Eq, Structural)]
pub struct Span {
    pub start: usize,
    pub end: usize,
}

/// Whether an entry's headword is an approved or an unapproved word.
#[derive(Clone, Copy, Debug, PartialEq, Eq, Structural)]
pub enum DictionaryStatus {
    Approved,
    Unapproved,
}

/// Part of speech of a dictionary entry.
#[derive(Clone, Copy, Debug, PartialEq, Eq, Structural)]
pub enum PartOfSpeech {
    Adjective,
    Adverb,
    Article,
    Conjunction,
    Noun,
    Prefix,
    Preposition,
    Pronoun,
    Verb,
}

/// One row of the Issue 9 dictionary.
#[derive(Clone, Debug, PartialEq, Eq)]
pub struct DictionaryEntry {
    pub headword: String,
    pub word_forms: Vec<String>,
    pub part_of_speech: PartOfSpeech,
    pub status: DictionaryStatus,
    pub approved_meaning_or_alternatives: String,
    pub ste_example: String,
    pub non_ste_example: Option<String>,
}

/// Where an imported dictionary came from.
#[derive(Clone, Debug, PartialEq, Eq)]
pub struct DictionaryImportIdentity {
    pub issue: StandardIssue,
    pub source_sha256: String,
    pub data_sha256: String,
    pub extractor_version: String,
}

/// An imported dictionary.
#[derive(Clone, Debug, PartialEq, Eq)]
pub struct DictionaryImport {
    pub identity: DictionaryImportIdentity,
    pub entries: Vec<DictionaryEntry>,
}

/// The category of a word or phrase by dictionary membership alone.
#[derive(Clone, Copy, Debug, PartialEq, Eq, Structural)]
pub enum VocabularyCategory {
    Approved,
    Unapproved,
    Uncertain,
    Unknown,
}

/// A word or phrase of the text with its category.
#[derive(Clone, Copy, Debug, PartialEq, Eq, Structural)]
pub struct WordUse {
    pub span: Span,
    pub category: VocabularyCategory,
}

pub const SEMICOLON_MESSAGE: &'static str = "Do not use semicolons in descriptive text.";

pub const CONTRACTED_VERB_MESSAGE: &'static str = "Use the full verb form in descriptive text.";

pub const SENTENCE_LENGTH_MESSAGE: &'static str = "This descriptive sentence has more than 25 words.";

pub const PARAGRAPH_LENGTH_MESSAGE: &'static str = "This paragraph has more than six sentences.";

pub const UNAPPROVED_WORD_MESSAGE: &'static str = "Use only approved words in descriptive text.";

/// The most words a determinate descriptive sentence may have.
pub const SENTENCE_WORD_LIMIT: usize = 25;

/// The most sentences a determinate paragraph may have.
pub const PARAGRAPH_SENTENCE_LIMIT: usize = 6;

pub open spec fn rule_message(rule: RuleNumber) -> &'static str {
    match rule {
        RuleNumber::OneOne => UNAPPROVED_WORD_MESSAGE,
        RuleNumber::FourTwo => CONTRACTED_VERB_MESSAGE,
        RuleNumber::SixThree => SENTENCE_LENGTH_MESSAGE,
        RuleNumber::SixSix => PARAGRAPH_LENGTH_MESSAGE,
        RuleNumber::EightOne => SEMICOLON_MESSAGE,
    }
}

fn message_for(rule: RuleNumber) -> (m: String)
    ensures
        m@ == rule_message(rule)@,
{
    let text = match rule {
        RuleNumber::OneOne => UNAPPROVED_WORD_MESSAGE,
        RuleNumber::FourTwo => CONTRACTED_VERB_MESSAGE,
        RuleNumber::SixThree => SENTENCE_LENGTH_MESSAGE,
        RuleNumber::SixSix => PARAGRAPH_LENGTH_MESSAGE,
        RuleNumber::EightOne => SEMICOLON_MESSAGE,
    };
    text.to_owned()
}

/// A finding as the rule it breaks and where.
pub type Flag = (RuleNumber, Span);

pub open spec fn flags_of(findings: Seq<Finding>) -> Seq<Flag> {
    findings.map_values(|f: Finding| (f.rule, f.span))
}

/// Rule 8.1: every semicolon outside protected quotations, from character `i` on.
pub open spec fn semicolons_from(s: Seq<char>, offsets: Seq<usize>, protected: QuoteReading, i: int) -> Seq<Flag>
    decreases s.len() - i,
{
    if i < 0 || i >= s.len() {
        Seq::empty()
    } else {
        let rest = semicolons_from(s, offsets, protected, i + 1);
        if s[i] == ';' && !protects_range(protected, offsets[i] as int, offsets[i] + 1) {
            seq![(RuleNumber::EightOne, Span { start: offsets[i], end: (offsets[i] + 1) as usize })] + rest
        } else {
            rest
        }
    }
}

/// Rule 4.2: every contracted verb outside protected quotations.
pub open spec fn contracted_flags(s: Seq<char>, offsets: Seq<usize>, protected: QuoteReading) -> Seq<Flag> {
    contracted_from(s, offsets, protected, 0).map_values(
        |p: (int, int)| (RuleNumber::FourTwo, Span { start: p.0 as usize, end: p.1 as usize }),
    )
}

/// Rule 6.3: sentences of `xs` with a determinate count above the limit.
pub open spec fn long_sentences(s: Seq<char>, offsets: Seq<usize>, protected: QuoteReading, xs: Seq<Sentence>) -> Seq<Flag>
    decreases xs.len(),
{
    if xs.len() == 0 {
        Seq::empty()
    } else {
        let x = xs[0];
        let rest = long_sentences(s, offsets, protected, xs.drop_first());
        match count_spec(s, offsets, protected, char_index_at(s, x.start as int), char_index_at(s, x.end as int), x.indeterminate) {
            Count::Exact(n) => if n > SENTENCE_WORD_LIMIT {
                seq![(RuleNumber::SixThree, Span { start: x.start, end: x.end })] + rest
            } else {
                rest
            },
            Count::Indeterminate => rest,
        }
    }
}

pub open spec fn all_determinate(xs: Seq<Sentence>) -> bool {
    forall|k: int| 0 <= k < xs.len() ==> !(#[trigger] xs[k]).indeterminate
}

/// Rule 6.6: paragraphs of `ps` whose sentences are all determinate and
/// more than the limit.
pub open spec fn long_paragraphs(s: Seq<char>, offsets: Seq<usize>, protected: QuoteReading, ps: Seq<Range<usize>>) -> Seq<Flag>
    decreases ps.len(),
{
    if ps.len() == 0 {
        Seq::empty()
    } else {
        let p = ps[0];
        let xs = sentences_in(s, offsets, protected, char_index_at(s, p.start as int), char_index_at(s, p.end as int));
        let rest = long_paragraphs(s, offsets, protected, ps.drop_first());
        if all_determinate(xs) && xs.len() > PARAGRAPH_SENTENCE_LIMIT {
            seq![(RuleNumber::SixSix, Span { start: p.start, end: p.end })] + rest
        } else {
            rest
        }
    }
}

pub open spec fn paragraph_flags(s: Seq<char>, offsets: Seq<usize>, protected: QuoteReading) -> Seq<Flag> {
    match paragraphs_of(s, offsets, protected) {
        Some(ps) => long_paragraphs(s, offsets, protected, ps),
        None => Seq::empty(),
    }
}

/// Rule 1.1: the uses classified as unapproved.
pub open spec fn unapproved_flags(uses: Seq<WordUse>) -> Seq<Flag>
    decreases uses.len(),
{
    if uses.len() == 0 {
        Seq::empty()
    } else {
        let rest = unapproved_flags(uses.drop_first());
        if uses[0].category == VocabularyCategory::Unapproved {
            seq![(RuleNumber::OneOne, uses[0].span)] + rest
        } else {
            rest
        }
    }
}

/// Inserts `f` after every flag that starts no later than it.
pub open spec fn insert_by_start(sorted: Seq<Flag>, f: Flag) -> Seq<Flag>
    decreases sorted.len(),
{
    if sorted.len() == 0 {
        seq![f]
    } else if sorted.last().1.start <= f.1.start {
        sorted.push(f)
    } else {
        insert_by_start(sorted.drop_last(), f).push(sorted.last())
    }
}

/// Stable sort of `xs` by start offset.
pub open spec fn sort_by_start(xs: Seq<Flag>) -> Seq<Flag>
    decreases xs.len(),
{
    if xs.len() == 0 {
        Seq::empty()
    } else {
        insert_by_start(sort_by_start(xs.drop_last()), xs.last())
    }
}

/// All findings of `s` in the order the rules are checked, before sorting.
pub open spec fn unsorted_flags(s: Seq<char>, entries: Option<Seq<DictionaryEntry>>) -> Seq<Flag> {
    let offsets = byte_offsets(s);
    let protected = protected_spans_of(s);
    let words = match entries {
        Some(e) => unapproved_flags(classification(e, s, offsets, protected)),
        None => Seq::empty(),
    };
    long_sentences(s, offsets, protected, sentences_in(s, offsets, protected, 0, s.len() as int))
        + paragraph_flags(s, offsets, protected) + words + contracted_flags(s, offsets, protected)
        + semicolons_from(s, offsets, protected, 0)
}

/// The findings of `s`, in source order.
pub open spec fn descriptive_flags(s: Seq<char>, entries: Option<Seq<DictionaryEntry>>) -> Seq<Flag> {
    sort_by_start(unsorted_flags(s, entries))
}

/// Index at which `insert_by_start` places its flag.
pub open spec fn insert_position(sorted: Seq<Flag>, f: Flag) -> int
    decreases sorted.len(),
{
    if sorted.len() == 0 {
        0
    } else if sorted.last().1.start <= f.1.start {
        sorted.len() as int
    } else {
        insert_position(sorted.drop_last(), f)
    }
}

proof fn lemma_insert_by_start(sorted: Seq<Flag>, f: Flag)
    ensures
        0 <= insert_position(sorted, f) <= sorted.len(),
        insert_by_start(sorted, f) == sorted.insert(insert_position(sorted, f), f),
    decreases sorted.len(),
{
    if sorted.len() > 0 && !(sorted.last().1.start <= f.1.start) {
        lemma_insert_by_start(sorted.drop_last(), f);
        assert(insert_by_start(sorted, f) =~= sorted.insert(insert_position(sorted, f), f));
    } else if sorted.len() > 0 {
        assert(insert_by_start(sorted, f) =~= sorted.insert(insert_position(sorted, f), f));
    } else {
        assert(insert_by_start(sorted, f) =~= sorted.insert(insert_position(sorted, f), f));
    }
}

/// The flags are in order of their start offsets.
pub open spec fn starts_ordered(xs: Seq<Flag>) -> bool {
    forall|i: int, j: int| 0 <= i < j < xs.len() ==> (#[trigger] xs[i]).1.start <= (#[trigger] xs[j]).1.start
}

proof fn lemma_insert_keeps_order(sorted: Seq<Flag>, f: Flag)
    requires
        starts_ordered(sorted),
    ensures
        starts_ordered(insert_by_start(sorted, f)),
    decreases sorted.len(),
{
    if sorted.len() > 0 && !(sorted.last().1.start <= f.1.start) {
        let init = sorted.drop_last();
        assert(starts_ordered(init)) by {
            assert forall|i: int, j: int| 0 <= i < j < init.len() implies (#[trigger] init[i]).1.start <= (#[trigger] init[j]).1.start by {
                assert(init[i] == sorted[i] && init[j] == sorted[j]);
            }
        }
        lemma_insert_keeps_order(init, f);
        lemma_insert_by_start(init, f);
        let rest = insert_by_start(init, f);
        let p = insert_position(init, f);
        assert forall|i: int| 0 <= i < rest.len() implies (#[trigger] rest[i]).1.start <= sorted.last().1.start by {
            if i < p {
                assert(rest[i] == init[i]);
                assert(sorted[i] == init[i]);
            } else if i > p {
                assert(rest[i] == init[i - 1]);
                assert(sorted[i - 1] == init[i - 1]);
            }
        }
        let out = rest.push(sorted.last());
        assert forall|i: int, j: int| 0 <= i < j < out.len() implies (#[trigger] out[i]).1.start <= (#[trigger] out[j]).1.start by {
            if j == out.len() - 1 {
                assert(out[i] == rest[i]);
            } else {
                assert(out[i] == rest[i] && out[j] == rest[j]);
            }
        }
    } else if sorted.len() > 0 {
        let out = sorted.push(f);
        assert forall|i: int, j: int| 0 <= i < j < out.len() implies (#[trigger] out[i]).1.start <= (#[trigger] out[j]).1.start by {
            if j == out.len() - 1 {
                assert(out[i] == sorted[i]);
                assert(sorted[i].1.start <= sorted[sorted.len() - 1].1.start || i == sorted.len() - 1);
            } else {
                assert(out[i] == sorted[i] && out[j] == sorted[j]);
            }
        }
    }
}

proof fn lemma_sort_keeps_order(xs: Seq<Flag>)
    ensures
        starts_ordered(sort_by_start(xs)),
    decreases xs.len(),
{
    if xs.len() > 0 {
        lemma_sort_keeps_order(xs.drop_last());
        lemma_insert_keeps_order(sort_by_start(xs.drop_last()), xs.last());
    }
}

/// A report lists its findings in order of where they start in the text.
pub proof fn law_findings_in_start_order(text: Seq<char>, entries: Option<Seq<DictionaryEntry>>)
    ensures
        starts_ordered(descriptive_flags(text, entries)),
{
    lemma_sort_keeps_order(unsorted_flags(text, entries));
}

/// Every flag starts before it ends, and ends by byte `n`.
pub open spec fn within_text(xs: Seq<Flag>, n: int) -> bool {
    forall|k: int| 0 <= k < xs.len() ==> (#[trigger] xs[k]).1.start < xs[k].1.end <= n
}

proof fn lemma_sort_within(xs: Seq<Flag>, n: int)
    requires
        within_text(xs, n),
    ensures
        within_text(sort_by_start(xs), n),
    decreases xs.len(),
{
    if xs.len() > 0 {
        let init = xs.drop_last();
        assert(within_text(init, n)) by {
            assert forall|k: int| 0 <= k < init.len() implies (#[trigger] init[k]).1.start < init[k].1.end <= n by {
                assert(init[k] == xs[k]);
            }
        }
        lemma_sort_within(init, n);
        let sorted = sort_by_start(init);
        let f = xs.last();
        assert(f == xs[xs.len() - 1]);
        lemma_insert_by_start(sorted, f);
        let p = insert_position(sorted, f);
        let out = sorted.insert(p, f);
        assert forall|k: int| 0 <= k < out.len() implies (#[trigger] out[k]).1.start < out[k].1.end <= n by {
            if k < p {
                assert(out[k] == sorted[k]);
            } else if k > p {
                assert(out[k] == sorted[k - 1]);
            }
        }
    }
}

proof fn lemma_concat_within(a: Seq<Flag>, b: Seq<Flag>, n: int)
    requires
        within_text(a, n),
        within_text(b, n),
    ensures
        within_text(a + b, n),
{
    assert forall|k: int| 0 <= k < (a + b).len() implies (#[trigger] (a + b)[k]).1.start < (a + b)[k].1.end <= n by {
        if k < a.len() {
            assert((a + b)[k] == a[k]);
        } else {
            assert((a + b)[k] == b[k - a.len()]);
        }
    }
}

/// Every character takes at least one byte.
proof fn lemma_byte_len_at_least_len(s: Seq<char>)
    ensures
        s.len() <= byte_len(s),
    decreases s.len(),
{
    if s.len() > 0 {
        lemma_byte_len_at_least_len(s.drop_first());
    }
}

/// Later characters start at later bytes.
proof fn lemma_offset_strict(s: Seq<char>, a: int, b: int)
    requires
        0 <= a < b <= s.len(),
    ensures
        byte_offset(s, a) < byte_offset(s, b),
{
    lemma_byte_offset_step(s, a);
    lemma_byte_offset_monotonic(s, a + 1, b);
}

/// Character boundaries `a <= b` of `s` lie in order within its bytes.
proof fn lemma_boundaries(s: Seq<char>, a: int, b: int)
    requires
        0 <= a <= b <= s.len(),
        byte_len(s) <= usize::MAX,
    ensures
        byte_offsets(s)[a] == byte_offset(s, a),
        byte_offsets(s)[b] == byte_offset(s, b),
        byte_offset(s, a) <= byte_offset(s, b) <= byte_len(s),
{
    lemma_byte_offset_monotonic(s, a, b);
    lemma_byte_offset_monotonic(s, b, s.len() as int);
    assert(s.take(s.len() as int) =~= s);
}

proof fn lemma_sentences_within(s: Seq<char>, protected: QuoteReading, xs: Seq<Sentence>)
    requires
        byte_len(s) <= usize::MAX,
        crate::ste100::sentence::all_aligned(byte_offsets(s), 0, s.len() as int, xs),
    ensures
        within_text(long_sentences(s, byte_offsets(s), protected, xs), byte_len(s) as int),
    decreases xs.len(),
{
    if xs.len() > 0 {
        let rest = xs.drop_first();
        assert(crate::ste100::sentence::all_aligned(byte_offsets(s), 0, s.len() as int, rest)) by {
            assert forall|k: int| 0 <= k < rest.len() implies #[trigger] aligned_sentence(
                byte_offsets(s),
                0,
                s.len() as int,
                rest[k],
            ) by {
                assert(rest[k] == xs[k + 1]);
                assert(aligned_sentence(byte_offsets(s), 0, s.len() as int, xs[k + 1]));
            }
        }
        lemma_sentences_within(s, protected, rest);
        assert(aligned_sentence(byte_offsets(s), 0, s.len() as int, xs[0]));
        let (a, b) = choose|a: int, b: int| 0 <= a <= b <= s.len() && xs[0].start == byte_offsets(s)[a]
            && xs[0].end == byte_offsets(s)[b];
        lemma_boundaries(s, a, b);
        lemma_char_index_at(s, a);
        lemma_char_index_at(s, b);
        let tail = long_sentences(s, byte_offsets(s), protected, rest);
        let x = xs[0];
        assert(char_index_at(s, x.start as int) == a);
        assert(char_index_at(s, x.end as int) == b);
        let head = seq![(RuleNumber::SixThree, Span { start: x.start, end: x.end })];
        if a < b {
            lemma_offset_strict(s, a, b);
            assert(within_text(head, byte_len(s) as int));
            lemma_concat_within(head, tail, byte_len(s) as int);
        } else {
            assert(units_from(s, byte_offsets(s), protected, a, b).0.len() == 0);
        }
    }
}

proof fn lemma_paragraphs_within(s: Seq<char>, protected: QuoteReading, ps: Seq<Range<usize>>)
    requires
        byte_len(s) <= usize::MAX,
        crate::ste100::paragraph::ranges_aligned(byte_offsets(s), s.len() as int, ps),
    ensures
        within_text(long_paragraphs(s, byte_offsets(s), protected, ps), byte_len(s) as int),
    decreases ps.len(),
{
    if ps.len() > 0 {
        let rest = ps.drop_first();
        assert(crate::ste100::paragraph::ranges_aligned(byte_offsets(s), s.len() as int, rest)) by {
            assert forall|k: int| 0 <= k < rest.len() implies #[trigger] aligned_range(
                byte_offsets(s),
                s.len() as int,
                rest[k],
            ) by {
                assert(rest[k] == ps[k + 1]);
                assert(aligned_range(byte_offsets(s), s.len() as int, ps[k + 1]));
            }
        }
        lemma_paragraphs_within(s, protected, rest);
        assert(aligned_range(byte_offsets(s), s.len() as int, ps[0]));
        let (a, b) = choose|a: int, b: int| 0 <= a <= b <= s.len() && ps[0].start == byte_offsets(s)[a]
            && ps[0].end == byte_offsets(s)[b];
        lemma_boundaries(s, a, b);
        lemma_char_index_at(s, a);
        lemma_char_index_at(s, b);
        lemma_byte_len_at_least_len(s);
        let tail = long_paragraphs(s, byte_offsets(s), protected, rest);
        let p = ps[0];
        assert(char_index_at(s, p.start as int) == a);
        assert(char_index_at(s, p.end as int) == b);
        let head = seq![(RuleNumber::SixSix, Span { start: p.start, end: p.end })];
        if a < b {
            lemma_offset_strict(s, a, b);
            assert(within_text(head, byte_len(s) as int));
            lemma_concat_within(head, tail, byte_len(s) as int);
        } else {
            assert(crate::ste100::sentence::sentence_state(s, byte_offsets(s), protected, a, a).start == a);
            assert(sentences_in(s, byte_offsets(s), protected, a, a).len() == 0);
        }
    }
}

proof fn lemma_semicolons_within(s: Seq<char>, protected: QuoteReading, i: int)
    requires
        0 <= i <= s.len(),
        byte_len(s) <= usize::MAX,
    ensures
        within_text(semicolons_from(s, byte_offsets(s), protected, i), byte_len(s) as int),
    decreases s.len() - i,
{
    if i < s.len() {
        lemma_semicolons_within(s, protected, i + 1);
        lemma_boundaries(s, i, i + 1);
        lemma_byte_offset_step(s, i);
        let rest = semicolons_from(s, byte_offsets(s), protected, i + 1);
        let o = byte_offsets(s)[i];
        let head = seq![(RuleNumber::EightOne, Span { start: o, end: (o + 1) as usize })];
        if s[i] == ';' {
            assert(char_width(s[i]) == 1);
            assert(within_text(head, byte_len(s) as int));
            lemma_concat_within(head, rest, byte_len(s) as int);
        }
    }
}

proof fn lemma_contracted_within(s: Seq<char>, protected: QuoteReading, i: int)
    requires
        0 <= i <= s.len(),
        byte_len(s) <= usize::MAX,
    ensures
        forall|k: int| 0 <= k < contracted_from(s, byte_offsets(s), protected, i).len() ==> {
            let p = #[trigger] contracted_from(s, byte_offsets(s), protected, i)[k];
            0 <= p.0 < p.1 <= byte_len(s)
        },
    decreases s.len() - i,
{
    let ps = contracted_from(s, byte_offsets(s), protected, i);
    if i < s.len() {
        if !token_char(s[i]) {
            lemma_contracted_within(s, protected, i + 1);
            let next = contracted_from(s, byte_offsets(s), protected, i + 1);
            assert(ps == next);
            assert forall|k: int| 0 <= k < ps.len() implies {
                let p = #[trigger] ps[k];
                0 <= p.0 < p.1 <= byte_len(s)
            } by {
                assert(ps[k] == next[k]);
            }
        } else {
            lemma_run_end(s, i + 1);
            let e = run_end(s, i);
            lemma_contracted_within(s, protected, e);
            lemma_boundaries(s, i, e);
            lemma_offset_strict(s, i, e);
            assert(run_end(s, i) == run_end(s, i + 1));
            let rest = contracted_from(s, byte_offsets(s), protected, e);
            let offsets = byte_offsets(s);
            let head = seq![(offsets[i] as int, offsets[e] as int)];
            if !protects_range(protected, offsets[i] as int, offsets[e] as int) && crate::ste100::contracted_verbs::recognized(
                s.subrange(i, e),
            ) {
                assert(ps == head + rest);
                assert forall|k: int| 0 <= k < ps.len() implies {
                    let p = #[trigger] ps[k];
                    0 <= p.0 < p.1 <= byte_len(s)
                } by {
                    if k > 0 {
                        assert(ps[k] == rest[k - 1]);
                    } else {
                        assert(ps[0] == head[0]);
                    }
                }
            } else {
                assert(ps == rest);
                assert forall|k: int| 0 <= k < ps.len() implies {
                    let p = #[trigger] ps[k];
                    0 <= p.0 < p.1 <= byte_len(s)
                } by {
                    assert(ps[k] == rest[k]);
                }
            }
        }
    }
}

/// Every finding of the descriptive check covers at least one byte of the
/// text and ends within it, and the findings come in order of where they
/// start.
pub proof fn law_findings_lie_within_the_text(text: Seq<char>)
    requires
        encode_utf8(text).len() <= usize::MAX,
    ensures
        within_text(descriptive_flags(text, None), encode_utf8(text).len() as int),
        starts_ordered(descriptive_flags(text, None)),
{
    lemma_byte_len_is_encoding_len(text);
    lemma_byte_len_at_least_len(text);
    let n = byte_len(text) as int;
    let offsets = byte_offsets(text);
    let protected = protected_spans_of(text);
    lemma_sentences_aligned(text, offsets, protected, 0, text.len() as int);
    lemma_sentences_within(text, protected, sentences_in(text, offsets, protected, 0, text.len() as int));
    lemma_paragraphs_aligned(text, offsets, protected);
    if paragraphs_of(text, offsets, protected) is Some {
        lemma_paragraphs_within(text, protected, paragraphs_of(text, offsets, protected)->0);
    }
    assert(within_text(paragraph_flags(text, offsets, protected), n));
    lemma_contracted_within(text, protected, 0);
    let cs = contracted_from(text, offsets, protected, 0);
    assert(within_text(contracted_flags(text, offsets, protected), n)) by {
        let cf = contracted_flags(text, offsets, protected);
        assert forall|k: int| 0 <= k < cf.len() implies (#[trigger] cf[k]).1.start < cf[k].1.end <= n by {
            assert(cf[k] == (RuleNumber::FourTwo, Span { start: cs[k].0 as usize, end: cs[k].1 as usize }));
            let p = cs[k];
            assert(0 <= p.0 < p.1 <= n);
        }
    }
    lemma_semicolons_within(text, protected, 0);
    let words: Seq<Flag> = Seq::empty();
    assert(within_text(words, n));
    let long = long_sentences(text, offsets, protected, sentences_in(text, offsets, protected, 0, text.len() as int));
    lemma_concat_within(long, paragraph_flags(text, offsets, protected), n);
    lemma_concat_within(long + paragraph_flags(text, offsets, protected), words, n);
    lemma_concat_within(long + paragraph_flags(text, offsets, protected) + words, contracted_flags(text, offsets, protected), n);
    lemma_concat_within(
        long + paragraph_flags(text, offsets, protected) + words + contracted_flags(text, offsets, protected),
        semicolons_from(text, offsets, protected, 0),
        n,
    );
    assert(unsorted_flags(text, None) == long + paragraph_flags(text, offsets, protected) + words + contracted_flags(
        text,
        offsets,
        protected,
    ) + semicolons_from(text, offsets, protected, 0));
    lemma_sort_within(unsorted_flags(text, None), n);
    lemma_sort_keeps_order(unsorted_flags(text, None));
}

/// Inserts `f` into `findings` after every finding that starts no later.
fn insert_finding(findings: &mut Vec<Finding>, f: Finding)
    ensures
        flags_of(final(findings)@) == insert_by_start(flags_of(old(findings)@), (f.rule, f.span)),
        final(findings)@ == old(findings)@.insert(
            insert_position(flags_of(old(findings)@), (f.rule, f.span)),
            f,
        ),
{
    let ghost xs = flags_of(findings@);
    let ghost flag = (f.rule, f.span);
    let mut p = findings.len();
    assert(xs.take(p as int) =~= xs);
    while p > 0 && findings[p - 1].span.start > f.span.start
        invariant
            p <= findings@.len(),
            xs == flags_of(findings@),
            flag == (f.rule, f.span),
            insert_position(xs, flag) == insert_position(xs.take(p as int), flag),
        decreases p,
    {
        proof {
            assert(xs.take(p as int).drop_last() =~= xs.take(p - 1));
            assert(xs.take(p as int).last() == xs[p - 1]);
            assert(xs[p - 1].1 == findings@[p - 1].span);
        }
        p = p - 1;
    }
    proof {
        if p > 0 {
            assert(xs.take(p as int).last() == xs[p - 1]);
        }
        assert(xs.take(0) =~= Seq::<Flag>::empty());
        lemma_insert_by_start(xs, flag);
    }
    let ghost before = findings@;
    findings.insert(p, f);
    proof {
        assert(flags_of(findings@) =~= xs.insert(p as int, flag));
    }
}

/// Every finding is a violation and carries its rule's message.
pub open spec fn findings_well_formed(v: Seq<Finding>) -> bool {
    forall|k: int|
        0 <= k < v.len() ==> (#[trigger] v[k]).kind == FindingKind::Violation && v[k].message@
            == rule_message(v[k].rule)@
}

fn push_finding(out: &mut Vec<Finding>, rule: RuleNumber, start: usize, end: usize)
    requires
        findings_well_formed(old(out)@),
    ensures
        findings_well_formed(final(out)@),
        flags_of(final(out)@) == flags_of(old(out)@).push((rule, Span { start, end })),
{
    let ghost before = out@;
    out.push(Finding { rule, kind: FindingKind::Violation, span: Span { start, end }, message: message_for(rule) });
    assert(flags_of(out@) =~= flags_of(before).push((rule, Span { start, end })));
}

fn semicolon_findings(chars: &Vec<char>, offsets: &Vec<usize>, protected: &ProtectedSpans, out: &mut Vec<Finding>)
    requires
        offsets_ok(chars@, offsets@),
        findings_well_formed(old(out)@),
    ensures
        findings_well_formed(final(out)@),
        flags_of(final(out)@) == flags_of(old(out)@) + semicolons_from(chars@, offsets@, protected@, 0),
{
    let n = chars.len();
    let mut i: usize = 0;
    while i < n
        invariant
            n == chars@.len(),
            offsets_ok(chars@, offsets@),
            0 <= i <= n,
            findings_well_formed(out@),
            flags_of(out@) + semicolons_from(chars@, offsets@, protected@, i as int)
                == flags_of(old(out)@) + semicolons_from(chars@, offsets@, protected@, 0),
        decreases n - i,
    {
        proof {
            crate::text::lemma_offsets_step(chars@, offsets@, i as int);
        }
        if chars[i] == ';' && !protected.protects(offsets[i], offsets[i] + 1) {
            let ghost before = flags_of(out@);
            push_finding(out, RuleNumber::EightOne, offsets[i], offsets[i] + 1);
            assert(flags_of(out@) + semicolons_from(chars@, offsets@, protected@, i + 1) =~= before
                + semicolons_from(chars@, offsets@, protected@, i as int));
        }
        i = i + 1;
    }
}

fn contracted_findings(chars: &Vec<char>, offsets: &Vec<usize>, protected: &ProtectedSpans, out: &mut Vec<Finding>)
    requires
        offsets_ok(chars@, offsets@),
        findings_well_formed(old(out)@),
    ensures
        findings_well_formed(final(out)@),
        flags_of(final(out)@) == flags_of(old(out)@) + contracted_flags(chars@, offsets@, protected@),
{
    let found = find_chars(chars, offsets, protected);
    let ghost all = contracted_flags(chars@, offsets@, protected@);
    let ghost start = flags_of(out@);
    let mut k: usize = 0;
    while k < found.len()
        invariant
            0 <= k <= found@.len(),
            all.len() == found@.len(),
            forall|j: int| 0 <= j < found@.len() ==> #[trigger] all[j] == (RuleNumber::FourTwo, Span { start: found@[j].start, end: found@[j].end }),
            findings_well_formed(out@),
            flags_of(out@) == start + all.take(k as int),
        decreases found@.len() - k,
    {
        let v = &found[k];
        push_finding(out, RuleNumber::FourTwo, v.start, v.end);
        assert(all.take(k + 1) =~= all.take(k as int).push(all[k as int]));
        k = k + 1;
    }
    assert(all.take(k as int) =~= all);
}

fn sentence_findings(
    chars: &Vec<char>,
    offsets: &Vec<usize>,
    protected: &ProtectedSpans,
    xs: &Vec<Sentence>,
    lo: usize,
    hi: usize,
    out: &mut Vec<Finding>,
)
    requires
        offsets_ok(chars@, offsets@),
        lo <= hi <= chars@.len(),
        crate::ste100::sentence::all_aligned(offsets@, lo as int, hi as int, xs@),
        crate::ste100::protected_spans::quotes_aligned(protected@, chars@),
        findings_well_formed(old(out)@),
    ensures
        findings_well_formed(final(out)@),
        flags_of(final(out)@) == flags_of(old(out)@) + long_sentences(chars@, offsets@, protected@, xs@),
{
    let ghost start = flags_of(out@);
    let mut k: usize = 0;
    assert(xs@.skip(0) =~= xs@);
    while k < xs.len()
        invariant
            offsets_ok(chars@, offsets@),
            lo <= hi <= chars@.len(),
            crate::ste100::sentence::all_aligned(offsets@, lo as int, hi as int, xs@),
            crate::ste100::protected_spans::quotes_aligned(protected@, chars@),
            0 <= k <= xs@.len(),
            findings_well_formed(out@),
            flags_of(out@) + long_sentences(chars@, offsets@, protected@, xs@.skip(k as int))
                == start + long_sentences(chars@, offsets@, protected@, xs@),
        decreases xs@.len() - k,
    {
        let x = xs[k];
        assert(aligned_sentence(offsets@, lo as int, hi as int, xs@[k as int]));
        let a = find_char_index(chars.as_slice(), offsets.as_slice(), 0, x.start);
        let b = find_char_index(chars.as_slice(), offsets.as_slice(), 0, x.end);
        proof {
            assert(xs@.skip(k as int).drop_first() =~= xs@.skip(k + 1));
            assert(xs@.skip(k as int)[0] == x);
        }
        match (a, b) {
            (Some(a), Some(b)) => {
                let c = count_chars(chars, offsets, protected, a, b, x.indeterminate);
                match c {
                    Count::Exact(n) => {
                        if n > SENTENCE_WORD_LIMIT {
                            let ghost before = flags_of(out@);
                            push_finding(out, RuleNumber::SixThree, x.start, x.end);
                            assert(flags_of(out@) + long_sentences(chars@, offsets@, protected@, xs@.skip(k + 1))
                                =~= before + long_sentences(chars@, offsets@, protected@, xs@.skip(k as int)));
                        }
                    },
                    Count::Indeterminate => {},
                }
            },
            _ => {},
        }
        k = k + 1;
    }
    assert(xs@.skip(k as int) =~= Seq::<Sentence>::empty());
}

fn all_sentences_determinate(xs: &Vec<Sentence>) -> (r: bool)
    ensures
        r == all_determinate(xs@),
{
    let mut k: usize = 0;
    while k < xs.len()
        invariant
            0 <= k <= xs@.len(),
            forall|j: int| 0 <= j < k ==> !(#[trigger] xs@[j]).indeterminate,
        decreases xs@.len() - k,
    {
        if xs[k].indeterminate {
            assert(xs@[k as int].indeterminate);
            return false;
        }
        k = k + 1;
    }
    true
}

fn paragraph_findings(chars: &Vec<char>, offsets: &Vec<usize>, protected: &ProtectedSpans, out: &mut Vec<Finding>)
    requires
        offsets_ok(chars@, offsets@),
        findings_well_formed(old(out)@),
    ensures
        findings_well_formed(final(out)@),
        flags_of(final(out)@) == flags_of(old(out)@) + paragraph_flags(chars@, offsets@, protected@),
{
    let paragraphs = match paragraph::scan_chars(chars, offsets, protected) {
        Some(ps) => ps,
        None => {
            return;
        },
    };
    let ghost ps = paragraphs@;
    proof {
        lemma_paragraphs_aligned(chars@, offsets@, protected@);
        assert(paragraphs_of(chars@, offsets@, protected@) == Some(ps));
    }
    let ghost start = flags_of(out@);
    let mut k: usize = 0;
    assert(ps.skip(0) =~= ps);
    while k < paragraphs.len()
        invariant
            offsets_ok(chars@, offsets@),
            ps == paragraphs@,
            paragraph::ranges_aligned(offsets@, chars@.len() as int, ps),
            0 <= k <= ps.len(),
            findings_well_formed(out@),
            flags_of(out@) + long_paragraphs(chars@, offsets@, protected@, ps.skip(k as int))
                == start + long_paragraphs(chars@, offsets@, protected@, ps),
        decreases ps.len() - k,
    {
        let p_start = paragraphs[k].start;
        let p_end = paragraphs[k].end;
        assert(aligned_range(offsets@, chars@.len() as int, ps[k as int]));
        let ghost (ga, gb) = choose|a: int, b: int| 0 <= a <= b <= chars@.len() && ps[k as int].start == offsets@[a] && ps[k as int].end == offsets@[b];
        proof {
            crate::text::lemma_char_index_at(chars@, ga);
            crate::text::lemma_char_index_at(chars@, gb);
            assert(ps.skip(k as int).drop_first() =~= ps.skip(k + 1));
            assert(ps.skip(k as int)[0] == ps[k as int]);
        }
        let a = find_char_index(chars.as_slice(), offsets.as_slice(), 0, p_start);
        let b = find_char_index(chars.as_slice(), offsets.as_slice(), 0, p_end);
        match (a, b) {
            (Some(a), Some(b)) => {
                let xs = sentence::scan_chars(chars, offsets, protected, a, b);
                if all_sentences_determinate(&xs) && xs.len() > PARAGRAPH_SENTENCE_LIMIT {
                    let ghost before = flags_of(out@);
                    push_finding(out, RuleNumber::SixSix, p_start, p_end);
                    assert(flags_of(out@) + long_paragraphs(chars@, offsets@, protected@, ps.skip(k + 1))
                        =~= before + long_paragraphs(chars@, offsets@, protected@, ps.skip(k as int)));
                }
            },
            _ => {},
        }
        k = k + 1;
    }
    assert(ps.skip(k as int) =~= Seq::<Range<usize>>::empty());
}

fn unapproved_findings(uses: &Vec<WordUse>, out: &mut Vec<Finding>)
    requires
        findings_well_formed(old(out)@),
    ensures
        findings_well_formed(final(out)@),
        flags_of(final(out)@) == flags_of(old(out)@) + unapproved_flags(uses@),
{
    let ghost start = flags_of(out@);
    let mut k: usize = 0;
    assert(uses@.skip(0) =~= uses@);
    while k < uses.len()
        invariant
            0 <= k <= uses@.len(),
            findings_well_formed(out@),
            flags_of(out@) + unapproved_flags(uses@.skip(k as int)) == start + unapproved_flags(uses@),
        decreases uses@.len() - k,
    {
        let u = uses[k];
        proof {
            assert(uses@.skip(k as int).drop_first() =~= uses@.skip(k + 1));
            assert(uses@.skip(k as int)[0] == u);
        }
        if u.category == VocabularyCategory::Unapproved {
            let ghost before = flags_of(out@);
            push_finding(out, RuleNumber::OneOne, u.span.start, u.span.end);
            assert(flags_of(out@) + unapproved_flags(uses@.skip(k + 1)) =~= before + unapproved_flags(uses@.skip(k as int)));
        }
        k = k + 1;
    }
    assert(uses@.skip(k as int) =~= Seq::<WordUse>::empty());
}

fn sort_findings(unsorted: Vec<Finding>) -> (r: Vec<Finding>)
    requires
        findings_well_formed(unsorted@),
    ensures
        findings_well_formed(r@),
        flags_of(r@) == sort_by_start(flags_of(unsorted@)),
{
    let ghost all = unsorted@;
    let mut rest = unsorted;
    let mut sorted: Vec<Finding> = Vec::new();
    while rest.len() > 0
        invariant
            rest@.len() <= all.len(),
            rest@ == all.skip(all.len() - rest@.len()),
            findings_well_formed(all),
            findings_well_formed(sorted@),
            flags_of(sorted@) == sort_by_start(flags_of(all).take(all.len() - rest@.len())),
        decreases rest@.len(),
    {
        let ghost k = all.len() - rest@.len();
        let f = rest.remove(0);
        proof {
            assert(f == all[k]);
            assert(rest@ =~= all.skip(all.len() - rest@.len()));
            let xs = flags_of(all).take(k + 1);
            assert(xs.drop_last() =~= flags_of(all).take(k));
            assert(xs.last() == (f.rule, f.span));
        }
        let ghost before = sorted@;
        insert_finding(&mut sorted, f);
        proof {
            assert forall|j: int| 0 <= j < sorted@.len() implies (#[trigger] sorted@[j]).kind
                == FindingKind::Violation && sorted@[j].message@ == rule_message(sorted@[j].rule)@ by {
                let p = insert_position(flags_of(before), (f.rule, f.span));
                lemma_insert_by_start(flags_of(before), (f.rule, f.span));
                if j < p {
                    assert(sorted@[j] == before[j]);
                } else if j > p {
                    assert(sorted@[j] == before[j - 1]);
                }
            }
        }
    }
    assert(flags_of(all).take(all.len() as int) =~= flags_of(all));
    sorted
}

pub open spec fn entries_view(entries: Option<&Vec<DictionaryEntry>>) -> Option<Seq<DictionaryEntry>> {
    match entries {
        Some(e) => Some(e@),
        None => None,
    }
}

fn analyze_text(text: &str, entries: Option<&Vec<DictionaryEntry>>) -> (r: Vec<Finding>)
    ensures
        findings_well_formed(r@),
        flags_of(r@) == descriptive_flags(text@, entries_view(entries)),
{
    let (chars, offsets) = decode(text);
    let protected = analyze_chars(&chars, &offsets);
    proof {
        lemma_protected_spans_aligned(chars@);
        lemma_sentences_aligned(chars@, offsets@, protected@, 0, chars@.len() as int);
    }
    let mut out: Vec<Finding> = Vec::new();
    let sentences = sentence::scan_chars(&chars, &offsets, &protected, 0, chars.len());
    sentence_findings(&chars, &offsets, &protected, &sentences, 0, chars.len(), &mut out);
    paragraph_findings(&chars, &offsets, &protected, &mut out);
    match entries {
        Some(e) => {
            let uses = classify_chars(&chars, &offsets, &protected, e);
            unapproved_findings(&uses, &mut out);
        },
        None => {},
    }
    contracted_findings(&chars, &offsets, &protected, &mut out);
    semicolon_findings(&chars, &offsets, &protected, &mut out);
    proof {
        let s = text@;
        let words = match entries_view(entries) {
            Some(e) => unapproved_flags(classification(e, s, offsets@, protected@)),
            None => Seq::empty(),
        };
        assert(flags_of(out@) =~= long_sentences(s, offsets@, protected@, sentences_in(s, offsets@, protected@, 0, s.len() as int))
            + paragraph_flags(s, offsets@, protected@) + words + contracted_flags(s, offsets@, protected@)
            + semicolons_from(s, offsets@, protected@, 0));
    }
    sort_findings(out)
}

fn new_report(findings: Vec<Finding>) -> (r: Report)
    ensures
        r.standard == Standard::AsdSte100,
        r.issue == StandardIssue::Nine,
        r.analyzer_version@ == ANALYZER_VERSION@,
        r.findings@ == findings@,
{
    Report {
        standard: Standard::AsdSte100,
        issue: StandardIssue::Nine,
        analyzer_version: ANALYZER_VERSION.to_owned(),
        findings,
    }
}

/// Reports the deterministic Rule 4.2, 6.3, 6.6 and 8.1 violations of
/// `text` in source order.
pub fn check_descriptive(text: &str) -> (r: Report)
    ensures
        r.standard == Standard::AsdSte100,
        r.issue == StandardIssue::Nine,
        r.analyzer_version@ == ANALYZER_VERSION@,
        findings_well_formed(r.findings@),
        flags_of(r.findings@) == descriptive_flags(text@, None),
{
    new_report(analyze_text(text, None))
}

/// Like [`check_descriptive`], and also reports every word or phrase that
/// the dictionary lists only as unapproved (Rule 1.1).
pub fn check_descriptive_with_dictionary(text: &str, dictionary: &DictionaryImport) -> (r: Report)
    ensures
        r.standard == Standard::AsdSte100,
        r.issue == StandardIssue::Nine,
        r.analyzer_version@ == ANALYZER_VERSION@,
        findings_well_formed(r.findings@),
        flags_of(r.findings@) == descriptive_flags(text@, Some(dictionary.entries@)),
{
    new_report(analyze_text(text, Some(&dictionary.entries)))
}

/// Classifies each word or phrase of `text` outside quotations by
/// dictionary membership only.
pub fn classify_vocabulary(text: &str, dictionary: &DictionaryImport) -> (r: Vec<WordUse>)
    ensures
        r@ == classification(dictionary.entries@, text@, byte_offsets(text@), protected_spans_of(text@)),
{
    let (chars, offsets) = decode(text);
    let protected = analyze_chars(&chars, &offsets);
    classify_chars(&chars, &offsets, &protected, &dictionary.entries)
}

} // verus!
