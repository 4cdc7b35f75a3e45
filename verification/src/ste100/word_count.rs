//! Word counting for Rule 6.3, where a count is only given when it can be
//! read mechanically.
use vstd::prelude::*;
use crate::text::{
    byte_offset, alphabetic, ascii_digit, char_index_at, find_char_index, is_alphabetic, is_alphanumeric,
    is_ascii_digit, is_boundary, is_uppercase, is_whitespace, lemma_offsets_increase,
    numeric, offsets_ok, uppercase, whitespace, byte_offsets, decode,
};
use super::protected_spans::{
    first_opening_at, lemma_first_opening_at, ProtectedSpan, ProtectedSpans, QuoteReading, quotation_starting_at,
    quotes_aligned, spans_aligned,
};
use super::sentence::{all_whitespace, Sentence};

verus! {

/// The word count of a sentence, or `Indeterminate` when it depends on a
/// choice that cannot be made mechanically.
#[derive(Clone, Copy, Debug, PartialEq, Eq, Structural)]
pub enum Count {
    Exact(usize),
    Indeterminate,
}

#[derive(Clone, Copy, Debug, PartialEq, Eq, Structural)]
pub enum UnitKind {
    Number,
    CapitalizedWord,
    SemanticCandidate,
    Other,
}

/// One counted unit, as character indices `start..end`.
#[derive(Clone, Copy, Debug)]
pub struct Unit {
    pub start: usize,
    pub end: usize,
    pub kind: UnitKind,
}

pub open spec fn alnum(c: char) -> bool {
    alphabetic(c) || numeric(c)
}

/// One past the run of alphanumeric characters starting at `e`.
pub open spec fn alnum_end(s: Seq<char>, e: int) -> int
    decreases s.len() - e,
{
    if 0 <= e < s.len() && alnum(s[e]) {
        alnum_end(s, e + 1)
    } else {
        e
    }
}

pub proof fn lemma_alnum_end(s: Seq<char>, e: int)
    requires
        0 <= e <= s.len(),
    ensures
        e <= alnum_end(s, e) <= s.len(),
        e < s.len() && alnum(s[e]) ==> e < alnum_end(s, e),
    decreases s.len() - e,
{
    if e < s.len() && alnum(s[e]) {
        lemma_alnum_end(s, e + 1);
    }
}

/// One past the digits of a number starting at `e`, with at most one
/// decimal point between digits.
pub open spec fn number_end(s: Seq<char>, e: int, decimal_seen: bool) -> int
    decreases s.len() - e,
{
    if 0 <= e < s.len() {
        if ascii_digit(s[e]) {
            number_end(s, e + 1, decimal_seen)
        } else if s[e] == '.' && !decimal_seen && e + 1 < s.len() && ascii_digit(s[e + 1]) {
            number_end(s, e + 1, true)
        } else {
            e
        }
    } else {
        e
    }
}

pub proof fn lemma_number_end(s: Seq<char>, e: int, decimal_seen: bool)
    requires
        0 <= e <= s.len(),
    ensures
        e <= number_end(s, e, decimal_seen) <= s.len(),
        e < s.len() && ascii_digit(s[e]) ==> e < number_end(s, e, decimal_seen),
    decreases s.len() - e,
{
    if e < s.len() {
        if ascii_digit(s[e]) {
            lemma_number_end(s, e + 1, decimal_seen);
        } else if s[e] == '.' && !decimal_seen && e + 1 < s.len() && ascii_digit(s[e + 1]) {
            lemma_number_end(s, e + 1, true);
        }
    }
}

/// A number, or a digit-first alphanumeric token, starting at `start`.
pub open spec fn number_unit(s: Seq<char>, start: int) -> Unit {
    let end = number_end(s, start, false);
    if end < s.len() && alphabetic(s[end]) {
        Unit { start: start as usize, end: alnum_end(s, end) as usize, kind: UnitKind::SemanticCandidate }
    } else {
        Unit { start: start as usize, end: end as usize, kind: UnitKind::Number }
    }
}

/// One past a hyphenated group whose last part ended at `e`.
pub open spec fn hyphen_end(s: Seq<char>, e: int) -> int
    decreases s.len() - e,
{
    if 0 <= e && e + 1 < s.len() && s[e] == '-' && alnum(s[e + 1]) {
        proof {
            lemma_alnum_end(s, e + 1);
        }
        hyphen_end(s, alnum_end(s, e + 1))
    } else {
        e
    }
}

pub proof fn lemma_hyphen_end(s: Seq<char>, e: int)
    requires
        0 <= e <= s.len(),
    ensures
        e <= hyphen_end(s, e) <= s.len(),
    decreases s.len() - e,
{
    if 0 <= e && e + 1 < s.len() && s[e] == '-' && alnum(s[e + 1]) {
        lemma_alnum_end(s, e + 1);
        lemma_hyphen_end(s, alnum_end(s, e + 1));
    }
}

/// A word, or an unspaced hyphenated group, starting at `start`.
pub open spec fn hyphenated_unit(s: Seq<char>, start: int) -> Unit {
    Unit {
        start: start as usize,
        end: hyphen_end(s, alnum_end(s, start)) as usize,
        kind: if uppercase(s[start]) {
            UnitKind::CapitalizedWord
        } else {
            UnitKind::Other
        },
    }
}

/// The first `)` at or after index `from`.
pub open spec fn close_paren_from(s: Seq<char>, from: int) -> Option<int>
    decreases s.len() - from,
{
    if from < 0 || from >= s.len() {
        None
    } else if s[from] == ')' {
        Some(from)
    } else {
        close_paren_from(s, from + 1)
    }
}

/// The unit that starts at character `i`, if one does.
pub open spec fn unit_at(s: Seq<char>, offsets: Seq<usize>, protected: QuoteReading, i: int) -> Option<
    Unit,
> {
    let c = s[i];
    if c == '"' || c == '\u{201C}' {
        match quotation_starting_at(protected, offsets[i] as int) {
            Some(span) => Some(
                Unit {
                    start: i as usize,
                    end: char_index_at(s, span.end as int) as usize,
                    kind: UnitKind::Other,
                },
            ),
            None => None,
        }
    } else if c == '(' {
        match close_paren_from(s, i + 1) {
            Some(j) => Some(Unit { start: i as usize, end: (j + 1) as usize, kind: UnitKind::Other }),
            None => None,
        }
    } else if ascii_digit(c) {
        Some(number_unit(s, i))
    } else if alphabetic(c) {
        Some(hyphenated_unit(s, i))
    } else {
        None
    }
}

/// Punctuation inside a word that leaves its count unclear.
pub open spec fn unclear_mark(c: char) -> bool {
    c == '\'' || c == '\u{2018}' || c == '\u{2019}' || c == '\u{2032}' || c == '\u{2033}' || c
        == '\u{2035}' || c == '\u{2036}' || c == '/' || c == '\\'
}

/// `_`, `:` or `-` directly between two alphanumeric characters.
pub open spec fn unresolved_grouping_mark(s: Seq<char>, i: int) -> bool {
    (s[i] == '_' || s[i] == ':' || s[i] == '-') && 0 < i && alnum(s[i - 1]) && i + 1 < s.len()
        && alnum(s[i + 1])
}

/// Units read from character `i` while `i < b`, and whether some unclear
/// punctuation was passed.
pub open spec fn units_from(s: Seq<char>, offsets: Seq<usize>, protected: QuoteReading, i: int, b: int) -> (
    Seq<Unit>,
    bool,
)
    decreases b - i,
{
    if i < 0 || i >= b || i >= s.len() {
        (Seq::empty(), false)
    } else {
        match unit_at(s, offsets, protected, i) {
            Some(u) => {
                let next = if u.end > i { u.end as int } else { i + 1 };
                let (rest, unclear) = if next < b {
                    units_from(s, offsets, protected, next, b)
                } else {
                    (Seq::empty(), false)
                };
                (seq![u] + rest, unclear)
            },
            None => {
                let (rest, unclear) = units_from(s, offsets, protected, i + 1, b);
                (rest, unclear || unclear_mark(s[i]) || unresolved_grouping_mark(s, i))
            },
        }
    }
}

/// Two units separated by whitespace only.
pub open spec fn separated(s: Seq<char>, a: Unit, b: Unit) -> bool {
    a.end < b.start && all_whitespace(s, a.end as int, b.start as int)
}

pub open spec fn pair_needs_meaning(s: Seq<char>, a: Unit, b: Unit) -> bool {
    separated(s, a, b) && ((a.kind == UnitKind::Number && (b.kind == UnitKind::CapitalizedWord
        || b.kind == UnitKind::SemanticCandidate || b.kind == UnitKind::Other)) || (a.kind
        == UnitKind::CapitalizedWord && b.kind == UnitKind::CapitalizedWord))
}

/// Rule 8.6 would need a semantic choice: a digit-first token, a
/// capitalized word after the first unit, or a number or name directly
/// followed by a word.
pub open spec fn needs_meaning_choice(s: Seq<char>, units: Seq<Unit>) -> bool {
    (exists|k: int|
        0 <= k < units.len() && ((#[trigger] units[k]).kind == UnitKind::SemanticCandidate || (k
            > 0 && units[k].kind == UnitKind::CapitalizedWord))) || (exists|k: int|
        0 <= k && k + 1 < units.len() && #[trigger] pair_needs_meaning(s, units[k], units[k + 1]))
}

/// The count of the sentence at characters `a..b`.
pub open spec fn count_spec(
    s: Seq<char>,
    offsets: Seq<usize>,
    protected: QuoteReading,
    a: int,
    b: int,
    sentence_indeterminate: bool,
) -> Count {
    if sentence_indeterminate || protected is Indeterminate {
        Count::Indeterminate
    } else {
        let (units, unclear) = units_from(s, offsets, protected, a, b);
        if unclear || needs_meaning_choice(s, units) {
            Count::Indeterminate
        } else {
            Count::Exact(units.len() as usize)
        }
    }
}

proof fn lemma_quotation_ends_later(
    s: Seq<char>,
    offsets: Seq<usize>,
    q: QuoteReading,
    i: int,
    span: ProtectedSpan,
)
    requires
        offsets_ok(s, offsets),
        0 <= i < s.len(),
        quotes_aligned(q, s),
        quotation_starting_at(q, offsets[i] as int) == Some(span),
    ensures
        exists|j: int| i < j <= s.len() && offsets[j] == span.end,
        is_boundary(s, span.end as int),
{
    if let QuoteReading::Exact(list) = q {
        lemma_first_opening_at(list, offsets[i] as int, 0);
        let k = first_opening_at(list, offsets[i] as int, 0)->0;
        assert(list[k] == span);
        assert(spans_aligned(list, s));
        assert(list[k].start < list[k].end);
        assert(is_boundary(s, span.end as int));
        let j = choose|j: int| 0 <= j <= s.len() && byte_offset(s, j) == span.end as int;
        if j <= i {
            lemma_offsets_increase(s, offsets, j, i);
        }
        assert(offsets[j] == span.end);
    }
}

fn consume_alphanumeric(s: &[char], e: usize) -> (r: usize)
    requires
        e <= s@.len(),
    ensures
        r == alnum_end(s@, e as int),
{
    let mut r = e;
    while r < s.len() && is_alphanumeric(s[r])
        invariant
            e <= r <= s@.len(),
            alnum_end(s@, e as int) == alnum_end(s@, r as int),
        decreases s@.len() - r,
    {
        r = r + 1;
    }
    r
}

/// Consumes one digit-form number when no semantic grouping is applied.
fn number_unit_at(s: &[char], start: usize) -> (u: Unit)
    requires
        start < s@.len(),
        ascii_digit(s@[start as int]),
    ensures
        u == number_unit(s@, start as int),
        start == u.start < u.end <= s@.len(),
{
    proof {
        lemma_number_end(s@, start as int, false);
        lemma_alnum_end(s@, number_end(s@, start as int, false));
    }
    let n = s.len();
    let mut end = start;
    let mut decimal_seen = false;
    while end < n && (is_ascii_digit(s[end]) || (s[end] == '.' && !decimal_seen && end + 1 < n
        && is_ascii_digit(s[end + 1])))
        invariant
            n == s@.len(),
            start <= end <= s@.len(),
            number_end(s@, start as int, false) == number_end(s@, end as int, decimal_seen),
        decreases s@.len() - end,
    {
        if !is_ascii_digit(s[end]) {
            decimal_seen = true;
        }
        end = end + 1;
    }
    if end < s.len() && is_alphabetic(s[end]) {
        Unit { start, end: consume_alphanumeric(s, end), kind: UnitKind::SemanticCandidate }
    } else {
        Unit { start, end, kind: UnitKind::Number }
    }
}

/// Consumes a word or an unspaced hyphenated group as one unit.
fn hyphenated_unit_at(s: &[char], start: usize) -> (u: Unit)
    requires
        start < s@.len(),
    ensures
        u == hyphenated_unit(s@, start as int),
        start == u.start <= u.end <= s@.len(),
{
    proof {
        lemma_alnum_end(s@, start as int);
        lemma_hyphen_end(s@, alnum_end(s@, start as int));
    }
    let n = s.len();
    let first = s[start];
    let mut end = consume_alphanumeric(s, start);
    proof {
        lemma_alnum_end(s@, start as int);
    }
    while end < n && n - end > 1 && s[end] == '-' && is_alphanumeric(s[end + 1])
        invariant
            n == s@.len(),
            start <= end <= s@.len(),
            hyphen_end(s@, alnum_end(s@, start as int)) == hyphen_end(s@, end as int),
        decreases s@.len() - end,
    {
        proof {
            lemma_alnum_end(s@, end + 1);
        }
        end = consume_alphanumeric(s, end + 1);
    }
    Unit { start, end, kind: if is_uppercase(first) { UnitKind::CapitalizedWord } else { UnitKind::Other } }
}

fn parenthetical_unit(s: &[char], start: usize) -> (u: Option<Unit>)
    requires
        start < s@.len(),
    ensures
        u == (match close_paren_from(s@, start + 1) {
            Some(j) => Some(Unit { start: start as usize, end: (j + 1) as usize, kind: UnitKind::Other }),
            None => None::<Unit>,
        }),
        u matches Some(v) ==> start == v.start < v.end <= s@.len(),
{
    let n = s.len();
    let mut j = start + 1;
    while j < n
        invariant
            n == s@.len(),
            start < j <= s@.len(),
            close_paren_from(s@, start + 1) == close_paren_from(s@, j as int),
        decreases s@.len() - j,
    {
        if s[j] == ')' {
            return Some(Unit { start, end: j + 1, kind: UnitKind::Other });
        }
        j = j + 1;
    }
    None
}

fn is_unresolved_grouping_mark(s: &[char], i: usize) -> (b: bool)
    requires
        i < s@.len(),
    ensures
        b == unresolved_grouping_mark(s@, i as int),
{
    let n = s.len();
    let c = s[i];
    (c == '_' || c == ':' || c == '-') && 0 < i && is_alphanumeric(s[i - 1]) && i + 1 < n
        && is_alphanumeric(s[i + 1])
}

pub(crate) fn whitespace_between(s: &[char], a: usize, b: usize) -> (r: bool)
    requires
        a <= b <= s@.len(),
    ensures
        r == all_whitespace(s@, a as int, b as int),
{
    let mut i = a;
    while i < b
        invariant
            a <= i <= b <= s@.len(),
            all_whitespace(s@, a as int, i as int),
        decreases b - i,
    {
        if !is_whitespace(s[i]) {
            return false;
        }
        i = i + 1;
    }
    true
}

/// Suppresses a strict result when Rule 8.6 needs semantic classification.
fn has_meaning_choice(s: &[char], units: &Vec<Unit>) -> (r: bool)
    requires
        forall|k: int|
            0 <= k < units@.len() ==> (#[trigger] units@[k]).start <= units@[k].end <= s@.len(),
    ensures
        r == needs_meaning_choice(s@, units@),
{
    let mut k: usize = 0;
    while k < units.len()
        invariant
            0 <= k <= units@.len(),
            forall|j: int|
                0 <= j < k ==> !((#[trigger] units@[j]).kind == UnitKind::SemanticCandidate || (j
                    > 0 && units@[j].kind == UnitKind::CapitalizedWord)),
        decreases units@.len() - k,
    {
        let u = units[k];
        if u.kind == UnitKind::SemanticCandidate || (k > 0 && u.kind == UnitKind::CapitalizedWord) {
            assert(units@[k as int].kind == UnitKind::SemanticCandidate || (k > 0 && units@[k as int].kind == UnitKind::CapitalizedWord));
            return true;
        }
        k = k + 1;
    }
    if units.len() == 0 {
        return false;
    }
    let mut k: usize = 0;
    while k < units.len() - 1
        invariant
            units@.len() > 0,
            0 <= k <= units@.len() - 1,
            forall|j: int|
                0 <= j < units@.len() ==> (#[trigger] units@[j]).start <= units@[j].end <= s@.len(),
            forall|j: int| 0 <= j < k && j + 1 < units@.len() ==> !#[trigger] pair_needs_meaning(s@, units@[j], units@[j + 1]),
            forall|j: int|
                0 <= j < units@.len() ==> !((#[trigger] units@[j]).kind == UnitKind::SemanticCandidate || (j
                    > 0 && units@[j].kind == UnitKind::CapitalizedWord)),
        decreases units@.len() - k,
    {
        let a = units[k];
        let b = units[k + 1];
        let kinds = (a.kind == UnitKind::Number && (b.kind == UnitKind::CapitalizedWord
            || b.kind == UnitKind::SemanticCandidate || b.kind == UnitKind::Other)) || (a.kind
            == UnitKind::CapitalizedWord && b.kind == UnitKind::CapitalizedWord);
        if kinds && a.end < b.start {
            if whitespace_between(s, a.end, b.start) {
                assert(pair_needs_meaning(s@, units@[k as int], units@[k + 1]));
                return true;
            }
        }
        k = k + 1;
    }
    false
}

/// Counts the words of `sentence` in `text`; balanced parenthetical text
/// counts once in its containing sentence, a quotation `protected` delimits
/// counts once, and a count that rests on a choice no rule settles is
/// `Indeterminate`. The sentence's ends and the quotations' ends lie on
/// character boundaries of `text`.
pub fn count(text: &str, sentence: Sentence, protected: &ProtectedSpans) -> (r: Count)
    requires
        is_boundary(text@, sentence.start as int),
        is_boundary(text@, sentence.end as int),
        quotes_aligned(protected@, text@),
    ensures
        r == count_spec(
            text@,
            byte_offsets(text@),
            protected@,
            char_index_at(text@, sentence.start as int),
            char_index_at(text@, sentence.end as int),
            sentence.indeterminate,
        ),
{
    let (chars, offsets) = decode(text);
    let a = find_char_index(chars.as_slice(), offsets.as_slice(), 0, sentence.start);
    let b = find_char_index(chars.as_slice(), offsets.as_slice(), 0, sentence.end);
    match (a, b) {
        (Some(a), Some(b)) => count_chars(&chars, &offsets, protected, a, b, sentence.indeterminate),
        _ => {
            proof {
                let ja = choose|j: int| 0 <= j <= text@.len() && byte_offset(text@, j) == sentence.start;
                let jb = choose|j: int| 0 <= j <= text@.len() && byte_offset(text@, j) == sentence.end;
                assert(offsets@[ja] == sentence.start);
                assert(offsets@[jb] == sentence.end);
            }
            Count::Indeterminate
        },
    }
}

/// Counts the sentence at characters `a..b`; balanced parenthetical text
/// counts once in its containing sentence.
pub(crate) fn count_chars(
    chars: &Vec<char>,
    offsets: &Vec<usize>,
    protected: &ProtectedSpans,
    a: usize,
    b: usize,
    sentence_indeterminate: bool,
) -> (r: Count)
    requires
        offsets_ok(chars@, offsets@),
        b <= chars@.len(),
        quotes_aligned(protected@, chars@),
    ensures
        r == count_spec(chars@, offsets@, protected@, a as int, b as int, sentence_indeterminate),
{
    if sentence_indeterminate || protected.is_indeterminate() {
        return Count::Indeterminate;
    }
    let ghost total = units_from(chars@, offsets@, protected@, a as int, b as int);
    let mut units: Vec<Unit> = Vec::new();
    let mut unclear = false;
    let mut i = if a < b { a } else { b };
    while i < b
        invariant
            offsets_ok(chars@, offsets@),
            b <= chars@.len(),
            quotes_aligned(protected@, chars@),
            i <= chars@.len(),
            forall|k: int|
                0 <= k < units@.len() ==> (#[trigger] units@[k]).start <= units@[k].end
                    <= chars@.len(),
            ({
                let (rest, u) = units_from(chars@, offsets@, protected@, i as int, b as int);
                units@ + rest == total.0 && (unclear || u) == total.1
            }),
        decreases chars@.len() - i,
    {
        let c = chars[i];
        let ghost before = units@;
        let unit: Option<Unit> = if c == '"' || c == '\u{201C}' {
            match protected.quotation_at(offsets[i]) {
                Some(span) => {
                    proof {
                        lemma_quotation_ends_later(chars@, offsets@, protected@, i as int, span);
                    }
                    match find_char_index(chars.as_slice(), offsets.as_slice(), i, span.end) {
                        Some(j) => Some(Unit { start: i, end: j, kind: UnitKind::Other }),
                        None => None,
                    }
                },
                None => None,
            }
        } else if c == '(' {
            parenthetical_unit(chars.as_slice(), i)
        } else if is_ascii_digit(c) {
            Some(number_unit_at(chars.as_slice(), i))
        } else if is_alphabetic(c) {
            Some(hyphenated_unit_at(chars.as_slice(), i))
        } else {
            None
        };
        match unit {
            Some(u) => {
                units.push(u);
                i = if u.end > i { u.end } else { i + 1 };
            },
            None => {
                unclear = unclear || (c == '\'' || c == '\u{2018}' || c == '\u{2019}' || c == '\u{2032}' || c
                    == '\u{2033}' || c == '\u{2035}' || c == '\u{2036}' || c == '/' || c == '\\')
                    || is_unresolved_grouping_mark(chars.as_slice(), i);
                i = i + 1;
            },
        }
    }
    if unclear || has_meaning_choice(chars.as_slice(), &units) {
        Count::Indeterminate
    } else {
        Count::Exact(units.len())
    }
}

} // verus!
