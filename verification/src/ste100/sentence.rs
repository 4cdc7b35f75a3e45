//! Sentence boundaries in descriptive text.
use std::ops::Range;

use vstd::prelude::*;
use crate::text::{
    char_index_at, find_char_index, is_boundary, lemma_byte_offset_monotonic, lemma_byte_offset_step, lemma_char_index_at,
    byte_offsets,
    alphabetic, ascii_digit, decode, is_alphabetic, is_ascii_digit, is_lowercase,
    is_whitespace, lemma_offsets_increase, lemma_trim_end, lemma_trim_start, lowercase,
    offsets_ok, trim_bounds, trim_end_index, trim_start_index, whitespace,
};
use super::protected_spans::{covers_offset, ProtectedSpans, QuoteReading};

verus! {

/// A sentence as a UTF-8 byte range; `indeterminate` when its boundaries or
/// content cannot be read mechanically.
#[derive(Clone, Copy, Debug)]
pub struct Sentence {
    pub start: usize,
    pub end: usize,
    pub indeterminate: bool,
}

/// The `.` at index `i` stands between two ASCII digits read within `lo..hi`.
pub open spec fn decimal_point_at(s: Seq<char>, lo: int, hi: int, i: int) -> bool {
    lo < i && i + 1 < hi && ascii_digit(s[i - 1]) && ascii_digit(s[i + 1])
}

/// After the colon at `p`, the whitespace that follows it, before `b`,
/// holds a line break.
pub open spec fn colon_breaks_line(s: Seq<char>, p: int, b: int) -> bool {
    exists|q: int|
        p < q < b && (s[q] == '\n' || s[q] == '\r') && #[trigger] all_whitespace(s, p + 1, q + 1)
}

/// Every character in `a..b` is whitespace.
pub open spec fn all_whitespace(s: Seq<char>, a: int, b: int) -> bool {
    forall|r: int| a <= r < b ==> whitespace(#[trigger] s[r])
}

/// `a..b` holds a colon followed, within its run of whitespace, by a line
/// break.
pub open spec fn list_like_colon(s: Seq<char>, a: int, b: int) -> bool {
    exists|p: int| a <= p < b && s[p] == ':' && #[trigger] colon_breaks_line(s, p, b)
}

/// `a..b` holds `?`, `!`, or a `.` that is no decimal point within `a..b`.
pub open spec fn internal_sentence_punctuation(s: Seq<char>, a: int, b: int) -> bool {
    exists|i: int| a <= i < b && #[trigger] ends_sentence_within(s, a, b, i)
}

pub open spec fn ends_sentence_within(s: Seq<char>, a: int, b: int, i: int) -> bool {
    s[i] == '?' || s[i] == '!' || (s[i] == '.' && !decimal_point_at(s, a, b, i))
}

/// What follows a period at index `j`: a letter or a period directly, or a
/// lowercase character after whitespace, leaves the boundary unclear.
pub open spec fn unclear_period_boundary(s: Seq<char>, j: int) -> bool {
    if j >= s.len() {
        false
    } else if !whitespace(s[j]) {
        alphabetic(s[j]) || s[j] == '.'
    } else {
        let k = trim_start_index(s, j, s.len() as int);
        k < s.len() && lowercase(s[k])
    }
}

/// Appends the sentence made of `a..b` with surrounding whitespace removed,
/// unless nothing is left.
pub open spec fn push_trimmed_spec(
    sentences: Seq<Sentence>,
    s: Seq<char>,
    offsets: Seq<usize>,
    a: int,
    b: int,
    indeterminate: bool,
) -> Seq<Sentence> {
    let ts = trim_start_index(s, a, b);
    let te = trim_end_index(s, ts, b);
    if ts < b {
        sentences.push(
            Sentence {
                start: offsets[ts],
                end: offsets[te],
                indeterminate: indeterminate || list_like_colon(s, ts, te),
            },
        )
    } else {
        sentences
    }
}

/// Reading state: sentences so far, where the current sentence starts, the
/// open parentheses, and whether the current sentence is indeterminate.
pub struct SentenceScan {
    pub sentences: Seq<Sentence>,
    pub start: usize,
    pub parens: Seq<usize>,
    pub indeterminate: bool,
}

pub open spec fn is_terminal(c: char) -> bool {
    c == '.' || c == '?' || c == '!'
}

pub open spec fn sentence_step(
    s: Seq<char>,
    offsets: Seq<usize>,
    protected: QuoteReading,
    st: SentenceScan,
    i: int,
) -> SentenceScan {
    let c = s[i];
    if covers_offset(protected, offsets[i] as int) {
        st
    } else if c == '(' {
        SentenceScan {
            indeterminate: st.indeterminate || st.parens.len() > 0,
            parens: st.parens.push(i as usize),
            ..st
        }
    } else if c == ')' {
        if st.parens.len() > 0 {
            let open = st.parens.last() as int;
            let rest = st.parens.drop_last();
            SentenceScan {
                sentences: push_trimmed_spec(
                    st.sentences,
                    s,
                    offsets,
                    open + 1,
                    i,
                    st.indeterminate || rest.len() > 0 || internal_sentence_punctuation(
                        s,
                        open + 1,
                        i,
                    ),
                ),
                parens: rest,
                ..st
            }
        } else {
            SentenceScan { indeterminate: true, ..st }
        }
    } else if is_terminal(c) && st.parens.len() == 0 && (c != '.' || !decimal_point_at(
        s,
        0,
        s.len() as int,
        i,
    )) {
        let unclear = c == '.' && unclear_period_boundary(s, i + 1);
        SentenceScan {
            sentences: push_trimmed_spec(
                st.sentences,
                s,
                offsets,
                st.start as int,
                i + 1,
                st.indeterminate || unclear,
            ),
            start: (i + 1) as usize,
            parens: st.parens,
            indeterminate: (protected is Indeterminate) || unclear,
        }
    } else {
        st
    }
}

/// The state after reading the characters `lo..i`.
pub open spec fn sentence_state(
    s: Seq<char>,
    offsets: Seq<usize>,
    protected: QuoteReading,
    lo: int,
    i: int,
) -> SentenceScan
    decreases i - lo,
{
    if i <= lo {
        SentenceScan {
            sentences: Seq::empty(),
            start: lo as usize,
            parens: Seq::empty(),
            indeterminate: protected is Indeterminate,
        }
    } else {
        sentence_step(s, offsets, protected, sentence_state(s, offsets, protected, lo, i - 1), i - 1)
    }
}

/// The sentences of the characters `lo..hi`.
pub open spec fn sentences_in(
    s: Seq<char>,
    offsets: Seq<usize>,
    protected: QuoteReading,
    lo: int,
    hi: int,
) -> Seq<Sentence> {
    let st = sentence_state(s, offsets, protected, lo, hi);
    push_trimmed_spec(
        st.sentences,
        s,
        offsets,
        st.start as int,
        hi,
        st.indeterminate || st.parens.len() > 0,
    )
}

/// `x` spans from one character boundary of `lo..hi` to a later one.
pub open spec fn aligned_sentence(offsets: Seq<usize>, lo: int, hi: int, x: Sentence) -> bool {
    exists|a: int, b: int| lo <= a <= b <= hi && x.start == offsets[a] && x.end == offsets[b]
}

pub open spec fn all_aligned(offsets: Seq<usize>, lo: int, hi: int, xs: Seq<Sentence>) -> bool {
    forall|k: int| 0 <= k < xs.len() ==> #[trigger] aligned_sentence(offsets, lo, hi, xs[k])
}

proof fn lemma_push_trimmed_aligned(
    sentences: Seq<Sentence>,
    s: Seq<char>,
    offsets: Seq<usize>,
    a: int,
    b: int,
    indeterminate: bool,
    lo: int,
    hi: int,
)
    requires
        lo <= a <= b <= hi,
        all_aligned(offsets, lo, hi, sentences),
    ensures
        all_aligned(offsets, lo, hi, push_trimmed_spec(sentences, s, offsets, a, b, indeterminate)),
{
    lemma_trim_start(s, a, b);
    let ts = trim_start_index(s, a, b);
    lemma_trim_end(s, ts, b);
    let r = push_trimmed_spec(sentences, s, offsets, a, b, indeterminate);
    assert forall|k: int| 0 <= k < r.len() implies #[trigger] aligned_sentence(offsets, lo, hi, r[k]) by {
        if k < sentences.len() {
            assert(r[k] == sentences[k]);
        } else {
            let te = trim_end_index(s, ts, b);
            assert(lo <= ts <= te <= hi && r[k].start == offsets[ts] && r[k].end == offsets[te]);
        }
    }
}

proof fn lemma_sentence_state_aligned(
    s: Seq<char>,
    offsets: Seq<usize>,
    protected: QuoteReading,
    lo: int,
    i: int,
    hi: int,
)
    requires
        0 <= lo <= i <= hi <= s.len(),
        s.len() <= usize::MAX,
    ensures
        ({
            let st = sentence_state(s, offsets, protected, lo, i);
            &&& all_aligned(offsets, lo, hi, st.sentences)
            &&& lo <= st.start <= i
            &&& forall|k: int| 0 <= k < st.parens.len() ==> lo <= #[trigger] st.parens[k] < i
        }),
    decreases i - lo,
{
    if i > lo {
        lemma_sentence_state_aligned(s, offsets, protected, lo, i - 1, hi);
        let st = sentence_state(s, offsets, protected, lo, i - 1);
        let n = i - 1;
        let c = s[n];
        if covers_offset(protected, offsets[n] as int) {
        } else if c == '(' {
            let ps = st.parens.push(n as usize);
            assert forall|k: int| 0 <= k < ps.len() implies lo <= #[trigger] ps[k] < i by {
                if k < st.parens.len() {
                    assert(ps[k] == st.parens[k]);
                }
            }
        } else if c == ')' {
            if st.parens.len() > 0 {
                let open = st.parens.last() as int;
                let ps = st.parens.drop_last();
                assert forall|k: int| 0 <= k < ps.len() implies lo <= #[trigger] ps[k] < i by {
                    assert(ps[k] == st.parens[k]);
                }
                lemma_push_trimmed_aligned(
                    st.sentences,
                    s,
                    offsets,
                    open + 1,
                    n,
                    st.indeterminate || st.parens.drop_last().len() > 0
                        || internal_sentence_punctuation(s, open + 1, n),
                    lo,
                    hi,
                );
            }
        } else if is_terminal(c) && st.parens.len() == 0 && (c != '.' || !decimal_point_at(
            s,
            0,
            s.len() as int,
            n,
        )) {
            lemma_push_trimmed_aligned(
                st.sentences,
                s,
                offsets,
                st.start as int,
                i,
                st.indeterminate || (c == '.' && unclear_period_boundary(s, i)),
                lo,
                hi,
            );
        }
    }
}

/// Every sentence found in `lo..hi` runs from one character boundary of
/// that range to a later one.
pub proof fn lemma_sentences_aligned(
    s: Seq<char>,
    offsets: Seq<usize>,
    protected: QuoteReading,
    lo: int,
    hi: int,
)
    requires
        0 <= lo <= hi <= s.len(),
        s.len() <= usize::MAX,
    ensures
        all_aligned(offsets, lo, hi, sentences_in(s, offsets, protected, lo, hi)),
{
    lemma_sentence_state_aligned(s, offsets, protected, lo, hi, hi);
    let st = sentence_state(s, offsets, protected, lo, hi);
    lemma_push_trimmed_aligned(
        st.sentences,
        s,
        offsets,
        st.start as int,
        hi,
        st.indeterminate || st.parens.len() > 0,
        lo,
        hi,
    );
}

fn is_decimal_point(s: &[char], lo: usize, hi: usize, i: usize) -> (b: bool)
    requires
        lo <= i < hi <= s@.len(),
    ensures
        b == decimal_point_at(s@, lo as int, hi as int, i as int),
{
    lo < i && i + 1 < hi && is_ascii_digit(s[i - 1]) && is_ascii_digit(s[i + 1])
}

fn has_list_like_colon(s: &[char], a: usize, b: usize) -> (r: bool)
    requires
        a <= b <= s@.len(),
    ensures
        r == list_like_colon(s@, a as int, b as int),
{
    let mut p = a;
    while p < b
        invariant
            a <= p <= b <= s@.len(),
            forall|pp: int| a <= pp < p && s@[pp] == ':' ==> !#[trigger] colon_breaks_line(s@, pp, b as int),
        decreases b - p,
    {
        if s[p] == ':' {
            let mut q = p + 1;
            while q < b && is_whitespace(s[q]) && s[q] != '\n' && s[q] != '\r'
                invariant
                    p < q <= b <= s@.len(),
                    all_whitespace(s@, p + 1, q as int),
                    forall|r: int| p < r < q ==> s@[r] != '\n' && s@[r] != '\r',
                decreases b - q,
            {
                q = q + 1;
            }
            if q < b && is_whitespace(s[q]) {
                assert(all_whitespace(s@, p + 1, q + 1));
                assert(colon_breaks_line(s@, p as int, b as int));
                return true;
            }
            assert(!colon_breaks_line(s@, p as int, b as int)) by {
                if colon_breaks_line(s@, p as int, b as int) {
                    let qq = choose|qq: int|
                        p < qq < b && (s@[qq] == '\n' || s@[qq] == '\r') && #[trigger] all_whitespace(
                            s@,
                            p + 1,
                            qq + 1,
                        );
                    if qq < q {
                    } else if qq > q {
                        assert(whitespace(s@[q as int]));
                    }
                }
            }
        }
        p = p + 1;
    }
    false
}

fn has_internal_sentence_punctuation(s: &[char], a: usize, b: usize) -> (r: bool)
    requires
        a <= b <= s@.len(),
    ensures
        r == internal_sentence_punctuation(s@, a as int, b as int),
{
    let mut i = a;
    while i < b
        invariant
            a <= i <= b <= s@.len(),
            forall|j: int| a <= j < i ==> !#[trigger] ends_sentence_within(s@, a as int, b as int, j),
        decreases b - i,
    {
        let c = s[i];
        if c == '?' || c == '!' || (c == '.' && !is_decimal_point(s, a, b, i)) {
            assert(ends_sentence_within(s@, a as int, b as int, i as int));
            return true;
        }
        i = i + 1;
    }
    false
}

fn is_unclear_period_boundary(s: &[char], j: usize) -> (r: bool)
    requires
        j <= s@.len(),
    ensures
        r == unclear_period_boundary(s@, j as int),
{
    if j >= s.len() {
        return false;
    }
    let n = s[j];
    if !is_whitespace(n) {
        return is_alphabetic(n) || n == '.';
    }
    let (k, _) = trim_bounds(s, j, s.len());
    k < s.len() && is_lowercase(s[k])
}

fn push_trimmed(
    sentences: &mut Vec<Sentence>,
    s: &[char],
    offsets: &[usize],
    a: usize,
    b: usize,
    indeterminate: bool,
)
    requires
        offsets_ok(s@, offsets@),
        a <= b <= s@.len(),
    ensures
        final(sentences)@ == push_trimmed_spec(old(sentences)@, s@, offsets@, a as int, b as int, indeterminate),
{
    let (ts, te) = trim_bounds(s, a, b);
    if ts < b {
        let colon = has_list_like_colon(s, ts, te);
        sentences.push(
            Sentence { start: offsets[ts], end: offsets[te], indeterminate: indeterminate || colon },
        );
    }
}

/// Sentences of the characters `lo..hi`.
pub(crate) fn scan_chars(
    chars: &Vec<char>,
    offsets: &Vec<usize>,
    protected: &ProtectedSpans,
    lo: usize,
    hi: usize,
) -> (r: Vec<Sentence>)
    requires
        offsets_ok(chars@, offsets@),
        lo <= hi <= chars@.len(),
    ensures
        r@ == sentences_in(chars@, offsets@, protected@, lo as int, hi as int),
{
    let mut sentences: Vec<Sentence> = Vec::new();
    let mut start = lo;
    let mut parens: Vec<usize> = Vec::new();
    let mut indeterminate = protected.is_indeterminate();
    let mut i = lo;
    while i < hi
        invariant
            offsets_ok(chars@, offsets@),
            lo <= i <= hi <= chars@.len(),
            lo <= start <= i,
            forall|k: int| 0 <= k < parens@.len() ==> lo <= #[trigger] parens@[k] < i,
            sentence_state(chars@, offsets@, protected@, lo as int, i as int) == (SentenceScan {
                sentences: sentences@,
                start,
                parens: parens@,
                indeterminate,
            }),
        decreases hi - i,
    {
        let c = chars[i];
        if protected.contains_offset(offsets[i]) {
        } else if c == '(' {
            indeterminate = indeterminate || parens.len() > 0;
            parens.push(i);
        } else if c == ')' {
            if parens.len() > 0 {
                let open = parens.pop().unwrap();
                let inner = indeterminate || parens.len() > 0
                    || has_internal_sentence_punctuation(chars.as_slice(), open + 1, i);
                push_trimmed(&mut sentences, chars.as_slice(), offsets.as_slice(), open + 1, i, inner);
            } else {
                indeterminate = true;
            }
        } else if (c == '.' || c == '?' || c == '!') && parens.len() == 0 && (c != '.'
            || !is_decimal_point(chars.as_slice(), 0, chars.len(), i)) {
            let unclear = c == '.' && is_unclear_period_boundary(chars.as_slice(), i + 1);
            push_trimmed(
                &mut sentences,
                chars.as_slice(),
                offsets.as_slice(),
                start,
                i + 1,
                indeterminate || unclear,
            );
            start = i + 1;
            indeterminate = protected.is_indeterminate() || unclear;
        }
        i = i + 1;
    }
    let last_indeterminate = indeterminate || parens.len() > 0;
    push_trimmed(&mut sentences, chars.as_slice(), offsets.as_slice(), start, hi, last_indeterminate);
    sentences
}

/// Splits all of `text` into sentences. Ordinary colons stay within a
/// sentence; a colon followed by a line break leaves it indeterminate.
pub fn scan(text: &str, protected: &ProtectedSpans) -> (r: Vec<Sentence>)
    ensures
        r@ == sentences_in(text@, byte_offsets(text@), protected@, 0, text@.len() as int),
{
    let (chars, offsets) = decode(text);
    scan_chars(&chars, &offsets, protected, 0, chars.len())
}

/// Splits the byte range `range` of `text` into sentences.
pub fn scan_range(text: &str, protected: &ProtectedSpans, range: Range<usize>) -> (r: Vec<Sentence>)
    requires
        range.start <= range.end,
        is_boundary(text@, range.start as int),
        is_boundary(text@, range.end as int),
    ensures
        r@ == sentences_in(
            text@,
            byte_offsets(text@),
            protected@,
            char_index_at(text@, range.start as int),
            char_index_at(text@, range.end as int),
        ),
{
    let (chars, offsets) = decode(text);
    let ghost ja = char_index_at(text@, range.start as int);
    let ghost jb = char_index_at(text@, range.end as int);
    proof {
        lemma_char_index_at(text@, ja);
        lemma_char_index_at(text@, jb);
        if jb < ja {
            lemma_byte_offset_monotonic(text@, jb + 1, ja);
            lemma_byte_offset_step(text@, jb);
        }
    }
    let a = find_char_index(chars.as_slice(), offsets.as_slice(), 0, range.start);
    let b = find_char_index(chars.as_slice(), offsets.as_slice(), 0, range.end);
    match (a, b) {
        (Some(a), Some(b)) => scan_chars(&chars, &offsets, protected, a, b),
        _ => Vec::new(),
    }
}

} // verus!
