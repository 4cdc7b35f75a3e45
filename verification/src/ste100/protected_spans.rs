//! Quoted text that the strict checks must leave alone.
use vstd::prelude::*;
use crate::text::{
    byte_offset, char_width, is_boundary, lemma_byte_offset_monotonic, lemma_byte_offset_step, lemma_char_index_at, decode, lemma_offsets_increase, lemma_offsets_step, offsets_ok,
    utf8_width,
};

verus! {

/// One balanced quotation: `start..end` covers the quote marks, and
/// `content_start..content_end` what lies between them. All are UTF-8 byte
/// offsets.
#[derive(Clone, Copy, Debug, PartialEq, Eq)]
pub struct ProtectedSpan {
    pub start: usize,
    pub content_start: usize,
    pub content_end: usize,
    pub end: usize,
}

/// Either the exact list of quotations, or `Indeterminate` when the quote
/// structure cannot be read mechanically.
#[derive(Clone, Debug)]
pub enum ProtectedSpans {
    Exact(Vec<ProtectedSpan>),
    Indeterminate,
}

/// The mathematical reading of [`ProtectedSpans`].
pub enum QuoteReading {
    Exact(Seq<ProtectedSpan>),
    Indeterminate,
}

impl View for ProtectedSpans {
    type V = QuoteReading;

    open spec fn view(&self) -> QuoteReading {
        match self {
            ProtectedSpans::Exact(spans) => QuoteReading::Exact(spans@),
            ProtectedSpans::Indeterminate => QuoteReading::Indeterminate,
        }
    }
}

pub open spec fn straight_quote() -> char {
    '"'
}

pub open spec fn curly_open() -> char {
    '\u{201C}'
}

pub open spec fn curly_close() -> char {
    '\u{201D}'
}

pub open spec fn is_quote_mark(c: char) -> bool {
    c == straight_quote() || c == curly_open() || c == curly_close()
}

/// The quotation opened at byte `start` and closed by `closing` at byte
/// `content_end`.
pub open spec fn quotation(start: int, content_end: int, closing: char) -> ProtectedSpan {
    ProtectedSpan {
        start: start as usize,
        content_start: (start + if closing == straight_quote() { 1int } else { 3int }) as usize,
        content_end: content_end as usize,
        end: (content_end + char_width(closing)) as usize,
    }
}

/// Reading state: `None` once the structure is indeterminate, else the
/// quotations closed so far and the open one, if any, as (curly, start).
pub type QuoteState = Option<(Seq<ProtectedSpan>, Option<(bool, int)>)>;

pub open spec fn quote_step(state: QuoteState, c: char, offset: int) -> QuoteState {
    match state {
        None => None,
        Some((spans, opening)) => match opening {
            None => if c == straight_quote() {
                Some((spans, Some((false, offset))))
            } else if c == curly_open() {
                Some((spans, Some((true, offset))))
            } else if c == curly_close() {
                None
            } else {
                state
            },
            Some((curly, start)) => if (!curly && c == straight_quote()) || (curly && c
                == curly_close()) {
                Some((spans.push(quotation(start, offset, c)), None))
            } else if is_quote_mark(c) {
                None
            } else {
                state
            },
        },
    }
}

/// The state after reading the first `i` characters of `s`.
pub open spec fn quote_state(s: Seq<char>, i: int) -> QuoteState
    decreases i,
{
    if i <= 0 {
        Some((Seq::empty(), None))
    } else {
        quote_step(quote_state(s, i - 1), s[i - 1], byte_offset(s, i - 1) as int)
    }
}

/// Once the quote structure is indeterminate, it stays so.
pub proof fn lemma_quote_state_stays_failed(s: Seq<char>, i: int, j: int)
    requires
        0 <= i <= j,
        quote_state(s, i) is None,
    ensures
        quote_state(s, j) is None,
    decreases j - i,
{
    if i < j {
        lemma_quote_state_stays_failed(s, i, j - 1);
    }
}

/// The protected quotations of `s`.
pub open spec fn protected_spans_of(s: Seq<char>) -> QuoteReading {
    match quote_state(s, s.len() as int) {
        Some((spans, None)) => QuoteReading::Exact(spans),
        _ => QuoteReading::Indeterminate,
    }
}

/// Identifies exact protected quoted spans or an indeterminate quote structure.
pub fn analyze(text: &str) -> (r: ProtectedSpans)
    ensures
        r@ == protected_spans_of(text@),
{
    let (chars, offsets) = decode(text);
    analyze_chars(&chars, &offsets)
}

pub(crate) fn analyze_chars(chars: &Vec<char>, offsets: &Vec<usize>) -> (r: ProtectedSpans)
    requires
        offsets_ok(chars@, offsets@),
    ensures
        r@ == protected_spans_of(chars@),
{
    let mut spans: Vec<ProtectedSpan> = Vec::new();
    let mut open_curly = false;
    let mut open_start: usize = 0;
    let mut is_open = false;
    let mut i: usize = 0;
    while i < chars.len()
        invariant
            offsets_ok(chars@, offsets@),
            0 <= i <= chars@.len(),
            quote_state(chars@, i as int) == Some(
                (spans@, if is_open { Some((open_curly, open_start as int)) } else { None }),
            ),
            is_open ==> open_start < offsets@[i as int],
        decreases chars@.len() - i,
    {
        let c = chars[i];
        let offset = offsets[i];
        proof {
            lemma_offsets_step(chars@, offsets@, i as int);
            lemma_offsets_increase(chars@, offsets@, i as int + 1, chars@.len() as int);
        }
        if !is_open {
            if c == '"' {
                is_open = true;
                open_curly = false;
                open_start = offset;
            } else if c == '\u{201C}' {
                is_open = true;
                open_curly = true;
                open_start = offset;
            } else if c == '\u{201D}' {
                proof {
                    lemma_quote_state_stays_failed(chars@, i + 1, chars@.len() as int);
                }
                return ProtectedSpans::Indeterminate;
            }
        } else if (!open_curly && c == '"') || (open_curly && c == '\u{201D}') {
            let content_start = if c == '"' { open_start + 1 } else { open_start + 3 };
            let end = offset + utf8_width(c);
            spans.push(
                ProtectedSpan { start: open_start, content_start, content_end: offset, end },
            );
            is_open = false;
        } else if c == '"' || c == '\u{201C}' || c == '\u{201D}' {
            proof {
                lemma_quote_state_stays_failed(chars@, i + 1, chars@.len() as int);
            }
            return ProtectedSpans::Indeterminate;
        }
        i = i + 1;
    }
    if is_open {
        ProtectedSpans::Indeterminate
    } else {
        ProtectedSpans::Exact(spans)
    }
}

/// Every quotation of `q` is nonempty as a byte range and ends on a
/// character boundary of `s`.
pub open spec fn quotes_aligned(q: QuoteReading, s: Seq<char>) -> bool {
    match q {
        QuoteReading::Exact(list) => spans_aligned(list, s),
        QuoteReading::Indeterminate => true,
    }
}

pub open spec fn spans_aligned(list: Seq<ProtectedSpan>, s: Seq<char>) -> bool {
    forall|k: int|
        0 <= k < list.len() ==> (#[trigger] list[k]).start < list[k].end && is_boundary(
            s,
            list[k].end as int,
        )
}

proof fn lemma_quote_state_aligned(s: Seq<char>, i: int)
    requires
        0 <= i <= s.len(),
        byte_offset(s, s.len() as int) <= usize::MAX,
    ensures
        quote_state(s, i) matches Some((spans, _)) ==> spans_aligned(spans, s),
        quote_state(s, i) matches Some((_, Some((_, start)))) ==> 0 <= start < byte_offset(s, i),
    decreases i,
{
    if i > 0 {
        lemma_quote_state_aligned(s, i - 1);
        lemma_byte_offset_step(s, i - 1);
        lemma_byte_offset_monotonic(s, i, s.len() as int);
        let prev = quote_state(s, i - 1);
        if let Some((spans, opening)) = prev {
            if let Some((curly, start)) = opening {
                let c = s[i - 1];
                if (!curly && c == straight_quote()) || (curly && c == curly_close()) {
                    lemma_byte_offset_step(s, i - 1);
                    lemma_char_index_at(s, i);
                    let q = quotation(start, byte_offset(s, i - 1) as int, c);
                    assert(q.end == byte_offset(s, i));
                    assert forall|k: int| 0 <= k < spans.push(q).len() implies (#[trigger] spans.push(
                        q,
                    )[k]).start < spans.push(q)[k].end && is_boundary(
                        s,
                        spans.push(q)[k].end as int,
                    ) by {
                        if k < spans.len() {
                            assert(spans.push(q)[k] == spans[k]);
                        }
                    }
                }
            }
        }
    }
}

/// The quotations that `analyze` finds are nonempty byte ranges that end
/// on character boundaries of the text.
pub proof fn lemma_protected_spans_aligned(s: Seq<char>)
    requires
        byte_offset(s, s.len() as int) <= usize::MAX,
    ensures
        quotes_aligned(protected_spans_of(s), s),
{
    lemma_quote_state_aligned(s, s.len() as int);
}

/// Whether `start..end` lies inside the content of one quotation; every
/// range counts as protected when the structure is indeterminate.
pub open spec fn protects_range(spans: QuoteReading, lo: int, hi: int) -> bool {
    match spans {
        QuoteReading::Exact(list) => some_content_holds(list, lo, hi),
        QuoteReading::Indeterminate => true,
    }
}

pub open spec fn some_content_holds(list: Seq<ProtectedSpan>, lo: int, hi: int) -> bool {
    exists|k: int| 0 <= k < list.len() && #[trigger] content_holds(list[k], lo, hi)
}

pub open spec fn content_holds(span: ProtectedSpan, start: int, end: int) -> bool {
    span.content_start <= start && end <= span.content_end
}

/// Whether `offset` lies inside one quotation, quote marks included; never
/// when the structure is indeterminate.
pub open spec fn covers_offset(spans: QuoteReading, offset: int) -> bool {
    match spans {
        QuoteReading::Exact(list) => some_span_covers(list, offset),
        QuoteReading::Indeterminate => false,
    }
}

pub open spec fn some_span_covers(list: Seq<ProtectedSpan>, offset: int) -> bool {
    exists|k: int| 0 <= k < list.len() && (#[trigger] list[k]).start <= offset && offset < list[k].end
}

/// Index of the first quotation in `list`, from index `k` on, that opens
/// at byte `start`.
pub open spec fn first_opening_at(list: Seq<ProtectedSpan>, start: int, k: int) -> Option<int>
    decreases list.len() - k,
{
    if k < 0 || k >= list.len() {
        None
    } else if list[k].start == start {
        Some(k)
    } else {
        first_opening_at(list, start, k + 1)
    }
}

pub proof fn lemma_first_opening_at(list: Seq<ProtectedSpan>, start: int, k: int)
    requires
        0 <= k,
    ensures
        first_opening_at(list, start, k) matches Some(j) ==> k <= j < list.len() && list[j].start
            == start,
    decreases list.len() - k,
{
    if 0 <= k < list.len() && list[k].start != start {
        lemma_first_opening_at(list, start, k + 1);
    }
}

/// The first quotation that opens at byte `start`.
pub open spec fn quotation_starting_at(spans: QuoteReading, start: int) -> Option<
    ProtectedSpan,
> {
    match spans {
        QuoteReading::Exact(list) => match first_opening_at(list, start, 0) {
            Some(k) => Some(list[k]),
            None => None,
        },
        QuoteReading::Indeterminate => None,
    }
}

impl ProtectedSpans {
    pub fn is_indeterminate(&self) -> (b: bool)
        ensures
            b == (self@ is Indeterminate),
    {
        match self {
            ProtectedSpans::Exact(_) => false,
            ProtectedSpans::Indeterminate => true,
        }
    }

    pub fn protects(&self, start: usize, end: usize) -> (b: bool)
        ensures
            b == protects_range(self@, start as int, end as int),
    {
        match self {
            ProtectedSpans::Exact(spans) => {
                let mut k: usize = 0;
                while k < spans.len()
                    invariant
                        self@ == QuoteReading::Exact(spans@),
                        0 <= k <= spans@.len(),
                        forall|j: int|
                            0 <= j < k ==> !((#[trigger] spans@[j]).content_start <= start && end
                                <= spans@[j].content_end),
                    decreases spans@.len() - k,
                {
                    if spans[k].content_start <= start && end <= spans[k].content_end {
                        assert(content_holds(spans@[k as int], start as int, end as int));

                        return true;
                    }
                    k = k + 1;
                }
                false
            },
            ProtectedSpans::Indeterminate => true,
        }
    }

    pub fn contains_offset(&self, offset: usize) -> (b: bool)
        ensures
            b == covers_offset(self@, offset as int),
    {
        match self {
            ProtectedSpans::Exact(spans) => {
                let mut k: usize = 0;
                while k < spans.len()
                    invariant
                        self@ == QuoteReading::Exact(spans@),
                        0 <= k <= spans@.len(),
                        forall|j: int|
                            0 <= j < k ==> !((#[trigger] spans@[j]).start <= offset && offset
                                < spans@[j].end),
                    decreases spans@.len() - k,
                {
                    if spans[k].start <= offset && offset < spans[k].end {
                        assert(spans@[k as int].start <= offset);
                        return true;
                    }
                    k = k + 1;
                }
                false
            },
            ProtectedSpans::Indeterminate => false,
        }
    }

    pub fn quotation_at(&self, start: usize) -> (r: Option<ProtectedSpan>)
        ensures
            r == quotation_starting_at(self@, start as int),
    {
        match self {
            ProtectedSpans::Exact(spans) => {
                let mut k: usize = 0;
                while k < spans.len()
                    invariant
                        self@ == QuoteReading::Exact(spans@),
                        0 <= k <= spans@.len(),
                        first_opening_at(spans@, start as int, 0) == first_opening_at(
                            spans@,
                            start as int,
                            k as int,
                        ),
                    decreases spans@.len() - k,
                {
                    if spans[k].start == start {
                        return Some(spans[k]);
                    }
                    k = k + 1;
                }
                None
            },
            ProtectedSpans::Indeterminate => None,
        }
    }
}

} // verus!
