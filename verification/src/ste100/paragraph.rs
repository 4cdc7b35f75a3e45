//! Paragraph boundaries: blank lines outside quotations.
use std::ops::Range;

use vstd::prelude::*;
use crate::text::{
    lemma_trim_end, lemma_trim_start, byte_offsets, decode, offsets_ok, trim_bounds, trim_end_index, trim_start_index,
};
use super::protected_spans::{covers_offset, ProtectedSpans, QuoteReading};

verus! {

/// Paragraphs read so far, the start of the open paragraph if any, and the
/// end of its last nonblank line.
pub struct ParagraphScan {
    pub paragraphs: Seq<Range<usize>>,
    pub open: Option<usize>,
    pub end: usize,
}

pub open spec fn close_paragraph_spec(st: ParagraphScan) -> ParagraphScan {
    match st.open {
        Some(start) => ParagraphScan {
            paragraphs: st.paragraphs.push(Range { start: start, end: st.end }),
            open: None,
            end: st.end,
        },
        None => st,
    }
}

/// Reads the line at characters `a..b`: a blank line outside a quotation
/// closes the paragraph, any other nonblank line extends it.
pub open spec fn consume_line_spec(
    s: Seq<char>,
    offsets: Seq<usize>,
    st: ParagraphScan,
    a: int,
    b: int,
    protected_newline: bool,
) -> ParagraphScan {
    let ts = trim_start_index(s, a, b);
    if ts >= b && !protected_newline {
        close_paragraph_spec(st)
    } else if ts < b {
        let te = trim_end_index(s, ts, b);
        ParagraphScan {
            paragraphs: st.paragraphs,
            open: match st.open {
                Some(start) => Some(start),
                None => Some(offsets[ts]),
            },
            end: offsets[te],
        }
    } else {
        st
    }
}

/// The line content before the line feed at `n` ends at `n`, or before a
/// carriage return just ahead of it.
pub open spec fn content_end(s: Seq<char>, n: int) -> int {
    if n > 0 && s[n - 1] == '\r' {
        n - 1
    } else {
        n
    }
}

/// State after the first `i` characters, with the start of the current line.
pub open spec fn paragraph_state(
    s: Seq<char>,
    offsets: Seq<usize>,
    protected: QuoteReading,
    i: int,
) -> (ParagraphScan, int)
    decreases i,
{
    if i <= 0 {
        (ParagraphScan { paragraphs: Seq::empty(), open: None, end: 0 }, 0)
    } else {
        let (st, line_start) = paragraph_state(s, offsets, protected, i - 1);
        let n = i - 1;
        if s[n] == '\n' {
            (
                consume_line_spec(
                    s,
                    offsets,
                    st,
                    line_start,
                    content_end(s, n),
                    covers_offset(protected, offsets[n] as int),
                ),
                n + 1,
            )
        } else {
            (st, line_start)
        }
    }
}

/// A carriage return outside quotations that no line feed follows.
pub open spec fn unpaired_carriage_return(s: Seq<char>, offsets: Seq<usize>, protected: QuoteReading) -> bool {
    exists|i: int|
        0 <= i < s.len() && s[i] == '\r' && !covers_offset(protected, offsets[i] as int) && !(i + 1
            < s.len() && s[i + 1] == '\n') && #[trigger] s[i] == s[i]
}

/// The paragraphs of `s` as byte ranges, or `None` when quotations or line
/// breaks leave them indeterminate.
pub open spec fn paragraphs_of(s: Seq<char>, offsets: Seq<usize>, protected: QuoteReading) -> Option<
    Seq<Range<usize>>,
> {
    if protected is Indeterminate || unpaired_carriage_return(s, offsets, protected) {
        None
    } else {
        let (st, line_start) = paragraph_state(s, offsets, protected, s.len() as int);
        Some(
            close_paragraph_spec(
                consume_line_spec(s, offsets, st, line_start, s.len() as int, false),
            ).paragraphs,
        )
    }
}

/// `r` runs from one character boundary of `s` to a later one.
pub open spec fn aligned_range(offsets: Seq<usize>, n: int, r: Range<usize>) -> bool {
    exists|a: int, b: int| 0 <= a <= b <= n && r.start == offsets[a] && r.end == offsets[b]
}

pub open spec fn ranges_aligned(offsets: Seq<usize>, n: int, ps: Seq<Range<usize>>) -> bool {
    forall|k: int| 0 <= k < ps.len() ==> #[trigger] aligned_range(offsets, n, ps[k])
}

pub open spec fn scan_aligned(offsets: Seq<usize>, n: int, st: ParagraphScan, limit: int) -> bool {
    &&& forall|k: int| 0 <= k < st.paragraphs.len() ==> #[trigger] aligned_range(offsets, n, st.paragraphs[k])
    &&& st.open matches Some(x) ==> exists|a: int, b: int|
        0 <= a <= b <= limit && x == offsets[a] && st.end == offsets[b]
}

proof fn lemma_consume_line_aligned(
    s: Seq<char>,
    offsets: Seq<usize>,
    st: ParagraphScan,
    a: int,
    b: int,
    protected_newline: bool,
)
    requires
        0 <= a <= b <= s.len(),
        scan_aligned(offsets, s.len() as int, st, a),
    ensures
        scan_aligned(offsets, s.len() as int, consume_line_spec(s, offsets, st, a, b, protected_newline), b),
        scan_aligned(offsets, s.len() as int, close_paragraph_spec(consume_line_spec(s, offsets, st, a, b, protected_newline)), b),
{
    lemma_trim_start(s, a, b);
    let ts = trim_start_index(s, a, b);
    lemma_trim_end(s, ts, b);
    let r = consume_line_spec(s, offsets, st, a, b, protected_newline);
    let c = close_paragraph_spec(st);
    assert forall|k: int| 0 <= k < c.paragraphs.len() implies #[trigger] aligned_range(offsets, s.len() as int, c.paragraphs[k]) by {
        if k < st.paragraphs.len() {
            assert(c.paragraphs[k] == st.paragraphs[k]);
        }
    }
    let c2 = close_paragraph_spec(r);
    assert forall|k: int| 0 <= k < c2.paragraphs.len() implies #[trigger] aligned_range(offsets, s.len() as int, c2.paragraphs[k]) by {
        if k < r.paragraphs.len() {
            assert(c2.paragraphs[k] == r.paragraphs[k]);
        }
    }
}

proof fn lemma_paragraph_state_aligned(s: Seq<char>, offsets: Seq<usize>, protected: QuoteReading, i: int)
    requires
        0 <= i <= s.len(),
    ensures
        ({
            let (st, line_start) = paragraph_state(s, offsets, protected, i);
            &&& scan_aligned(offsets, s.len() as int, st, line_start)
            &&& 0 <= line_start <= i
            &&& (line_start == 0 || s[line_start - 1] == '\n')
        }),
    decreases i,
{
    if i > 0 {
        lemma_paragraph_state_aligned(s, offsets, protected, i - 1);
        let (st, line_start) = paragraph_state(s, offsets, protected, i - 1);
        let n = i - 1;
        if s[n] == '\n' {
            lemma_consume_line_aligned(
                s,
                offsets,
                st,
                line_start,
                content_end(s, n),
                covers_offset(protected, offsets[n] as int),
            );
            let r = consume_line_spec(s, offsets, st, line_start, content_end(s, n), covers_offset(protected, offsets[n] as int));
            if r.open is Some {
                let x = r.open->0;
                let (a, b) = choose|a: int, b: int| 0 <= a <= b <= content_end(s, n) && x == offsets[a] && r.end == offsets[b];
                assert(0 <= a <= b <= n + 1 && x == offsets[a] && r.end == offsets[b]);
            }
        }
    }
}

/// Every paragraph runs from one character boundary of `s` to a later one.
pub proof fn lemma_paragraphs_aligned(s: Seq<char>, offsets: Seq<usize>, protected: QuoteReading)
    ensures
        paragraphs_of(s, offsets, protected) is Some ==> ranges_aligned(
            offsets,
            s.len() as int,
            paragraphs_of(s, offsets, protected)->0,
        ),
{
    lemma_paragraph_state_aligned(s, offsets, protected, s.len() as int);
    let (st, line_start) = paragraph_state(s, offsets, protected, s.len() as int);
    lemma_consume_line_aligned(s, offsets, st, line_start, s.len() as int, false);
}

fn has_unpaired_carriage_return(chars: &Vec<char>, offsets: &Vec<usize>, protected: &ProtectedSpans) -> (r: bool)
    requires
        offsets_ok(chars@, offsets@),
    ensures
        r == unpaired_carriage_return(chars@, offsets@, protected@),
{
    let n = chars.len();
    let mut i: usize = 0;
    while i < n
        invariant
            n == chars@.len(),
            offsets_ok(chars@, offsets@),
            0 <= i <= n,
            forall|j: int|
                0 <= j < i ==> !(chars@[j] == '\r' && !covers_offset(protected@, offsets@[j] as int)
                    && !(j + 1 < chars@.len() && chars@[j + 1] == '\n')),
        decreases n - i,
    {
        if chars[i] == '\r' && !protected.contains_offset(offsets[i]) && !(i + 1 < n && chars[i
            + 1] == '\n') {
            return true;
        }
        i = i + 1;
    }
    false
}

fn consume_line(
    chars: &Vec<char>,
    offsets: &Vec<usize>,
    paragraphs: &mut Vec<Range<usize>>,
    open: &mut Option<usize>,
    end: &mut usize,
    a: usize,
    b: usize,
    protected_newline: bool,
)
    requires
        offsets_ok(chars@, offsets@),
        a <= b <= chars@.len(),
    ensures
        consume_line_spec(
            chars@,
            offsets@,
            ParagraphScan { paragraphs: old(paragraphs)@, open: *old(open), end: *old(end) },
            a as int,
            b as int,
            protected_newline,
        ) == (ParagraphScan { paragraphs: final(paragraphs)@, open: *final(open), end: *final(end) }),
{
    let (ts, te) = trim_bounds(chars.as_slice(), a, b);
    if ts >= b && !protected_newline {
        match *open {
            Some(start) => {
                paragraphs.push(Range { start: start, end: *end });
                *open = None;
            },
            None => {},
        }
    } else if ts < b {
        if open.is_none() {
            *open = Some(offsets[ts]);
        }
        *end = offsets[te];
    }
}

pub(crate) fn scan_chars(chars: &Vec<char>, offsets: &Vec<usize>, protected: &ProtectedSpans) -> (r: Option<
    Vec<Range<usize>>,
>)
    requires
        offsets_ok(chars@, offsets@),
    ensures
        match r {
            Some(v) => paragraphs_of(chars@, offsets@, protected@) == Some(v@),
            None => paragraphs_of(chars@, offsets@, protected@) is None,
        },
{
    if protected.is_indeterminate() || has_unpaired_carriage_return(chars, offsets, protected) {
        return None;
    }
    let n = chars.len();
    let mut paragraphs: Vec<Range<usize>> = Vec::new();
    let mut open: Option<usize> = None;
    let mut end: usize = 0;
    let mut line_start: usize = 0;
    let mut i: usize = 0;
    while i < n
        invariant
            n == chars@.len(),
            offsets_ok(chars@, offsets@),
            0 <= line_start <= i <= n,
            line_start == 0 || chars@[line_start - 1] == '\n',
            paragraph_state(chars@, offsets@, protected@, i as int) == (
                ParagraphScan { paragraphs: paragraphs@, open, end },
                line_start as int,
            ),
        decreases n - i,
    {
        if chars[i] == '\n' {
            let ce = if i > 0 && chars[i - 1] == '\r' { i - 1 } else { i };
            let protected_newline = protected.contains_offset(offsets[i]);
            consume_line(chars, offsets, &mut paragraphs, &mut open, &mut end, line_start, ce, protected_newline);
            line_start = i + 1;
        }
        i = i + 1;
    }
    consume_line(chars, offsets, &mut paragraphs, &mut open, &mut end, line_start, n, false);
    match open {
        Some(start) => {
            paragraphs.push(Range { start: start, end: end });
        },
        None => {},
    }
    Some(paragraphs)
}

/// The paragraphs of `text` as byte ranges: blank lines outside quotations
/// separate them. `None` when the quote structure or a lone carriage return
/// leaves the boundaries indeterminate.
pub fn scan(text: &str, protected: &ProtectedSpans) -> (r: Option<Vec<Range<usize>>>)
    ensures
        match r {
            Some(v) => paragraphs_of(text@, byte_offsets(text@), protected@) == Some(v@),
            None => paragraphs_of(text@, byte_offsets(text@), protected@) is None,
        },
{
    let (chars, offsets) = decode(text);
    scan_chars(&chars, &offsets, protected)
}

} // verus!
