//! Rule 4.2: contracted verb forms in descriptive text.
use vstd::prelude::*;
use crate::text::{
    alphabetic, chars_equal_str, is_alphanumeric, numeric, offsets_ok, sub_chars, ascii_lower,
    to_ascii_lower,
};
use super::protected_spans::{ProtectedSpans, protects_range, QuoteReading};

verus! {

/// A contracted verb token, as a UTF-8 byte range.
pub struct ContractedVerb {
    pub start: usize,
    pub end: usize,
}

/// The contracted forms recognized, in ASCII lowercase with a straight
/// apostrophe.
pub const CONTRACTED_FORMS: [&'static str; 80] = [
    "i'm", "you're", "we're", "they're", "who're", "what're", "there're", "i've", "you've",
    "we've", "they've", "who've", "what've", "could've", "should've", "would've", "might've",
    "must've", "i'll", "you'll", "he'll", "she'll", "it'll", "we'll", "they'll", "that'll",
    "who'll", "what'll", "there'll", "i'd", "you'd", "he'd", "she'd", "it'd", "we'd", "they'd",
    "that'd", "who'd", "what'd", "where'd", "when'd", "why'd", "how'd", "there'd", "he's",
    "she's", "it's", "that's", "what's", "who's", "where's", "when's", "why's", "how's",
    "there's", "here's", "ain't", "amn't", "aren't", "can't", "couldn't", "daren't", "didn't",
    "doesn't", "don't", "hadn't", "hasn't", "haven't", "isn't", "mayn't", "mightn't", "mustn't",
    "needn't", "oughtn't", "shan't", "shouldn't", "wasn't", "weren't", "won't", "wouldn't",
];

/// Characters that make up a token: letters, digits, `_` and apostrophes.
pub open spec fn token_char(c: char) -> bool {
    alphabetic(c) || numeric(c) || c == '_' || c == '\'' || c == '\u{2018}' || c == '\u{2019}'
        || c == '\u{2032}'
}

fn is_token_character(c: char) -> (b: bool)
    ensures
        b == token_char(c),
{
    is_alphanumeric(c) || c == '_' || c == '\'' || c == '\u{2018}' || c == '\u{2019}' || c
        == '\u{2032}'
}

/// The index just after the run of token characters that starts at `i`.
pub open spec fn run_end(s: Seq<char>, i: int) -> int
    decreases s.len() - i,
{
    if 0 <= i < s.len() && token_char(s[i]) {
        run_end(s, i + 1)
    } else {
        i
    }
}

/// One character of a token as the recognizer reads it.
pub open spec fn normalize_char(c: char) -> char {
    if c == '\u{2019}' {
        '\''
    } else {
        ascii_lower(c)
    }
}

pub open spec fn recognized(token: Seq<char>) -> bool {
    exists|k: int|
        0 <= k < 80 && #[trigger] CONTRACTED_FORMS[k]@ == token.map_values(|c: char| normalize_char(c))
}

/// Two characters a contraction may be written with interchangeably: the
/// same character, a typographic apostrophe (U+2019) and a straight one, or
/// two letters that differ only in ASCII case.
pub open spec fn spelled_alike(a: char, b: char) -> bool {
    ||| a == b
    ||| (a == '\u{2019}' && b == '\'')
    ||| (a == '\'' && b == '\u{2019}')
    ||| (a != '\u{2019}' && b != '\u{2019}' && ascii_lower(a) == ascii_lower(b))
}

/// A contraction is recognized however its apostrophes are written,
/// straight or typographic (U+2019), and whatever the ASCII case of its
/// letters: two tokens spelled alike character by character are both
/// recognized or both not.
pub proof fn law_contractions_read_alike_however_written(t1: Seq<char>, t2: Seq<char>)
    requires
        t1.len() == t2.len(),
        forall|k: int| 0 <= k < t1.len() ==> spelled_alike(#[trigger] t1[k], t2[k]),
    ensures
        recognized(t1) == recognized(t2),
{
    let n1 = t1.map_values(|c: char| normalize_char(c));
    let n2 = t2.map_values(|c: char| normalize_char(c));
    assert forall|k: int| 0 <= k < n1.len() implies n1[k] == n2[k] by {
        assert(spelled_alike(t1[k], t2[k]));
    }
    assert(n1 =~= n2);
}

/// Contracted tokens found from character index `i` on, as byte ranges.
pub open spec fn contracted_from(
    s: Seq<char>,
    offsets: Seq<usize>,
    protected: QuoteReading,
    i: int,
) -> Seq<(int, int)>
    decreases s.len() - i,
{
    if i < 0 || i >= s.len() {
        Seq::empty()
    } else if !token_char(s[i]) {
        contracted_from(s, offsets, protected, i + 1)
    } else {
        let e = run_end(s, i);
        proof {
            lemma_run_end(s, i + 1);
        }
        let rest = contracted_from(s, offsets, protected, e);
        if !protects_range(protected, offsets[i] as int, offsets[e] as int) && recognized(
            s.subrange(i, e),
        ) {
            seq![(offsets[i] as int, offsets[e] as int)] + rest
        } else {
            rest
        }
    }
}

pub proof fn lemma_run_end(s: Seq<char>, i: int)
    requires
        0 <= i <= s.len(),
    ensures
        i <= run_end(s, i) <= s.len(),
        forall|j: int| i <= j < run_end(s, i) ==> token_char(#[trigger] s[j]),
        run_end(s, i) < s.len() ==> !token_char(s[run_end(s, i)]),
    decreases s.len() - i,
{
    if i < s.len() && token_char(s[i]) {
        lemma_run_end(s, i + 1);
    }
}

fn is_recognized(token: &[char]) -> (b: bool)
    ensures
        b == recognized(token@),
{
    let mut normalized: Vec<char> = Vec::new();
    let mut i: usize = 0;
    while i < token.len()
        invariant
            0 <= i <= token@.len(),
            normalized@ == token@.subrange(0, i as int).map_values(|c: char| normalize_char(c)),
        decreases token@.len() - i,
    {
        let c = token[i];
        let n = if c == '\u{2019}' { '\'' } else { to_ascii_lower(c) };
        normalized.push(n);
        i = i + 1;
        assert(normalized@ =~= token@.subrange(0, i as int).map_values(|c: char| normalize_char(c)));
    }
    assert(token@.subrange(0, token@.len() as int) =~= token@);
    let mut k: usize = 0;
    while k < 80
        invariant
            0 <= k <= 80,
            normalized@ == token@.map_values(|c: char| normalize_char(c)),
            forall|j: int| 0 <= j < k ==> #[trigger] CONTRACTED_FORMS[j]@ != normalized@,
        decreases 80 - k,
    {
        if chars_equal_str(normalized.as_slice(), CONTRACTED_FORMS[k]) {
            return true;
        }
        k = k + 1;
    }
    false
}

/// Finds contracted verb tokens whose classification needs no grammar or
/// meaning choice, leaving protected quotations alone.
pub(crate) fn find_chars(chars: &Vec<char>, offsets: &Vec<usize>, protected: &ProtectedSpans) -> (r: Vec<
    ContractedVerb,
>)
    requires
        offsets_ok(chars@, offsets@),
    ensures
        r@.map_values(|v: ContractedVerb| (v.start as int, v.end as int)) == contracted_from(
            chars@,
            offsets@,
            protected@,
            0,
        ),
{
    let mut found: Vec<ContractedVerb> = Vec::new();
    let mut i: usize = 0;
    while i < chars.len()
        invariant
            offsets_ok(chars@, offsets@),
            0 <= i <= chars@.len(),
            found@.map_values(|v: ContractedVerb| (v.start as int, v.end as int)) + contracted_from(
                chars@,
                offsets@,
                protected@,
                i as int,
            ) == contracted_from(chars@, offsets@, protected@, 0),
        decreases chars@.len() - i,
    {
        if !is_token_character(chars[i]) {
            i = i + 1;
        } else {
            let mut e = i + 1;
            proof {
                lemma_run_end(chars@, i as int);
            }
            while e < chars.len() && is_token_character(chars[e])
                invariant
                    i < e <= chars@.len(),
                    run_end(chars@, i as int) == run_end(chars@, e as int),
                decreases chars@.len() - e,
            {
                e = e + 1;
            }
            let ghost before = found@;
            if !protected.protects(offsets[i], offsets[e]) && is_recognized(
                sub_chars(chars.as_slice(), i, e).as_slice(),
            ) {
                found.push(ContractedVerb { start: offsets[i], end: offsets[e] });
                assert(found@.map_values(|v: ContractedVerb| (v.start as int, v.end as int))
                    =~= before.map_values(|v: ContractedVerb| (v.start as int, v.end as int))
                    + seq![(offsets@[i as int] as int, offsets@[e as int] as int)]);
            }
            i = e;
        }
    }
    found
}

} // verus!
