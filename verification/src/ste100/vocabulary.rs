//! Rule 1.1 support: classifying words and phrases by dictionary membership.
use vstd::prelude::*;
use crate::text::{
    alphabetic, ascii_digit, decode, is_alphabetic, is_ascii_digit, is_whitespace, lowercased,
    offsets_ok, sub_chars, to_lowercase, whitespace, chars_equal, byte_offsets,
};
use super::protected_spans::{protects_range, ProtectedSpans, QuoteReading};
use super::sentence::all_whitespace;
use super::{DictionaryEntry, DictionaryImport, DictionaryStatus, Span, VocabularyCategory, WordUse};

verus! {

/// A `_` or a digit next to a word marks it as part of an identifier.
pub open spec fn identifier_edge(c: char) -> bool {
    c == '_' || ascii_digit(c)
}

/// The character at `i` continues a word: a letter, or an apostrophe
/// directly followed by a letter.
pub open spec fn continues_word(s: Seq<char>, i: int) -> bool {
    alphabetic(s[i]) || ((s[i] == '\'' || s[i] == '\u{2019}') && i + 1 < s.len() && alphabetic(
        s[i + 1],
    ))
}

pub open spec fn word_end(s: Seq<char>, i: int) -> int
    decreases s.len() - i,
{
    if 0 <= i < s.len() && continues_word(s, i) {
        word_end(s, i + 1)
    } else {
        i
    }
}

pub proof fn lemma_word_end(s: Seq<char>, i: int)
    requires
        0 <= i <= s.len(),
    ensures
        i <= word_end(s, i) <= s.len(),
    decreases s.len() - i,
{
    if i < s.len() && continues_word(s, i) {
        lemma_word_end(s, i + 1);
    }
}

/// A word token at characters `start..end`.
#[derive(Clone, Copy, Debug)]
pub struct TokenSpan {
    pub start: usize,
    pub end: usize,
    pub identifier: bool,
}

pub open spec fn token_at(s: Seq<char>, p: int) -> TokenSpan {
    let e = word_end(s, p + 1);
    TokenSpan {
        start: p as usize,
        end: e as usize,
        identifier: (p > 0 && identifier_edge(s[p - 1])) || (e < s.len() && identifier_edge(s[e])),
    }
}

/// The word tokens of `s` from character `p` on: each starts with a letter.
pub open spec fn tokens_from(s: Seq<char>, p: int) -> Seq<TokenSpan>
    decreases s.len() - p,
{
    if p < 0 || p >= s.len() {
        Seq::empty()
    } else if !alphabetic(s[p]) {
        tokens_from(s, p + 1)
    } else {
        proof {
            lemma_word_end(s, p + 1);
        }
        seq![token_at(s, p)] + tokens_from(s, word_end(s, p + 1))
    }
}

/// The lowercased text of a token.
pub open spec fn folded(s: Seq<char>, t: TokenSpan) -> Seq<char> {
    lowercased(s.subrange(t.start as int, t.end as int))
}

pub open spec fn nonws_end(s: Seq<char>, i: int) -> int
    decreases s.len() - i,
{
    if 0 <= i < s.len() && !whitespace(s[i]) {
        nonws_end(s, i + 1)
    } else {
        i
    }
}

pub proof fn lemma_nonws_end(s: Seq<char>, i: int)
    requires
        0 <= i <= s.len(),
    ensures
        i <= nonws_end(s, i) <= s.len(),
        i < s.len() && !whitespace(s[i]) ==> i < nonws_end(s, i),
    decreases s.len() - i,
{
    if i < s.len() && !whitespace(s[i]) {
        lemma_nonws_end(s, i + 1);
    }
}

/// `str::split_whitespace` from index `i` on.
pub open spec fn words_of(s: Seq<char>, i: int) -> Seq<Seq<char>>
    decreases s.len() - i,
{
    if i < 0 || i >= s.len() {
        Seq::empty()
    } else if whitespace(s[i]) {
        words_of(s, i + 1)
    } else {
        proof {
            lemma_nonws_end(s, i);
        }
        seq![s.subrange(i, nonws_end(s, i))] + words_of(s, nonws_end(s, i))
    }
}

/// The lowercased words of one word form.
pub open spec fn form_words(form: Seq<char>) -> Seq<Seq<char>> {
    words_of(lowercased(form), 0)
}

/// The word forms of one entry, each as its words with the entry's status.
pub open spec fn entry_forms(entry: DictionaryEntry) -> Seq<(Seq<Seq<char>>, DictionaryStatus)> {
    entry.word_forms@.map_values(|f: String| (form_words(f@), entry.status))
}

/// All word forms of the entries from index `e` on, in order.
pub open spec fn forms_from(entries: Seq<DictionaryEntry>, e: int) -> Seq<
    (Seq<Seq<char>>, DictionaryStatus),
>
    decreases entries.len() - e,
{
    if e < 0 || e >= entries.len() {
        Seq::empty()
    } else {
        entry_forms(entries[e]) + forms_from(entries, e + 1)
    }
}

/// `w` is a one-word form with the given status.
pub open spec fn word_listed(forms: Seq<(Seq<Seq<char>>, DictionaryStatus)>, w: Seq<char>, status: DictionaryStatus) -> bool {
    exists|k: int| 0 <= k < forms.len() && #[trigger] forms[k] == (seq![w], status)
}

/// `w` without a trailing `'s`.
pub open spec fn possessive_base(w: Seq<char>) -> Seq<char> {
    if w.len() >= 2 && w[w.len() - 2] == '\'' && w[w.len() - 1] == 's' {
        w.subrange(0, w.len() - 2)
    } else {
        w
    }
}

pub open spec fn category_of(approved: bool, unapproved: bool) -> VocabularyCategory {
    if approved && unapproved {
        VocabularyCategory::Uncertain
    } else if approved {
        VocabularyCategory::Approved
    } else if unapproved {
        VocabularyCategory::Unapproved
    } else {
        VocabularyCategory::Unknown
    }
}

/// The category of one lowercased word, or of it without a possessive `'s`.
pub open spec fn word_category(forms: Seq<(Seq<Seq<char>>, DictionaryStatus)>, w: Seq<char>) -> VocabularyCategory {
    let base = possessive_base(w);
    category_of(
        word_listed(forms, w, DictionaryStatus::Approved) || word_listed(forms, base, DictionaryStatus::Approved),
        word_listed(forms, w, DictionaryStatus::Unapproved) || word_listed(forms, base, DictionaryStatus::Unapproved),
    )
}

/// The tokens from `pos` on spell `words`, separated by whitespace only,
/// none an identifier part and none protected.
pub open spec fn phrase_matches(
    s: Seq<char>,
    offsets: Seq<usize>,
    protected: QuoteReading,
    toks: Seq<TokenSpan>,
    pos: int,
    words: Seq<Seq<char>>,
) -> bool {
    &&& pos + words.len() <= toks.len()
    &&& forall|j: int|
        0 <= j < words.len() ==> #[trigger] token_fits(s, offsets, protected, toks, pos, words, j)
}

pub open spec fn token_fits(
    s: Seq<char>,
    offsets: Seq<usize>,
    protected: QuoteReading,
    toks: Seq<TokenSpan>,
    pos: int,
    words: Seq<Seq<char>>,
    j: int,
) -> bool {
    let t = toks[pos + j];
    &&& !t.identifier
    &&& !protects_range(protected, offsets[t.start as int] as int, offsets[t.end as int] as int)
    &&& folded(s, t) == words[j]
    &&& j > 0 ==> all_whitespace(s, toks[pos + j - 1].end as int, t.start as int)
}

/// Some phrase form of `len` words with the given status matches at `pos`.
pub open spec fn phrase_of_len(
    forms: Seq<(Seq<Seq<char>>, DictionaryStatus)>,
    s: Seq<char>,
    offsets: Seq<usize>,
    protected: QuoteReading,
    toks: Seq<TokenSpan>,
    pos: int,
    len: int,
    status: DictionaryStatus,
) -> bool {
    exists|k: int|
        0 <= k < forms.len() && forms[k].0.len() == len && forms[k].1 == status
            && #[trigger] phrase_matches(s, offsets, protected, toks, pos, forms[k].0)
}

/// The longest phrase length, at most `len` and at least two words, that
/// matches at `pos`.
pub open spec fn longest_from(
    forms: Seq<(Seq<Seq<char>>, DictionaryStatus)>,
    s: Seq<char>,
    offsets: Seq<usize>,
    protected: QuoteReading,
    toks: Seq<TokenSpan>,
    pos: int,
    len: int,
) -> Option<int>
    decreases len,
{
    if len < 2 {
        None
    } else if phrase_of_len(forms, s, offsets, protected, toks, pos, len, DictionaryStatus::Approved)
        || phrase_of_len(forms, s, offsets, protected, toks, pos, len, DictionaryStatus::Unapproved) {
        Some(len)
    } else {
        longest_from(forms, s, offsets, protected, toks, pos, len - 1)
    }
}

/// The uses from token `pos` on.
pub open spec fn uses_from(
    forms: Seq<(Seq<Seq<char>>, DictionaryStatus)>,
    s: Seq<char>,
    offsets: Seq<usize>,
    protected: QuoteReading,
    toks: Seq<TokenSpan>,
    pos: int,
) -> Seq<WordUse>
    decreases toks.len() - pos,
{
    if pos < 0 || pos >= toks.len() {
        Seq::empty()
    } else {
        let t = toks[pos];
        if t.identifier || protects_range(protected, offsets[t.start as int] as int, offsets[t.end as int] as int) {
            uses_from(forms, s, offsets, protected, toks, pos + 1)
        } else {
            match longest_from(forms, s, offsets, protected, toks, pos, toks.len() - pos) {
                Some(len) => if 1 <= len && pos + len <= toks.len() {
                    seq![
                        WordUse {
                            span: Span {
                                start: offsets[t.start as int],
                                end: offsets[toks[pos + len - 1].end as int],
                            },
                            category: category_of(
                                phrase_of_len(forms, s, offsets, protected, toks, pos, len, DictionaryStatus::Approved),
                                phrase_of_len(forms, s, offsets, protected, toks, pos, len, DictionaryStatus::Unapproved),
                            ),
                        },
                    ] + uses_from(forms, s, offsets, protected, toks, pos + len)
                } else {
                    Seq::empty()
                },
                None => seq![
                    WordUse {
                        span: Span { start: offsets[t.start as int], end: offsets[t.end as int] },
                        category: word_category(forms, folded(s, t)),
                    },
                ] + uses_from(forms, s, offsets, protected, toks, pos + 1),
            }
        }
    }
}

/// The classification of all word uses of `s`.
pub open spec fn classification(
    entries: Seq<DictionaryEntry>,
    s: Seq<char>,
    offsets: Seq<usize>,
    protected: QuoteReading,
) -> Seq<WordUse> {
    uses_from(forms_from(entries, 0), s, offsets, protected, tokens_from(s, 0), 0)
}

/// One word form of the dictionary: its lowercased words and the status
/// of its entry.
pub struct Form {
    pub words: Vec<Vec<char>>,
    pub status: DictionaryStatus,
}

pub open spec fn words_view(v: Seq<Vec<char>>) -> Seq<Seq<char>> {
    v.map_values(|w: Vec<char>| w@)
}

pub open spec fn forms_view(v: Seq<Form>) -> Seq<(Seq<Seq<char>>, DictionaryStatus)> {
    v.map_values(|f: Form| (words_view(f.words@), f.status))
}

fn scan_tokens(chars: &Vec<char>) -> (r: Vec<TokenSpan>)
    ensures
        r@ == tokens_from(chars@, 0),
        tokens_ok(chars@, r@),
{
    let n = chars.len();
    let mut tokens: Vec<TokenSpan> = Vec::new();
    let mut p: usize = 0;
    while p < n
        invariant
            n == chars@.len(),
            0 <= p <= n,
            tokens@ + tokens_from(chars@, p as int) == tokens_from(chars@, 0),
            forall|k: int| 0 <= k < tokens@.len() ==> (#[trigger] tokens@[k]).start < tokens@[k].end <= p,
            tokens_ok(chars@, tokens@),
        decreases n - p,
    {
        if !is_alphabetic(chars[p]) {
            p = p + 1;
        } else {
            let mut close = p + 1;
            while close < n && (is_alphabetic(chars[close]) || ((chars[close] == '\''
                || chars[close] == '\u{2019}') && close + 1 < n && is_alphabetic(chars[close + 1])))
                invariant
                    n == chars@.len(),
                    p < close <= n,
                    word_end(chars@, p + 1) == word_end(chars@, close as int),
                decreases n - close,
            {
                close = close + 1;
            }
            let identifier = (p > 0 && (chars[p - 1] == '_' || is_ascii_digit(chars[p - 1])))
                || (close < n && (chars[close] == '_' || is_ascii_digit(chars[close])));
            let ghost before = tokens@;
            tokens.push(TokenSpan { start: p, end: close, identifier });
            proof {
                lemma_word_end(chars@, p + 1);
                assert(tokens@ =~= before + seq![token_at(chars@, p as int)]);
            }
            p = close;
        }
    }
    tokens
}

fn split_words(s: &[char]) -> (r: Vec<Vec<char>>)
    ensures
        words_view(r@) == words_of(s@, 0),
{
    let n = s.len();
    let mut words: Vec<Vec<char>> = Vec::new();
    let mut i: usize = 0;
    while i < n
        invariant
            n == s@.len(),
            0 <= i <= n,
            words_view(words@) + words_of(s@, i as int) == words_of(s@, 0),
        decreases n - i,
    {
        if is_whitespace(s[i]) {
            i = i + 1;
        } else {
            let mut e = i;
            while e < n && !is_whitespace(s[e])
                invariant
                    n == s@.len(),
                    i <= e <= n,
                    nonws_end(s@, i as int) == nonws_end(s@, e as int),
                decreases n - e,
            {
                e = e + 1;
            }
            proof {
                lemma_nonws_end(s@, i as int);
            }
            let ghost before = words@;
            words.push(sub_chars(s, i, e));
            assert(words_view(words@) =~= words_view(before) + seq![s@.subrange(i as int, e as int)]);
            i = e;
        }
    }
    words
}

/// All word forms of the dictionary in order, and the largest number of
/// words in one form.
fn build_forms(entries: &Vec<DictionaryEntry>) -> (r: (Vec<Form>, usize))
    ensures
        forms_view(r.0@) == forms_from(entries@, 0),
        forall|k: int| 0 <= k < r.0@.len() ==> (#[trigger] r.0@[k]).words@.len() <= r.1,
{
    let mut forms: Vec<Form> = Vec::new();
    let mut max_len: usize = 0;
    let mut e: usize = 0;
    while e < entries.len()
        invariant
            0 <= e <= entries@.len(),
            forms_view(forms@) + forms_from(entries@, e as int) == forms_from(entries@, 0),
            forall|k: int| 0 <= k < forms@.len() ==> (#[trigger] forms@[k]).words@.len() <= max_len,
        decreases entries@.len() - e,
    {
        let entry = &entries[e];
        let mut f: usize = 0;
        while f < entry.word_forms.len()
            invariant
                0 <= e < entries@.len(),
                *entry == entries@[e as int],
                0 <= f <= entry.word_forms@.len(),
                forms_view(forms@) + entry_forms(*entry).skip(f as int) + forms_from(entries@, e + 1)
                    == forms_from(entries@, 0),
                forall|k: int| 0 <= k < forms@.len() ==> (#[trigger] forms@[k]).words@.len() <= max_len,
            decreases entry.word_forms@.len() - f,
        {
            let (chars, _) = decode(entry.word_forms[f].as_str());
            let lower = to_lowercase(chars.as_slice());
            let words = split_words(lower.as_slice());
            if words.len() > max_len {
                max_len = words.len();
            }
            let ghost before = forms@;
            let ghost item = (words_view(words@), entry.status);
            forms.push(Form { words, status: entry.status });
            proof {
                assert(forms_view(forms@) =~= forms_view(before) + seq![item]);
                assert(entry_forms(*entry)[f as int] == item);
                assert(entry_forms(*entry).skip(f as int) =~= seq![item] + entry_forms(*entry).skip(f + 1));
            }
            f = f + 1;
        }
        proof {
            assert(entry_forms(*entry).skip(f as int) =~= Seq::<(Seq<Seq<char>>, DictionaryStatus)>::empty());
        }
        e = e + 1;
    }
    (forms, max_len)
}

fn is_word_listed(forms: &Vec<Form>, w: &Vec<char>, status: DictionaryStatus) -> (r: bool)
    ensures
        r == word_listed(forms_view(forms@), w@, status),
{
    let mut k: usize = 0;
    while k < forms.len()
        invariant
            0 <= k <= forms@.len(),
            forall|j: int| 0 <= j < k ==> #[trigger] forms_view(forms@)[j] != (seq![w@], status),
        decreases forms@.len() - k,
    {
        let form = &forms[k];
        if form.status == status && form.words.len() == 1 && chars_equal(form.words[0].as_slice(), w.as_slice()) {
            assert(words_view(form.words@) =~= seq![w@]);
            assert(forms_view(forms@)[k as int] == (seq![w@], status));
            return true;
        }
        assert(forms_view(forms@)[k as int] != (seq![w@], status)) by {
            if forms_view(forms@)[k as int] == (seq![w@], status) {
                assert(words_view(form.words@).len() == 1);
                assert(words_view(form.words@)[0] == w@);
            }
        }
        k = k + 1;
    }
    false
}

fn possessive_base_of(w: &Vec<char>) -> (r: Vec<char>)
    ensures
        r@ == possessive_base(w@),
{
    let n = w.len();
    if n >= 2 && w[n - 2] == '\'' && w[n - 1] == 's' {
        sub_chars(w.as_slice(), 0, n - 2)
    } else {
        let r = sub_chars(w.as_slice(), 0, n);
        assert(r@ =~= w@);
        r
    }
}

fn category_from(approved: bool, unapproved: bool) -> (c: VocabularyCategory)
    ensures
        c == category_of(approved, unapproved),
{
    if approved && unapproved {
        VocabularyCategory::Uncertain
    } else if approved {
        VocabularyCategory::Approved
    } else if unapproved {
        VocabularyCategory::Unapproved
    } else {
        VocabularyCategory::Unknown
    }
}

fn word_category_of(forms: &Vec<Form>, w: &Vec<char>) -> (c: VocabularyCategory)
    ensures
        c == word_category(forms_view(forms@), w@),
{
    let base = possessive_base_of(w);
    let approved = is_word_listed(forms, w, DictionaryStatus::Approved) || is_word_listed(
        forms,
        &base,
        DictionaryStatus::Approved,
    );
    let unapproved = is_word_listed(forms, w, DictionaryStatus::Unapproved) || is_word_listed(
        forms,
        &base,
        DictionaryStatus::Unapproved,
    );
    category_from(approved, unapproved)
}

/// The token data the matcher reads: for each token its lowercased text.
pub open spec fn folds_ok(s: Seq<char>, toks: Seq<TokenSpan>, folds: Seq<Vec<char>>) -> bool {
    &&& folds.len() == toks.len()
    &&& forall|k: int| 0 <= k < toks.len() ==> (#[trigger] folds[k])@ == folded(s, toks[k])
}

pub open spec fn tokens_ok(s: Seq<char>, toks: Seq<TokenSpan>) -> bool {
    &&& forall|k: int| 0 <= k < toks.len() ==> (#[trigger] toks[k]).start < toks[k].end <= s.len()
    &&& forall|k: int| 0 <= k && k + 1 < toks.len() ==> (#[trigger] toks[k]).end <= toks[k + 1].start
}

fn phrase_matches_at(
    chars: &Vec<char>,
    offsets: &Vec<usize>,
    protected: &ProtectedSpans,
    toks: &Vec<TokenSpan>,
    folds: &Vec<Vec<char>>,
    pos: usize,
    words: &Vec<Vec<char>>,
) -> (r: bool)
    requires
        offsets_ok(chars@, offsets@),
        tokens_ok(chars@, toks@),
        folds_ok(chars@, toks@, folds@),
    ensures
        r == phrase_matches(chars@, offsets@, protected@, toks@, pos as int, words_view(words@)),
{
    let n = toks.len();
    if pos > n || words.len() > n - pos {
        return false;
    }
    let mut j: usize = 0;
    while j < words.len()
        invariant
            n == toks@.len(),
            offsets_ok(chars@, offsets@),
            tokens_ok(chars@, toks@),
            folds_ok(chars@, toks@, folds@),
            pos + words@.len() <= toks@.len(),
            0 <= j <= words@.len(),
            forall|jj: int| 0 <= jj < j ==> #[trigger] token_fits(chars@, offsets@, protected@, toks@, pos as int, words_view(words@), jj),
        decreases words@.len() - j,
    {
        let t = toks[pos + j];
        let fits = !t.identifier && !protected.protects(offsets[t.start], offsets[t.end])
            && chars_equal(folds[pos + j].as_slice(), words[j].as_slice())
            && (j == 0 || crate::ste100::word_count::whitespace_between(
                chars.as_slice(),
                toks[pos + j - 1].end,
                t.start,
            ));
        if !fits {
            assert(!token_fits(chars@, offsets@, protected@, toks@, pos as int, words_view(words@), j as int));
            return false;
        }
        j = j + 1;
    }
    true
}

fn phrase_of_len_at(
    forms: &Vec<Form>,
    chars: &Vec<char>,
    offsets: &Vec<usize>,
    protected: &ProtectedSpans,
    toks: &Vec<TokenSpan>,
    folds: &Vec<Vec<char>>,
    pos: usize,
    len: usize,
    status: DictionaryStatus,
) -> (r: bool)
    requires
        offsets_ok(chars@, offsets@),
        tokens_ok(chars@, toks@),
        folds_ok(chars@, toks@, folds@),
    ensures
        r == phrase_of_len(forms_view(forms@), chars@, offsets@, protected@, toks@, pos as int, len as int, status),
{
    let mut k: usize = 0;
    while k < forms.len()
        invariant
            offsets_ok(chars@, offsets@),
            tokens_ok(chars@, toks@),
            folds_ok(chars@, toks@, folds@),
            0 <= k <= forms@.len(),
            forall|j: int|
                0 <= j < k ==> !(forms_view(forms@)[j].0.len() == len && forms_view(forms@)[j].1 == status
                    && #[trigger] phrase_matches(chars@, offsets@, protected@, toks@, pos as int, forms_view(forms@)[j].0)),
        decreases forms@.len() - k,
    {
        let form = &forms[k];
        assert(forms_view(forms@)[k as int] == (words_view(form.words@), form.status));
        if form.words.len() == len && form.status == status && phrase_matches_at(
            chars,
            offsets,
            protected,
            toks,
            folds,
            pos,
            &form.words,
        ) {
            assert(phrase_matches(chars@, offsets@, protected@, toks@, pos as int, forms_view(forms@)[k as int].0));
            return true;
        }
        k = k + 1;
    }
    false
}

proof fn lemma_longest_bounded(
    forms: Seq<(Seq<Seq<char>>, DictionaryStatus)>,
    s: Seq<char>,
    offsets: Seq<usize>,
    protected: QuoteReading,
    toks: Seq<TokenSpan>,
    pos: int,
    len: int,
    max_len: int,
)
    requires
        forall|k: int| 0 <= k < forms.len() ==> (#[trigger] forms[k]).0.len() <= max_len,
        0 <= max_len,
    ensures
        longest_from(forms, s, offsets, protected, toks, pos, len) == longest_from(
            forms,
            s,
            offsets,
            protected,
            toks,
            pos,
            if len < max_len { len } else { max_len },
        ),
        longest_from(forms, s, offsets, protected, toks, pos, len) matches Some(l) ==> 2 <= l <= len,
    decreases len,
{
    if len >= 2 {
        lemma_longest_bounded(forms, s, offsets, protected, toks, pos, len - 1, max_len);
        if len > max_len {
            assert(!phrase_of_len(forms, s, offsets, protected, toks, pos, len, DictionaryStatus::Approved));
            assert(!phrase_of_len(forms, s, offsets, protected, toks, pos, len, DictionaryStatus::Unapproved));
        }
    }
}

/// Classifies each word or phrase of `text` by dictionary membership
/// only, skipping identifiers and the words `protected` covers.
pub fn classify(text: &str, protected: &ProtectedSpans, dictionary: &DictionaryImport) -> (r: Vec<WordUse>)
    ensures
        r@ == classification(dictionary.entries@, text@, byte_offsets(text@), protected@),
{
    let (chars, offsets) = decode(text);
    classify_chars(&chars, &offsets, protected, &dictionary.entries)
}

/// Classifies each word or phrase by dictionary membership only.
pub(crate) fn classify_chars(
    chars: &Vec<char>,
    offsets: &Vec<usize>,
    protected: &ProtectedSpans,
    entries: &Vec<DictionaryEntry>,
) -> (r: Vec<WordUse>)
    requires
        offsets_ok(chars@, offsets@),
    ensures
        r@ == classification(entries@, chars@, offsets@, protected@),
{
    let (forms, max_len) = build_forms(entries);
    let toks = scan_tokens(chars);
    let mut folds: Vec<Vec<char>> = Vec::new();
    let mut k: usize = 0;
    while k < toks.len()
        invariant
            tokens_ok(chars@, toks@),
            0 <= k <= toks@.len(),
            folds@.len() == k,
            forall|j: int| 0 <= j < k ==> (#[trigger] folds@[j])@ == folded(chars@, toks@[j]),
        decreases toks@.len() - k,
    {
        let t = toks[k];
        folds.push(to_lowercase(sub_chars(chars.as_slice(), t.start, t.end).as_slice()));
        k = k + 1;
    }
    let ghost fv = forms_view(forms@);
    let ghost total = uses_from(fv, chars@, offsets@, protected@, toks@, 0);
    let mut uses: Vec<WordUse> = Vec::new();
    let mut pos: usize = 0;
    while pos < toks.len()
        invariant
            offsets_ok(chars@, offsets@),
            tokens_ok(chars@, toks@),
            folds_ok(chars@, toks@, folds@),
            fv == forms_view(forms@),
            forall|k: int| 0 <= k < fv.len() ==> (#[trigger] fv[k]).0.len() <= max_len,
            0 <= pos <= toks@.len(),
            uses@ + uses_from(fv, chars@, offsets@, protected@, toks@, pos as int) == total,
        decreases toks@.len() - pos,
    {
        let t = toks[pos];
        if t.identifier || protected.protects(offsets[t.start], offsets[t.end]) {
            pos = pos + 1;
        } else {
            let remaining = toks.len() - pos;
            let mut len = if remaining < max_len { remaining } else { max_len };
            proof {
                assert forall|k: int| 0 <= k < fv.len() implies (#[trigger] fv[k]).0.len() <= max_len by {
                }
                lemma_longest_bounded(fv, chars@, offsets@, protected@, toks@, pos as int, remaining as int, max_len as int);
            }
            let mut found = false;
            let mut approved = false;
            let mut unapproved = false;
            while len >= 2 && !found
                invariant
                    offsets_ok(chars@, offsets@),
                    tokens_ok(chars@, toks@),
                    folds_ok(chars@, toks@, folds@),
                    fv == forms_view(forms@),
                    len <= remaining,
                    !found ==> longest_from(fv, chars@, offsets@, protected@, toks@, pos as int, remaining as int)
                        == longest_from(fv, chars@, offsets@, protected@, toks@, pos as int, len as int),
                    found ==> longest_from(fv, chars@, offsets@, protected@, toks@, pos as int, remaining as int)
                        == Some(len as int) && len >= 2,
                    found ==> approved == phrase_of_len(fv, chars@, offsets@, protected@, toks@, pos as int, len as int, DictionaryStatus::Approved)
                        && unapproved == phrase_of_len(fv, chars@, offsets@, protected@, toks@, pos as int, len as int, DictionaryStatus::Unapproved),
                decreases (len as int) * 2 + if found { 0int } else { 1int },
            {
                approved = phrase_of_len_at(&forms, chars, offsets, protected, &toks, &folds, pos, len, DictionaryStatus::Approved);
                unapproved = phrase_of_len_at(&forms, chars, offsets, protected, &toks, &folds, pos, len, DictionaryStatus::Unapproved);
                if approved || unapproved {
                    found = true;
                } else {
                    len = len - 1;
                }
            }
            let ghost before = uses@;
            if found {
                let last = toks[pos + len - 1];
                uses.push(WordUse {
                    span: Span { start: offsets[t.start], end: offsets[last.end] },
                    category: category_from(approved, unapproved),
                });
                assert(uses@ =~= before + seq![uses@.last()]);
                pos = pos + len;
            } else {
                let category = word_category_of(&forms, &folds[pos]);
                uses.push(WordUse { span: Span { start: offsets[t.start], end: offsets[t.end] }, category });
                assert(uses@ =~= before + seq![uses@.last()]);
                pos = pos + 1;
            }
        }
    }
    uses
}

} // verus!
