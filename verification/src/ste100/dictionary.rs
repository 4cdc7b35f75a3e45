//! Reading one dictionary row: its headword and word forms, its part of
//! speech, its approval status and its example columns.
use vstd::prelude::*;
use crate::scanner::chars::{
    find, find_from, lemma_find_from, skip_leading, skip_leading_char, string_of, trim, trimmed,
};
use crate::text::{
    alphabetic, chars_equal_str, is_alphabetic, is_whitespace, push_text, whitespace, is_lowercase, is_uppercase, lowercase, sub_chars, uppercase,
};
use super::{DictionaryEntry, DictionaryStatus, PartOfSpeech};

verus! {

/// The views of a list of character vectors.
pub open spec fn texts_view(v: Seq<Vec<char>>) -> Seq<Seq<char>> {
    v.map_values(|x: Vec<char>| x@)
}

/// The last index of `c` in `t`.
pub open spec fn last_index_of(t: Seq<char>, c: char) -> Option<int>
    decreases t.len(),
{
    if t.len() == 0 {
        None
    } else if t.last() == c {
        Some(t.len() - 1)
    } else {
        last_index_of(t.drop_last(), c)
    }
}

pub proof fn lemma_last_index_of(t: Seq<char>, c: char)
    ensures
        last_index_of(t, c) matches Some(k) ==> 0 <= k < t.len() && t[k] == c,
    decreases t.len(),
{
    if t.len() > 0 && t.last() != c {
        lemma_last_index_of(t.drop_last(), c);
    }
}

/// `str::rfind(c)` on characters.
pub fn rfind_char(t: &[char], c: char) -> (r: Option<usize>)
    ensures
        r matches Some(k) ==> last_index_of(t@, c) == Some(k as int),
        r is None ==> last_index_of(t@, c) is None,
{
    let mut i: usize = t.len();
    assert(t@.subrange(0, t@.len() as int) =~= t@);
    while i > 0
        invariant
            0 <= i <= t@.len(),
            last_index_of(t@, c) == last_index_of(t@.subrange(0, i as int), c),
        decreases i,
    {
        let ghost s = t@.subrange(0, i as int);
        assert(s.last() == t@[i - 1]);
        if t[i - 1] == c {
            return Some(i - 1);
        }
        assert(s.drop_last() =~= t@.subrange(0, i - 1));
        i = i - 1;
    }
    None
}

/// The end of `t` once the trailing run of `c` is dropped.
pub open spec fn back_run(t: Seq<char>, c: char, e: int) -> int
    decreases e,
{
    if 0 < e <= t.len() && t[e - 1] == c {
        back_run(t, c, e - 1)
    } else {
        e
    }
}

pub proof fn lemma_back_run(t: Seq<char>, c: char, e: int)
    requires
        0 <= e <= t.len(),
    ensures
        0 <= back_run(t, c, e) <= e,
    decreases e,
{
    if 0 < e && t[e - 1] == c {
        lemma_back_run(t, c, e - 1);
    }
}

/// `str::trim_end_matches(c)`: the text without its trailing run of `c`.
pub open spec fn strip_trailing(t: Seq<char>, c: char) -> Seq<char> {
    t.subrange(0, back_run(t, c, t.len() as int))
}

pub fn strip_trailing_char(t: &[char], c: char) -> (r: Vec<char>)
    ensures
        r@ == strip_trailing(t@, c),
{
    let mut e: usize = t.len();
    while e > 0 && t[e - 1] == c
        invariant
            0 <= e <= t@.len(),
            back_run(t@, c, t@.len() as int) == back_run(t@, c, e as int),
        decreases e,
    {
        e = e - 1;
    }
    sub_chars(t, 0, e)
}

/// `str::split(sep)`: the pieces of `s` between occurrences of `sep`.
pub open spec fn split_on(s: Seq<char>, sep: Seq<char>) -> Seq<Seq<char>>
    decreases s.len(),
{
    if sep.len() == 0 {
        seq![s]
    } else {
        match find_from(s, sep, 0) {
            None => seq![s],
            Some(i) => {
                proof {
                    lemma_find_from(s, sep, 0);
                }
                seq![s.subrange(0, i)] + split_on(s.subrange(i + sep.len(), s.len() as int), sep)
            },
        }
    }
}

pub fn split(s: &[char], sep: &[char]) -> (r: Vec<Vec<char>>)
    requires
        sep@.len() > 0,
    ensures
        texts_view(r@) == split_on(s@, sep@),
{
    let mut out: Vec<Vec<char>> = Vec::new();
    let mut rest: Vec<char> = sub_chars(s, 0, s.len());
    assert(rest@ =~= s@);
    loop
        invariant
            sep@.len() > 0,
            texts_view(out@) + split_on(rest@, sep@) == split_on(s@, sep@),
        decreases rest@.len(),
    {
        let rs = rest.as_slice();
        assert(rs@ == rest@);
        match find(rs, sep) {
            None => {
                let ghost before = texts_view(out@);
                out.push(rest);
                assert(texts_view(out@) =~= before + split_on(rest@, sep@));
                return out;
            },
            Some(i) => {
                assert(i + sep@.len() <= rest@.len());
                let piece = sub_chars(rs, 0, i);
                let n = sep.len();
                let total = rest.len();
                assert(total == rest@.len());
                let next = sub_chars(rs, i + n, total);
                let ghost before = texts_view(out@);
                proof {
                    assert(split_on(rest@, sep@) == seq![piece@] + split_on(next@, sep@));
                }
                out.push(piece);
                assert(texts_view(out@) =~= before.push(piece@));
                assert(texts_view(out@) + split_on(next@, sep@) =~= before + split_on(rest@, sep@));
                rest = next;
            },
        }
    }
}

/// The trimmed pieces that are not empty, in order.
pub open spec fn kept_forms(pieces: Seq<Seq<char>>) -> Seq<Seq<char>>
    decreases pieces.len(),
{
    if pieces.len() == 0 {
        seq![]
    } else {
        kept_forms(pieces.drop_last()) + if trimmed(pieces.last()).len() > 0 {
            seq![trimmed(pieces.last())]
        } else {
            seq![]
        }
    }
}

/// Appends the trimmed pieces that are not empty.
pub fn push_kept_forms(out: &mut Vec<Vec<char>>, pieces: &Vec<Vec<char>>)
    ensures
        texts_view(final(out)@) == texts_view(old(out)@) + kept_forms(texts_view(pieces@)),
{
    let ghost pv = texts_view(pieces@);
    let ghost start = texts_view(out@);
    let mut i: usize = 0;
    while i < pieces.len()
        invariant
            0 <= i <= pieces@.len(),
            pv == texts_view(pieces@),
            texts_view(out@) == start + kept_forms(pv.subrange(0, i as int)),
        decreases pieces@.len() - i,
    {
        proof {
            let s = pv.subrange(0, i + 1);
            assert(s.drop_last() =~= pv.subrange(0, i as int));
            assert(s.last() == pieces@[i as int]@);
        }
        let t = trim(pieces[i].as_slice());
        let ghost before = texts_view(out@);
        if t.len() > 0 {
            out.push(t);
            assert(texts_view(out@) =~= before.push(t@));
        }
        assert(texts_view(out@) =~= start + kept_forms(pv.subrange(0, i + 1)));
        i = i + 1;
    }
    assert(pv.subrange(0, pieces@.len() as int) =~= pv);
}

/// The part-of-speech markers, in the order the dictionary lists them.
pub open spec fn marker_list() -> Seq<Seq<char>> {
    seq!["(adj)"@, "(adv)"@, "(art)"@, "(conj)"@, "(n)"@, "(prefix)"@, "(prep)"@, "(pron)"@, "(v)"@]
}

fn marker(i: usize) -> (m: &'static str)
    requires
        i < 9,
    ensures
        m@ == marker_list()[i as int],
{
    match i {
        0 => "(adj)",
        1 => "(adv)",
        2 => "(art)",
        3 => "(conj)",
        4 => "(n)",
        5 => "(prefix)",
        6 => "(prep)",
        7 => "(pron)",
        _ => "(v)",
    }
}

/// The smaller of two optional indices, either one when the other is absent.
pub open spec fn earlier(a: Option<int>, b: Option<int>) -> Option<int> {
    match (a, b) {
        (Some(x), Some(y)) => Some(if y < x { y } else { x }),
        (Some(x), None) => Some(x),
        (None, _) => b,
    }
}

/// The earliest index at which one of `ms` occurs in `t`.
pub open spec fn earliest_of(t: Seq<char>, ms: Seq<Seq<char>>) -> Option<int>
    decreases ms.len(),
{
    if ms.len() == 0 {
        None
    } else {
        earlier(earliest_of(t, ms.drop_last()), find_from(t, ms.last(), 0))
    }
}

/// Where the part-of-speech marker of a headword cell begins: the earliest
/// occurrence of any marker.
pub open spec fn marker_start(t: Seq<char>) -> Option<int> {
    earliest_of(t, marker_list())
}

pub proof fn lemma_earliest_of(t: Seq<char>, ms: Seq<Seq<char>>)
    ensures
        earliest_of(t, ms) matches Some(k) ==> 0 <= k <= t.len(),
    decreases ms.len(),
{
    if ms.len() > 0 {
        lemma_earliest_of(t, ms.drop_last());
        lemma_find_from(t, ms.last(), 0);
    }
}

/// Where the part-of-speech marker of a headword cell begins.
pub fn split_part_of_speech(t: &[char]) -> (r: Option<usize>)
    ensures
        r matches Some(k) ==> marker_start(t@) == Some(k as int) && k <= t@.len(),
        r is None ==> marker_start(t@) is None,
{
    let mut best: Option<usize> = None;
    let mut i: usize = 0;
    while i < 9
        invariant
            0 <= i <= 9,
            best matches Some(k) ==> earliest_of(t@, marker_list().subrange(0, i as int)) == Some(k as int)
                && k <= t@.len(),
            best is None ==> earliest_of(t@, marker_list().subrange(0, i as int)) is None,
        decreases 9 - i,
    {
        proof {
            let s = marker_list().subrange(0, i + 1);
            assert(s.drop_last() =~= marker_list().subrange(0, i as int));
            assert(s.last() == marker_list()[i as int]);
        }
        let (pat, _) = crate::text::decode(marker(i));
        match find(t, pat.as_slice()) {
            Some(k) => {
                best = match best {
                    Some(b) => if k < b { Some(k) } else { Some(b) },
                    None => Some(k),
                };
            },
            None => {},
        }
        i = i + 1;
    }
    assert(marker_list().subrange(0, 9) =~= marker_list());
    best
}

/// The part of speech a marker names.
pub open spec fn part_named(m: Seq<char>) -> Option<PartOfSpeech> {
    if m == "(adj)"@ {
        Some(PartOfSpeech::Adjective)
    } else if m == "(adv)"@ {
        Some(PartOfSpeech::Adverb)
    } else if m == "(art)"@ {
        Some(PartOfSpeech::Article)
    } else if m == "(conj)"@ {
        Some(PartOfSpeech::Conjunction)
    } else if m == "(n)"@ {
        Some(PartOfSpeech::Noun)
    } else if m == "(prefix)"@ {
        Some(PartOfSpeech::Prefix)
    } else if m == "(prep)"@ {
        Some(PartOfSpeech::Preposition)
    } else if m == "(pron)"@ {
        Some(PartOfSpeech::Pronoun)
    } else if m == "(v)"@ {
        Some(PartOfSpeech::Verb)
    } else {
        None
    }
}

fn part_named_exec(m: &[char]) -> (p: Option<PartOfSpeech>)
    ensures
        p == part_named(m@),
{
    if chars_equal_str(m, "(adj)") {
        Some(PartOfSpeech::Adjective)
    } else if chars_equal_str(m, "(adv)") {
        Some(PartOfSpeech::Adverb)
    } else if chars_equal_str(m, "(art)") {
        Some(PartOfSpeech::Article)
    } else if chars_equal_str(m, "(conj)") {
        Some(PartOfSpeech::Conjunction)
    } else if chars_equal_str(m, "(n)") {
        Some(PartOfSpeech::Noun)
    } else if chars_equal_str(m, "(prefix)") {
        Some(PartOfSpeech::Prefix)
    } else if chars_equal_str(m, "(prep)") {
        Some(PartOfSpeech::Preposition)
    } else if chars_equal_str(m, "(pron)") {
        Some(PartOfSpeech::Pronoun)
    } else if chars_equal_str(m, "(v)") {
        Some(PartOfSpeech::Verb)
    } else {
        None
    }
}

/// The part of speech that the text up to its first `)` names, and the text
/// after that `)`.
pub open spec fn part_of_speech(t: Seq<char>) -> Option<(PartOfSpeech, Seq<char>)> {
    match find_from(t, ")"@, 0) {
        None => None,
        Some(close) => match part_named(t.subrange(0, close + 1)) {
            Some(p) => Some((p, t.subrange(close + 1, t.len() as int))),
            None => None,
        },
    }
}

/// The part of speech that the text up to its first `)` names, and the
/// text after that `)`.
pub fn parse_part_of_speech(t: &[char]) -> (r: Option<(PartOfSpeech, Vec<char>)>)
    ensures
        match r {
            Some((p, rest)) => part_of_speech(t@) == Some((p, rest@)),
            None => part_of_speech(t@) is None,
        },
{
    let (close_pat, _) = crate::text::decode(")");
    proof {
        reveal_strlit(")");
    }
    let ps = close_pat.as_slice();
    assert(ps@ == close_pat@);
    assert(ps@.len() == 1);
    match find(t, ps) {
        None => None,
        Some(close) => {
            let tl = t.len();
            assert(close + 1 <= tl);
            let named = sub_chars(t, 0, close + 1);
            match part_named_exec(named.as_slice()) {
                Some(p) => Some((p, sub_chars(t, close + 1, t.len()))),
                None => None,
            }
        },
    }
}

/// The pieces of each alternative, split on commas, trimmed, with empty
/// pieces dropped.
pub open spec fn alternative_pieces(parts: Seq<Seq<char>>) -> Seq<Seq<char>>
    decreases parts.len(),
{
    if parts.len() == 0 {
        seq![]
    } else {
        alternative_pieces(parts.drop_last()) + kept_forms(split_on(parts.last(), ","@))
    }
}

/// The forms listed in `a or b, c or d`.
pub open spec fn alternative_forms(t: Seq<char>) -> Seq<Seq<char>> {
    alternative_pieces(split_on(t, " or "@))
}

/// A headword with a parenthesised qualifier, as `word (qualifier)`: the
/// word, and the qualifier as its one extra form.
pub open spec fn qualified_headword(t: Seq<char>) -> (Seq<char>, Seq<Seq<char>>) {
    match find_from(t, " ("@, 0) {
        None => (t, seq![]),
        Some(a) => match last_index_of(t, ')') {
            None => (t, seq![]),
            Some(e) => if e <= a + 2 {
                (t, seq![])
            } else {
                (trimmed(t.subrange(0, a)), seq![trimmed(t.subrange(a + 2, e))])
            },
        },
    }
}

/// The headword of a cell and the extra forms its label lists: after
/// trimming and dropping trailing commas, `word (or a, b or c)` lists its
/// alternatives; otherwise a qualifier is the one extra form.
pub open spec fn headword_label(t0: Seq<char>) -> (Seq<char>, Seq<Seq<char>>) {
    let t = strip_trailing(trimmed(t0), ',');
    match find_from(t, " (or "@, 0) {
        None => qualified_headword(t),
        Some(a) => match last_index_of(t, ')') {
            None => (t, seq![]),
            Some(e) => if e <= a + 5 {
                (t, seq![])
            } else {
                (trimmed(t.subrange(0, a)), alternative_forms(t.subrange(a + 5, e)))
            },
        },
    }
}

fn alternative_forms_exec(t: &[char]) -> (r: Vec<Vec<char>>)
    ensures
        texts_view(r@) == alternative_forms(t@),
{
    let (or_pat, _) = crate::text::decode(" or ");
    let (comma, _) = crate::text::decode(",");
    proof {
        reveal_strlit(" or ");
        reveal_strlit(",");
    }
    let parts = split(t, or_pat.as_slice());
    let ghost pv = texts_view(parts@);
    let mut out: Vec<Vec<char>> = Vec::new();
    let mut i: usize = 0;
    while i < parts.len()
        invariant
            0 <= i <= parts@.len(),
            pv == texts_view(parts@),
            pv == split_on(t@, " or "@),
            comma@ == ","@,
            comma@.len() == 1,
            texts_view(out@) == alternative_pieces(pv.subrange(0, i as int)),
        decreases parts@.len() - i,
    {
        proof {
            let s = pv.subrange(0, i + 1);
            assert(s.drop_last() =~= pv.subrange(0, i as int));
            assert(s.last() == parts@[i as int]@);
        }
        let pieces = split(parts[i].as_slice(), comma.as_slice());
        push_kept_forms(&mut out, &pieces);
        i = i + 1;
    }
    assert(pv.subrange(0, parts@.len() as int) =~= pv);
    out
}

fn qualified_headword_exec(t: &[char]) -> (r: (Vec<char>, Vec<Vec<char>>))
    ensures
        (r.0@, texts_view(r.1@)) == qualified_headword(t@),
{
    let (open_pat, _) = crate::text::decode(" (");
    proof {
        reveal_strlit(" (");
    }
    let tl = t.len();
    match find(t, open_pat.as_slice()) {
        None => (sub_chars(t, 0, tl), Vec::new()),
        Some(a) => match rfind_char(t, ')') {
            None => (sub_chars(t, 0, tl), Vec::new()),
            Some(e) => {
                proof {
                    lemma_last_index_of(t@, ')');
                }
                if e <= a + 2 {
                    (sub_chars(t, 0, tl), Vec::new())
                } else {
                    let word = sub_chars(t, 0, a);
                    let qualifier = sub_chars(t, a + 2, e);
                    let mut forms: Vec<Vec<char>> = Vec::new();
                    forms.push(trim(qualifier.as_slice()));
                    let r = (trim(word.as_slice()), forms);
                    assert(texts_view(r.1@) =~= seq![trimmed(t@.subrange(a + 2, e as int))]);
                    r
                }
            },
        },
    }
}

/// The headword of a cell and the extra forms its label lists.
pub fn parse_headword_label(t0: &[char]) -> (r: (Vec<char>, Vec<Vec<char>>))
    ensures
        (r.0@, texts_view(r.1@)) == headword_label(t0@),
{
    let trimmed_text = trim(t0);
    let t = strip_trailing_char(trimmed_text.as_slice(), ',');
    let (alt_pat, _) = crate::text::decode(" (or ");
    proof {
        reveal_strlit(" (or ");
    }
    let tl = t.len();
    match find(t.as_slice(), alt_pat.as_slice()) {
        None => qualified_headword_exec(t.as_slice()),
        Some(a) => match rfind_char(t.as_slice(), ')') {
            None => (t, Vec::new()),
            Some(e) => {
                proof {
                    lemma_last_index_of(t@, ')');
                }
                if e <= a + 5 {
                    (t, Vec::new())
                } else {
                    let word = sub_chars(t.as_slice(), 0, a);
                    let listed = sub_chars(t.as_slice(), a + 5, e);
                    (trim(word.as_slice()), alternative_forms_exec(listed.as_slice()))
                }
            },
        },
    }
}

/// The cell has a letter.
pub open spec fn has_letter(h: Seq<char>) -> bool {
    exists|i: int| 0 <= i < h.len() && alphabetic(#[trigger] h[i])
}

/// Every letter of the cell is uppercase.
pub open spec fn letters_upper(h: Seq<char>) -> bool {
    forall|i: int| 0 <= i < h.len() && alphabetic(#[trigger] h[i]) ==> uppercase(h[i])
}

/// Every letter of the cell is lowercase.
pub open spec fn letters_lower(h: Seq<char>) -> bool {
    forall|i: int| 0 <= i < h.len() && alphabetic(#[trigger] h[i]) ==> lowercase(h[i])
}

/// An uppercase headword is approved, a lowercase one unapproved; one with
/// no letters or with both cases is neither.
pub open spec fn status_of(h: Seq<char>) -> Option<DictionaryStatus> {
    if !has_letter(h) {
        None
    } else if letters_upper(h) {
        Some(DictionaryStatus::Approved)
    } else if letters_lower(h) {
        Some(DictionaryStatus::Unapproved)
    } else {
        None
    }
}

/// The approval status that the case of a headword's letters gives.
pub fn classify_status(h: &[char]) -> (r: Option<DictionaryStatus>)
    ensures
        r == status_of(h@),
{
    let mut any = false;
    let mut upper = true;
    let mut lower = true;
    let mut i: usize = 0;
    while i < h.len()
        invariant
            0 <= i <= h@.len(),
            any == (exists|j: int| 0 <= j < i && alphabetic(#[trigger] h@[j])),
            upper == (forall|j: int| 0 <= j < i && alphabetic(#[trigger] h@[j]) ==> uppercase(h@[j])),
            lower == (forall|j: int| 0 <= j < i && alphabetic(#[trigger] h@[j]) ==> lowercase(h@[j])),
        decreases h@.len() - i,
    {
        let c = h[i];
        if is_alphabetic(c) {
            any = true;
            if !is_uppercase(c) {
                upper = false;
            }
            if !is_lowercase(c) {
                lower = false;
            }
        }
        i = i + 1;
    }
    if !any {
        None
    } else if upper {
        Some(DictionaryStatus::Approved)
    } else if lower {
        Some(DictionaryStatus::Unapproved)
    } else {
        None
    }
}

pub struct DictionaryEntryView {
    pub headword: Seq<char>,
    pub word_forms: Seq<Seq<char>>,
    pub part_of_speech: PartOfSpeech,
    pub status: DictionaryStatus,
    pub approved_meaning_or_alternatives: Seq<char>,
    pub ste_example: Seq<char>,
    pub non_ste_example: Option<Seq<char>>,
}

impl View for DictionaryEntry {
    type V = DictionaryEntryView;

    open spec fn view(&self) -> DictionaryEntryView {
        DictionaryEntryView {
            headword: self.headword@,
            word_forms: self.word_forms@.map_values(|s: String| s@),
            part_of_speech: self.part_of_speech,
            status: self.status,
            approved_meaning_or_alternatives: self.approved_meaning_or_alternatives@,
            ste_example: self.ste_example@,
            non_ste_example: match self.non_ste_example {
                Some(s) => Some(s@),
                None => None,
            },
        }
    }
}

/// The forms listed after the part-of-speech marker: comma separated,
/// leading commas ignored.
pub open spec fn suffix_forms(suffix: Seq<char>) -> Seq<Seq<char>> {
    kept_forms(split_on(skip_leading(suffix, ','), ","@))
}

/// The first column a row lacks: every row needs its headword and its
/// approved meaning or alternatives; every row but a prefix needs an STE
/// example, and an unapproved one also a non-STE example.
pub open spec fn missing_column(
    headword: Seq<char>,
    cells: Seq<Seq<char>>,
    status: DictionaryStatus,
    part: PartOfSpeech,
) -> Option<Seq<char>> {
    let example_free = part == PartOfSpeech::Prefix;
    if headword.len() == 0 {
        Some("headword"@)
    } else if cells[1].len() == 0 {
        Some("approved meaning or alternatives"@)
    } else if cells[2].len() == 0 && !example_free {
        Some("STE example"@)
    } else if status == DictionaryStatus::Unapproved && cells[3].len() == 0 && !example_free {
        Some("non-STE example"@)
    } else {
        None
    }
}

/// The entry that a row's four cells (words, approved meaning or
/// alternatives, STE example, non-STE example) give, or why they give none.
pub open spec fn entry_of(cells: Seq<Seq<char>>) -> Result<DictionaryEntryView, Seq<char>> {
    let words = cells[0];
    match marker_start(words) {
        None => Err("an entry has no recognized part of speech"@),
        Some(k) => match part_of_speech(words.subrange(k, words.len() as int)) {
            None => Err("an entry has an unknown part of speech"@),
            Some((part, suffix)) => {
                let (headword, label_forms) = headword_label(words.subrange(0, k));
                match status_of(headword) {
                    None => Err("an entry headword is neither uppercase nor lowercase"@),
                    Some(status) => match missing_column(headword, cells, status, part) {
                        Some(column) => Err("an entry has no "@ + column + " column data"@),
                        None => Ok(
                            DictionaryEntryView {
                                headword,
                                word_forms: seq![headword] + label_forms + suffix_forms(suffix),
                                part_of_speech: part,
                                status,
                                approved_meaning_or_alternatives: cells[1],
                                ste_example: cells[2],
                                non_ste_example: if cells[3].len() == 0 {
                                    None
                                } else {
                                    Some(cells[3])
                                },
                            },
                        ),
                    },
                }
            },
        },
    }
}

fn strings_of(v: &Vec<Vec<char>>) -> (r: Vec<String>)
    ensures
        r@.map_values(|s: String| s@) == texts_view(v@),
{
    let mut r: Vec<String> = Vec::new();
    let mut i: usize = 0;
    while i < v.len()
        invariant
            0 <= i <= v@.len(),
            r@.map_values(|s: String| s@) == texts_view(v@).subrange(0, i as int),
        decreases v@.len() - i,
    {
        let ghost prev = r@;
        r.push(string_of(v[i].as_slice()));
        assert(r@.map_values(|s: String| s@) =~= prev.map_values(|s: String| s@).push(v@[i as int]@));
        assert(texts_view(v@).subrange(0, i + 1) =~= texts_view(v@).subrange(0, i as int).push(v@[i as int]@));
        i = i + 1;
    }
    assert(texts_view(v@).subrange(0, v@.len() as int) =~= texts_view(v@));
    r
}

/// Reads one dictionary row from its four cells: words (headword, label and
/// part of speech with its forms), approved meaning or alternatives, STE
/// example and non-STE example. An error says what is wrong with the row.
pub fn parse_entry(cells: &[String; 4]) -> (r: Result<DictionaryEntry, String>)
    ensures
        match r {
            Ok(entry) => entry_of(cells@.map_values(|s: String| s@)) == Ok::<DictionaryEntryView, Seq<char>>(entry@),
            Err(reason) => entry_of(cells@.map_values(|s: String| s@)) == Err::<DictionaryEntryView, Seq<char>>(reason@),
        },
{
    let ghost cv = cells@.map_values(|s: String| s@);
    assert(cv[0] == cells[0]@ && cv[1] == cells[1]@ && cv[2] == cells[2]@ && cv[3] == cells[3]@);
    let (words, _) = crate::text::decode(cells[0].as_str());
    let k = match split_part_of_speech(words.as_slice()) {
        None => return Err("an entry has no recognized part of speech".to_owned()),
        Some(k) => k,
    };
    let rest = sub_chars(words.as_slice(), k, words.len());
    let (part, suffix) = match parse_part_of_speech(rest.as_slice()) {
        None => return Err("an entry has an unknown part of speech".to_owned()),
        Some(found) => found,
    };
    let head = sub_chars(words.as_slice(), 0, k);
    let (headword, label_forms) = parse_headword_label(head.as_slice());
    let status = match classify_status(headword.as_slice()) {
        None => return Err("an entry headword is neither uppercase nor lowercase".to_owned()),
        Some(status) => status,
    };
    let example_free = part == PartOfSpeech::Prefix;
    let missing: Option<&str> = if headword.len() == 0 {
        Some("headword")
    } else if cells[1].as_str().is_empty() {
        Some("approved meaning or alternatives")
    } else if cells[2].as_str().is_empty() && !example_free {
        Some("STE example")
    } else if status == DictionaryStatus::Unapproved && cells[3].as_str().is_empty() && !example_free {
        Some("non-STE example")
    } else {
        None
    };
    if let Some(column) = missing {
        let mut reason = String::new();
        push_text(&mut reason, "an entry has no ");
        push_text(&mut reason, column);
        push_text(&mut reason, " column data");
        return Err(reason);
    }
    let (comma, _) = crate::text::decode(",");
    proof {
        reveal_strlit(",");
    }
    let unled = skip_leading_char(suffix.as_slice(), ',');
    let suffix_pieces = split(unled.as_slice(), comma.as_slice());
    let mut forms: Vec<Vec<char>> = Vec::new();
    let h = sub_chars(headword.as_slice(), 0, headword.len());
    assert(h@ =~= headword@);
    forms.push(h);
    assert(texts_view(forms@) =~= seq![headword@] + texts_view(label_forms@).subrange(0, 0));
    let mut i: usize = 0;
    while i < label_forms.len()
        invariant
            0 <= i <= label_forms@.len(),
            texts_view(forms@) == seq![headword@] + texts_view(label_forms@).subrange(0, i as int),
        decreases label_forms@.len() - i,
    {
        let x = sub_chars(label_forms[i].as_slice(), 0, label_forms[i].len());
        assert(x@ =~= label_forms@[i as int]@);
        let ghost before = forms@;
        forms.push(x);
        assert(texts_view(forms@) =~= texts_view(before).push(label_forms@[i as int]@));
        assert(texts_view(label_forms@).subrange(0, i + 1) =~= texts_view(label_forms@).subrange(0, i as int).push(
            label_forms@[i as int]@,
        ));
        i = i + 1;
    }
    assert(texts_view(label_forms@).subrange(0, label_forms@.len() as int) =~= texts_view(label_forms@));
    push_kept_forms(&mut forms, &suffix_pieces);
    let entry = DictionaryEntry {
        headword: string_of(headword.as_slice()),
        word_forms: strings_of(&forms),
        part_of_speech: part,
        status,
        approved_meaning_or_alternatives: cells[1].clone(),
        ste_example: cells[2].clone(),
        non_ste_example: if cells[3].as_str().is_empty() {
            None
        } else {
            Some(cells[3].clone())
        },
    };
    proof {
        assert(entry@.word_forms =~= seq![headword@] + texts_view(label_forms@) + suffix_forms(suffix@));
    }
    Ok(entry)
}

/// The first index at or after `i` that holds white space, or the end.
pub open spec fn word_stop(s: Seq<char>, i: int) -> int
    decreases s.len() - i,
{
    if 0 <= i < s.len() && !whitespace(s[i]) {
        word_stop(s, i + 1)
    } else {
        i
    }
}

pub proof fn lemma_word_stop(s: Seq<char>, i: int)
    requires
        0 <= i <= s.len(),
    ensures
        i <= word_stop(s, i) <= s.len(),
        i < s.len() && !whitespace(s[i]) ==> i < word_stop(s, i),
    decreases s.len() - i,
{
    if i < s.len() && !whitespace(s[i]) {
        lemma_word_stop(s, i + 1);
    }
}

/// `str::split_whitespace` on the characters from `i` on.
pub open spec fn words_from(s: Seq<char>, i: int) -> Seq<Seq<char>>
    decreases s.len() - i,
{
    if i < 0 || i >= s.len() {
        seq![]
    } else if whitespace(s[i]) {
        words_from(s, i + 1)
    } else {
        proof {
            lemma_word_stop(s, i);
        }
        seq![s.subrange(i, word_stop(s, i))] + words_from(s, word_stop(s, i))
    }
}

/// The parts joined with single spaces.
pub open spec fn join_spaces(parts: Seq<Seq<char>>) -> Seq<char>
    decreases parts.len(),
{
    if parts.len() == 0 {
        seq![]
    } else if parts.len() == 1 {
        parts[0]
    } else {
        join_spaces(parts.drop_last()) + seq![' '] + parts.last()
    }
}

/// The words of the text joined with single spaces.
pub open spec fn normalized(s: Seq<char>) -> Seq<char> {
    join_spaces(words_from(s, 0))
}

fn words(s: &[char]) -> (r: Vec<Vec<char>>)
    ensures
        texts_view(r@) == words_from(s@, 0),
{
    let mut out: Vec<Vec<char>> = Vec::new();
    let mut i: usize = 0;
    let n = s.len();
    while i < n
        invariant
            0 <= i <= n,
            n == s@.len(),
            texts_view(out@) + words_from(s@, i as int) == words_from(s@, 0),
        decreases n - i,
    {
        if is_whitespace(s[i]) {
            i = i + 1;
        } else {
            let mut e = i;
            while e < n && !is_whitespace(s[e])
                invariant
                    i <= e <= n,
                    n == s@.len(),
                    word_stop(s@, i as int) == word_stop(s@, e as int),
                decreases n - e,
            {
                e = e + 1;
            }
            proof {
                lemma_word_stop(s@, i as int);
            }
            let w = sub_chars(s, i, e);
            let ghost before = out@;
            out.push(w);
            assert(texts_view(out@) =~= texts_view(before).push(w@));
            assert(texts_view(out@) + words_from(s@, e as int) =~= texts_view(before) + words_from(s@, i as int));
            i = e;
        }
    }
    assert(texts_view(out@) =~= texts_view(out@) + words_from(s@, i as int));
    out
}

fn join_spaced(parts: &Vec<Vec<char>>) -> (r: Vec<char>)
    ensures
        r@ == join_spaces(texts_view(parts@)),
{
    let ghost pv = texts_view(parts@);
    let mut out: Vec<char> = Vec::new();
    let mut i: usize = 0;
    while i < parts.len()
        invariant
            0 <= i <= parts@.len(),
            pv == texts_view(parts@),
            out@ == join_spaces(pv.subrange(0, i as int)),
        decreases parts@.len() - i,
    {
        proof {
            let s = pv.subrange(0, i + 1);
            assert(s.drop_last() =~= pv.subrange(0, i as int));
            assert(s.last() == parts@[i as int]@);
        }
        let ghost before = out@;
        if i > 0 {
            out.push(' ');
        }
        let mut k: usize = 0;
        while k < parts[i].len()
            invariant
                0 <= k <= parts@[i as int]@.len(),
                i < parts@.len(),
                out@ == (if i > 0 { before + seq![' '] } else { before }) + parts@[i as int]@.subrange(0, k as int),
            decreases parts@[i as int]@.len() - k,
        {
            out.push(parts[i][k]);
            assert(parts@[i as int]@.subrange(0, k + 1) =~= parts@[i as int]@.subrange(0, k as int).push(parts@[i as int]@[k as int]));
            k = k + 1;
        }
        assert(parts@[i as int]@.subrange(0, parts@[i as int]@.len() as int) =~= parts@[i as int]@);
        proof {
            if i == 0 {
                assert(pv.subrange(0, 1).len() == 1);
                assert(out@ =~= join_spaces(pv.subrange(0, 1)));
            } else {
                assert(out@ =~= join_spaces(pv.subrange(0, i + 1)));
            }
        }
        i = i + 1;
    }
    assert(pv.subrange(0, parts@.len() as int) =~= pv);
    out
}

fn normalize(s: &[char]) -> (r: Vec<char>)
    ensures
        r@ == normalized(s@),
{
    let w = words(s);
    join_spaced(&w)
}

/// The text of a cell's lines: joined with spaces, its words then rejoined
/// with single spaces.
pub open spec fn cell_of(lines: Seq<Seq<char>>) -> Seq<char> {
    normalized(join_spaces(lines))
}

/// The text of a cell from the texts of the lines inside it, in order.
pub fn cell_text(lines: &[String]) -> (r: String)
    ensures
        r@ == cell_of(lines@.map_values(|s: String| s@)),
{
    let ghost lv = lines@.map_values(|s: String| s@);
    let mut texts: Vec<Vec<char>> = Vec::new();
    let mut i: usize = 0;
    while i < lines.len()
        invariant
            0 <= i <= lines@.len(),
            lv == lines@.map_values(|s: String| s@),
            texts_view(texts@) == lv.subrange(0, i as int),
        decreases lines@.len() - i,
    {
        let (t, _) = crate::text::decode(lines[i].as_str());
        let ghost before = texts@;
        texts.push(t);
        assert(texts_view(texts@) =~= texts_view(before).push(lines@[i as int]@));
        assert(lv.subrange(0, i + 1) =~= lv.subrange(0, i as int).push(lines@[i as int]@));
        i = i + 1;
    }
    assert(lv.subrange(0, lines@.len() as int) =~= lv);
    let joined = join_spaced(&texts);
    let n = normalize(joined.as_slice());
    string_of(n.as_slice())
}

/// Where reading the lines of a word cell stands: the text so far, whether
/// a part-of-speech marker was seen, and the last line read.
pub struct HeadwordFold {
    pub text: Seq<char>,
    pub marker_seen: bool,
    pub previous: Option<Seq<char>>,
}

/// `String::pop`: the text without its last character, if it has one.
pub open spec fn pop_last(t: Seq<char>) -> Seq<char> {
    if t.len() > 0 {
        t.drop_last()
    } else {
        t
    }
}

/// A line ends with a hyphen.
pub open spec fn ends_with_hyphen(t: Seq<char>) -> bool {
    t.len() > 0 && t.last() == '-'
}

/// Before the marker, a line continues the previous one without a space
/// when the previous line is one bare word or ends with a hyphen and
/// neither line holds a parenthesis at the seam.
pub open spec fn wraps_word(marker_seen: bool, previous: Seq<char>, line: Seq<char>) -> bool {
    &&& !marker_seen
    &&& !previous.contains('(')
    &&& !(line.len() > 0 && line[0] == '(')
    &&& (ends_with_hyphen(previous) || !previous.contains(' '))
}

/// Reads one more line of a word cell; a hyphen that ends a wrapped word is
/// dropped, other lines are joined with a space.
pub open spec fn headword_step(st: HeadwordFold, line: Seq<char>) -> HeadwordFold {
    let n = normalized(line);
    if n.len() == 0 {
        st
    } else {
        let joined = match st.previous {
            None => st.text,
            Some(p) => if wraps_word(st.marker_seen, p, n) {
                if ends_with_hyphen(p) {
                    pop_last(st.text)
                } else {
                    st.text
                }
            } else {
                st.text.push(' ')
            },
        };
        HeadwordFold { text: joined + n, marker_seen: st.marker_seen || marker_start(n) is Some, previous: Some(n) }
    }
}

pub open spec fn headword_fold(lines: Seq<Seq<char>>) -> HeadwordFold
    decreases lines.len(),
{
    if lines.len() == 0 {
        HeadwordFold { text: seq![], marker_seen: false, previous: None }
    } else {
        headword_step(headword_fold(lines.drop_last()), lines.last())
    }
}

fn contains_char(t: &[char], c: char) -> (b: bool)
    ensures
        b == t@.contains(c),
{
    let mut i: usize = 0;
    while i < t.len()
        invariant
            0 <= i <= t@.len(),
            forall|j: int| 0 <= j < i ==> t@[j] != c,
        decreases t@.len() - i,
    {
        if t[i] == c {
            assert(t@[i as int] == c);
            return true;
        }
        i = i + 1;
    }
    false
}

/// The text of the word cell of an entry from the texts of its lines, in
/// order. Before the part-of-speech marker, a bare one-word line continues
/// the next line without a space (the printed hyphen at a line break may
/// be missing); lines from the marker on are joined with a space.
pub fn headword_cell_text(lines: &[String]) -> (r: String)
    ensures
        r@ == headword_fold(lines@.map_values(|s: String| s@)).text,
{
    let ghost lv = lines@.map_values(|s: String| s@);
    let mut text: Vec<char> = Vec::new();
    let mut marker_seen = false;
    let mut previous: Option<Vec<char>> = None;
    let mut i: usize = 0;
    while i < lines.len()
        invariant
            0 <= i <= lines@.len(),
            lv == lines@.map_values(|s: String| s@),
            headword_fold(lv.subrange(0, i as int)) == (HeadwordFold {
                text: text@,
                marker_seen,
                previous: match previous {
                    Some(p) => Some(p@),
                    None => None,
                },
            }),
        decreases lines@.len() - i,
    {
        proof {
            let s = lv.subrange(0, i + 1);
            assert(s.drop_last() =~= lv.subrange(0, i as int));
            assert(s.last() == lines@[i as int]@);
        }
        let (raw, _) = crate::text::decode(lines[i].as_str());
        let n = normalize(raw.as_slice());
        if n.len() > 0 {
            match &previous {
                None => {},
                Some(p) => {
                    let p_hyphen = p.len() > 0 && p[p.len() - 1] == '-';
                    let wraps = !marker_seen && !contains_char(p.as_slice(), '(') && !(n[0] == '(') && (p_hyphen
                        || !contains_char(p.as_slice(), ' '));
                    if wraps {
                        if p_hyphen {
                            text.pop();
                        }
                    } else {
                        text.push(' ');
                    }
                },
            }
            let ghost before = text@;
            let mut k: usize = 0;
            while k < n.len()
                invariant
                    0 <= k <= n@.len(),
                    text@ == before + n@.subrange(0, k as int),
                decreases n@.len() - k,
            {
                text.push(n[k]);
                assert(n@.subrange(0, k + 1) =~= n@.subrange(0, k as int).push(n@[k as int]));
                k = k + 1;
            }
            assert(n@.subrange(0, n@.len() as int) =~= n@);
            let found = split_part_of_speech(n.as_slice());
            marker_seen = marker_seen || found.is_some();
            previous = Some(n);
        }
        i = i + 1;
    }
    assert(lv.subrange(0, lines@.len() as int) =~= lv);
    string_of(text.as_slice())
}


/// `str::replace(pat, rep)`: every occurrence of `pat`, left to right, put
/// in the place of `rep`.
pub open spec fn replaced(s: Seq<char>, pat: Seq<char>, rep: Seq<char>) -> Seq<char>
    decreases s.len(),
{
    if pat.len() == 0 {
        s
    } else {
        match find_from(s, pat, 0) {
            None => s,
            Some(i) => {
                proof {
                    lemma_find_from(s, pat, 0);
                }
                s.subrange(0, i) + rep + replaced(s.subrange(i + pat.len(), s.len() as int), pat, rep)
            },
        }
    }
}

fn replace_all(s: &[char], pat: &[char], rep: &[char]) -> (r: Vec<char>)
    requires
        pat@.len() > 0,
    ensures
        r@ == replaced(s@, pat@, rep@),
{
    let mut out: Vec<char> = Vec::new();
    let mut rest: Vec<char> = sub_chars(s, 0, s.len());
    assert(rest@ =~= s@);
    loop
        invariant
            pat@.len() > 0,
            out@ + replaced(rest@, pat@, rep@) == replaced(s@, pat@, rep@),
        decreases rest@.len(),
    {
        let rs = rest.as_slice();
        assert(rs@ == rest@);
        match find(rs, pat) {
            None => {
                let ghost before = out@;
                let mut j: usize = 0;
                while j < rest.len()
                    invariant
                        0 <= j <= rest@.len(),
                        out@ == before + rest@.subrange(0, j as int),
                    decreases rest@.len() - j,
                {
                    out.push(rest[j]);
                    assert(out@ =~= before + rest@.subrange(0, j + 1));
                    j = j + 1;
                }
                assert(rest@.subrange(0, rest@.len() as int) =~= rest@);
                return out;
            },
            Some(i) => {
                let total = rest.len();
                let n = pat.len();
                let next = sub_chars(rs, i + n, total);
                let ghost before = out@;
                let mut j: usize = 0;
                while j < i
                    invariant
                        0 <= j <= i,
                        i <= rest@.len(),
                        out@ == before + rest@.subrange(0, j as int),
                    decreases i - j,
                {
                    out.push(rest[j]);
                    assert(out@ =~= before + rest@.subrange(0, j + 1));
                    j = j + 1;
                }
                let mut k: usize = 0;
                while k < rep.len()
                    invariant
                        0 <= k <= rep@.len(),
                        out@ == before + rest@.subrange(0, i as int) + rep@.subrange(0, k as int),
                    decreases rep@.len() - k,
                {
                    out.push(rep[k]);
                    assert(out@ =~= before + rest@.subrange(0, i as int) + rep@.subrange(0, k + 1));
                    k = k + 1;
                }
                assert(rep@.subrange(0, rep@.len() as int) =~= rep@);
                proof {
                    assert(replaced(rest@, pat@, rep@) == rest@.subrange(0, i as int) + rep@ + replaced(next@, pat@, rep@));
                }
                assert(out@ + replaced(next@, pat@, rep@) =~= before + replaced(rest@, pat@, rep@));
                rest = next;
            },
        }
    }
}

/// The text with a space before `.`, `,`, `;`, `:` and `)` and after `(`
/// taken out, in that order.
pub open spec fn punctuation_closed(t: Seq<char>) -> Seq<char> {
    replaced(
        replaced(
            replaced(replaced(replaced(replaced(t, seq![' ', '.'], seq!['.']), seq![' ', ','], seq![',']), seq![' ', ';'], seq![';']),
            seq![' ', ':'], seq![':']),
            seq![' ', ')'],
            seq![')'],
        ),
        seq!['(', ' '],
        seq!['('],
    )
}

/// The words of a printed line joined back into its text: joined with
/// spaces, the spaces inside punctuation taken out, and white space runs
/// made single spaces.
pub open spec fn joined_words(words: Seq<Seq<char>>) -> Seq<char> {
    normalized(punctuation_closed(join_spaces(words)))
}

fn replace_pair(t: &Vec<char>, a: char, b: char, c: char) -> (r: Vec<char>)
    ensures
        r@ == replaced(t@, seq![a, b], seq![c]),
{
    let pat: Vec<char> = vec![a, b];
    let rep: Vec<char> = vec![c];
    assert(pat@ =~= seq![a, b]);
    assert(rep@ =~= seq![c]);
    replace_all(t.as_slice(), pat.as_slice(), rep.as_slice())
}

/// Joins the words of a printed line into its text.
pub fn join_words(words: &[String]) -> (r: String)
    ensures
        r@ == joined_words(words@.map_values(|s: String| s@)),
{
    let ghost wv = words@.map_values(|s: String| s@);
    let mut texts: Vec<Vec<char>> = Vec::new();
    let mut i: usize = 0;
    while i < words.len()
        invariant
            0 <= i <= words@.len(),
            wv == words@.map_values(|s: String| s@),
            texts_view(texts@) == wv.subrange(0, i as int),
        decreases words@.len() - i,
    {
        let (t, _) = crate::text::decode(words[i].as_str());
        let ghost before = texts@;
        texts.push(t);
        assert(texts_view(texts@) =~= texts_view(before).push(words@[i as int]@));
        assert(wv.subrange(0, i + 1) =~= wv.subrange(0, i as int).push(words@[i as int]@));
        i = i + 1;
    }
    assert(wv.subrange(0, words@.len() as int) =~= wv);
    let joined = join_spaced(&texts);
    let t1 = replace_pair(&joined, ' ', '.', '.');
    let t2 = replace_pair(&t1, ' ', ',', ',');
    let t3 = replace_pair(&t2, ' ', ';', ';');
    let t4 = replace_pair(&t3, ' ', ':', ':');
    let t5 = replace_pair(&t4, ' ', ')', ')');
    let t6 = replace_pair(&t5, '(', ' ', '(');
    let n = normalize(t6.as_slice());
    string_of(n.as_slice())
}

} // verus!
