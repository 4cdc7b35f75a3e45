//! Scans one source file: rule attributes and the directive comments with the
//! names of the items they sit on.
use vstd::prelude::*;
use vstd::string::StringExecFns;
use vstd::string::StringSliceAdditionalSpecFns;
use crate::text::{alphanumeric_ascii, decode, sub_chars, chars_equal_str};
use super::Language;
use super::chars::{find, find_from, occurs_at, trim, trim_start, trimmed, trimmed_start, string_of};
use super::rust_lines::{advance_from, advance_rust_state, depth_of, state_ok, RustLexicalState};
use super::string_context::{marker_is_inside_quoted_region, quoted_at};
use crate::text::{byte_len, byte_offset, lemma_byte_len_concat, lemma_byte_len_is_encoding_len};
use vstd::utf8::encode_utf8;
use super::parser::{
    annotations_view, contains_annotation_marker, lines_scan, parse_annotations, parse_view, strip_cr,
    verification_of, warnings_view, Annotation, AnnotationView, ParseWarning, Verification,
    LEGACY_ANNOTATION_MARKER, PRIMARY_ANNOTATION_MARKER,
};

verus! {

/// `t` begins with `p`.
pub open spec fn starts(t: Seq<char>, p: Seq<char>) -> bool {
    p.len() <= t.len() && t.subrange(0, p.len() as int) == p
}

/// Whether `t` begins with the characters of `p`.
pub fn starts_with(t: &[char], p: &str) -> (r: bool)
    ensures
        r == starts(t@, p@),
{
    let (pc, _) = decode(p);
    pc.len() <= t.len() && occurs_at(t, pc.as_slice(), 0)
}

// ---------------------------------------------------------------------------
// Names of items.

/// A character of an identifier: ASCII letter, digit or `_`.
pub open spec fn ident_char(c: char) -> bool {
    alphanumeric_ascii(c) || c == '_'
}

/// The first index at or after `i` that does not hold an identifier character.
pub open spec fn ident_end(t: Seq<char>, i: int) -> int
    decreases t.len() - i,
{
    if 0 <= i < t.len() && ident_char(t[i]) {
        ident_end(t, i + 1)
    } else {
        i
    }
}

/// The identifier right after the first occurrence of `marker`, when there is
/// a nonempty one.
pub open spec fn token_after(line: Seq<char>, marker: Seq<char>) -> Option<Seq<char>> {
    match find_from(line, marker, 0) {
        None => None,
        Some(k) => {
            let start = k + marker.len();
            let end = ident_end(line, start);
            if end > start {
                Some(line.subrange(start, end))
            } else {
                None
            }
        },
    }
}

/// The word that introduces a function in a language.
pub open spec fn function_marker(language: Language) -> Seq<char> {
    match language {
        Language::Rust => "fn "@,
        Language::Python => "def "@,
        Language::Go => "func "@,
        _ => " "@,
    }
}

/// The name of the function a (trimmed) line declares.
pub open spec fn function_name(language: Language, line: Seq<char>) -> Option<Seq<char>> {
    if (language == Language::JavaScript || language == Language::TypeScript) && starts(line, "function "@) {
        token_after(line, "function "@)
    } else if language == Language::Go && starts(line, "func ("@) {
        match find_from(line, ") "@, 0) {
            None => None,
            Some(k) => token_after(line.subrange(k + 2, line.len() as int), seq![]),
        }
    } else {
        token_after(line, function_marker(language))
    }
}

/// The name of the type a line declares: after the first of `struct `,
/// `enum `, `type ` that the line holds.
pub open spec fn declared_type_name(line: Seq<char>) -> Option<Seq<char>> {
    if find_from(line, "struct "@, 0) is Some {
        token_after(line, "struct "@)
    } else if find_from(line, "enum "@, 0) is Some {
        token_after(line, "enum "@)
    } else if find_from(line, "type "@, 0) is Some {
        token_after(line, "type "@)
    } else {
        None
    }
}

/// The first function named in the next six lines from `i` on.
pub open spec fn function_name_from(language: Language, lines: Seq<Seq<char>>, i: int, left: int) -> Option<Seq<char>>
    decreases lines.len() - i,
{
    if i < 0 || i >= lines.len() || left <= 0 {
        None
    } else {
        match function_name(language, trimmed(lines[i])) {
            Some(n) => Some(n),
            None => function_name_from(language, lines, i + 1, left - 1),
        }
    }
}

/// The first function or type named in the next six lines from `i` on that
/// are not attributes.
pub open spec fn item_name_from(language: Language, lines: Seq<Seq<char>>, i: int, left: int) -> Option<Seq<char>>
    decreases lines.len() - i,
{
    if i < 0 || i >= lines.len() || left <= 0 {
        None
    } else if starts(trimmed_start(lines[i]), "#["@) {
        item_name_from(language, lines, i + 1, left)
    } else {
        let l = trimmed(lines[i]);
        match function_name(language, l) {
            Some(n) => Some(n),
            None => match declared_type_name(l) {
                Some(n) => Some(n),
                None => item_name_from(language, lines, i + 1, left - 1),
            },
        }
    }
}

fn ident_end_exec(t: &[char], i: usize) -> (r: usize)
    requires
        i <= t@.len(),
    ensures
        r == ident_end(t@, i as int),
        i <= r <= t@.len(),
{
    let mut j = i;
    while j < t.len() && (crate::text::is_alphanumeric_ascii(t[j]) || t[j] == '_')
        invariant
            i <= j <= t@.len(),
            ident_end(t@, i as int) == ident_end(t@, j as int),
        decreases t@.len() - j,
    {
        j = j + 1;
    }
    j
}

fn token_after_exec(line: &[char], marker: &[char]) -> (r: Option<Vec<char>>)
    ensures
        match r {
            Some(v) => token_after(line@, marker@) == Some(v@),
            None => token_after(line@, marker@) is None,
        },
{
    match find(line, marker) {
        None => None,
        Some(k) => {
            let n = line.len();
            let start = k + marker.len();
            let end = ident_end_exec(line, start);
            if end > start {
                Some(sub_chars(line, start, end))
            } else {
                None
            }
        },
    }
}

fn token_after_str(line: &[char], marker: &str) -> (r: Option<Vec<char>>)
    ensures
        match r {
            Some(v) => token_after(line@, marker@) == Some(v@),
            None => token_after(line@, marker@) is None,
        },
{
    let (m, _) = decode(marker);
    token_after_exec(line, m.as_slice())
}

fn function_name_exec(language: Language, line: &[char]) -> (r: Option<Vec<char>>)
    ensures
        match r {
            Some(v) => function_name(language, line@) == Some(v@),
            None => function_name(language, line@) is None,
        },
{
    if (language == Language::JavaScript || language == Language::TypeScript) && starts_with(line, "function ") {
        return token_after_str(line, "function ");
    }
    if language == Language::Go && starts_with(line, "func (") {
        let (close, _) = decode(") ");
        proof {
            reveal_strlit(") ");
        }
        return match find(line, close.as_slice()) {
            None => None,
            Some(k) => {
                let n = line.len();
                let rest = sub_chars(line, k + 2, n);
                let empty: Vec<char> = Vec::new();
                assert(empty@ =~= Seq::<char>::empty());
                token_after_exec(rest.as_slice(), empty.as_slice())
            },
        };
    }
    let marker = match language {
        Language::Rust => "fn ",
        Language::Python => "def ",
        Language::Go => "func ",
        _ => " ",
    };
    token_after_str(line, marker)
}

fn declared_type_exec(line: &[char]) -> (r: Option<Vec<char>>)
    ensures
        match r {
            Some(v) => declared_type_name(line@) == Some(v@),
            None => declared_type_name(line@) is None,
        },
{
    let (s, _) = decode("struct ");
    let (e, _) = decode("enum ");
    let (t, _) = decode("type ");
    if find(line, s.as_slice()).is_some() {
        token_after_exec(line, s.as_slice())
    } else if find(line, e.as_slice()).is_some() {
        token_after_exec(line, e.as_slice())
    } else if find(line, t.as_slice()).is_some() {
        token_after_exec(line, t.as_slice())
    } else {
        None
    }
}

/// The views of a sequence of lines.
pub open spec fn lines_view(lines: Seq<Vec<char>>) -> Seq<Seq<char>> {
    lines.map_values(|l: Vec<char>| l@)
}

fn next_function_name(language: Language, lines: &Vec<Vec<char>>, from: usize) -> (r: Option<String>)
    requires
        from <= lines@.len(),
    ensures
        match r {
            Some(s) => function_name_from(language, lines_view(lines@), from as int, 6) == Some(s@),
            None => function_name_from(language, lines_view(lines@), from as int, 6) is None,
        },
{
    let mut i = from;
    let mut left: usize = 6;
    while i < lines.len() && left > 0
        invariant
            from <= i <= lines@.len(),
            left <= 6,
            function_name_from(language, lines_view(lines@), from as int, 6) == function_name_from(
                language,
                lines_view(lines@),
                i as int,
                left as int,
            ),
        decreases lines@.len() - i,
    {
        let l = trim(lines[i].as_slice());
        assert(lines_view(lines@)[i as int] == lines@[i as int]@);
        match function_name_exec(language, l.as_slice()) {
            Some(n) => {
                return Some(string_of(n.as_slice()));
            },
            None => {},
        }
        i = i + 1;
        left = left - 1;
    }
    None
}

fn next_item_name(language: Language, lines: &Vec<Vec<char>>, from: usize) -> (r: Option<String>)
    requires
        from <= lines@.len(),
    ensures
        match r {
            Some(s) => item_name_from(language, lines_view(lines@), from as int, 6) == Some(s@),
            None => item_name_from(language, lines_view(lines@), from as int, 6) is None,
        },
{
    let mut i = from;
    let mut left: usize = 6;
    while i < lines.len() && left > 0
        invariant
            from <= i <= lines@.len(),
            left <= 6,
            item_name_from(language, lines_view(lines@), from as int, 6) == item_name_from(
                language,
                lines_view(lines@),
                i as int,
                left as int,
            ),
        decreases lines@.len() - i,
    {
        assert(lines_view(lines@)[i as int] == lines@[i as int]@);
        let head = trim_start(lines[i].as_slice());
        if !starts_with(head.as_slice(), "#[") {
            let l = trim(lines[i].as_slice());
            match function_name_exec(language, l.as_slice()) {
                Some(n) => {
                    return Some(string_of(n.as_slice()));
                },
                None => {},
            }
            match declared_type_exec(l.as_slice()) {
                Some(n) => {
                    return Some(string_of(n.as_slice()));
                },
                None => {},
            }
            left = left - 1;
        }
        i = i + 1;
    }
    None
}

} // verus!

verus! {

// ---------------------------------------------------------------------------
// Rule attributes.

/// A nonempty `"..."` literal at the start of `rest`: its contents up to the
/// next `"`.
pub open spec fn string_literal(rest: Seq<char>) -> Option<Seq<char>> {
    if rest.len() > 0 && rest[0] == '"' {
        let after = rest.drop_first();
        match find_from(after, seq!['"'], 0) {
            Some(k) => if k > 0 {
                Some(after.subrange(0, k))
            } else {
                None
            },
            None => None,
        }
    } else {
        None
    }
}

/// `str::trim_end_matches(")]")`: every trailing `)]` removed.
pub open spec fn trim_closing(t: Seq<char>) -> Seq<char>
    decreases t.len(),
{
    if t.len() >= 2 && t[t.len() - 2] == ')' && t[t.len() - 1] == ']' {
        trim_closing(t.subrange(0, t.len() - 2))
    } else {
        t
    }
}

/// The rule and method a single-line `#[rule("id")]` or
/// `#[verifies("id", method)]` attribute names; other lines give `None`.
pub open spec fn attribute_binding(line: Seq<char>) -> Option<(Seq<char>, Option<Verification>)> {
    let t = trimmed_start(line);
    if starts(t, "#[rule("@) {
        match string_literal(t.subrange("#[rule("@.len() as int, t.len() as int)) {
            Some(id) => Some((id, None)),
            None => None,
        }
    } else if starts(t, "#[verifies("@) {
        let rest = t.subrange("#[verifies("@.len() as int, t.len() as int);
        match string_literal(rest) {
            None => None,
            Some(id) => match find_from(rest, seq![','], 0) {
                None => None,
                Some(k) => match verification_of(
                    trimmed(trim_closing(trimmed(rest.subrange(k + 1, rest.len() as int)))),
                ) {
                    Some(v) => Some((id, Some(v))),
                    None => None,
                },
            },
        }
    } else {
        None
    }
}

fn string_literal_exec(rest: &[char]) -> (r: Option<Vec<char>>)
    ensures
        match r {
            Some(v) => string_literal(rest@) == Some(v@),
            None => string_literal(rest@) is None,
        },
{
    if rest.len() == 0 || rest[0] != '"' {
        return None;
    }
    let n = rest.len();
    let after = sub_chars(rest, 1, n);
    assert(after@ =~= rest@.drop_first());
    let mut quote: Vec<char> = Vec::new();
    quote.push('"');
    assert(quote@ =~= seq!['"']);
    match find(after.as_slice(), quote.as_slice()) {
        Some(k) => if k > 0 {
            Some(sub_chars(after.as_slice(), 0, k))
        } else {
            None
        },
        None => None,
    }
}

fn trim_closing_exec(t: &[char]) -> (r: Vec<char>)
    ensures
        r@ == trim_closing(t@),
{
    let mut end = t.len();
    assert(t@.subrange(0, end as int) =~= t@);
    while end >= 2 && t[end - 2] == ')' && t[end - 1] == ']'
        invariant
            end <= t@.len(),
            trim_closing(t@) == trim_closing(t@.subrange(0, end as int)),
        decreases end,
    {
        assert(t@.subrange(0, end as int).subrange(0, end - 2) =~= t@.subrange(0, end - 2));
        end = end - 2;
    }
    sub_chars(t, 0, end)
}

pub(crate) fn attribute_binding_exec(line: &[char]) -> (r: Option<(Vec<char>, Option<Verification>)>)
    ensures
        match r {
            Some((id, v)) => attribute_binding(line@) == Some((id@, v)),
            None => attribute_binding(line@) is None,
        },
{
    let t = trim_start(line);
    let n = t.len();
    let (rule_open, _) = decode("#[rule(");
    let (verifies_open, _) = decode("#[verifies(");
    if starts_with(t.as_slice(), "#[rule(") {
        let rest = sub_chars(t.as_slice(), rule_open.len(), n);
        return match string_literal_exec(rest.as_slice()) {
            Some(id) => Some((id, None)),
            None => None,
        };
    }
    if !starts_with(t.as_slice(), "#[verifies(") {
        return None;
    }
    let rest = sub_chars(t.as_slice(), verifies_open.len(), n);
    let id = match string_literal_exec(rest.as_slice()) {
        Some(id) => id,
        None => {
            return None;
        },
    };
    let mut comma: Vec<char> = Vec::new();
    comma.push(',');
    assert(comma@ =~= seq![',']);
    let k = match find(rest.as_slice(), comma.as_slice()) {
        Some(k) => k,
        None => {
            return None;
        },
    };
    let m = rest.len();
    let after = sub_chars(rest.as_slice(), k + 1, m);
    let a1 = trim(after.as_slice());
    let a2 = trim_closing_exec(a1.as_slice());
    let method = trim(a2.as_slice());
    match Verification::from_chars(method.as_slice()) {
        Some(v) => Some((id, Some(v))),
        None => None,
    }
}

// ---------------------------------------------------------------------------
// Comment blocks.

/// A line that continues a comment: after leading white space it begins with
/// `//`, `#`, `*`, `/*` or `*/`.
pub open spec fn comment_continuation(line: Seq<char>) -> bool {
    let t = trimmed_start(line);
    starts(t, "//"@) || starts(t, "#"@) || starts(t, "*"@) || starts(t, "/*"@) || starts(t, "*/"@)
}

/// The last line of the comment block that begins at `end`.
pub open spec fn comment_end(lines: Seq<Seq<char>>, end: int) -> int
    decreases lines.len() - end,
{
    if 0 <= end && end + 1 < lines.len() && comment_continuation(lines[end + 1]) {
        comment_end(lines, end + 1)
    } else {
        end
    }
}

pub proof fn lemma_comment_end(lines: Seq<Seq<char>>, end: int)
    requires
        0 <= end < lines.len(),
    ensures
        end <= comment_end(lines, end) < lines.len(),
    decreases lines.len() - end,
{
    if end + 1 < lines.len() && comment_continuation(lines[end + 1]) {
        lemma_comment_end(lines, end + 1);
    }
}

/// Lines joined with `\n` between them.
pub open spec fn join_lines(ls: Seq<Seq<char>>) -> Seq<char>
    decreases ls.len(),
{
    if ls.len() == 0 {
        seq![]
    } else if ls.len() == 1 {
        ls[0]
    } else {
        join_lines(ls.drop_last()) + seq!['\n'] + ls.last()
    }
}

/// Where the first of the two markers starts in the line, if either occurs.
pub open spec fn first_marker(line: Seq<char>) -> Option<int> {
    match (find_from(line, PRIMARY_ANNOTATION_MARKER@, 0), find_from(line, LEGACY_ANNOTATION_MARKER@, 0)) {
        (Some(a), Some(b)) => Some(if a <= b { a } else { b }),
        (Some(a), None) => Some(a),
        (None, Some(b)) => Some(b),
        (None, None) => None,
    }
}

/// The line starts as a comment of its language: after leading white space
/// it begins with `#` in Python, and with `//`, `/*` or `*` elsewhere.
pub open spec fn comment_start(language: Language, line: Seq<char>) -> bool {
    let t = trimmed_start(line);
    if language == Language::Python {
        starts(t, "#"@)
    } else {
        starts(t, "//"@) || starts(t, "/*"@) || starts(t, "*"@)
    }
}

/// Languages whose backtick quotes delimit strings.
pub open spec fn backtick_strings(language: Language) -> bool {
    language == Language::Go || language == Language::JavaScript || language == Language::TypeScript
}

/// A Rust line that starts inside a string literal.
pub open spec fn in_string(state: RustLexicalState) -> bool {
    state is Quoted || state is Raw
}

/// A directive binds on the line: a marker occurs in it, the line starts as
/// a comment, a Rust line does not start inside a string literal, and the
/// first marker does not sit inside a quoted literal of the line. So a
/// marker trailing code, or inside a string, never binds.
pub open spec fn binds_marker(language: Language, state: RustLexicalState, line: Seq<char>) -> bool {
    &&& first_marker(line) is Some
    &&& comment_start(language, line)
    &&& !(language == Language::Rust && in_string(state))
    &&& !quoted_at(
        encode_utf8(line),
        byte_offset(line, first_marker(line)->Some_0) as int,
        backtick_strings(language),
        0,
        None,
    )
}

/// An attribute binds on the line only in Rust, on a line that starts in
/// code.
pub open spec fn binds_attribute(language: Language, state: RustLexicalState, line: Seq<char>) -> bool {
    language == Language::Rust && state == RustLexicalState::Code && attribute_binding(line) is Some
}

fn first_marker_exec(line: &[char]) -> (r: Option<usize>)
    ensures
        match r {
            Some(p) => first_marker(line@) == Some(p as int) && p <= line@.len(),
            None => first_marker(line@) is None,
        },
{
    let (primary, _) = decode(PRIMARY_ANNOTATION_MARKER);
    let (legacy, _) = decode(LEGACY_ANNOTATION_MARKER);
    let a = find(line, primary.as_slice());
    let b = find(line, legacy.as_slice());
    match (a, b) {
        (Some(a), Some(b)) => Some(if a <= b { a } else { b }),
        (Some(a), None) => Some(a),
        (None, Some(b)) => Some(b),
        (None, None) => None,
    }
}

fn comment_start_exec(language: Language, line: &[char]) -> (r: bool)
    ensures
        r == comment_start(language, line@),
{
    let t = trim_start(line);
    if language == Language::Python {
        starts_with(t.as_slice(), "#")
    } else {
        starts_with(t.as_slice(), "//") || starts_with(t.as_slice(), "/*") || starts_with(t.as_slice(), "*")
    }
}

fn binds_marker_exec(language: Language, state: RustLexicalState, line: &[char]) -> (r: bool)
    ensures
        r == binds_marker(language, state, line@),
{
    let p = match first_marker_exec(line) {
        None => {
            return false;
        },
        Some(p) => p,
    };
    if !comment_start_exec(language, line) {
        return false;
    }
    if language == Language::Rust {
        match state {
            RustLexicalState::Quoted => {
                return false;
            },
            RustLexicalState::Raw(_) => {
                return false;
            },
            _ => {},
        }
    }
    let text = string_of(line);
    let (_, offsets) = decode(text.as_str());
    let backticks = language == Language::Go || language == Language::JavaScript || language
        == Language::TypeScript;
    !marker_is_inside_quoted_region(text.as_str(), offsets[p], backticks)
}

fn is_comment_continuation(line: &[char]) -> (r: bool)
    ensures
        r == comment_continuation(line@),
{
    let t = trim_start(line);
    starts_with(t.as_slice(), "//") || starts_with(t.as_slice(), "#") || starts_with(t.as_slice(), "*")
        || starts_with(t.as_slice(), "/*") || starts_with(t.as_slice(), "*/")
}

fn comment_end_exec(lines: &Vec<Vec<char>>, start: usize) -> (r: usize)
    requires
        start < lines@.len(),
    ensures
        r == comment_end(lines_view(lines@), start as int),
        start <= r < lines@.len(),
{
    let n = lines.len();
    let mut end = start;
    while end + 1 < n && is_comment_continuation(lines[end + 1].as_slice())
        invariant
            n == lines@.len(),
            start <= end < lines@.len(),
            comment_end(lines_view(lines@), start as int) == comment_end(lines_view(lines@), end as int),
        decreases lines@.len() - end,
    {
        assert(lines_view(lines@)[end + 1] == lines@[end + 1]@);
        end = end + 1;
    }
    if end + 1 < n {
        assert(lines_view(lines@)[end + 1] == lines@[end + 1]@);
    }
    end
}

fn join_exec(lines: &Vec<Vec<char>>, start: usize, end: usize) -> (r: String)
    requires
        start <= end < lines@.len(),
    ensures
        r@ == join_lines(lines_view(lines@).subrange(start as int, end + 1)),
{
    let n = lines.len();
    let mut r = string_of(lines[start].as_slice());
    let mut i = start + 1;
    assert(lines_view(lines@).subrange(start as int, start + 1) =~= seq![lines@[start as int]@]);
    while i <= end
        invariant
            start < i <= end + 1,
            end < lines@.len(),
            n == lines@.len(),
            r@ == join_lines(lines_view(lines@).subrange(start as int, i as int)),
        decreases end + 1 - i,
    {
        r.push('\n');
        super::chars::push_chars(&mut r, lines[i].as_slice());
        proof {
            let s = lines_view(lines@).subrange(start as int, i + 1);
            assert(s.drop_last() =~= lines_view(lines@).subrange(start as int, i as int));
            assert(s.last() == lines@[i as int]@);
        }
        i = i + 1;
    }
    r
}

/// The lines of a text as `str::lines` gives them.
pub fn split_lines(t: &[char]) -> (r: Vec<Vec<char>>)
    ensures
        lines_view(r@) == lines_scan(t@, 0, 0),
{
    let n = t.len();
    let mut r: Vec<Vec<char>> = Vec::new();
    let mut start: usize = 0;
    let mut i: usize = 0;
    assert(lines_view(r@) =~= Seq::<Seq<char>>::empty());
    while i < n
        invariant
            n == t@.len(),
            0 <= start <= i <= n,
            lines_scan(t@, 0, 0) == lines_view(r@) + lines_scan(t@, start as int, i as int),
        decreases n - i,
    {
        if t[i] == '\n' {
            let end = if i > start && t[i - 1] == '\r' { i - 1 } else { i };
            let line = sub_chars(t, start, end);
            let ghost before = lines_view(r@);
            assert(line@ =~= strip_cr(t@.subrange(start as int, i as int)));
            r.push(line);
            assert(lines_view(r@) =~= before.push(line@));
            assert(before + lines_scan(t@, start as int, i as int) =~= lines_view(r@) + lines_scan(
                t@,
                i + 1,
                i + 1,
            ));
            start = i + 1;
        }
        i = i + 1;
    }
    if start < n {
        let line = sub_chars(t, start, n);
        let ghost before = lines_view(r@);
        r.push(line);
        assert(lines_view(r@) =~= before.push(line@));
        assert(before + lines_scan(t@, start as int, n as int) =~= lines_view(r@));
    } else {
        assert(lines_view(r@) + lines_scan(t@, start as int, n as int) =~= lines_view(r@));
    }
    r
}

} // verus!

verus! {

// ---------------------------------------------------------------------------
// Scanning a file.

/// A rule annotation with the place it was found.
#[derive(Clone, Debug, PartialEq, Eq)]
pub struct AnnotationLocation {
    pub file_path: String,
    pub line: usize,
    pub function_name: Option<String>,
    pub annotation: Annotation,
}

/// A `#[rule]` or `#[verifies]` attribute found in source.
///
/// `verification` is `None` for a `#[rule]` site (the item is the rule) and
/// `Some` for a `#[verifies]` site (the item checks the rule, the method
/// says how).
#[derive(Clone, Debug, PartialEq, Eq)]
pub struct AttributeBinding {
    pub file_path: String,
    pub line: usize,
    pub item_name: Option<String>,
    pub rule_id: String,
    pub verification: Option<Verification>,
}

/// What one file holds.
#[derive(Clone, Debug, PartialEq, Eq)]
pub struct FileScan {
    pub file_path: String,
    pub language: Language,
    pub annotations: Vec<AnnotationLocation>,
    pub bindings: Vec<AttributeBinding>,
    pub warnings: Vec<ParseWarning>,
}

pub struct LocationView {
    pub file_path: Seq<char>,
    pub line: int,
    pub function_name: Option<Seq<char>>,
    pub annotation: AnnotationView,
}

pub struct BindingView {
    pub file_path: Seq<char>,
    pub line: int,
    pub item_name: Option<Seq<char>>,
    pub rule_id: Seq<char>,
    pub verification: Option<Verification>,
}

/// The findings of a scan, as plain values.
pub struct ScanView {
    pub annotations: Seq<LocationView>,
    pub bindings: Seq<BindingView>,
    pub warnings: Seq<(int, Seq<char>)>,
}

impl View for AnnotationLocation {
    type V = LocationView;

    open spec fn view(&self) -> LocationView {
        LocationView {
            file_path: self.file_path@,
            line: self.line as int,
            function_name: super::parser::opt_view(self.function_name),
            annotation: self.annotation@,
        }
    }
}

impl View for AttributeBinding {
    type V = BindingView;

    open spec fn view(&self) -> BindingView {
        BindingView {
            file_path: self.file_path@,
            line: self.line as int,
            item_name: super::parser::opt_view(self.item_name),
            rule_id: self.rule_id@,
            verification: self.verification,
        }
    }
}

pub open spec fn locations_view(v: Seq<AnnotationLocation>) -> Seq<LocationView> {
    v.map_values(|a: AnnotationLocation| a@)
}

pub open spec fn bindings_view(v: Seq<AttributeBinding>) -> Seq<BindingView> {
    v.map_values(|b: AttributeBinding| b@)
}

pub open spec fn empty_scan() -> ScanView {
    ScanView { annotations: seq![], bindings: seq![], warnings: seq![] }
}

pub open spec fn concat_scan(a: ScanView, b: ScanView) -> ScanView {
    ScanView {
        annotations: a.annotations + b.annotations,
        bindings: a.bindings + b.bindings,
        warnings: a.warnings + b.warnings,
    }
}

/// The annotations of one comment block, each placed at `line`.
pub open spec fn placed(
    file: Seq<char>,
    line: int,
    function_name: Option<Seq<char>>,
    annotations: Seq<AnnotationView>,
) -> Seq<LocationView> {
    annotations.map_values(
        |a: AnnotationView|
            LocationView { file_path: file, line: line, function_name: function_name, annotation: a },
    )
}

/// What the lines from `idx` on contribute: on a Rust attribute line that
/// starts in code its binding (named after the next item); on a line where a
/// directive binds the annotations and warnings of the whole comment block
/// starting there (named after the next function); other lines nothing.
/// `states` holds the Rust lexical state at the start of each line.
pub open spec fn scan_from(
    file: Seq<char>,
    language: Language,
    lines: Seq<Seq<char>>,
    states: Seq<RustLexicalState>,
    idx: int,
) -> ScanView
    decreases lines.len() - idx,
{
    if idx < 0 || idx >= lines.len() {
        empty_scan()
    } else if binds_attribute(language, states[idx], lines[idx]) {
        let (rule_id, verification) = attribute_binding(lines[idx])->Some_0;
        let binding = BindingView {
            file_path: file,
            line: idx + 1,
            item_name: item_name_from(language, lines, idx + 1, 6),
            rule_id: rule_id,
            verification: verification,
        };
        concat_scan(
            ScanView { annotations: seq![], bindings: seq![binding], warnings: seq![] },
            scan_from(file, language, lines, states, idx + 1),
        )
    } else if !binds_marker(language, states[idx], lines[idx]) {
        scan_from(file, language, lines, states, idx + 1)
    } else {
        let end = comment_end(lines, idx);
        proof {
            lemma_comment_end(lines, idx);
        }
        let parsed = parse_view(join_lines(lines.subrange(idx, end + 1)));
        let name = function_name_from(language, lines, end + 1, 6);
        concat_scan(
            ScanView {
                annotations: placed(file, idx + 1, name, parsed.annotations),
                bindings: seq![],
                warnings: parsed.warnings,
            },
            scan_from(file, language, lines, states, end + 1),
        )
    }
}

fn add_block(
    annotations: &mut Vec<AnnotationLocation>,
    warnings: &mut Vec<ParseWarning>,
    file_path: &str,
    line: usize,
    name: &Option<String>,
    parsed: &super::parser::ParseResult,
)
    ensures
        locations_view(final(annotations)@) == locations_view(old(annotations)@) + placed(
            file_path@,
            line as int,
            super::parser::opt_view(*name),
            super::parser::annotations_view(parsed.annotations@),
        ),
        warnings_view(final(warnings)@) == warnings_view(old(warnings)@) + warnings_view(parsed.warnings@),
{
    let ghost pw = warnings_view(parsed.warnings@);
    let ghost pa = super::parser::annotations_view(parsed.annotations@);
    let ghost here = placed(file_path@, line as int, super::parser::opt_view(*name), pa);
    let mut j: usize = 0;
    while j < parsed.warnings.len()
        invariant
            0 <= j <= parsed.warnings@.len(),
            pw == warnings_view(parsed.warnings@),
            warnings_view(warnings@) == warnings_view(old(warnings)@) + pw.subrange(0, j as int),
        decreases parsed.warnings@.len() - j,
    {
        let w = ParseWarning { line: parsed.warnings[j].line, message: parsed.warnings[j].message.clone() };
        assert(pw[j as int] == parsed.warnings@[j as int]@);
        assert(w@ == pw[j as int]);
        let ghost prev = warnings@;
        warnings.push(w);
        assert(warnings_view(warnings@) =~= warnings_view(prev).push(w@));
        assert(warnings_view(warnings@) =~= warnings_view(old(warnings)@) + pw.subrange(0, j + 1));
        j = j + 1;
    }
    assert(pw.subrange(0, pw.len() as int) =~= pw);
    let mut k: usize = 0;
    while k < parsed.annotations.len()
        invariant
            0 <= k <= parsed.annotations@.len(),
            pa == super::parser::annotations_view(parsed.annotations@),
            here == placed(file_path@, line as int, super::parser::opt_view(*name), pa),
            locations_view(annotations@) == locations_view(old(annotations)@) + here.subrange(0, k as int),
        decreases parsed.annotations@.len() - k,
    {
        let loc = AnnotationLocation {
            file_path: String::from_str(file_path),
            line,
            function_name: super::parser::clone_opt(name),
            annotation: super::parser::clone_annotation(&parsed.annotations[k]),
        };
        assert(pa[k as int] == parsed.annotations@[k as int]@);
        assert(loc@ == here[k as int]);
        let ghost prev = annotations@;
        annotations.push(loc);
        assert(locations_view(annotations@) =~= locations_view(prev).push(loc@));
        assert(locations_view(annotations@) =~= locations_view(old(annotations)@) + here.subrange(0, k + 1));
        k = k + 1;
    }
    assert(here.subrange(0, here.len() as int) =~= here);
}

pub proof fn lemma_concat_assoc(a: ScanView, b: ScanView, c: ScanView)
    ensures
        concat_scan(a, concat_scan(b, c)) == concat_scan(concat_scan(a, b), c),
{
    assert(a.annotations + (b.annotations + c.annotations) =~= (a.annotations + b.annotations) + c.annotations);
    assert(a.bindings + (b.bindings + c.bindings) =~= (a.bindings + b.bindings) + c.bindings);
    assert(a.warnings + (b.warnings + c.warnings) =~= (a.warnings + b.warnings) + c.warnings);
}

/// The lexical state at the start of each line from `k` on, starting in
/// `st`; only Rust lines change it.
pub open spec fn line_states(language: Language, lines: Seq<Seq<char>>, k: int, st: RustLexicalState) -> Seq<
    RustLexicalState,
>
    decreases lines.len() - k,
{
    if k < 0 || k >= lines.len() {
        Seq::empty()
    } else {
        let next = if language == Language::Rust {
            advance_from(encode_utf8(lines[k]), 0, st)
        } else {
            st
        };
        seq![st] + line_states(language, lines, k + 1, next)
    }
}

/// The findings of a whole file.
pub open spec fn file_scan_view(file: Seq<char>, language: Language, content: Seq<char>) -> ScanView {
    let lines = lines_scan(content, 0, 0);
    scan_from(file, language, lines, line_states(language, lines, 0, RustLexicalState::Code), 0)
}

/// The bytes of the first `k` lines.
pub open spec fn bytes_before(ls: Seq<Seq<char>>, k: int) -> nat
    decreases k,
{
    if k <= 0 {
        0
    } else {
        bytes_before(ls, k - 1) + byte_len(ls[k - 1])
    }
}

proof fn lemma_bytes_before_cons(x: Seq<char>, rest: Seq<Seq<char>>, k: int)
    requires
        0 <= k <= rest.len(),
    ensures
        bytes_before(seq![x] + rest, k + 1) == byte_len(x) + bytes_before(rest, k),
    decreases k,
{
    if k > 0 {
        lemma_bytes_before_cons(x, rest, k - 1);
        assert((seq![x] + rest)[k] == rest[k - 1]);
    } else {
        assert((seq![x] + rest)[0] == x);
        assert(bytes_before(seq![x] + rest, 0) == 0);
    }
}

proof fn lemma_bytes_before_mono(ls: Seq<Seq<char>>, a: int, b: int)
    requires
        0 <= a <= b,
    ensures
        bytes_before(ls, a) <= bytes_before(ls, b),
    decreases b - a,
{
    if a < b {
        lemma_bytes_before_mono(ls, a, b - 1);
    }
}

/// The lines of a text hold no more bytes than the text.
proof fn lemma_lines_bytes(t: Seq<char>, start: int, i: int)
    requires
        0 <= start <= i <= t.len(),
    ensures
        bytes_before(lines_scan(t, start, i), lines_scan(t, start, i).len() as int) <= byte_len(
            t.subrange(start, t.len() as int),
        ),
    decreases t.len() - i,
{
    let ls = lines_scan(t, start, i);
    if i >= t.len() {
        if start < t.len() {
            assert(bytes_before(ls, 1) == bytes_before(ls, 0) + byte_len(ls[0]));
        }
    } else if t[i] == '\n' {
        let piece = t.subrange(start, i);
        let rest = lines_scan(t, i + 1, i + 1);
        lemma_lines_bytes(t, i + 1, i + 1);
        lemma_bytes_before_cons(strip_cr(piece), rest, rest.len() as int);
        assert(ls == seq![strip_cr(piece)] + rest);
        if piece.len() > 0 && piece.last() == '\r' {
            assert(piece =~= piece.drop_last() + seq![piece.last()]);
            lemma_byte_len_concat(piece.drop_last(), seq![piece.last()]);
        }
        let tail = t.subrange(i + 1, t.len() as int);
        assert(t.subrange(start, t.len() as int) =~= piece + (seq![t[i]] + tail));
        lemma_byte_len_concat(piece, seq![t[i]] + tail);
        lemma_byte_len_concat(seq![t[i]], tail);
    } else {
        lemma_lines_bytes(t, start, i + 1);
    }
}

/// The lexical state at the start of every line.
fn states_of_lines(language: Language, lines: &Vec<Vec<char>>) -> (r: Vec<RustLexicalState>)
    requires
        bytes_before(lines_view(lines@), lines@.len() as int) + 8 < usize::MAX,
    ensures
        r@ == line_states(language, lines_view(lines@), 0, RustLexicalState::Code),
        r@.len() == lines@.len(),
{
    let ghost lv = lines_view(lines@);
    let n = lines.len();
    let mut state = RustLexicalState::Code;
    let mut states: Vec<RustLexicalState> = Vec::new();
    let mut k: usize = 0;
    while k < n
        invariant
            n == lines@.len(),
            lv == lines_view(lines@),
            0 <= k <= n,
            state_ok(state),
            depth_of(state) <= bytes_before(lv, k as int),
            bytes_before(lv, n as int) + 8 < usize::MAX,
            states@.len() == k,
            states@ + line_states(language, lv, k as int, state) == line_states(
                language,
                lv,
                0,
                RustLexicalState::Code,
            ),
        decreases n - k,
    {
        let ghost before = states@;
        let ghost st = state;
        proof {
            lemma_bytes_before_mono(lv, k + 1, n as int);
            assert(lv[k as int] == lines@[k as int]@);
        }
        states.push(state);
        if language == Language::Rust {
            let text = string_of(lines[k].as_slice());
            proof {
                lemma_byte_len_is_encoding_len(lv[k as int]);
            }
            advance_rust_state(text.as_str(), &mut state);
        }
        proof {
            assert(states@ =~= before + seq![st]);
        }
        k = k + 1;
    }
    states
}

/// Scans the text of one file.
pub fn scan_file(file_path: &str, language: Language, content: &str) -> (r: FileScan)
    requires
        content.spec_bytes().len() + 8 < usize::MAX,
    ensures
        r.file_path@ == file_path@,
        r.language == language,
        locations_view(r.annotations@) == file_scan_view(file_path@, language, content@).annotations,
        bindings_view(r.bindings@) == file_scan_view(file_path@, language, content@).bindings,
        warnings_view(r.warnings@) == file_scan_view(file_path@, language, content@).warnings,
{
    let (chars, _) = decode(content);
    let lines = split_lines(chars.as_slice());
    let ghost lv = lines_view(lines@);
    proof {
        lemma_lines_bytes(content@, 0, 0);
        assert(content@.subrange(0, content@.len() as int) =~= content@);
        lemma_byte_len_is_encoding_len(content@);
    }
    let states = states_of_lines(language, &lines);
    let ghost sv = states@;
    let mut annotations: Vec<AnnotationLocation> = Vec::new();
    let mut bindings: Vec<AttributeBinding> = Vec::new();
    let mut warnings: Vec<ParseWarning> = Vec::new();
    let n = lines.len();
    let mut idx: usize = 0;
    while idx < n
        invariant
            n == lines@.len(),
            lv == lines_view(lines@),
            lv == lines_scan(content@, 0, 0),
            sv == states@,
            sv == line_states(language, lv, 0, RustLexicalState::Code),
            sv.len() == n,
            0 <= idx <= n,
            scan_from(file_path@, language, lv, sv, 0) == concat_scan(
                ScanView {
                    annotations: locations_view(annotations@),
                    bindings: bindings_view(bindings@),
                    warnings: warnings_view(warnings@),
                },
                scan_from(file_path@, language, lv, sv, idx as int),
            ),
        decreases n - idx,
    {
        assert(lv[idx as int] == lines@[idx as int]@);
        let ghost acc = ScanView {
            annotations: locations_view(annotations@),
            bindings: bindings_view(bindings@),
            warnings: warnings_view(warnings@),
        };
        let binding = if language == Language::Rust && states[idx] == RustLexicalState::Code {
            attribute_binding_exec(lines[idx].as_slice())
        } else {
            None
        };
        match binding {
            Some((rule_id, verification)) => {
                let item_name = next_item_name(language, &lines, idx + 1);
                let b = AttributeBinding {
                    file_path: String::from_str(file_path),
                    line: idx + 1,
                    item_name,
                    rule_id: string_of(rule_id.as_slice()),
                    verification,
                };
                let ghost prev = bindings@;
                bindings.push(b);
                proof {
                    let c = ScanView { annotations: seq![], bindings: seq![b@], warnings: seq![] };
                    assert(bindings_view(bindings@) =~= bindings_view(prev).push(b@));
                    assert(scan_from(file_path@, language, lv, sv, idx as int) == concat_scan(
                        c,
                        scan_from(file_path@, language, lv, sv, idx + 1),
                    ));
                    lemma_concat_assoc(acc, c, scan_from(file_path@, language, lv, sv, idx + 1));
                    assert(concat_scan(acc, c).annotations =~= locations_view(annotations@));
                    assert(concat_scan(acc, c).warnings =~= warnings_view(warnings@));
                    assert(concat_scan(acc, c).bindings =~= bindings_view(bindings@));
                    assert(concat_scan(acc, c) =~~= ScanView {
                        annotations: locations_view(annotations@),
                        bindings: bindings_view(bindings@),
                        warnings: warnings_view(warnings@),
                    });
                }
                idx = idx + 1;
            },
            None => {
                if !binds_marker_exec(language, states[idx], lines[idx].as_slice()) {
                    idx = idx + 1;
                } else {
                    let end = comment_end_exec(&lines, idx);
                    let comment = join_exec(&lines, idx, end);
                    let parsed = parse_annotations(comment.as_str());
                    let name = next_function_name(language, &lines, end + 1);
                    add_block(&mut annotations, &mut warnings, file_path, idx + 1, &name, &parsed);
                    proof {
                        let pv = parse_view(join_lines(lv.subrange(idx as int, end + 1)));
                        let c = ScanView {
                            annotations: placed(file_path@, idx + 1, super::parser::opt_view(name), pv.annotations),
                            bindings: seq![],
                            warnings: pv.warnings,
                        };
                        assert(scan_from(file_path@, language, lv, sv, idx as int) == concat_scan(
                            c,
                            scan_from(file_path@, language, lv, sv, end + 1),
                        ));
                        lemma_concat_assoc(acc, c, scan_from(file_path@, language, lv, sv, end + 1));
                        assert(comment@ == join_lines(lv.subrange(idx as int, end + 1)));
                        assert(super::parser::annotations_view(parsed.annotations@) == pv.annotations);
                        assert(warnings_view(parsed.warnings@) == pv.warnings);
                        assert(concat_scan(acc, c).annotations =~= locations_view(annotations@));
                        assert(concat_scan(acc, c).warnings =~= warnings_view(warnings@));
                        assert(concat_scan(acc, c).bindings =~= bindings_view(bindings@));
                        assert(concat_scan(acc, c) =~~= ScanView {
                            annotations: locations_view(annotations@),
                            bindings: bindings_view(bindings@),
                            warnings: warnings_view(warnings@),
                        });
                    }
                    idx = end + 1;
                }
            },
        }
    }
    FileScan {
        file_path: String::from_str(file_path),
        language,
        annotations,
        bindings,
        warnings,
    }
}

} // verus!
