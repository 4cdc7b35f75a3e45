//! Reads `@provenance` directives (and the legacy `@statesman` spelling) out of
//! the text of a comment.
//!
//! Each line is stripped of comment leaders (`//`, `*`, `#`, `-`); a line that
//! holds a marker carries one `key: value` directive. A `rule` directive
//! starts an annotation that inherits the fields set so far; every other
//! field sets the latest annotation, or the shared fields while none exists.
use vstd::prelude::*;
use vstd::string::StringExecFns;
use crate::text::{ascii_digit, ascii_lower, chars_equal_str, decode, is_ascii_digit, to_ascii_lower};
use super::confidence::{confidence_reading, read_confidence, ConfidenceReading};
use super::chars::{
    find, find_from, lower, lower_ascii, push_chars, skip_leading, skip_leading_char, string_of, trim,
    trim_start, trimmed, trimmed_start,
};

verus! {

/// The marker that introduces a directive.
pub const PRIMARY_ANNOTATION_MARKER: &'static str = "@provenance";
/// The older spelling of the marker, still read.
pub const LEGACY_ANNOTATION_MARKER: &'static str = "@statesman";

/// How much of a rule the annotated code covers.
#[derive(Clone, Copy, Debug, PartialEq, Eq, Structural)]
pub enum CoverageLevel {
    Full,
    Partial,
    Indirect,
}

impl Default for CoverageLevel {
    fn default() -> (r: CoverageLevel)
        ensures
            r == CoverageLevel::Full,
    {
        CoverageLevel::Full
    }
}

/// The name of a coverage level.
pub open spec fn coverage_name(level: CoverageLevel) -> Seq<char> {
    match level {
        CoverageLevel::Full => "full"@,
        CoverageLevel::Partial => "partial"@,
        CoverageLevel::Indirect => "indirect"@,
    }
}

/// The level a value names, compared without regard to ASCII case.
pub open spec fn coverage_of(value: Seq<char>) -> Option<CoverageLevel> {
    let l = lower_ascii(value);
    if l == "full"@ {
        Some(CoverageLevel::Full)
    } else if l == "partial"@ {
        Some(CoverageLevel::Partial)
    } else if l == "indirect"@ {
        Some(CoverageLevel::Indirect)
    } else {
        None
    }
}

impl CoverageLevel {
    /// The level's name: `full`, `partial` or `indirect`.
    pub fn as_str(&self) -> (s: &'static str)
        ensures
            s@ == coverage_name(*self),
    {
        match self {
            CoverageLevel::Full => "full",
            CoverageLevel::Partial => "partial",
            CoverageLevel::Indirect => "indirect",
        }
    }

    /// Reads a level name in any ASCII case.
    pub fn parse(value: &str) -> (r: Result<CoverageLevel, String>)
        ensures
            match r {
                Ok(level) => coverage_of(value@) == Some(level),
                Err(m) => coverage_of(value@) is None && m@ == "invalid coverage level: "@
                    + lower_ascii(value@),
            },
    {
        let (chars, _) = decode(value);
        match coverage_from(chars.as_slice()) {
            Some(level) => Ok(level),
            None => {
                let l = lower(chars.as_slice());
                let mut m = String::from_str("invalid coverage level: ");
                push_chars(&mut m, l.as_slice());
                proof {
                    reveal_strlit("invalid coverage level: ");
                }
                Err(m)
            },
        }
    }
}

impl std::str::FromStr for CoverageLevel {
    type Err = String;

    fn from_str(value: &str) -> (r: Result<CoverageLevel, String>)
        ensures
            match r {
                Ok(level) => coverage_of(value@) == Some(level),
                Err(m) => coverage_of(value@) is None && m@ == "invalid coverage level: "@
                    + lower_ascii(value@),
            },
    {
        CoverageLevel::parse(value)
    }
}

fn coverage_from(value: &[char]) -> (r: Option<CoverageLevel>)
    ensures
        r == coverage_of(value@),
{
    let l = lower(value);
    if chars_equal_str(l.as_slice(), "full") {
        Some(CoverageLevel::Full)
    } else if chars_equal_str(l.as_slice(), "partial") {
        Some(CoverageLevel::Partial)
    } else if chars_equal_str(l.as_slice(), "indirect") {
        Some(CoverageLevel::Indirect)
    } else {
        None
    }
}

// ---------------------------------------------------------------------------
// Values of directives.

/// A `+` or `-`.
pub open spec fn sign(c: char) -> bool {
    c == '+' || c == '-'
}

/// The first index at or after `i` that is not an ASCII digit.
pub open spec fn digits_end(t: Seq<char>, i: int) -> int
    decreases t.len() - i,
{
    if 0 <= i < t.len() && ascii_digit(t[i]) {
        digits_end(t, i + 1)
    } else {
        i
    }
}

pub proof fn lemma_digits_end(t: Seq<char>, i: int)
    requires
        0 <= i <= t.len(),
    ensures
        i <= digits_end(t, i) <= t.len(),
    decreases t.len() - i,
{
    if i < t.len() && ascii_digit(t[i]) {
        lemma_digits_end(t, i + 1);
    }
}

/// An exponent from index `b` to the end: `e` or `E`, an optional sign, and
/// at least one digit.
pub open spec fn exponent_at(t: Seq<char>, b: int) -> bool {
    let c = if b + 1 < t.len() && sign(t[b + 1]) { b + 2 } else { b + 1 };
    &&& 0 <= b < t.len()
    &&& ascii_lower(t[b]) == 'e'
    &&& c < t.len()
    &&& digits_end(t, c) == t.len()
}

/// A decimal number: digits with an optional point, at least one digit in
/// all, then an optional exponent.
pub open spec fn number_literal(t: Seq<char>) -> bool {
    let a = digits_end(t, 0);
    let point = a < t.len() && t[a] == '.';
    let b = if point { digits_end(t, a + 1) } else { a };
    let digits = if point { a + b - (a + 1) } else { a };
    digits > 0 && (b == t.len() || exponent_at(t, b))
}

/// What `f64::from_str` accepts, as its documentation gives the grammar: an
/// optional sign, then `inf`, `infinity`, `nan` (in any ASCII case) or a
/// decimal number.
pub open spec fn float_literal(t: Seq<char>) -> bool {
    let body = if t.len() > 0 && sign(t[0]) { t.drop_first() } else { t };
    let l = lower_ascii(body);
    l == "inf"@ || l == "infinity"@ || l == "nan"@ || number_literal(body)
}

pub fn digits_end_exec(t: &[char], i: usize) -> (r: usize)
    requires
        i <= t@.len(),
    ensures
        r == digits_end(t@, i as int),
        i <= r <= t@.len(),
{
    let mut j = i;
    while j < t.len() && is_ascii_digit(t[j])
        invariant
            i <= j <= t@.len(),
            digits_end(t@, i as int) == digits_end(t@, j as int),
        decreases t@.len() - j,
    {
        j = j + 1;
    }
    j
}

pub fn is_sign(c: char) -> (r: bool)
    ensures
        r == sign(c),
{
    c == '+' || c == '-'
}

fn is_number_literal(t: &[char]) -> (r: bool)
    ensures
        r == number_literal(t@),
{
    let n = t.len();
    let a = digits_end_exec(t, 0);
    let point = a < n && t[a] == '.';
    let b = if point { digits_end_exec(t, a + 1) } else { a };
    let digits = if point { a + (b - (a + 1)) } else { a };
    if digits == 0 {
        return false;
    }
    if b == n {
        return true;
    }
    if to_ascii_lower(t[b]) != 'e' {
        return false;
    }
    let c = if b + 1 < n && is_sign(t[b + 1]) { b + 2 } else { b + 1 };
    c < n && digits_end_exec(t, c) == n
}

/// Whether `f64::from_str` accepts the text.
pub fn is_float_literal(t: &[char]) -> (r: bool)
    ensures
        r == float_literal(t@),
{
    let body = if t.len() > 0 && is_sign(t[0]) { crate::text::sub_chars(t, 1, t.len()) } else {
        crate::text::sub_chars(t, 0, t.len())
    };
    assert(t@.len() > 0 && sign(t@[0]) ==> body@ =~= t@.drop_first());
    assert(!(t@.len() > 0 && sign(t@[0])) ==> body@ =~= t@);
    let l = lower(body.as_slice());
    chars_equal_str(l.as_slice(), "inf") || chars_equal_str(l.as_slice(), "infinity")
        || chars_equal_str(l.as_slice(), "nan") || is_number_literal(body.as_slice())
}

/// A piece kept when it is not empty.
pub open spec fn kept(t: Seq<char>) -> Seq<Seq<char>> {
    if t.len() == 0 {
        seq![]
    } else {
        seq![t]
    }
}

/// The comma-separated pieces of `v` from `start`, scanning at `i`, each
/// trimmed, the empty ones left out.
pub open spec fn tags_scan(v: Seq<char>, start: int, i: int) -> Seq<Seq<char>>
    decreases v.len() - i,
{
    if i >= v.len() {
        kept(trimmed(v.subrange(start, v.len() as int)))
    } else if v[i] == ',' {
        kept(trimmed(v.subrange(start, i))) + tags_scan(v, i + 1, i + 1)
    } else {
        tags_scan(v, start, i + 1)
    }
}

/// The tags a `tags` value lists.
pub open spec fn tags_of(v: Seq<char>) -> Seq<Seq<char>> {
    tags_scan(v, 0, 0)
}

/// The views of a sequence of strings.
pub open spec fn strings_view(v: Seq<String>) -> Seq<Seq<char>> {
    v.map_values(|s: String| s@)
}

fn push_kept(out: &mut Vec<String>, piece: &[char])
    ensures
        strings_view(final(out)@) == strings_view(old(out)@) + kept(trimmed(piece@)),
{
    let t = trim(piece);
    if t.len() > 0 {
        out.push(string_of(t.as_slice()));
    }
    assert(strings_view(out@) =~= strings_view(old(out)@) + kept(trimmed(piece@)));
}

fn tags_from(v: &[char]) -> (r: Vec<String>)
    ensures
        strings_view(r@) == tags_of(v@),
{
    let mut r: Vec<String> = Vec::new();
    let mut start: usize = 0;
    let mut i: usize = 0;
    while i < v.len()
        invariant
            0 <= start <= i <= v@.len(),
            tags_of(v@) == strings_view(r@) + tags_scan(v@, start as int, i as int),
        decreases v@.len() - i,
    {
        if v[i] == ',' {
            let piece = crate::text::sub_chars(v, start, i);
            let ghost before = strings_view(r@);
            push_kept(&mut r, piece.as_slice());
            assert(tags_scan(v@, start as int, i as int) == kept(trimmed(v@.subrange(start as int, i as int)))
                + tags_scan(v@, i + 1, i + 1));
            assert(tags_of(v@) == strings_view(r@) + tags_scan(v@, i + 1, i + 1));
            start = i + 1;
        }
        i = i + 1;
    }
    let piece = crate::text::sub_chars(v, start, v.len());
    push_kept(&mut r, piece.as_slice());
    assert(tags_of(v@) =~= strings_view(r@));
    r
}

} // verus!

verus! {

// ---------------------------------------------------------------------------
// Annotations and the directive state machine.

/// One rule annotation read from a comment.
///
/// `confidence` holds the text of the last accepted `confidence` value, a
/// decimal that reads as an `f64` in `0.0..=1.0`; `None` stands for the
/// default, 1.0.
#[derive(Clone, Debug, PartialEq, Eq)]
pub struct Annotation {
    pub rule: String,
    pub name: Option<String>,
    pub description: Option<String>,
    pub tags: Vec<String>,
    pub coverage: CoverageLevel,
    pub confidence: Option<String>,
    pub intent: Option<String>,
}

/// A problem found while reading directives, with its 1-based line (0 for
/// the comment as a whole).
#[derive(Clone, Debug, PartialEq, Eq)]
pub struct ParseWarning {
    pub line: usize,
    pub message: String,
}

/// The annotations of a comment and the problems met reading it.
#[derive(Clone, Debug, PartialEq, Eq)]
pub struct ParseResult {
    pub annotations: Vec<Annotation>,
    pub warnings: Vec<ParseWarning>,
}

/// An annotation as plain text values.
pub struct AnnotationView {
    pub rule: Seq<char>,
    pub name: Option<Seq<char>>,
    pub description: Option<Seq<char>>,
    pub tags: Seq<Seq<char>>,
    pub coverage: CoverageLevel,
    pub confidence: Option<Seq<char>>,
    pub intent: Option<Seq<char>>,
}

pub open spec fn opt_view(o: Option<String>) -> Option<Seq<char>> {
    match o {
        Some(s) => Some(s@),
        None => None,
    }
}

impl View for Annotation {
    type V = AnnotationView;

    open spec fn view(&self) -> AnnotationView {
        AnnotationView {
            rule: self.rule@,
            name: opt_view(self.name),
            description: opt_view(self.description),
            tags: strings_view(self.tags@),
            coverage: self.coverage,
            confidence: opt_view(self.confidence),
            intent: opt_view(self.intent),
        }
    }
}

impl View for ParseWarning {
    type V = (int, Seq<char>);

    open spec fn view(&self) -> (int, Seq<char>) {
        (self.line as int, self.message@)
    }
}

/// The fields every annotation starts from.
pub open spec fn default_annotation() -> AnnotationView {
    AnnotationView {
        rule: seq![],
        name: None,
        description: None,
        tags: seq![],
        coverage: CoverageLevel::Full,
        confidence: None,
        intent: None,
    }
}

impl Default for Annotation {
    fn default() -> (a: Annotation)
        ensures
            a@ == default_annotation(),
    {
        let a = Annotation {
            rule: String::new(),
            name: None,
            description: None,
            tags: Vec::new(),
            coverage: CoverageLevel::Full,
            confidence: None,
            intent: None,
        };
        assert(a@.tags =~= Seq::<Seq<char>>::empty());
        a
    }
}

/// A change to one field of an annotation.
pub enum FieldUpdate {
    Name(Seq<char>),
    Description(Seq<char>),
    Tags(Seq<Seq<char>>),
    Coverage(CoverageLevel),
    Confidence(Seq<char>),
    Intent(Seq<char>),
}

pub open spec fn updated(a: AnnotationView, u: FieldUpdate) -> AnnotationView {
    match u {
        FieldUpdate::Name(v) => AnnotationView { name: Some(v), ..a },
        FieldUpdate::Description(v) => AnnotationView { description: Some(v), ..a },
        FieldUpdate::Tags(v) => AnnotationView { tags: v, ..a },
        FieldUpdate::Coverage(v) => AnnotationView { coverage: v, ..a },
        FieldUpdate::Confidence(v) => AnnotationView { confidence: Some(v), ..a },
        FieldUpdate::Intent(v) => AnnotationView { intent: Some(v), ..a },
    }
}

/// The reading so far: finished annotations, the shared fields, the warnings
/// and the first marker seen.
pub struct ParseView {
    pub annotations: Seq<AnnotationView>,
    pub shared: AnnotationView,
    pub warnings: Seq<(int, Seq<char>)>,
    pub marker: Option<Seq<char>>,
}

pub open spec fn initial_view() -> ParseView {
    ParseView { annotations: seq![], shared: default_annotation(), warnings: seq![], marker: None }
}

/// A field directive sets the latest annotation, or the shared fields while
/// there is none.
pub open spec fn set_field(st: ParseView, u: FieldUpdate) -> ParseView {
    if st.annotations.len() > 0 {
        ParseView {
            annotations: st.annotations.update(
                st.annotations.len() - 1,
                updated(st.annotations.last(), u),
            ),
            ..st
        }
    } else {
        ParseView { shared: updated(st.shared, u), ..st }
    }
}

pub open spec fn warn(st: ParseView, line: int, message: Seq<char>) -> ParseView {
    ParseView { warnings: st.warnings.push((line, message)), ..st }
}

/// The effect of the directive `after` (the text behind `marker`) on line `line`.
pub open spec fn directive_step(st: ParseView, line: int, marker: Seq<char>, after: Seq<char>) -> ParseView {
    match find_from(after, seq![':'], 0) {
        None => warn(st, line, "malformed directive: expected `key: value` after "@ + marker),
        Some(k) => {
            let key = lower_ascii(trimmed(after.subrange(0, k)));
            let value = trimmed(after.subrange(k + 1, after.len() as int));
            if value.len() == 0 && key != "tags"@ {
                warn(st, line, "empty value for field `"@ + key + "`"@)
            } else if key == "rule"@ {
                ParseView { annotations: st.annotations.push(AnnotationView { rule: value, ..st.shared }), ..st }
            } else if key == "name"@ {
                set_field(st, FieldUpdate::Name(value))
            } else if key == "description"@ {
                set_field(st, FieldUpdate::Description(value))
            } else if key == "tags"@ {
                set_field(st, FieldUpdate::Tags(tags_of(value)))
            } else if key == "coverage"@ {
                match coverage_of(value) {
                    Some(level) => set_field(st, FieldUpdate::Coverage(level)),
                    None => warn(st, line, "invalid coverage level `"@ + value + "`, using default"@),
                }
            } else if key == "confidence"@ {
                if float_literal(value) && confidence_reading(value) == ConfidenceReading::InRange {
                    set_field(st, FieldUpdate::Confidence(value))
                } else if float_literal(value) && confidence_reading(value) == ConfidenceReading::OutOfRange {
                    warn(st, line, "confidence `"@ + value + "` is outside 0.0-1.0, using default"@)
                } else {
                    warn(st, line, "invalid confidence `"@ + value + "`, using default"@)
                }
            } else if key == "intent"@ {
                set_field(st, FieldUpdate::Intent(value))
            } else {
                warn(st, line, "unknown field `"@ + key + "`"@)
            }
        },
    }
}

/// A line with its comment leaders and surrounding white space removed.
pub open spec fn comment_body(line: Seq<char>) -> Seq<char> {
    trimmed(
        skip_leading(skip_leading(skip_leading(skip_leading(trimmed_start(line), '/'), '*'), '#'), '-'),
    )
}

/// The marker a line holds (the primary one first) and the trimmed text
/// after its first occurrence.
pub open spec fn marker_split(body: Seq<char>) -> Option<(Seq<char>, Seq<char>)> {
    match find_from(body, PRIMARY_ANNOTATION_MARKER@, 0) {
        Some(i) => Some(
            (
                PRIMARY_ANNOTATION_MARKER@,
                trimmed(body.subrange(i + PRIMARY_ANNOTATION_MARKER@.len(), body.len() as int)),
            ),
        ),
        None => match find_from(body, LEGACY_ANNOTATION_MARKER@, 0) {
            Some(i) => Some(
                (
                    LEGACY_ANNOTATION_MARKER@,
                    trimmed(body.subrange(i + LEGACY_ANNOTATION_MARKER@.len(), body.len() as int)),
                ),
            ),
            None => None,
        },
    }
}

/// The effect of one raw comment line.
pub open spec fn line_step(st: ParseView, line: int, raw: Seq<char>) -> ParseView {
    match marker_split(comment_body(raw)) {
        None => st,
        Some((marker, after)) => directive_step(
            ParseView { marker: if st.marker is None { Some(marker) } else { st.marker }, ..st },
            line,
            marker,
            after,
        ),
    }
}

/// The lines of `t` from `start`, scanning at `i`, as `str::lines` gives them:
/// split at `\n`, a `\r` right before it dropped, no empty line after a final
/// line ending.
pub open spec fn lines_scan(t: Seq<char>, start: int, i: int) -> Seq<Seq<char>>
    decreases t.len() - i,
{
    if i >= t.len() {
        if start < t.len() {
            seq![t.subrange(start, t.len() as int)]
        } else {
            seq![]
        }
    } else if t[i] == '\n' {
        seq![strip_cr(t.subrange(start, i))] + lines_scan(t, i + 1, i + 1)
    } else {
        lines_scan(t, start, i + 1)
    }
}

pub open spec fn strip_cr(l: Seq<char>) -> Seq<char> {
    if l.len() > 0 && l.last() == '\r' {
        l.drop_last()
    } else {
        l
    }
}

/// Every line read in turn, the first numbered `line`.
pub open spec fn read_lines(st: ParseView, lines: Seq<Seq<char>>, line: int) -> ParseView
    decreases lines.len(),
{
    if lines.len() == 0 {
        st
    } else {
        read_lines(line_step(st, line, lines[0]), lines.drop_first(), line + 1)
    }
}

/// The whole reading of a comment, with the closing warning when markers
/// were seen but no rule.
pub open spec fn parse_view(text: Seq<char>) -> ParseView {
    let st = read_lines(initial_view(), lines_scan(text, 0, 0), 1);
    if st.marker is Some && st.annotations.len() == 0 {
        warn(st, 0, "found "@ + st.marker->Some_0 + " directives but no rule annotations"@)
    } else {
        st
    }
}

} // verus!

verus! {

/// The annotations read in order, as plain values.
pub open spec fn annotations_view(v: Seq<Annotation>) -> Seq<AnnotationView> {
    v.map_values(|a: Annotation| a@)
}

/// The warnings in order, as plain values.
pub open spec fn warnings_view(v: Seq<ParseWarning>) -> Seq<(int, Seq<char>)> {
    v.map_values(|w: ParseWarning| w@)
}

enum Field {
    Name(String),
    Description(String),
    Tags(Vec<String>),
    Coverage(CoverageLevel),
    Confidence(String),
    Intent(String),
}

impl View for Field {
    type V = FieldUpdate;

    closed spec fn view(&self) -> FieldUpdate {
        match self {
            Field::Name(v) => FieldUpdate::Name(v@),
            Field::Description(v) => FieldUpdate::Description(v@),
            Field::Tags(v) => FieldUpdate::Tags(strings_view(v@)),
            Field::Coverage(v) => FieldUpdate::Coverage(*v),
            Field::Confidence(v) => FieldUpdate::Confidence(v@),
            Field::Intent(v) => FieldUpdate::Intent(v@),
        }
    }
}

fn apply(a: &mut Annotation, f: Field)
    ensures
        final(a)@ == updated(old(a)@, f@),
{
    match f {
        Field::Name(v) => {
            a.name = Some(v);
        },
        Field::Description(v) => {
            a.description = Some(v);
        },
        Field::Tags(v) => {
            a.tags = v;
        },
        Field::Coverage(v) => {
            a.coverage = v;
        },
        Field::Confidence(v) => {
            a.confidence = Some(v);
        },
        Field::Intent(v) => {
            a.intent = Some(v);
        },
    }
}

struct Parsing {
    annotations: Vec<Annotation>,
    shared: Annotation,
    warnings: Vec<ParseWarning>,
    marker: Option<&'static str>,
}

impl View for Parsing {
    type V = ParseView;

    closed spec fn view(&self) -> ParseView {
        ParseView {
            annotations: annotations_view(self.annotations@),
            shared: self.shared@,
            warnings: warnings_view(self.warnings@),
            marker: match self.marker {
                Some(m) => Some(m@),
                None => None,
            },
        }
    }
}

fn set_field_of(p: &mut Parsing, f: Field)
    ensures
        final(p)@ == set_field(old(p)@, f@),
{
    if p.annotations.len() > 0 {
        let mut a = p.annotations.pop().unwrap();
        apply(&mut a, f);
        p.annotations.push(a);
        assert(annotations_view(p.annotations@) =~= old(p)@.annotations.update(
            old(p)@.annotations.len() - 1,
            updated(old(p)@.annotations.last(), f@),
        ));
    } else {
        apply(&mut p.shared, f);
    }
}

fn warn_at(p: &mut Parsing, line: usize, message: String)
    ensures
        final(p)@ == warn(old(p)@, line as int, message@),
{
    p.warnings.push(ParseWarning { line, message });
    assert(warnings_view(p.warnings@) =~= old(p)@.warnings.push((line as int, message@)));
}

pub(crate) fn clone_opt(o: &Option<String>) -> (r: Option<String>)
    ensures
        r == *o,
{
    match o {
        Some(s) => Some(s.clone()),
        None => None,
    }
}

pub(crate) fn clone_strings(v: &Vec<String>) -> (r: Vec<String>)
    ensures
        r@ == v@,
{
    let mut r: Vec<String> = Vec::new();
    let mut i: usize = 0;
    while i < v.len()
        invariant
            0 <= i <= v@.len(),
            r@ == v@.subrange(0, i as int),
        decreases v@.len() - i,
    {
        r.push(v[i].clone());
        i = i + 1;
        assert(r@ =~= v@.subrange(0, i as int));
    }
    assert(v@.subrange(0, v@.len() as int) =~= v@);
    r
}

/// A copy of an annotation.
pub fn clone_annotation(a: &Annotation) -> (r: Annotation)
    ensures
        r@ == a@,
{
    Annotation {
        rule: a.rule.clone(),
        name: clone_opt(&a.name),
        description: clone_opt(&a.description),
        tags: clone_strings(&a.tags),
        coverage: a.coverage,
        confidence: clone_opt(&a.confidence),
        intent: clone_opt(&a.intent),
    }
}

/// `text`, then the characters of `middle`, then `tail`.
fn message(head: &str, middle: &[char], tail: &str) -> (m: String)
    ensures
        m@ == head@ + middle@ + tail@,
{
    let mut m = String::from_str(head);
    push_chars(&mut m, middle);
    m.append(tail);
    m
}

fn directive(p: &mut Parsing, line: usize, marker: &'static str, after: &[char])
    ensures
        final(p)@ == directive_step(old(p)@, line as int, marker@, after@),
{
    let mut colon: Vec<char> = Vec::new();
    colon.push(':');
    assert(colon@ =~= seq![':']);
    match find(after, colon.as_slice()) {
        None => {
            let mut m = String::from_str("malformed directive: expected `key: value` after ");
            m.append(marker);
            warn_at(p, line, m);
        },
        Some(k) => {
            let key_part = crate::text::sub_chars(after, 0, k);
            let key_trimmed = trim(key_part.as_slice());
            let key = lower(key_trimmed.as_slice());
            let after_len = after.len();
            assert(colon@.len() == 1);
            assert(k + 1 <= after_len);
            let value_part = crate::text::sub_chars(after, k + 1, after_len);
            let value = trim(value_part.as_slice());
            if value.len() == 0 && !chars_equal_str(key.as_slice(), "tags") {
                warn_at(p, line, message("empty value for field `", key.as_slice(), "`"));
            } else if chars_equal_str(key.as_slice(), "rule") {
                let a = Annotation {
                    rule: string_of(value.as_slice()),
                    name: clone_opt(&p.shared.name),
                    description: clone_opt(&p.shared.description),
                    tags: clone_strings(&p.shared.tags),
                    coverage: p.shared.coverage,
                    confidence: clone_opt(&p.shared.confidence),
                    intent: clone_opt(&p.shared.intent),
                };
                p.annotations.push(a);
                assert(annotations_view(p.annotations@) =~= old(p)@.annotations.push(
                    AnnotationView { rule: value@, ..old(p)@.shared },
                ));
            } else if chars_equal_str(key.as_slice(), "name") {
                set_field_of(p, Field::Name(string_of(value.as_slice())));
            } else if chars_equal_str(key.as_slice(), "description") {
                set_field_of(p, Field::Description(string_of(value.as_slice())));
            } else if chars_equal_str(key.as_slice(), "tags") {
                set_field_of(p, Field::Tags(tags_from(value.as_slice())));
            } else if chars_equal_str(key.as_slice(), "coverage") {
                match coverage_from(value.as_slice()) {
                    Some(level) => set_field_of(p, Field::Coverage(level)),
                    None => warn_at(
                        p,
                        line,
                        message("invalid coverage level `", value.as_slice(), "`, using default"),
                    ),
                }
            } else if chars_equal_str(key.as_slice(), "confidence") {
                let reading = if is_float_literal(value.as_slice()) {
                    read_confidence(value.as_slice())
                } else {
                    ConfidenceReading::NotFinite
                };
                match reading {
                    ConfidenceReading::InRange => {
                        set_field_of(p, Field::Confidence(string_of(value.as_slice())));
                    },
                    ConfidenceReading::OutOfRange => {
                        warn_at(
                            p,
                            line,
                            message("confidence `", value.as_slice(), "` is outside 0.0-1.0, using default"),
                        );
                    },
                    ConfidenceReading::NotFinite => {
                        warn_at(
                            p,
                            line,
                            message("invalid confidence `", value.as_slice(), "`, using default"),
                        );
                    },
                }
            } else if chars_equal_str(key.as_slice(), "intent") {
                set_field_of(p, Field::Intent(string_of(value.as_slice())));
            } else {
                warn_at(p, line, message("unknown field `", key.as_slice(), "`"));
            }
        },
    }
}

fn read_line(p: &mut Parsing, line: usize, raw: &[char])
    ensures
        final(p)@ == line_step(old(p)@, line as int, raw@),
{
    let t0 = trim_start(raw);
    let t1 = skip_leading_char(t0.as_slice(), '/');
    let t2 = skip_leading_char(t1.as_slice(), '*');
    let t3 = skip_leading_char(t2.as_slice(), '#');
    let t4 = skip_leading_char(t3.as_slice(), '-');
    let body = trim(t4.as_slice());
    let (primary, _) = decode(PRIMARY_ANNOTATION_MARKER);
    let (legacy, _) = decode(LEGACY_ANNOTATION_MARKER);
    let body_len = body.len();
    let (marker, after): (&'static str, Vec<char>) = match find(body.as_slice(), primary.as_slice()) {
        Some(i) => {
            assert(i + primary@.len() <= body_len);
            let rest = crate::text::sub_chars(body.as_slice(), i + primary.len(), body_len);
            (PRIMARY_ANNOTATION_MARKER, trim(rest.as_slice()))
        },
        None => match find(body.as_slice(), legacy.as_slice()) {
            Some(i) => {
                assert(i + legacy@.len() <= body_len);
                let rest = crate::text::sub_chars(body.as_slice(), i + legacy.len(), body_len);
                (LEGACY_ANNOTATION_MARKER, trim(rest.as_slice()))
            },
            None => {
                return;
            },
        },
    };
    if p.marker.is_none() {
        p.marker = Some(marker);
    }
    directive(p, line, marker, after.as_slice());
}

/// Reads every directive of a comment.
pub fn parse_annotations(comment_text: &str) -> (r: ParseResult)
    ensures
        annotations_view(r.annotations@) == parse_view(comment_text@).annotations,
        warnings_view(r.warnings@) == parse_view(comment_text@).warnings,
{
    let (t, _) = decode(comment_text);
    let mut p = Parsing {
        annotations: Vec::new(),
        shared: Annotation::default(),
        warnings: Vec::new(),
        marker: None,
    };
    assert(p@.annotations =~= initial_view().annotations);
    assert(p@.warnings =~= initial_view().warnings);
    let n = t.len();
    let mut start: usize = 0;
    let mut i: usize = 0;
    let mut done: usize = 0;
    while i < n
        invariant
            n == t@.len(),
            t@ == comment_text@,
            0 <= start <= i <= n,
            done <= start,
            read_lines(initial_view(), lines_scan(t@, 0, 0), 1) == read_lines(
                p@,
                lines_scan(t@, start as int, i as int),
                done + 1,
            ),
        decreases n - i,
    {
        if t[i] == '\n' {
            let end = if i > start && t[i - 1] == '\r' { i - 1 } else { i };
            let line = crate::text::sub_chars(t.as_slice(), start, end);
            proof {
                let l = strip_cr(t@.subrange(start as int, i as int));
                assert(line@ =~= l);
                let rest = lines_scan(t@, i + 1, i + 1);
                assert((seq![l] + rest).drop_first() =~= rest);
                assert((seq![l] + rest)[0] == l);
            }
            read_line(&mut p, done + 1, line.as_slice());
            done = done + 1;
            start = i + 1;
        }
        i = i + 1;
    }
    let ghost st0 = p@;
    if start < n {
        let line = crate::text::sub_chars(t.as_slice(), start, n);
        proof {
            assert(lines_scan(t@, start as int, n as int) == seq![line@]);
            assert(seq![line@].drop_first() =~= Seq::<Seq<char>>::empty());
            assert(read_lines(st0, seq![line@], done + 1) == read_lines(
                line_step(st0, done + 1, line@),
                Seq::<Seq<char>>::empty(),
                done + 2,
            ));
        }
        read_line(&mut p, done + 1, line.as_slice());
        assert(read_lines(p@, Seq::<Seq<char>>::empty(), done + 2) == p@);
    } else {
        assert(lines_scan(t@, start as int, n as int) == Seq::<Seq<char>>::empty());
        assert(read_lines(st0, Seq::<Seq<char>>::empty(), done + 1) == st0);
    }
    assert(p@ == read_lines(initial_view(), lines_scan(comment_text@, 0, 0), 1));
    if p.marker.is_some() && p.annotations.len() == 0 {
        let marker = p.marker.unwrap();
        let mut m = String::from_str("found ");
        m.append(marker);
        m.append(" directives but no rule annotations");
        warn_at(&mut p, 0, m);
    }
    ParseResult { annotations: p.annotations, warnings: p.warnings }
}

/// Whether a line holds either marker anywhere.
pub fn contains_annotation_marker(line: &str) -> (r: bool)
    ensures
        r == (find_from(line@, PRIMARY_ANNOTATION_MARKER@, 0) is Some
            || find_from(line@, LEGACY_ANNOTATION_MARKER@, 0) is Some),
{
    let (t, _) = decode(line);
    let (primary, _) = decode(PRIMARY_ANNOTATION_MARKER);
    let (legacy, _) = decode(LEGACY_ANNOTATION_MARKER);
    find(t.as_slice(), primary.as_slice()).is_some() || find(t.as_slice(), legacy.as_slice()).is_some()
}

} // verus!

verus! {

/// How a `#[verifies]` site checks the rule it names.
#[derive(Clone, Copy, Debug, PartialEq, Eq, Structural)]
pub enum Verification {
    Examples,
    Property,
    Exhaustion,
    Construction,
    Conformance,
}

/// The method a name spells, exactly.
pub open spec fn verification_of(name: Seq<char>) -> Option<Verification> {
    if name == "examples"@ {
        Some(Verification::Examples)
    } else if name == "property"@ {
        Some(Verification::Property)
    } else if name == "exhaustion"@ {
        Some(Verification::Exhaustion)
    } else if name == "construction"@ {
        Some(Verification::Construction)
    } else if name == "conformance"@ {
        Some(Verification::Conformance)
    } else {
        None
    }
}

/// The name of a verification method.
pub open spec fn verification_name(v: Verification) -> Seq<char> {
    match v {
        Verification::Examples => "examples"@,
        Verification::Property => "property"@,
        Verification::Exhaustion => "exhaustion"@,
        Verification::Construction => "construction"@,
        Verification::Conformance => "conformance"@,
    }
}

impl Verification {
    /// The method's name as written in an attribute.
    pub fn as_str(&self) -> (s: &'static str)
        ensures
            s@ == verification_name(*self),
    {
        match self {
            Verification::Examples => "examples",
            Verification::Property => "property",
            Verification::Exhaustion => "exhaustion",
            Verification::Construction => "construction",
            Verification::Conformance => "conformance",
        }
    }

    /// The method a name spells.
    pub fn from_chars(name: &[char]) -> (r: Option<Verification>)
        ensures
            r == verification_of(name@),
    {
        if chars_equal_str(name, "examples") {
            Some(Verification::Examples)
        } else if chars_equal_str(name, "property") {
            Some(Verification::Property)
        } else if chars_equal_str(name, "exhaustion") {
            Some(Verification::Exhaustion)
        } else if chars_equal_str(name, "construction") {
            Some(Verification::Construction)
        } else if chars_equal_str(name, "conformance") {
            Some(Verification::Conformance)
        } else {
            None
        }
    }
}


proof fn lemma_colon_after_key(after: Seq<char>, key: Seq<char>, i: int)
    requires
        0 <= i <= key.len(),
        !key.contains(':'),
        key.len() < after.len(),
        after.subrange(0, key.len() as int) == key,
        after[key.len() as int] == ':',
    ensures
        find_from(after, seq![':'], i) == Some(key.len() as int),
    decreases key.len() - i,
{
    if i < key.len() {
        assert(after[i] == key[i]);
        assert(after.subrange(i, i + 1)[0] == key[i]);
        assert(after.subrange(i, i + 1) != seq![':']);
        lemma_colon_after_key(after, key, i + 1);
    } else {
        assert(after.subrange(i, i + 1) =~= seq![':']);
    }
}

/// A `description: v` directive with a non-empty value sets the description
/// of the latest annotation to `v`, or that of the shared fields while there
/// is no annotation yet; every other field, every other annotation, the
/// warnings and the marker stay as they were.
pub proof fn law_description_directive_sets_only_the_description(
    st: ParseView,
    line: int,
    marker: Seq<char>,
    key: Seq<char>,
    value: Seq<char>,
)
    requires
        !key.contains(':'),
        lower_ascii(trimmed(key)) == "description"@,
        trimmed(value).len() > 0,
    ensures
        ({
            let r = directive_step(st, line, marker, key + seq![':'] + value);
            let v = trimmed(value);
            &&& r.warnings == st.warnings
            &&& r.marker == st.marker
            &&& r.annotations.len() == st.annotations.len()
            &&& st.annotations.len() > 0 ==> {
                &&& r.shared == st.shared
                &&& r.annotations.last() == (AnnotationView { description: Some(v), ..st.annotations.last() })
                &&& forall|i: int| 0 <= i < st.annotations.len() - 1 ==> #[trigger] r.annotations[i] == st.annotations[i]
            }
            &&& st.annotations.len() == 0 ==> r.shared == (AnnotationView { description: Some(v), ..st.shared })
        }),
{
    let after = key + seq![':'] + value;
    assert(after.subrange(0, key.len() as int) =~= key);
    assert(after[key.len() as int] == ':');
    lemma_colon_after_key(after, key, 0);
    assert(after.subrange(key.len() as int + 1, after.len() as int) =~= value);
    reveal_strlit("description");
    reveal_strlit("rule");
    reveal_strlit("name");
    assert("description"@ != "rule"@) by {
        assert("description"@.len() != "rule"@.len());
    }
    assert("description"@ != "name"@) by {
        assert("description"@.len() != "name"@.len());
    }
}

} // verus!
