//! Recognizes rule and verification binding sites, one line at a time.
//!
//! Rust binds through `#[rule]`/`#[verifies]` attributes, Python through
//! `@rule(...)` decorators, and JS/TS/Go/Java through `rule(...)` and
//! `verifies(...)` calls, whose argument text the binding lexer finds.
use vstd::prelude::*;
use crate::text::{decode, sub_chars};
use super::Language;
use super::chars::{find, find_from, string_of, trim_start, trimmed_start};
use super::parser::{verification_of, Verification};
use super::walker::{attribute_binding, ident_end, starts, starts_with};

verus! {

/// A quote that opens a literal in script and JVM-family sources.
pub open spec fn quote_char(c: char) -> bool {
    c == '\'' || c == '"' || c == '`'
}

/// A nonempty quoted literal at the start of `rest` (after white space): its
/// contents and the text after its closing quote.
pub open spec fn quoted_literal(rest: Seq<char>) -> Option<(Seq<char>, Seq<char>)> {
    let t = trimmed_start(rest);
    if t.len() == 0 || !quote_char(t[0]) {
        None
    } else {
        let after = t.drop_first();
        match find_from(after, seq![t[0]], 0) {
            None => None,
            Some(end) => if end == 0 {
                None
            } else {
                Some((after.subrange(0, end), after.subrange(end + 1, after.len() as int)))
            },
        }
    }
}

/// The method named after a comma: `, name` or `, 'name'`, the name made of
/// identifier characters.
pub open spec fn argument_after_comma(rest: Seq<char>) -> Option<Seq<char>> {
    let t = trimmed_start(rest);
    if t.len() == 0 || t[0] != ',' {
        None
    } else {
        let argument = trimmed_start(t.drop_first());
        let unquoted = if argument.len() > 0 && quote_char(argument[0]) {
            argument.drop_first()
        } else {
            argument
        };
        let end = ident_end(unquoted, 0);
        if end > 0 {
            Some(unquoted.subrange(0, end))
        } else {
            None
        }
    }
}

/// The rule a Python `@rule("id")` or `@module.rule("id")` decorator names.
pub open spec fn python_decorator(line: Seq<char>) -> Option<Seq<char>> {
    let t = trimmed_start(line);
    if t.len() == 0 || t[0] != '@' {
        None
    } else {
        let decorator = t.drop_first();
        let rest = if starts(decorator, "rule("@) {
            Some(decorator.subrange("rule("@.len() as int, decorator.len() as int))
        } else {
            match find_from(decorator, ".rule("@, 0) {
                Some(k) => if k > 0 {
                    Some(decorator.subrange(k + ".rule("@.len(), decorator.len() as int))
                } else {
                    None
                },
                None => None,
            }
        };
        match rest {
            Some(r) => match quoted_literal(r) {
                Some((id, _)) => Some(id),
                None => None,
            },
            None => None,
        }
    }
}

/// A `rule("id", ...)` call, given the argument text the lexer found after
/// `rule(`: the literal must be followed by a comma.
pub open spec fn rule_call(arguments: Option<Seq<char>>) -> Option<Seq<char>> {
    match arguments {
        None => None,
        Some(rest) => match quoted_literal(rest) {
            None => None,
            Some((id, after)) => if starts(trimmed_start(after), seq![',']) {
                Some(id)
            } else {
                None
            },
        },
    }
}

/// A script `verifies("id", method)` call, else a `rule(...)` call.
pub open spec fn script_call(verifies: Option<Seq<char>>, rule: Option<Seq<char>>) -> Option<(Seq<char>, Option<Verification>)> {
    match verifies {
        Some(rest) => match quoted_literal(rest) {
            None => None,
            Some((id, after)) => match argument_after_comma(after) {
                None => None,
                Some(method) => match verification_of(method) {
                    Some(v) => Some((id, Some(v))),
                    None => None,
                },
            },
        },
        None => match rule_call(rule) {
            Some(id) => Some((id, None)),
            None => None,
        },
    }
}

/// The binding a line holds in its language. For JS/TS/Go/Java, `verifies`
/// and `rule` are the argument texts the binding lexer found after
/// `verifies(` and `rule(` on the line.
pub open spec fn binding_line(
    language: Language,
    line: Seq<char>,
    in_block_comment: bool,
    verifies: Option<Seq<char>>,
    rule: Option<Seq<char>>,
) -> Option<(Seq<char>, Option<Verification>)> {
    match language {
        Language::Rust => if in_block_comment {
            None
        } else {
            attribute_binding(line)
        },
        Language::Python => match python_decorator(line) {
            Some(id) => Some((id, None)),
            None => None,
        },
        Language::JavaScript | Language::TypeScript => script_call(verifies, rule),
        Language::Go | Language::Java => match rule_call(rule) {
            Some(id) => Some((id, None)),
            None => None,
        },
    }
}

fn is_quote(c: char) -> (r: bool)
    ensures
        r == quote_char(c),
{
    c == '\'' || c == '"' || c == '`'
}

fn quoted_literal_exec(rest: &[char]) -> (r: Option<(Vec<char>, Vec<char>)>)
    ensures
        match r {
            Some((lit, after)) => quoted_literal(rest@) == Some((lit@, after@)),
            None => quoted_literal(rest@) is None,
        },
{
    let t = trim_start(rest);
    if t.len() == 0 || !is_quote(t[0]) {
        return None;
    }
    let n = t.len();
    let after = sub_chars(t.as_slice(), 1, n);
    assert(after@ =~= t@.drop_first());
    let mut q: Vec<char> = Vec::new();
    q.push(t[0]);
    assert(q@ =~= seq![t@[0]]);
    match find(after.as_slice(), q.as_slice()) {
        None => None,
        Some(end) => if end == 0 {
            None
        } else {
            let m = after.len();
            Some((sub_chars(after.as_slice(), 0, end), sub_chars(after.as_slice(), end + 1, m)))
        },
    }
}

fn argument_after_comma_exec(rest: &[char]) -> (r: Option<Vec<char>>)
    ensures
        match r {
            Some(m) => argument_after_comma(rest@) == Some(m@),
            None => argument_after_comma(rest@) is None,
        },
{
    let t = trim_start(rest);
    if t.len() == 0 || t[0] != ',' {
        return None;
    }
    let n = t.len();
    let tail = sub_chars(t.as_slice(), 1, n);
    assert(tail@ =~= t@.drop_first());
    let argument = trim_start(tail.as_slice());
    let unquoted = if argument.len() > 0 && is_quote(argument[0]) {
        let m = argument.len();
        let u = sub_chars(argument.as_slice(), 1, m);
        assert(u@ =~= argument@.drop_first());
        u
    } else {
        let m = argument.len();
        let u = sub_chars(argument.as_slice(), 0, m);
        assert(u@ =~= argument@);
        u
    };
    let mut end: usize = 0;
    while end < unquoted.len() && (crate::text::is_alphanumeric_ascii(unquoted[end]) || unquoted[end] == '_')
        invariant
            end <= unquoted@.len(),
            ident_end(unquoted@, 0) == ident_end(unquoted@, end as int),
        decreases unquoted@.len() - end,
    {
        end = end + 1;
    }
    if end > 0 {
        Some(sub_chars(unquoted.as_slice(), 0, end))
    } else {
        None
    }
}

/// The rule a Python decorator line names.
pub fn parse_python_decorator(line: &[char]) -> (r: Option<(String, Option<Verification>)>)
    ensures
        match r {
            Some((id, v)) => python_decorator(line@) == Some(id@) && v is None,
            None => python_decorator(line@) is None,
        },
{
    let t = trim_start(line);
    if t.len() == 0 || t[0] != '@' {
        return None;
    }
    let n = t.len();
    let decorator = sub_chars(t.as_slice(), 1, n);
    assert(decorator@ =~= t@.drop_first());
    let m = decorator.len();
    let (rule_open, _) = decode("rule(");
    let (qualified, _) = decode(".rule(");
    let rest = if starts_with(decorator.as_slice(), "rule(") {
        sub_chars(decorator.as_slice(), rule_open.len(), m)
    } else {
        match find(decorator.as_slice(), qualified.as_slice()) {
            Some(k) => if k > 0 {
                sub_chars(decorator.as_slice(), k + qualified.len(), m)
            } else {
                return None;
            },
            None => {
                return None;
            },
        }
    };
    match quoted_literal_exec(rest.as_slice()) {
        Some((id, _)) => Some((string_of(id.as_slice()), None)),
        None => None,
    }
}

/// A `rule("id", ...)` call, from the argument text after `rule(`.
pub fn parse_rule_call(arguments: Option<&[char]>) -> (r: Option<(String, Option<Verification>)>)
    ensures
        match r {
            Some((id, v)) => rule_call(match arguments {
                Some(a) => Some(a@),
                None => None,
            }) == Some(id@) && v is None,
            None => rule_call(match arguments {
                Some(a) => Some(a@),
                None => None,
            }) is None,
        },
{
    let rest = match arguments {
        Some(a) => a,
        None => {
            return None;
        },
    };
    let (id, after) = match quoted_literal_exec(rest) {
        Some(found) => found,
        None => {
            return None;
        },
    };
    let t = trim_start(after.as_slice());
    if t.len() > 0 && t[0] == ',' {
        assert(t@.subrange(0, 1) =~= seq![',']);
        Some((string_of(id.as_slice()), None))
    } else {
        assert(t@.len() > 0 ==> t@.subrange(0, 1)[0] == t@[0]);
        None
    }
}

/// A script `verifies(...)` call, else a `rule(...)` call, from the argument
/// texts the lexer found.
pub fn parse_script_call(verifies: Option<&[char]>, rule: Option<&[char]>) -> (r: Option<(String, Option<Verification>)>)
    ensures
        match r {
            Some((id, v)) => script_call(
                match verifies {
                    Some(a) => Some(a@),
                    None => None,
                },
                match rule {
                    Some(a) => Some(a@),
                    None => None,
                },
            ) == Some((id@, v)),
            None => script_call(
                match verifies {
                    Some(a) => Some(a@),
                    None => None,
                },
                match rule {
                    Some(a) => Some(a@),
                    None => None,
                },
            ) is None,
        },
{
    match verifies {
        Some(rest) => {
            let (id, after) = match quoted_literal_exec(rest) {
                Some(found) => found,
                None => {
                    return None;
                },
            };
            let method = match argument_after_comma_exec(after.as_slice()) {
                Some(m) => m,
                None => {
                    return None;
                },
            };
            match Verification::from_chars(method.as_slice()) {
                Some(v) => Some((string_of(id.as_slice()), Some(v))),
                None => None,
            }
        },
        None => parse_rule_call(rule),
    }
}

/// The binding a line holds in its language. For JS/TS/Go/Java, `verifies`
/// and `rule` are the argument texts the binding lexer found after
/// `verifies(` and `rule(` on the line.
pub fn parse_binding_line(
    language: Language,
    line: &[char],
    in_block_comment: bool,
    verifies: Option<&[char]>,
    rule: Option<&[char]>,
) -> (r: Option<(String, Option<Verification>)>)
    ensures
        match r {
            Some((id, v)) => binding_line(
                language,
                line@,
                in_block_comment,
                match verifies {
                    Some(a) => Some(a@),
                    None => None,
                },
                match rule {
                    Some(a) => Some(a@),
                    None => None,
                },
            ) == Some((id@, v)),
            None => binding_line(
                language,
                line@,
                in_block_comment,
                match verifies {
                    Some(a) => Some(a@),
                    None => None,
                },
                match rule {
                    Some(a) => Some(a@),
                    None => None,
                },
            ) is None,
        },
{
    match language {
        Language::Rust => {
            if in_block_comment {
                return None;
            }
            match super::walker::attribute_binding_exec(line) {
                Some((id, v)) => Some((string_of(id.as_slice()), v)),
                None => None,
            }
        },
        Language::Python => parse_python_decorator(line),
        Language::JavaScript | Language::TypeScript => parse_script_call(verifies, rule),
        Language::Go | Language::Java => parse_rule_call(rule),
    }
}

} // verus!
