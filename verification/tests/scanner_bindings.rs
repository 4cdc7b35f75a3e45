use provenance::scanner::bindings::{
    parse_binding_line, parse_python_decorator, parse_rule_call, parse_script_call,
};
use provenance::scanner::parser::Verification;
use provenance::scanner::Language;

fn chars(s: &str) -> Vec<char> {
    s.chars().collect()
}

#[test]
fn python_decorators_name_their_rule() {
    assert_eq!(
        parse_python_decorator(&chars("  @rule(\"rule_py\")")),
        Some(("rule_py".to_string(), None))
    );
    assert_eq!(
        parse_python_decorator(&chars("@provenance.rule('rule_q', x)")),
        Some(("rule_q".to_string(), None))
    );
    assert_eq!(parse_python_decorator(&chars("@.rule('rule_q')")), None);
    assert_eq!(parse_python_decorator(&chars("@rule(\"\")")), None);
}

#[test]
fn script_calls_read_the_method_after_the_comma() {
    let args = chars("'rule_js', \"property\")");
    assert_eq!(
        parse_script_call(Some(&args), None),
        Some(("rule_js".to_string(), Some(Verification::Property)))
    );
    let rule_args = chars("`rule_go`, func() {})");
    assert_eq!(
        parse_rule_call(Some(&rule_args)),
        Some(("rule_go".to_string(), None))
    );
    let no_comma = chars("\"rule_go\")");
    assert_eq!(parse_rule_call(Some(&no_comma)), None);
    let unknown = chars("'rule_js', guesswork)");
    assert_eq!(parse_script_call(Some(&unknown), None), None);
}

#[test]
fn rust_attributes_inside_block_comments_do_not_bind() {
    let line = chars("#[rule(\"rule_rs\")]");
    assert_eq!(
        parse_binding_line(Language::Rust, &line, false, None, None),
        Some(("rule_rs".to_string(), None))
    );
    assert_eq!(parse_binding_line(Language::Rust, &line, true, None, None), None);
}
