//! The grammar meta-language parser itself.

use mzp::meta::parse_grammar;

fn mt_chars(s: &str) -> Vec<char> {
    s.chars().collect()
}

#[test]
fn grammar_tables_are_built() {
    let g = parse_grammar(&mt_chars(
        r#"
        top = #A:"x" mid / "y";
        mid = #B:'0'..'9' top?;
    "#,
    ))
    .expect("grammar");
    assert_eq!(g.names.len(), 2);
    assert_eq!(g.rules.len(), 2);
    assert_eq!(g.tags.len(), 2);
    assert_eq!(g.tags[0].iter().collect::<String>(), "A");
    assert_eq!(g.tags[1].iter().collect::<String>(), "B");
    assert!(g.find_rule(&mt_chars("top")).is_some());
    assert!(g.find_rule(&mt_chars("mid")).is_some());
    assert!(g.find_rule(&mt_chars("nope")).is_none());
}

#[test]
fn malformed_grammars_are_rejected() {
    // missing semicolon
    assert!(parse_grammar(&mt_chars(r#"a = "x""#)).is_none());
    // missing right-hand side
    assert!(parse_grammar(&mt_chars(r#"a = ;"#)).is_none());
    // a referenced rule with no declaration
    assert!(parse_grammar(&mt_chars(r#"a = b;"#)).is_none());
    // a duplicate declaration
    assert!(parse_grammar(&mt_chars(r#"a = "x"; a = "y";"#)).is_none());
    // an unknown decorator
    assert!(parse_grammar(&mt_chars(r#"@loud a = "x";"#)).is_none());
    // an unterminated range
    assert!(parse_grammar(&mt_chars(r#"a = 'x'..;"#)).is_none());
}

#[test]
fn comments_and_whitespace_are_skipped() {
    let g = parse_grammar(&mt_chars(
        "// leading note\n  a = \"x\" // trailing note\n ;\n",
    ));
    assert!(g.is_some());
}
