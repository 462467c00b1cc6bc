//! The toy grammars, parsed from the meta-language and run through the
//! interpreter.

use mzp::ir::eval;
use mzp::meta::{parse_grammar, MetaGrammar};
use mzp::peg::ParseState;

fn pg_chars(s: &str) -> Vec<char> {
    s.chars().collect()
}

fn pg_grammar() -> MetaGrammar {
    let text = pg_chars(
        r#"
        fake_csv = line "\n" line EOI;
        line = item "," item;
        item = "foo" / "bar";

        option = "(" "x"? ")";
        plus = "(" "x"+ ")";
        star = "(" "x"* ")";

        word_head = "_" / 'A'..'Z' / 'a'..'z';
        word_tail = word_head / '0'..'9';
        plain_word = word_head word_tail*;
        word = "(" plain_word ")";

        words = "(" (plain_word ("," plain_word)*)? ")";
        nested_choice = "(" ("a" / "b") ("c" / "d") ")";

        dq = "\"";
        quoted = dq ("\\" ANY / !dq ANY)* dq;

        case_sensitivity = "Strict " ('a'..'z')+ ", loose "i ('a'..'z'i)+;
        long_icase_str = "foo bar baz"i;

        @icase
        hex_config = "let " var_name " = 0x" ('a'..'f' / '0'..'9')+;
        var_name = "foo" / "bar"; // case must match

        email = #Email:(#User:user "@" #Domain:domain);
        user = ('a'..'z'i)+;
        domain = user+ ("." user)+;
    "#,
    );
    parse_grammar(&text).expect("the toy grammar should parse")
}

fn pg_run(g: &MetaGrammar, rule: &str, input: &str) -> (bool, ParseState<u32>) {
    let idx = g.find_rule(&pg_chars(rule)).expect("rule exists");
    let mut p = ParseState::new(pg_chars(input));
    let fuel = p.input.len() as u64 + 64;
    let ok = eval(&g.rules, &g.rules[idx], &mut p, fuel);
    (ok, p)
}

fn pg_parse(g: &MetaGrammar, rule: &str, input: &str) -> bool {
    let (ok, p) = pg_run(g, rule, input);
    ok && p.eoi()
}

#[test]
fn test_generated() {
    let g = pg_grammar();
    let (ok, _) = pg_run(&g, "fake_csv", "foo,bar\nbar,foo");
    assert!(ok);
    let (ok, _) = pg_run(&g, "fake_csv", "foo,foo\nfoo;foo");
    assert!(!ok);
    let (ok, _) = pg_run(&g, "fake_csv", "foo,foo\nfoo,foo\njunk at end");
    assert!(!ok);
}

#[test]
fn test_repetition_suffixes() {
    let g = pg_grammar();
    let zero = "()";
    assert!(pg_parse(&g, "option", zero));
    assert!(pg_parse(&g, "star", zero));
    assert!(!pg_parse(&g, "plus", zero));

    let one = "(x)";
    assert!(pg_parse(&g, "option", one));
    assert!(pg_parse(&g, "star", one));
    assert!(pg_parse(&g, "plus", one));

    let many = "(xxx)";
    assert!(!pg_parse(&g, "option", many));
    assert!(pg_parse(&g, "star", many));
    assert!(pg_parse(&g, "plus", many));
}

#[test]
fn test_ranges() {
    let g = pg_grammar();
    assert!(pg_parse(&g, "word", "(_FooBar)"));
    assert!(pg_parse(&g, "word", "(abc123)"));
    assert!(!pg_parse(&g, "word", "(123abc)"));
    assert!(!pg_parse(&g, "word", "(foo-bar)"));
}

#[test]
fn test_groups() {
    let g = pg_grammar();
    assert!(pg_parse(&g, "words", "()"));
    assert!(pg_parse(&g, "words", "(foo)"));
    assert!(pg_parse(&g, "words", "(foo,bar,baz)"));
    assert!(!pg_parse(&g, "words", "(foo,)"));
    assert!(!pg_parse(&g, "words", "(,bar)"));
    assert!(!pg_parse(&g, "words", "(3baz)"));
}

#[test]
fn test_nested_choice() {
    let g = pg_grammar();
    assert!(pg_parse(&g, "nested_choice", "(ac)"));
    assert!(pg_parse(&g, "nested_choice", "(ad)"));
    assert!(pg_parse(&g, "nested_choice", "(bc)"));
    assert!(pg_parse(&g, "nested_choice", "(bd)"));
    assert!(!pg_parse(&g, "nested_choice", "(a)"));
    assert!(!pg_parse(&g, "nested_choice", "(b)"));
    assert!(!pg_parse(&g, "nested_choice", "(c)"));
    assert!(!pg_parse(&g, "nested_choice", "(d)"));
}

#[test]
fn test_quoted() {
    let g = pg_grammar();
    assert!(pg_parse(&g, "quoted", r#""""#));
    assert!(pg_parse(&g, "quoted", r#""foo""#));
    assert!(pg_parse(&g, "quoted", r#""\"""#));
    assert!(pg_parse(&g, "quoted", r#""foo \"bar\" baz""#));
    assert!(pg_parse(&g, "quoted", r#""C:\\>""#));

    assert!(!pg_parse(&g, "quoted", r#""no end"#));
    assert!(!pg_parse(&g, "quoted", r#""foo " bar""#));
    assert!(!pg_parse(&g, "quoted", r#""false end \""#));
}

#[test]
fn test_i_suffix() {
    let g = pg_grammar();
    assert!(pg_parse(&g, "case_sensitivity", "Strict abc, loose xyz"));
    assert!(!pg_parse(&g, "case_sensitivity", "STRICT abc, loose xyz"));
    assert!(!pg_parse(&g, "case_sensitivity", "Strict ABC, loose xyz"));
    assert!(pg_parse(&g, "case_sensitivity", "Strict abc, LOOSE xyz"));
    assert!(pg_parse(&g, "case_sensitivity", "Strict abc, loose XYZ"));
    assert!(pg_parse(&g, "case_sensitivity", "Strict abc, LoOsE XyZ"));
}

#[test]
fn test_icase_decorator() {
    let g = pg_grammar();
    assert!(pg_parse(&g, "hex_config", "let foo = 0xc0ffee"));
    assert!(pg_parse(&g, "hex_config", "LET bar = 0XCAFE"));
    assert!(!pg_parse(&g, "hex_config", "let Foo = 0xc0ffee"));
    assert!(!pg_parse(&g, "hex_config", "let BAR = 0xcafe"));
}

#[test]
fn test_icase_eoi() {
    let g = pg_grammar();
    assert!(pg_parse(&g, "long_icase_str", "FOO BAR BAZ"));
    assert!(!pg_parse(&g, "long_icase_str", "FOO BAR BA"));
}

#[test]
fn peg_test_captures() {
    let g = pg_grammar();
    let (ok, p) = pg_run(&g, "email", "alice@example.com");
    assert!(ok);
    let mut captures: Vec<(String, String)> = Vec::new();
    let mut tops = p.captures();
    while let Some(c) = tops.next() {
        let tag: String = g.tags[c.kind() as usize].iter().collect();
        let text: String = c.text().iter().collect();
        captures.push((tag, text));
        let mut kids = c.children();
        while let Some(k) = kids.next() {
            let tag: String = g.tags[k.kind() as usize].iter().collect();
            let text: String = k.text().iter().collect();
            captures.push((tag, text));
        }
    }
    assert_eq!(
        captures,
        vec![
            ("Email".to_string(), "alice@example.com".to_string()),
            ("User".to_string(), "alice".to_string()),
            ("Domain".to_string(), "example.com".to_string()),
        ]
    );
}

#[test]
fn parse_twice_same_outcome() {
    let g = pg_grammar();
    let (ok1, p1) = pg_run(&g, "fake_csv", "foo,bar\nbar,foo");
    let (ok2, p2) = pg_run(&g, "fake_csv", "foo,bar\nbar,foo");
    assert_eq!(ok1, ok2);
    assert_eq!(p1.offset, p2.offset);
    assert_eq!(p1.captures.len(), p2.captures.len());
}

#[test]
fn backtracking_drops_captures() {
    // a capture inside a failing alternative leaves no trace: the second
    // alternative wins and the buffer stays empty
    let g = parse_grammar(&pg_chars(
        r#"
        top = (#A:"a" "b") / "ac";
    "#,
    ))
    .expect("grammar");
    let (ok, p) = pg_run(&g, "top", "ac");
    assert!(ok);
    assert_eq!(p.captures.len(), 0);
    // when the captured alternative wins, exactly one committed record
    // covers its span
    let (ok, p) = pg_run(&g, "top", "ab");
    assert!(ok);
    assert_eq!(p.captures.len(), 1);
    assert_eq!(p.captures[0].start, 0);
    assert_eq!(p.captures[0].end, 1);
    assert_eq!(p.captures[0].subtree_len, 1);
}
