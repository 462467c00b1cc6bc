//! The macro-language scanner, on plain text, directives and escapes.

use mzp::scan::{scan, Token};

fn sc_chars(s: &str) -> Vec<char> {
    s.chars().collect()
}

fn sc_scan(input: &str) -> Vec<Token> {
    scan(&sc_chars(input)).0
}

fn sc_scan_full(input: &str) -> (Vec<Token>, Vec<Vec<char>>) {
    scan(&sc_chars(input))
}

fn identifier(s: &str) -> Token {
    Token::Identifier(sc_chars(s))
}

fn raw_text(s: &str) -> Token {
    Token::RawText(sc_chars(s))
}

fn string(s: &str) -> Token {
    Token::Str(sc_chars(s))
}

#[test]
fn scan_empty() {
    assert_eq!(vec![] as Vec<Token>, sc_scan(""));
}

#[test]
fn scan_raw() {
    assert_eq!(vec![raw_text("Hello, world!")], sc_scan("Hello, world!"));
}

#[test]
fn scan_raw_multiline() {
    assert_eq!(
        vec![raw_text("foo"), Token::Newline, raw_text("bar")],
        sc_scan("foo\nbar")
    );
}

#[test]
fn scan_mixed() {
    assert_eq!(
        vec![
            raw_text("foo"),
            Token::Newline,
            Token::Percent,
            identifier("bar"),
            Token::Newline,
            raw_text("baz")
        ],
        sc_scan("foo\n%bar\nbaz")
    );
}

#[test]
fn scan_multiline() {
    assert_eq!(
        vec![raw_text("foo"), Token::Newline, raw_text("bar")],
        sc_scan("foo\nbar")
    );
}

#[test]
fn scan_raw_escapes() {
    assert_eq!(
        vec![raw_text(r#"a long-line of raw text with \escapes"#)],
        sc_scan("a long\\-line of raw text with\\\n \\\\escapes")
    );
}

#[test]
fn scan_directive() {
    assert_eq!(vec![Token::Percent, identifier("foo")], sc_scan("%foo"));
}

#[test]
fn scan_multiple_identifiers() {
    assert_eq!(
        vec![Token::Percent, identifier("foo"), identifier("bar")],
        sc_scan("%foo bar")
    );
}

#[test]
fn scan_directive_string() {
    assert_eq!(
        vec![Token::Percent, identifier("foo"), string("bar")],
        sc_scan("%foo \"bar\"")
    );
}

#[test]
fn scan_directive_string_escapes() {
    assert_eq!(
        vec![
            Token::Percent,
            identifier("foo"),
            string(r#"a long-line string with "quotes" and \escapes"#)
        ],
        sc_scan("%foo \"a long\\-line string with\\\n \\\"quotes\\\" and \\\\escapes\"")
    );
}

#[test]
fn scan_premature_end_of_string() {
    let (tokens, errors) = sc_scan_full("%foo \"bar");
    assert_eq!(
        vec![Token::Percent, identifier("foo"), string("bar")],
        tokens
    );
    assert!(errors.len() == 1);
}

#[test]
fn scan_unexpected_chars() {
    let (tokens, errors) = sc_scan_full("%foo @bar");
    assert_eq!(
        vec![Token::Percent, identifier("foo"), identifier("bar")],
        tokens
    );
    assert!(errors.len() == 1);
}
