//! The macro preprocessor: parsing and evaluation of `%include`.

use mzp::macroeval::{macro_error_message, Context};
use mzp::macroparse::{parse, Expr};
use mzp::scan::scan;

fn mc_chars(s: &str) -> Vec<char> {
    s.chars().collect()
}

fn mc_parse(input: &str) -> Vec<Expr> {
    let tokens = scan(&mc_chars(input)).0;
    parse(tokens).expect("should parse")
}

fn mc_eval(files: Vec<(&str, &str)>, program: &str) -> Result<String, String> {
    let table: Vec<(Vec<char>, Vec<char>)> = files
        .into_iter()
        .map(|(p, c)| (mc_chars(p), mc_chars(c)))
        .collect();
    let ctx = Context::new(table);
    ctx.eval_program(&mc_chars(program))
        .map(|v| v.iter().collect())
        .map_err(|e| macro_error_message(&e).iter().collect())
}

#[test]
fn raw_text() {
    assert_eq!(
        mc_parse("This is\nsome text."),
        vec![Expr::ZztOop(mc_chars("This is\nsome text."))]
    );
}

#[test]
fn single_macro() {
    assert_eq!(
        mc_parse("%foo"),
        vec![Expr::Macro(mc_chars("foo"), vec![])]
    );
}

#[test]
fn macro_with_args() {
    assert_eq!(
        mc_parse(r#"%foo "bar" "baz""#),
        vec![Expr::Macro(
            mc_chars("foo"),
            vec![Expr::Str(mc_chars("bar")), Expr::Str(mc_chars("baz"))]
        )]
    );
}

#[test]
fn macro_with_literals() {
    // the newline ending the directive line is not part of the
    // directive: it opens the following text run
    assert_eq!(
        mc_parse("Foo.\n%bar\nBaz."),
        vec![
            Expr::ZztOop(mc_chars("Foo.\n")),
            Expr::Macro(mc_chars("bar"), vec![]),
            Expr::ZztOop(mc_chars("\nBaz."))
        ]
    );
}

#[test]
fn include_directive() {
    // the included file's one trailing newline is stripped; the newline
    // that ends the directive line stays, so the file's text is spliced
    // in place of the directive alone
    let program = "foo\n%include \"bb.txt\"\nquux";
    let result = mc_eval(vec![("bb.txt", "bar\nbaz\n")], program);
    assert_eq!(result, Ok("foo\nbar\nbaz\nquux".to_string()));
}

#[test]
fn include_windows() {
    let program = "%include \"foo.txt\"";
    let result = mc_eval(vec![("foo.txt", "foo\r\nbar")], program);
    assert_eq!(result, Ok("foo\nbar".to_string()));
}

#[test]
fn unknown_macro() {
    let result = mc_eval(vec![], "%foo");
    assert_eq!(result.unwrap_err(), "Unknown macro: \"foo\"".to_string());
}

#[test]
fn include_missing_file() {
    let result = mc_eval(vec![], "%include \"nope.txt\"");
    assert!(result.is_err());
}

#[test]
fn include_wrong_args() {
    assert!(mc_eval(vec![("a", "x")], "%include \"a\" \"b\"").is_err());
    assert!(mc_eval(vec![("a", "x")], "%include").is_err());
}
