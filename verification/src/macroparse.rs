//! Parser for the macro preprocessor: turns the scanner's tokens into a
//! list of expressions — plain script text, and `%name "arg" …`
//! directives. The parser is proved equal to the recursive model below.

use vstd::prelude::*;

use crate::scan::{tok_of, toks_of, TokView, Token};

verus! {

/// One expression of the macro sublanguage.
#[derive(Debug, PartialEq, Eq)]
pub enum Expr {
    /// Plain script text, newlines included.
    ZztOop(Vec<char>),
    /// A `%name` directive with its arguments.
    Macro(Vec<char>, Vec<Expr>),
    /// A quoted string argument.
    Str(Vec<char>),
}

/// The mathematical value of an expression.
pub enum ExprView {
    ZztOop(Seq<char>),
    Macro(Seq<char>, Seq<ExprView>),
    Str(Seq<char>),
}

pub open spec fn expr_of(e: Expr) -> ExprView
    decreases e,
{
    match e {
        Expr::ZztOop(v) => ExprView::ZztOop(v@),
        Expr::Macro(n, args) => ExprView::Macro(n@, exprs_of(args@, 0)),
        Expr::Str(v) => ExprView::Str(v@),
    }
}

pub open spec fn exprs_of(v: Seq<Expr>, i: int) -> Seq<ExprView>
    decreases v, (if 0 <= i <= v.len() { v.len() - i } else { 0 }), 0int,
{
    if 0 <= i < v.len() {
        seq![expr_of(v[i])] + exprs_of(v, i + 1)
    } else {
        Seq::empty()
    }
}

/// A run of plain text: raw text tokens and newlines, concatenated.
pub open spec fn zzt_from(ts: Seq<TokView>, i: int) -> (Seq<char>, int)
    decreases (if 0 <= i <= ts.len() { ts.len() - i } else { 0 }),
{
    if 0 <= i < ts.len() {
        match ts[i] {
            TokView::RawText(t) => {
                let (rest, j) = zzt_from(ts, i + 1);
                (t + rest, j)
            },
            TokView::Newline => {
                let (rest, j) = zzt_from(ts, i + 1);
                (seq!['\n'] + rest, j)
            },
            _ => (Seq::empty(), i),
        }
    } else {
        (Seq::empty(), i)
    }
}

/// The arguments of a directive: strings until the end of the line;
/// anything else is a parse error. The newline that ends the directive
/// line is not part of the directive: it stays and is kept as text, so a
/// directive's expansion is spliced in place of the directive alone.
pub open spec fn args_from(ts: Seq<TokView>, i: int) -> Option<(Seq<ExprView>, int)>
    decreases (if 0 <= i <= ts.len() { ts.len() - i } else { 0 }),
{
    if 0 <= i < ts.len() {
        match ts[i] {
            TokView::Str(v) => match args_from(ts, i + 1) {
                Some((rest, j)) => Some((seq![ExprView::Str(v)] + rest, j)),
                None => None,
            },
            TokView::Newline => Some((Seq::empty(), i)),
            _ => None,
        }
    } else {
        Some((Seq::empty(), i))
    }
}

/// The whole parse: text runs and directives; a stray string is a parse
/// error.
pub open spec fn parse_from(ts: Seq<TokView>, i: int) -> Option<Seq<ExprView>>
    decreases (if 0 <= i <= ts.len() { ts.len() - i } else { 0 }), 1int,
{
    if 0 <= i < ts.len() {
        match ts[i] {
            TokView::RawText(_) | TokView::Newline => {
                let (text, j) = zzt_from(ts, i);
                if i < j <= ts.len() {
                    match parse_from(ts, j) {
                        Some(rest) => Some(seq![ExprView::ZztOop(text)] + rest),
                        None => None,
                    }
                } else {
                    Some(seq![ExprView::ZztOop(text)])
                }
            },
            TokView::Percent => {
                if i + 1 < ts.len() {
                    match ts[i + 1] {
                        TokView::Identifier(name) => match args_from(ts, i + 2) {
                            Some((args, j)) => if i + 2 <= j <= ts.len() {
                                match parse_from(ts, j) {
                                    Some(rest) => Some(
                                        seq![ExprView::Macro(name, args)] + rest,
                                    ),
                                    None => None,
                                }
                            } else {
                                None
                            },
                            None => None,
                        },
                        _ => None,
                    }
                } else {
                    None
                }
            },
            TokView::Str(_) => None,
            TokView::Identifier(_) => None,
        }
    } else {
        Some(Seq::empty())
    }
}

proof fn lemma_zzt_bounds(ts: Seq<TokView>, i: int)
    requires
        0 <= i <= ts.len(),
    ensures
        i <= zzt_from(ts, i).1 <= ts.len(),
    decreases ts.len() - i,
{
    if i < ts.len() {
        lemma_zzt_bounds(ts, i + 1);
    }
}

proof fn lemma_args_bounds(ts: Seq<TokView>, i: int)
    requires
        0 <= i <= ts.len(),
    ensures
        match args_from(ts, i) {
            Some((a, j)) => i <= j <= ts.len(),
            None => true,
        },
    decreases ts.len() - i,
{
    if i < ts.len() {
        lemma_args_bounds(ts, i + 1);
    }
}

/// Parse a token list into expressions. The result matches the recursive
/// model exactly; a token out of place is an error.
#[verifier::loop_isolation(false)]
pub fn parse(input: Vec<Token>) -> (r: Result<Vec<Expr>, ()>)
    ensures
        match r {
            Ok(exprs) => parse_from(toks_of(input@), 0) == Some(exprs_of(exprs@, 0)),
            Err(_) => parse_from(toks_of(input@), 0) is None,
        },
{
    let ghost ts = toks_of(input@);
    let n = input.len();
    let mut out: Vec<Expr> = Vec::new();
    let mut i: usize = 0;
    while i < n
        invariant
            i <= n,
            n == input@.len(),
            ts == toks_of(input@),
            ts.len() == n,
            match parse_from(ts, 0) {
                Some(all) => parse_from(ts, i as int) is Some && all == exprs_of(out@, 0)
                    + parse_from(ts, i as int)->Some_0,
                None => parse_from(ts, i as int) is None,
            },
        decreases n - i,
    {
        let kind: usize = match &input[i] {
            Token::RawText(_) => 0,
            Token::Newline => 0,
            Token::Percent => 1,
            _ => 2,
        };
        proof {
            assert(tok_of(input@[i as int]) == ts[i as int]);
        }
        if kind == 0 {
            // a run of plain text
            let ghost p0 = i as int;
            proof {
                assert(ts[p0] is RawText || ts[p0] is Newline);
            }
            let mut text: Vec<char> = Vec::new();
            let mut scanning = true;
            while scanning
                invariant
                    p0 <= i <= n,
                    scanning ==> {
                        &&& zzt_from(ts, p0).0 == text@ + zzt_from(ts, i as int).0
                        &&& zzt_from(ts, p0).1 == zzt_from(ts, i as int).1
                    },
                    !scanning ==> {
                        &&& zzt_from(ts, p0).0 == text@
                        &&& zzt_from(ts, p0).1 == i as int
                    },
                decreases n - i + (if scanning { 1int } else { 0int }),
            {
                if i >= n {
                    scanning = false;
                    proof {
                        assert(zzt_from(ts, i as int).0 =~= Seq::<char>::empty());
                        assert(zzt_from(ts, p0).0 =~= text@);
                    }
                } else {
                    proof {
                        assert(tok_of(input@[i as int]) == ts[i as int]);
                    }
                    let is_text = match &input[i] {
                        Token::RawText(_) => true,
                        Token::Newline => true,
                        _ => false,
                    };
                    if !is_text {
                        scanning = false;
                        proof {
                            assert(zzt_from(ts, i as int).0 =~= Seq::<char>::empty());
                            assert(zzt_from(ts, p0).0 =~= text@);
                        }
                    } else {
                        match &input[i] {
                            Token::RawText(t) => {
                                crate::text::extend_chars(&mut text, t);
                                proof {
                                    assert(zzt_from(ts, p0).0 =~= text@ + zzt_from(
                                        ts,
                                        i + 1,
                                    ).0);
                                }
                            },
                            _ => {
                                text.push('\n');
                                proof {
                                    assert(zzt_from(ts, p0).0 =~= text@ + zzt_from(
                                        ts,
                                        i + 1,
                                    ).0);
                                }
                            },
                        }
                        i = i + 1;
                    }
                }
            }
            let ghost tv = text@;
            let ghost prev_out = out@;
            out.push(Expr::ZztOop(text));
            proof {
                assert(out@.drop_last() =~= prev_out);
                lemma_zzt_bounds(ts, p0 + 1);
                assert(zzt_from(ts, p0).1 > p0);
                lemma_exprs_snoc(out@);
                assert(exprs_of(out@, 0) =~= exprs_of(out@.drop_last(), 0).push(
                    expr_of(out@.last()),
                ));
                match parse_from(ts, 0) {
                    Some(all) => {
                        assert(parse_from(ts, p0) is Some);
                        assert(parse_from(ts, p0)->Some_0 =~= seq![ExprView::ZztOop(tv)]
                            + parse_from(ts, i as int)->Some_0);
                        assert(all =~= exprs_of(out@, 0) + parse_from(ts, i as int)->Some_0);
                    },
                    None => {},
                }
            }
        } else if kind == 1 {
            // a %name directive
            let ghost p_pct = i as int;
            proof {
                assert(ts[p_pct] is Percent);
            }
            i = i + 1;
            if i >= n {
                proof {
                    assert(parse_from(ts, p_pct) is None);
                }
                return Err(());
            }
            proof {
                assert(tok_of(input@[i as int]) == ts[i as int]);
            }
            let name = match &input[i] {
                Token::Identifier(nm) => crate::registry::copy_chars(nm),
                _ => {
                    proof {
                        assert(parse_from(ts, p_pct) is None);
                    }
                    return Err(());
                },
            };
            let ghost namev = name@;
            i = i + 1;
            let ghost a0 = i as int;
            let mut args: Vec<Expr> = Vec::new();
            let mut stopped = false;
            while i < n && !stopped
                invariant
                    a0 <= i <= n,
                    n == input@.len(),
                    ts == toks_of(input@),
                    ts.len() == n,
                    !stopped ==> match args_from(ts, a0) {
                        Some((all, j)) => args_from(ts, i as int) is Some && all == exprs_of(
                            args@,
                            0,
                        ) + args_from(ts, i as int)->Some_0.0 && j == args_from(
                            ts,
                            i as int,
                        )->Some_0.1,
                        None => args_from(ts, i as int) is None,
                    },
                    stopped ==> args_from(ts, a0) == Some(
                        (exprs_of(args@, 0), i as int),
                    ),
                decreases n - i + (if stopped { 0int } else { 1int }),
            {
                proof {
                    assert(tok_of(input@[i as int]) == ts[i as int]);
                }
                let step: usize = match &input[i] {
                    Token::Str(_) => 0,
                    Token::Newline => 1,
                    _ => 2,
                };
                if step == 0 {
                    let ghost prev = i as int;
                    let ghost prev_args = args@;
                    match &input[i] {
                        Token::Str(v) => args.push(Expr::Str(crate::registry::copy_chars(v))),
                        _ => {},
                    }
                    i = i + 1;
                    proof {
                        assert(args@.drop_last() =~= prev_args);
                        lemma_exprs_snoc(args@);
                        assert(exprs_of(args@, 0) =~= exprs_of(args@.drop_last(), 0).push(
                            expr_of(args@.last()),
                        ));
                        match args_from(ts, a0) {
                            Some((all, j)) => {
                                assert(args_from(ts, prev) is Some);
                                assert(args_from(ts, prev)->Some_0.0 =~= seq![
                                    expr_of(args@.last()),
                                ] + args_from(ts, i as int)->Some_0.0);
                                assert(all =~= exprs_of(args@, 0) + args_from(
                                    ts,
                                    i as int,
                                )->Some_0.0);
                            },
                            None => {},
                        }
                    }
                } else if step == 1 {
                    stopped = true;
                    proof {
                        assert(exprs_of(args@, 0) + Seq::<ExprView>::empty() =~= exprs_of(
                            args@,
                            0,
                        ));
                    }
                } else {
                    proof {
                        assert(args_from(ts, i as int) is None);
                        assert(parse_from(ts, p_pct) is None);
                    }
                    return Err(());
                }
            }
            proof {
                if !stopped {
                    assert(args_from(ts, i as int) == Some(
                        (Seq::<ExprView>::empty(), i as int),
                    ));
                    assert(exprs_of(args@, 0) + Seq::<ExprView>::empty() =~= exprs_of(
                        args@,
                        0,
                    ));
                }
                lemma_args_bounds(ts, a0);
            }
            let ghost argv = exprs_of(args@, 0);
            let ghost prev_out = out@;
            out.push(Expr::Macro(name, args));
            proof {
                assert(out@.drop_last() =~= prev_out);
                lemma_exprs_snoc(out@);
                assert(exprs_of(out@, 0) =~= exprs_of(out@.drop_last(), 0).push(
                    expr_of(out@.last()),
                ));
                assert(expr_of(out@.last()) == ExprView::Macro(namev, argv));
                match parse_from(ts, 0) {
                    Some(all) => {
                        assert(parse_from(ts, p_pct) is Some);
                        assert(parse_from(ts, p_pct)->Some_0 =~= seq![
                            ExprView::Macro(namev, argv),
                        ] + parse_from(ts, i as int)->Some_0);
                        assert(all =~= exprs_of(out@, 0) + parse_from(ts, i as int)->Some_0);
                    },
                    None => {},
                }
            }
        } else {
            proof {
                assert(parse_from(ts, i as int) is None);
            }
            return Err(());
        }
    }
    proof {
        assert(parse_from(ts, i as int) == Some(Seq::<ExprView>::empty()));
        match parse_from(ts, 0) {
            Some(all) => {
                assert(all =~= exprs_of(out@, 0));
            },
            None => {},
        }
    }
    Ok(out)
}

/// Appending an expression appends its view.
proof fn lemma_exprs_snoc(v: Seq<Expr>)
    requires
        v.len() > 0,
    ensures
        exprs_of(v, 0) =~= exprs_of(v.drop_last(), 0).push(expr_of(v.last())),
{
    lemma_exprs_prefix(v, 0);
}

proof fn lemma_exprs_prefix(v: Seq<Expr>, i: int)
    requires
        0 <= i <= v.len(),
        v.len() > 0,
    ensures
        exprs_of(v, i) =~= exprs_of(v.drop_last(), i) + (if i <= v.len() - 1 {
            seq![expr_of(v.last())]
        } else {
            Seq::empty()
        }),
    decreases v.len() - i,
{
    if i < v.len() {
        lemma_exprs_prefix(v, i + 1);
        if i < v.len() - 1 {
            assert(v.drop_last()[i] == v[i]);
        }
    }
}

} // verus!
