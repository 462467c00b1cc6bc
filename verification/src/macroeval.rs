//! Evaluator for the macro preprocessor. The one directive is
//! `%include "path"`: the named file's text — line endings normalised and
//! one trailing newline stripped — is spliced in place. Files are handed
//! in as a table of path and content pairs; an unknown directive, a
//! malformed argument list or a missing file is an error.

use vstd::prelude::*;

use crate::macroparse::{exprs_of, parse, parse_from, Expr, ExprView};
use crate::registry::copy_chars;
use crate::scan::{scan, scan_from};
use crate::text::{chars_eq, extend_chars};

verus! {

/// The include-file table: each path with its content.
pub struct Context {
    pub files: Vec<(Vec<char>, Vec<char>)>,
}

/// The content filed under `path`, if any.
pub open spec fn lookup_file(
    files: Seq<(Vec<char>, Vec<char>)>,
    path: Seq<char>,
) -> Option<Seq<char>>
    decreases files.len(),
{
    if files.len() == 0 {
        None
    } else if files[0].0@ == path {
        Some(files[0].1@)
    } else {
        lookup_file(files.drop_first(), path)
    }
}

/// Line-ending normalisation: every `\r\n` becomes `\n`.
pub open spec fn norm_from(s: Seq<char>, i: int) -> Seq<char>
    decreases (if i < s.len() { s.len() - i } else { 0 }),
{
    if i < 0 || i >= s.len() {
        Seq::empty()
    } else if s[i] == '\r' && i + 1 < s.len() && s[i + 1] == '\n' {
        seq!['\n'] + norm_from(s, i + 2)
    } else {
        seq![s[i]] + norm_from(s, i + 1)
    }
}

/// One trailing newline is stripped from an included file.
pub open spec fn strip_nl(s: Seq<char>) -> Seq<char> {
    if s.len() > 0 && s.last() == '\n' {
        s.drop_last()
    } else {
        s
    }
}

pub open spec fn include_kw() -> Seq<char> {
    seq!['i', 'n', 'c', 'l', 'u', 'd', 'e']
}

/// Splice the expressions: text stands as it is, `%include` becomes the
/// named file's normalised text, anything else is an error.
pub open spec fn splice(
    files: Seq<(Vec<char>, Vec<char>)>,
    exprs: Seq<ExprView>,
    i: int,
) -> Option<Seq<char>>
    decreases (if 0 <= i <= exprs.len() { exprs.len() - i } else { 0 }),
{
    if 0 <= i < exprs.len() {
        match exprs[i] {
            ExprView::ZztOop(t) => match splice(files, exprs, i + 1) {
                Some(rest) => Some(t + rest),
                None => None,
            },
            ExprView::Macro(name, args) => {
                if name == include_kw() && args.len() == 1 && args[0] is Str {
                    match lookup_file(files, args[0]->Str_0) {
                        Some(content) => match splice(files, exprs, i + 1) {
                            Some(rest) => Some(strip_nl(norm_from(content, 0)) + rest),
                            None => None,
                        },
                        None => None,
                    }
                } else {
                    None
                }
            },
            ExprView::Str(_) => None,
        }
    } else {
        Some(Seq::empty())
    }
}

/// What evaluating a whole script yields: scan, parse, splice. Scan
/// errors do not stop evaluation; parse and splice errors do.
pub open spec fn eval_model(
    files: Seq<(Vec<char>, Vec<char>)>,
    input: Seq<char>,
) -> Option<Seq<char>> {
    match parse_from(scan_from(input, 0).toks, 0) {
        Some(exprs) => splice(files, exprs, 0),
        None => None,
    }
}

/// Why evaluation failed.
#[derive(Debug, PartialEq, Eq)]
pub enum MacroError {
    /// The token list did not parse as text runs and directives.
    Parse,
    /// A directive other than `%include`, with its name.
    UnknownMacro(Vec<char>),
    /// `%include` with other than one argument.
    WrongArgCount,
    /// An `%include` argument that is not a string.
    BadArgument,
    /// The named file is not in the table.
    MissingFile(Vec<char>),
}

/// The mathematical value of an evaluation error.
pub enum MacroErrView {
    Parse,
    UnknownMacro(Seq<char>),
    WrongArgCount,
    BadArgument,
    MissingFile(Seq<char>),
}

pub open spec fn err_of(e: MacroError) -> MacroErrView {
    match e {
        MacroError::Parse => MacroErrView::Parse,
        MacroError::UnknownMacro(n) => MacroErrView::UnknownMacro(n@),
        MacroError::WrongArgCount => MacroErrView::WrongArgCount,
        MacroError::BadArgument => MacroErrView::BadArgument,
        MacroError::MissingFile(p) => MacroErrView::MissingFile(p@),
    }
}

/// The error of the first expression the splice rejects, if any.
pub open spec fn splice_err(
    files: Seq<(Vec<char>, Vec<char>)>,
    exprs: Seq<ExprView>,
    i: int,
) -> Option<MacroErrView>
    decreases (if 0 <= i <= exprs.len() { exprs.len() - i } else { 0 }),
{
    if 0 <= i < exprs.len() {
        match exprs[i] {
            ExprView::ZztOop(_) => splice_err(files, exprs, i + 1),
            ExprView::Macro(name, args) => {
                if name != include_kw() {
                    Some(MacroErrView::UnknownMacro(name))
                } else if args.len() != 1 {
                    Some(MacroErrView::WrongArgCount)
                } else if !(args[0] is Str) {
                    Some(MacroErrView::BadArgument)
                } else {
                    match lookup_file(files, args[0]->Str_0) {
                        Some(_) => splice_err(files, exprs, i + 1),
                        None => Some(MacroErrView::MissingFile(args[0]->Str_0)),
                    }
                }
            },
            ExprView::Str(_) => Some(MacroErrView::BadArgument),
        }
    } else {
        None
    }
}

/// Which error evaluating a whole script reports.
pub open spec fn eval_err_model(
    files: Seq<(Vec<char>, Vec<char>)>,
    input: Seq<char>,
) -> Option<MacroErrView> {
    match parse_from(scan_from(input, 0).toks, 0) {
        Some(exprs) => splice_err(files, exprs, 0),
        None => Some(MacroErrView::Parse),
    }
}

/// The human-readable text of an evaluation error.
pub open spec fn err_text(e: MacroErrView) -> Seq<char> {
    match e {
        MacroErrView::Parse => ("macro parse error: unexpected token")@,
        MacroErrView::UnknownMacro(n) => ("Unknown macro: \"")@ + n + seq!['"'],
        MacroErrView::WrongArgCount => ("wrong number of args for %include")@,
        MacroErrView::BadArgument => ("%include filename must be a string")@,
        MacroErrView::MissingFile(p) => ("Couldn't load \"")@ + p + seq!['"'],
    }
}

/// Render an evaluation error as its message text.
pub fn macro_error_message(e: &MacroError) -> (r: Vec<char>)
    ensures
        r@ == err_text(err_of(*e)),
{
    let mut r: Vec<char> = Vec::new();
    match e {
        MacroError::Parse => {
            let lit = crate::text::chars_of("macro parse error: unexpected token");
            extend_chars(&mut r, &lit);
        },
        MacroError::UnknownMacro(n) => {
            let lit = crate::text::chars_of("Unknown macro: \"");
            extend_chars(&mut r, &lit);
            extend_chars(&mut r, n);
            r.push('"');
            proof {
                assert(r@ =~= err_text(err_of(*e)));
            }
        },
        MacroError::WrongArgCount => {
            let lit = crate::text::chars_of("wrong number of args for %include");
            extend_chars(&mut r, &lit);
        },
        MacroError::BadArgument => {
            let lit = crate::text::chars_of("%include filename must be a string");
            extend_chars(&mut r, &lit);
        },
        MacroError::MissingFile(p) => {
            let lit = crate::text::chars_of("Couldn't load \"");
            extend_chars(&mut r, &lit);
            extend_chars(&mut r, p);
            r.push('"');
            proof {
                assert(r@ =~= err_text(err_of(*e)));
            }
        },
    }
    r
}

proof fn lemma_exprs_len(v: Seq<Expr>, k: int)
    requires
        0 <= k <= v.len(),
    ensures
        exprs_of(v, k).len() == v.len() - k,
        forall|i: int| k <= i < v.len() ==> exprs_of(v, k)[i - k] == expr_of_pub(v[i]),
    decreases v.len() - k,
{
    if k < v.len() {
        lemma_exprs_len(v, k + 1);
    }
}

pub open spec fn expr_of_pub(e: Expr) -> ExprView {
    crate::macroparse::expr_of(e)
}

/// Normalise the line endings of an included file.
#[verifier::loop_isolation(false)]
fn normalize_content(v: &Vec<char>) -> (r: Vec<char>)
    ensures
        r@ == norm_from(v@, 0),
{
    let mut r: Vec<char> = Vec::new();
    let mut i: usize = 0;
    let n = v.len();
    while i < n
        invariant
            i <= n,
            norm_from(v@, 0) == r@ + norm_from(v@, i as int),
        decreases n - i,
    {
        if v[i] == '\r' && i + 1 < n && v[i + 1] == '\n' {
            r.push('\n');
            i = i + 2;
        } else {
            r.push(v[i]);
            i = i + 1;
        }
        proof {
            assert(norm_from(v@, 0) =~= r@ + norm_from(v@, i as int));
        }
    }
    proof {
        assert(norm_from(v@, i as int) =~= Seq::<char>::empty());
        assert(norm_from(v@, 0) =~= r@);
    }
    r
}

impl Context {
    /// A context that resolves includes from the given table.
    pub fn new(files: Vec<(Vec<char>, Vec<char>)>) -> (r: Context)
        ensures
            r.files == files,
    {
        Context { files }
    }

    /// The content filed under `path`, if any.
    fn load(&self, path: &Vec<char>) -> (r: Option<Vec<char>>)
        ensures
            match r {
                Some(c) => lookup_file(self.files@, path@) == Some(c@),
                None => lookup_file(self.files@, path@) is None,
            },
    {
        let mut i: usize = 0;
        let n = self.files.len();
        proof {
            assert(self.files@.subrange(0, n as int) =~= self.files@);
        }
        while i < n
            invariant
                i <= n,
                n == self.files@.len(),
                lookup_file(self.files@, path@) == lookup_file(
                    self.files@.subrange(i as int, n as int),
                    path@,
                ),
            decreases n - i,
        {
            proof {
                assert(self.files@.subrange(i as int, n as int)[0] == self.files@[i as int]);
                assert(self.files@.subrange(i as int, n as int).drop_first()
                    =~= self.files@.subrange(i + 1, n as int));
            }
            if chars_eq(&self.files[i].0, path) {
                return Some(copy_chars(&self.files[i].1));
            }
            i = i + 1;
        }
        proof {
            assert(self.files@.subrange(n as int, n as int) =~= Seq::<
                (Vec<char>, Vec<char>),
            >::empty());
        }
        None
    }

    /// Expand every macro of the script: scan, parse, and splice each
    /// `%include`. The result matches the evaluation model exactly, and a
    /// failure reports exactly the first error the model finds.
    #[verifier::loop_isolation(false)]
    pub fn eval_program(&self, input: &Vec<char>) -> (r: Result<Vec<char>, MacroError>)
        ensures
            match r {
                Ok(v) => eval_model(self.files@, input@) == Some(v@),
                Err(e) => eval_model(self.files@, input@) is None && Some(err_of(e))
                    == eval_err_model(self.files@, input@),
            },
    {
        let (tokens, _scan_errors) = scan(input);
        let exprs = match parse(tokens) {
            Ok(e) => e,
            Err(_) => {
                return Err(MacroError::Parse);
            },
        };
        let ghost ev = exprs_of(exprs@, 0);
        proof {
            lemma_exprs_len(exprs@, 0);
        }
        let include_name = vec!['i', 'n', 'c', 'l', 'u', 'd', 'e'];
        let mut out: Vec<char> = Vec::new();
        let mut i: usize = 0;
        let n = exprs.len();
        while i < n
            invariant
                i <= n,
                n == exprs@.len(),
                ev == exprs_of(exprs@, 0),
                ev.len() == n,
                forall|k: int| 0 <= k < n ==> ev[k] == expr_of_pub(exprs@[k]),
                include_name@ =~= include_kw(),
                match splice(self.files@, ev, 0) {
                    Some(all) => splice(self.files@, ev, i as int) is Some && all == out@
                        + splice(self.files@, ev, i as int)->Some_0,
                    None => splice(self.files@, ev, i as int) is None,
                },
                splice_err(self.files@, ev, 0) == splice_err(self.files@, ev, i as int),
            decreases n - i,
        {
            proof {
                assert(ev[i as int] == expr_of_pub(exprs@[i as int]));
            }
            match &exprs[i] {
                Expr::ZztOop(t) => {
                    extend_chars(&mut out, t);
                    proof {
                        match splice(self.files@, ev, 0) {
                            Some(all) => {
                                assert(all =~= out@ + splice(
                                    self.files@,
                                    ev,
                                    i + 1,
                                )->Some_0);
                            },
                            None => {},
                        }
                        assert(splice_err(self.files@, ev, i as int) == splice_err(
                            self.files@,
                            ev,
                            i + 1,
                        ));
                    }
                },
                Expr::Macro(name, args) => {
                    proof {
                        lemma_exprs_len(args@, 0);
                    }
                    if !chars_eq(name, &include_name) {
                        proof {
                            assert(splice(self.files@, ev, i as int) is None);
                            assert(splice_err(self.files@, ev, i as int) == Some(
                                MacroErrView::UnknownMacro(name@),
                            ));
                        }
                        return Err(MacroError::UnknownMacro(copy_chars(name)));
                    }
                    if args.len() != 1 {
                        proof {
                            assert(splice(self.files@, ev, i as int) is None);
                            assert(splice_err(self.files@, ev, i as int) == Some(
                                MacroErrView::WrongArgCount,
                            ));
                        }
                        return Err(MacroError::WrongArgCount);
                    }
                    let path = match &args[0] {
                        Expr::Str(p) => p,
                        _ => {
                            proof {
                                assert(expr_of_pub(exprs@[i as int])->Macro_1[0]
                                    == expr_of_pub(args@[0]));
                                assert(splice(self.files@, ev, i as int) is None);
                                assert(splice_err(self.files@, ev, i as int) == Some(
                                    MacroErrView::BadArgument,
                                ));
                            }
                            return Err(MacroError::BadArgument);
                        },
                    };
                    proof {
                        assert(expr_of_pub(exprs@[i as int])->Macro_1[0] == expr_of_pub(
                            args@[0],
                        ));
                    }
                    let content = match self.load(path) {
                        Some(c) => c,
                        None => {
                            proof {
                                assert(splice(self.files@, ev, i as int) is None);
                                assert(splice_err(self.files@, ev, i as int) == Some(
                                    MacroErrView::MissingFile(path@),
                                ));
                            }
                            return Err(MacroError::MissingFile(copy_chars(path)));
                        },
                    };
                    let mut cn = normalize_content(&content);
                    let mut do_pop = false;
                    if cn.len() > 0 {
                        if cn[cn.len() - 1] == '\n' {
                            do_pop = true;
                        }
                    }
                    if do_pop {
                        cn.pop();
                    }
                    proof {
                        assert(cn@ =~= strip_nl(norm_from(content@, 0)));
                    }
                    extend_chars(&mut out, &cn);
                    proof {
                        match splice(self.files@, ev, 0) {
                            Some(all) => {
                                assert(all =~= out@ + splice(
                                    self.files@,
                                    ev,
                                    i + 1,
                                )->Some_0);
                            },
                            None => {},
                        }
                        assert(splice_err(self.files@, ev, i as int) == splice_err(
                            self.files@,
                            ev,
                            i + 1,
                        ));
                    }
                },
                Expr::Str(_) => {
                    proof {
                        assert(splice(self.files@, ev, i as int) is None);
                        assert(splice_err(self.files@, ev, i as int) == Some(
                            MacroErrView::BadArgument,
                        ));
                    }
                    return Err(MacroError::BadArgument);
                },
            }
            i = i + 1;
        }
        proof {
            assert(splice(self.files@, ev, i as int) == Some(Seq::<char>::empty()));
            match splice(self.files@, ev, 0) {
                Some(all) => {
                    assert(all =~= out@);
                },
                None => {},
            }
        }
        Ok(out)
    }
}

} // verus!
