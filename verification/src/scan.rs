//! Scanner for the macro preprocessor: splits a script into raw text
//! runs, newlines, and `%` directives with identifiers and quoted strings.
//! Backslash escapes hide the next character's meaning; an escaped
//! newline continues the line. The scanner is proved equal to the
//! recursive model below; errors are collected, never thrown.

use vstd::prelude::*;

use crate::text::chars_of;
use crate::resolve::dec_chars;

verus! {

/// One token of the macro sublanguage.
#[derive(Debug, PartialEq, Eq)]
pub enum Token {
    Identifier(Vec<char>),
    Newline,
    Percent,
    RawText(Vec<char>),
    Str(Vec<char>),
}

/// The mathematical value of a token.
pub enum TokView {
    Identifier(Seq<char>),
    Newline,
    Percent,
    RawText(Seq<char>),
    Str(Seq<char>),
}

pub open spec fn tok_of(t: Token) -> TokView {
    match t {
        Token::Identifier(v) => TokView::Identifier(v@),
        Token::Newline => TokView::Newline,
        Token::Percent => TokView::Percent,
        Token::RawText(v) => TokView::RawText(v@),
        Token::Str(v) => TokView::Str(v@),
    }
}

pub open spec fn toks_of(v: Seq<Token>) -> Seq<TokView> {
    v.map_values(|t: Token| tok_of(t))
}

/// What a scanning phase yields: tokens, an error count, and where the
/// next phase picks up.
pub struct ScanOut {
    pub toks: Seq<TokView>,
    pub errs: int,
    pub next: int,
}

pub open spec fn is_word_char(c: char) -> bool {
    ('0' <= c && c <= '9') || ('A' <= c && c <= 'Z') || ('a' <= c && c <= 'z') || c == '_'
}

pub open spec fn is_ident_head(c: char) -> bool {
    ('A' <= c && c <= 'Z') || ('a' <= c && c <= 'z') || c == '_'
}

/// The characters of a raw-text run starting at `i`, and where it ends:
/// it runs to the newline or the end, an escaped newline is dropped, any
/// other escaped character stands for itself, and a trailing lone
/// backslash stands for itself.
pub open spec fn raw_from(s: Seq<char>, i: int) -> (Seq<char>, int)
    decreases (if i < s.len() { s.len() - i } else { 0 }),
{
    if i < 0 || i >= s.len() || s[i] == '\n' {
        (Seq::empty(), i)
    } else if s[i] == '\\' {
        if i + 1 < s.len() {
            let (rest, j) = raw_from(s, i + 2);
            if s[i + 1] == '\n' {
                (rest, j)
            } else {
                (seq![s[i + 1]] + rest, j)
            }
        } else {
            (seq!['\\'], i + 1)
        }
    } else {
        let (rest, j) = raw_from(s, i + 1);
        (seq![s[i]] + rest, j)
    }
}

/// The characters of an identifier starting at `i`, and where it ends.
pub open spec fn ident_from(s: Seq<char>, i: int) -> (Seq<char>, int)
    decreases (if i < s.len() { s.len() - i } else { 0 }),
{
    if i < 0 || i >= s.len() || !is_word_char(s[i]) {
        (Seq::empty(), i)
    } else {
        let (rest, j) = ident_from(s, i + 1);
        (seq![s[i]] + rest, j)
    }
}

/// The content of a quoted string whose opening quote is already
/// consumed, where scanning continues, and whether the string was left
/// unterminated (one error).
pub open spec fn string_from(s: Seq<char>, i: int) -> (Seq<char>, int, int)
    decreases (if i < s.len() { s.len() - i } else { 0 }),
{
    if i < 0 || i >= s.len() {
        (Seq::empty(), i, 1)
    } else if s[i] == '"' {
        (Seq::empty(), i + 1, 0)
    } else if s[i] == '\\' {
        if i + 1 < s.len() {
            let (rest, j, e) = string_from(s, i + 2);
            if s[i + 1] == '\n' {
                (rest, j, e)
            } else {
                (seq![s[i + 1]] + rest, j, e)
            }
        } else {
            (seq!['\\'], i + 1, 1)
        }
    } else {
        let (rest, j, e) = string_from(s, i + 1);
        (seq![s[i]] + rest, j, e)
    }
}

/// The tokens of a `%` directive's tail: spaces are skipped, strings and
/// identifiers become tokens, any other character is one error, and the
/// newline or end stops the directive.
pub open spec fn macro_from(s: Seq<char>, i: int) -> ScanOut
    decreases (if i < s.len() { s.len() - i } else { 0 }), 1int,
{
    if i < 0 || i >= s.len() || s[i] == '\n' {
        ScanOut { toks: Seq::empty(), errs: 0, next: i }
    } else if s[i] == ' ' {
        macro_from(s, i + 1)
    } else if s[i] == '"' {
        let (content, j, e) = string_from(s, i + 1);
        if j > i {
            let rest = macro_from(s, j);
            ScanOut {
                toks: seq![TokView::Str(content)] + rest.toks,
                errs: e + rest.errs,
                next: rest.next,
            }
        } else {
            ScanOut { toks: seq![TokView::Str(content)], errs: e, next: j }
        }
    } else if is_ident_head(s[i]) {
        let (word, j) = ident_from(s, i);
        if j > i {
            let rest = macro_from(s, j);
            ScanOut {
                toks: seq![TokView::Identifier(word)] + rest.toks,
                errs: rest.errs,
                next: rest.next,
            }
        } else {
            ScanOut { toks: seq![TokView::Identifier(word)], errs: 0, next: j }
        }
    } else {
        let rest = macro_from(s, i + 1);
        ScanOut { toks: rest.toks, errs: 1 + rest.errs, next: rest.next }
    }
}

/// The whole scan: newlines, `%` directives and raw-text runs.
pub open spec fn scan_from(s: Seq<char>, i: int) -> ScanOut
    decreases (if i < s.len() { s.len() - i } else { 0 }), 2int,
{
    if i < 0 || i >= s.len() {
        ScanOut { toks: Seq::empty(), errs: 0, next: i }
    } else if s[i] == '\n' {
        let rest = scan_from(s, i + 1);
        ScanOut { toks: seq![TokView::Newline] + rest.toks, errs: rest.errs, next: rest.next }
    } else if s[i] == '%' {
        let m = macro_from(s, i + 1);
        if m.next > i && m.next <= s.len() {
            let rest = scan_from(s, m.next);
            ScanOut {
                toks: seq![TokView::Percent] + m.toks + rest.toks,
                errs: m.errs + rest.errs,
                next: rest.next,
            }
        } else {
            ScanOut { toks: seq![TokView::Percent] + m.toks, errs: m.errs, next: m.next }
        }
    } else {
        let (text, j) = raw_from(s, i);
        if j > i && j <= s.len() {
            let rest = scan_from(s, j);
            ScanOut {
                toks: seq![TokView::RawText(text)] + rest.toks,
                errs: rest.errs,
                next: rest.next,
            }
        } else {
            ScanOut { toks: seq![TokView::RawText(text)], errs: 0, next: j }
        }
    }
}

/// The text of the error an unexpected character in a directive
/// produces, naming the character and its offset.
pub open spec fn unexpected_err(c: char, off: int) -> Seq<char> {
    ("Unexpected character ")@ + seq![c] + (" at offset ")@ + crate::resolve::dec_digits(off)
}

/// The views of collected error texts.
pub open spec fn errs_view(v: Seq<Vec<char>>) -> Seq<Seq<char>> {
    v.map_values(|x: Vec<char>| x@)
}

/// The error texts of a `%` directive's tail, in scan order.
pub open spec fn macro_errs(s: Seq<char>, i: int) -> Seq<Seq<char>>
    decreases (if i < s.len() { s.len() - i } else { 0 }), 1int,
{
    if i < 0 || i >= s.len() || s[i] == '\n' {
        Seq::empty()
    } else if s[i] == ' ' {
        macro_errs(s, i + 1)
    } else if s[i] == '"' {
        let (content, j, e) = string_from(s, i + 1);
        (if e == 1 {
            seq![("string not terminated")@]
        } else {
            Seq::empty()
        }) + (if j > i {
            macro_errs(s, j)
        } else {
            Seq::empty()
        })
    } else if is_ident_head(s[i]) {
        let (word, j) = ident_from(s, i);
        if j > i {
            macro_errs(s, j)
        } else {
            Seq::empty()
        }
    } else {
        seq![unexpected_err(s[i], i)] + macro_errs(s, i + 1)
    }
}

/// The error texts of the whole scan, in scan order.
pub open spec fn scan_errs(s: Seq<char>, i: int) -> Seq<Seq<char>>
    decreases (if i < s.len() { s.len() - i } else { 0 }), 2int,
{
    if i < 0 || i >= s.len() {
        Seq::empty()
    } else if s[i] == '\n' {
        scan_errs(s, i + 1)
    } else if s[i] == '%' {
        let m = macro_from(s, i + 1);
        macro_errs(s, i + 1) + (if m.next > i && m.next <= s.len() {
            scan_errs(s, m.next)
        } else {
            Seq::empty()
        })
    } else {
        let (text, j) = raw_from(s, i);
        if j > i && j <= s.len() {
            scan_errs(s, j)
        } else {
            Seq::empty()
        }
    }
}

/// Appending an error appends its view.
proof fn lemma_errs_snoc(v: Seq<Vec<char>>, x: Vec<char>)
    requires
        v.len() > 0,
        v.last() == x,
    ensures
        errs_view(v) =~= errs_view(v.drop_last()).push(x@),
{
}

/// The scanner model's phases never move backward, and never past the
/// end.
proof fn lemma_scan_bounds(s: Seq<char>, i: int)
    requires
        0 <= i <= s.len(),
    ensures
        i <= raw_from(s, i).1 <= s.len(),
        i <= ident_from(s, i).1 <= s.len(),
        i <= string_from(s, i).1 <= s.len() || (i >= s.len() && string_from(s, i).1 == i),
    decreases s.len() - i,
{
    if i < s.len() {
        lemma_scan_bounds(s, i + 1);
        if i + 2 <= s.len() {
            lemma_scan_bounds(s, i + 2);
        }
    }
}

/// A macro phase never moves backward, and never past the end.
proof fn lemma_macro_bounds(s: Seq<char>, i: int)
    requires
        0 <= i <= s.len(),
    ensures
        i <= macro_from(s, i).next <= s.len(),
    decreases (if i < s.len() { s.len() - i } else { 0 }), 1int,
{
    if i < s.len() && s[i] != '\n' {
        if s[i] == ' ' {
            lemma_macro_bounds(s, i + 1);
        } else if s[i] == '"' {
            lemma_scan_bounds(s, i + 1);
            let (content, j, e) = string_from(s, i + 1);
            if j > i {
                lemma_macro_bounds(s, j);
            }
        } else if is_ident_head(s[i]) {
            lemma_scan_bounds(s, i);
            let (word, j) = ident_from(s, i);
            if j > i {
                lemma_macro_bounds(s, j);
            }
        } else {
            lemma_macro_bounds(s, i + 1);
        }
    }
}

/// A raw-text run consumes at least one character.
proof fn lemma_raw_strict(s: Seq<char>, i: int)
    requires
        0 <= i < s.len(),
        s[i] != '\n',
    ensures
        i < raw_from(s, i).1 <= s.len(),
{
    lemma_scan_bounds(s, i);
    if s[i] == '\\' {
        if i + 1 < s.len() {
            lemma_scan_bounds(s, i + 2);
        }
    } else {
        lemma_scan_bounds(s, i + 1);
    }
}

/// An identifier consumes at least one character.
proof fn lemma_ident_strict(s: Seq<char>, i: int)
    requires
        0 <= i < s.len(),
        is_word_char(s[i]),
    ensures
        i < ident_from(s, i).1 <= s.len(),
{
    lemma_scan_bounds(s, i);
    lemma_scan_bounds(s, i + 1);
}

// The executable scanner, proved equal to the model.

/// Scan a raw-text run beginning at `*pos`.
#[verifier::loop_isolation(false)]
fn scan_raw(chars: &Vec<char>, pos: &mut usize) -> (out: Vec<char>)
    requires
        *old(pos) <= chars@.len(),
    ensures
        *old(pos) <= *final(pos) <= chars@.len(),
        (out@, *final(pos) as int) == raw_from(chars@, *old(pos) as int),
{
    let mut out: Vec<char> = Vec::new();
    let ghost s = chars@;
    let ghost i0 = *old(pos) as int;
    while *pos < chars.len() && chars[*pos] != '\n'
        invariant
            *old(pos) <= *pos <= chars@.len(),
            raw_from(s, i0).0 == out@ + raw_from(s, *pos as int).0,
            raw_from(s, i0).1 == raw_from(s, *pos as int).1,
        decreases chars@.len() - *pos,
    {
        let c = chars[*pos];
        if c == '\\' {
            if *pos + 1 < chars.len() {
                let e = chars[*pos + 1];
                *pos = *pos + 2;
                if e != '\n' {
                    out.push(e);
                    proof {
                        assert(raw_from(s, i0).0 =~= out@ + raw_from(s, *pos as int).0);
                    }
                }
            } else {
                out.push('\\');
                *pos = *pos + 1;
                proof {
                    assert(raw_from(s, i0).0 =~= out@ + raw_from(s, *pos as int).0);
                    assert(raw_from(s, *pos as int).0 =~= Seq::<char>::empty());
                }
            }
        } else {
            out.push(c);
            *pos = *pos + 1;
            proof {
                assert(raw_from(s, i0).0 =~= out@ + raw_from(s, *pos as int).0);
            }
        }
    }
    proof {
        assert(raw_from(s, *pos as int).0 =~= Seq::<char>::empty());
        assert(raw_from(s, i0).0 =~= out@);
    }
    out
}

/// Scan an identifier beginning at `*pos`.
#[verifier::loop_isolation(false)]
fn scan_ident(chars: &Vec<char>, pos: &mut usize) -> (out: Vec<char>)
    requires
        *old(pos) <= chars@.len(),
    ensures
        *old(pos) <= *final(pos) <= chars@.len(),
        (out@, *final(pos) as int) == ident_from(chars@, *old(pos) as int),
{
    let mut out: Vec<char> = Vec::new();
    let ghost s = chars@;
    let ghost i0 = *old(pos) as int;
    while *pos < chars.len() && (('0' <= chars[*pos] && chars[*pos] <= '9') || ('A' <= chars[*pos]
        && chars[*pos] <= 'Z') || ('a' <= chars[*pos] && chars[*pos] <= 'z') || chars[*pos] == '_')
        invariant
            *old(pos) <= *pos <= chars@.len(),
            ident_from(s, i0).0 == out@ + ident_from(s, *pos as int).0,
            ident_from(s, i0).1 == ident_from(s, *pos as int).1,
        decreases chars@.len() - *pos,
    {
        out.push(chars[*pos]);
        *pos = *pos + 1;
        proof {
            assert(ident_from(s, i0).0 =~= out@ + ident_from(s, *pos as int).0);
        }
    }
    proof {
        assert(ident_from(s, *pos as int).0 =~= Seq::<char>::empty());
        assert(ident_from(s, i0).0 =~= out@);
    }
    out
}

/// Scan a quoted string's content; the opening quote is consumed already.
/// Returns the content and whether the string was terminated.
#[verifier::loop_isolation(false)]
fn scan_string(chars: &Vec<char>, pos: &mut usize) -> (out: (Vec<char>, bool))
    requires
        *old(pos) <= chars@.len(),
    ensures
        *old(pos) <= *final(pos) <= chars@.len(),
        (out.0@, *final(pos) as int, (if out.1 {
            0int
        } else {
            1int
        })) == string_from(chars@, *old(pos) as int),
{
    let mut out: Vec<char> = Vec::new();
    let ghost s = chars@;
    let ghost i0 = *old(pos) as int;
    while *pos < chars.len() && chars[*pos] != '"'
        invariant
            *old(pos) <= *pos <= chars@.len(),
            string_from(s, i0).0 == out@ + string_from(s, *pos as int).0,
            string_from(s, i0).1 == string_from(s, *pos as int).1,
            string_from(s, i0).2 == string_from(s, *pos as int).2,
        decreases chars@.len() - *pos,
    {
        let c = chars[*pos];
        if c == '\\' {
            if *pos + 1 < chars.len() {
                let e = chars[*pos + 1];
                *pos = *pos + 2;
                if e != '\n' {
                    out.push(e);
                    proof {
                        assert(string_from(s, i0).0 =~= out@ + string_from(s, *pos as int).0);
                    }
                }
            } else {
                out.push('\\');
                *pos = *pos + 1;
                proof {
                    assert(string_from(s, i0).0 =~= out@ + string_from(s, *pos as int).0);
                    assert(string_from(s, *pos as int).0 =~= Seq::<char>::empty());
                }
                return (out, false);
            }
        } else {
            out.push(c);
            *pos = *pos + 1;
            proof {
                assert(string_from(s, i0).0 =~= out@ + string_from(s, *pos as int).0);
            }
        }
    }
    if *pos < chars.len() {
        *pos = *pos + 1;
        proof {
            assert(string_from(s, i0).0 =~= out@);
        }
        (out, true)
    } else {
        proof {
            assert(string_from(s, *pos as int).0 =~= Seq::<char>::empty());
            assert(string_from(s, i0).0 =~= out@);
        }
        (out, false)
    }
}

/// The text of one scan error: an unterminated string, or an unexpected
/// character named together with its offset.
pub open spec fn scan_err_shape(m: Seq<char>) -> bool {
    ||| m == ("string not terminated")@
    ||| exists|c: char, off: int|
        0 <= off && m == ("Unexpected character ")@ + seq![c] + (" at offset ")@
            + crate::resolve::dec_digits(off)
}

/// Split a script into macro tokens, collecting scan errors. The token
/// list, the number of errors and every collected error text match the
/// recursive model exactly.
#[verifier::loop_isolation(false)]
pub fn scan(input: &Vec<char>) -> (r: (Vec<Token>, Vec<Vec<char>>))
    ensures
        toks_of(r.0@) == scan_from(input@, 0).toks,
        r.1@.len() == scan_from(input@, 0).errs,
        errs_view(r.1@) == scan_errs(input@, 0),
        forall|k: int| 0 <= k < r.1@.len() ==> scan_err_shape((#[trigger] r.1@[k])@),
{
    let ghost s = input@;
    let mut toks: Vec<Token> = Vec::new();
    let mut errs: Vec<Vec<char>> = Vec::new();
    let mut pos: usize = 0;
    let mut in_macro = false;
    while pos < input.len()
        invariant
            pos <= input@.len(),
            !in_macro ==> {
                &&& scan_from(s, 0).toks == toks_of(toks@) + scan_from(s, pos as int).toks
                &&& scan_from(s, 0).errs == errs@.len() + scan_from(s, pos as int).errs
                &&& scan_errs(s, 0) == errs_view(errs@) + scan_errs(s, pos as int)
            },
            in_macro ==> {
                let m = macro_from(s, pos as int);
                &&& scan_from(s, 0).toks == toks_of(toks@) + m.toks + scan_from(s, m.next).toks
                &&& scan_from(s, 0).errs == errs@.len() + m.errs + scan_from(s, m.next).errs
                &&& scan_errs(s, 0) == errs_view(errs@) + macro_errs(s, pos as int) + scan_errs(
                    s,
                    m.next,
                )
            },
            forall|k: int| 0 <= k < errs@.len() ==> scan_err_shape((#[trigger] errs@[k])@),
        decreases 2 * (input@.len() - pos) + (if in_macro { 1int } else { 0int }),
    {
        let c = input[pos];
        if !in_macro {
            if c == '\n' {
                toks.push(Token::Newline);
                pos = pos + 1;
                proof {
                    lemma_toks_snoc(toks@, TokView::Newline);
                    assert(scan_from(s, 0).toks =~= toks_of(toks@) + scan_from(
                        s,
                        pos as int,
                    ).toks);
                    assert(scan_errs(s, 0) =~= errs_view(errs@) + scan_errs(s, pos as int));
                }
            } else if c == '%' {
                toks.push(Token::Percent);
                pos = pos + 1;
                in_macro = true;
                proof {
                    lemma_toks_snoc(toks@, TokView::Percent);
                    lemma_macro_bounds(s, pos as int);
                    let m = macro_from(s, pos as int);
                    if m.next > pos as int - 1 && m.next <= s.len() {
                    }
                    if m.next == s.len() {
                        assert(scan_from(s, m.next).toks =~= Seq::<TokView>::empty());
                        assert(scan_from(s, m.next).errs == 0);
                    }
                    assert(scan_from(s, 0).toks =~= toks_of(toks@) + m.toks + scan_from(
                        s,
                        m.next,
                    ).toks);
                    if m.next == s.len() {
                        assert(scan_errs(s, m.next) =~= Seq::<Seq<char>>::empty());
                    }
                    assert(scan_errs(s, 0) =~= errs_view(errs@) + macro_errs(s, pos as int)
                        + scan_errs(s, m.next));
                }
            } else {
                let ghost p0 = pos as int;
                let text = scan_raw(input, &mut pos);
                toks.push(Token::RawText(text));
                proof {
                    lemma_raw_strict(s, p0);
                    lemma_toks_snoc(toks@, TokView::RawText(raw_from(s, p0).0));
                    if raw_from(s, p0).1 == s.len() {
                        assert(scan_from(s, pos as int).toks =~= Seq::<TokView>::empty());
                        assert(scan_from(s, pos as int).errs == 0);
                        assert(scan_errs(s, pos as int) =~= Seq::<Seq<char>>::empty());
                    }
                    assert(scan_from(s, 0).toks =~= toks_of(toks@) + scan_from(
                        s,
                        pos as int,
                    ).toks);
                    assert(scan_errs(s, 0) =~= errs_view(errs@) + scan_errs(s, pos as int));
                }
            }
        } else {
            proof {
                lemma_macro_bounds(s, pos as int);
            }
            if c == '\n' {
                in_macro = false;
                proof {
                    assert(macro_from(s, pos as int).toks =~= Seq::<TokView>::empty());
                    assert(macro_errs(s, pos as int) =~= Seq::<Seq<char>>::empty());
                    assert(scan_from(s, 0).toks =~= toks_of(toks@) + scan_from(
                        s,
                        pos as int,
                    ).toks);
                    assert(scan_errs(s, 0) =~= errs_view(errs@) + scan_errs(s, pos as int));
                }
            } else if c == ' ' {
                pos = pos + 1;
            } else if c == '"' {
                pos = pos + 1;
                let ghost p0 = pos as int;
                let ghost errs_pre = errs@;
                let (content, terminated) = scan_string(input, &mut pos);
                toks.push(Token::Str(content));
                if !terminated {
                    errs.push(chars_of("string not terminated"));
                    proof {
                        lemma_errs_snoc(errs@, errs@.last());
                    }
                }
                proof {
                    lemma_scan_bounds(s, p0);
                    lemma_macro_bounds(s, pos as int);
                    lemma_toks_snoc(toks@, TokView::Str(string_from(s, p0).0));
                    let m = macro_from(s, pos as int);
                    assert(macro_from(s, p0 - 1).toks =~= seq![
                        TokView::Str(string_from(s, p0).0),
                    ] + m.toks);
                    assert(scan_from(s, 0).toks =~= toks_of(toks@) + m.toks + scan_from(
                        s,
                        m.next,
                    ).toks);
                    if !terminated {
                        assert(errs_view(errs@) =~= errs_view(errs_pre).push((
                        "string not terminated")@));
                        assert(macro_errs(s, p0 - 1) =~= seq![("string not terminated")@]
                            + macro_errs(s, pos as int));
                    } else {
                        assert(macro_errs(s, p0 - 1) =~= macro_errs(s, pos as int));
                    }
                    assert(scan_errs(s, 0) =~= errs_view(errs@) + macro_errs(s, pos as int)
                        + scan_errs(s, m.next));
                }
            } else if ('A' <= c && c <= 'Z') || ('a' <= c && c <= 'z') || c == '_' {
                let ghost p0 = pos as int;
                let word = scan_ident(input, &mut pos);
                toks.push(Token::Identifier(word));
                proof {
                    lemma_ident_strict(s, p0);
                    lemma_macro_bounds(s, pos as int);
                    lemma_toks_snoc(toks@, TokView::Identifier(ident_from(s, p0).0));
                    let m = macro_from(s, pos as int);
                    assert(macro_from(s, p0).toks =~= seq![
                        TokView::Identifier(ident_from(s, p0).0),
                    ] + m.toks);
                    assert(scan_from(s, 0).toks =~= toks_of(toks@) + m.toks + scan_from(
                        s,
                        m.next,
                    ).toks);
                    assert(macro_errs(s, p0) =~= macro_errs(s, pos as int));
                    assert(scan_errs(s, 0) =~= errs_view(errs@) + macro_errs(s, pos as int)
                        + scan_errs(s, m.next));
                }
            } else {
                let mut msg = chars_of("Unexpected character ");
                msg.push(c);
                crate::text::extend_chars(&mut msg, &chars_of(" at offset "));
                crate::text::extend_chars(&mut msg, &dec_chars(pos));
                proof {
                    assert(msg@ =~= ("Unexpected character ")@ + seq![c] + (" at offset ")@
                        + crate::resolve::dec_digits(pos as int));
                }
                let ghost errs_pre = errs@;
                let ghost p_u = pos as int;
                errs.push(msg);
                pos = pos + 1;
                proof {
                    lemma_macro_bounds(s, pos as int);
                    lemma_errs_snoc(errs@, errs@.last());
                    assert(errs_view(errs@) =~= errs_view(errs_pre).push(unexpected_err(
                        s[p_u],
                        p_u,
                    )));
                    assert(macro_errs(s, p_u) =~= seq![unexpected_err(s[p_u], p_u)]
                        + macro_errs(s, pos as int));
                    assert(scan_errs(s, 0) =~= errs_view(errs@) + macro_errs(s, pos as int)
                        + scan_errs(s, macro_from(s, pos as int).next));
                }
            }
        }
    }
    proof {
        if in_macro {
            assert(macro_from(s, pos as int).toks =~= Seq::<TokView>::empty());
            assert(macro_from(s, pos as int).errs == 0);
            assert(macro_from(s, pos as int).next == pos as int);
            assert(macro_errs(s, pos as int) =~= Seq::<Seq<char>>::empty());
            assert(scan_from(s, pos as int).toks =~= Seq::<TokView>::empty());
            assert(scan_errs(s, pos as int) =~= Seq::<Seq<char>>::empty());
        } else {
            assert(scan_from(s, pos as int).toks =~= Seq::<TokView>::empty());
            assert(scan_from(s, pos as int).errs == 0);
            assert(scan_errs(s, pos as int) =~= Seq::<Seq<char>>::empty());
        }
        assert(scan_from(s, 0).toks =~= toks_of(toks@));
        assert(scan_errs(s, 0) =~= errs_view(errs@));
    }
    (toks, errs)
}

proof fn lemma_toks_snoc(v: Seq<Token>, t: TokView)
    requires
        v.len() > 0,
        tok_of(v.last()) == t,
    ensures
        toks_of(v) =~= toks_of(v.drop_last()).push(t),
{
}

} // verus!
