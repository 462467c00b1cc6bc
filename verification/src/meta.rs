//! Parser for the grammar meta-language: `name = expression ;` rule
//! declarations over literals, character ranges, rule calls, sequences,
//! ordered choices, repetition suffixes, lookaheads and captures, with an
//! `@icase` decorator that folds ASCII case below a rule. The result is a
//! grammar value for the interpreter, with rule calls and capture tags
//! resolved to table indices.

use vstd::prelude::*;

use crate::ir::Term;
use crate::text::chars_eq;

verus! {

/// A grammar parsed from the meta-language: one term per rule, with the
/// rule and capture-tag names it was written with.
pub struct MetaGrammar {
    /// Rule names, in order of first mention.
    pub names: Vec<Vec<char>>,
    /// Rule bodies; `Term::Rule(i)` calls `rules[i]`.
    pub rules: Vec<Term<u32>>,
    /// Capture tag names; a capture record's kind indexes this table.
    pub tags: Vec<Vec<char>>,
}

/// Rule names seen so far, each with its body once its declaration has
/// been parsed.
struct RuleTable {
    names: Vec<Vec<char>>,
    bodies: Vec<Term<u32>>,
    defined: Vec<bool>,
}

impl RuleTable {
    spec fn wf(self) -> bool {
        self.names@.len() == self.bodies@.len() && self.names@.len() == self.defined@.len()
    }

    /// Index of `name`, adding an undefined placeholder entry if new.
    fn intern(&mut self, name: &Vec<char>) -> (i: usize)
        requires
            old(self).wf(),
        ensures
            final(self).wf(),
            i < final(self).names@.len(),
            final(self).names@.len() >= old(self).names@.len(),
    {
        let mut i: usize = 0;
        while i < self.names.len()
            invariant
                self.wf(),
                i <= self.names@.len(),
            decreases self.names@.len() - i,
        {
            if chars_eq(&self.names[i], name) {
                return i;
            }
            i = i + 1;
        }
        let mut copy: Vec<char> = Vec::new();
        let mut k: usize = 0;
        while k < name.len()
            invariant
                k <= name@.len(),
            decreases name@.len() - k,
        {
            copy.push(name[k]);
            k = k + 1;
        }
        self.names.push(copy);
        self.bodies.push(Term::AnyChar);
        self.defined.push(false);
        self.names.len() - 1
    }
}

/// Index of `name` in the tag table, adding it if new.
fn intern_tag(tags: &mut Vec<Vec<char>>, name: &Vec<char>) -> (i: usize)
    ensures
        i < final(tags)@.len(),
        final(tags)@.len() >= old(tags)@.len(),
{
    let mut i: usize = 0;
    while i < tags.len()
        invariant
            i <= tags@.len(),
        decreases tags@.len() - i,
    {
        if chars_eq(&tags[i], name) {
            return i;
        }
        i = i + 1;
    }
    let mut copy: Vec<char> = Vec::new();
    let mut k: usize = 0;
    while k < name.len()
        invariant
            k <= name@.len(),
        decreases name@.len() - k,
    {
        copy.push(name[k]);
        k = k + 1;
    }
    tags.push(copy);
    tags.len() - 1
}

/// Skip spaces, tabs, newlines and `//` line comments.
fn skip_ws(chars: &Vec<char>, pos: &mut usize)
    requires
        *old(pos) <= chars@.len(),
    ensures
        *old(pos) <= *final(pos) <= chars@.len(),
{
    while *pos < chars.len()
        invariant
            *old(pos) <= *pos <= chars@.len(),
        decreases chars@.len() - *pos,
    {
        let c = chars[*pos];
        if c == ' ' || c == '\t' || c == '\n' || c == '\r' {
            *pos = *pos + 1;
        } else if c == '/' && *pos + 1 < chars.len() && chars[*pos + 1] == '/' {
            let snap = *pos;
            *pos = *pos + 2;
            while *pos < chars.len() && chars[*pos] != '\n'
                invariant
                    snap < *pos <= chars@.len(),
                decreases chars@.len() - *pos,
            {
                *pos = *pos + 1;
            }
        } else {
            return ;
        }
    }
}

fn is_ident_start(c: char) -> (r: bool)
    ensures
        r == (('a' <= c && c <= 'z') || ('A' <= c && c <= 'Z') || c == '_'),
{
    ('a' <= c && c <= 'z') || ('A' <= c && c <= 'Z') || c == '_'
}

fn is_ident_part(c: char) -> (r: bool)
    ensures
        r == (('a' <= c && c <= 'z') || ('A' <= c && c <= 'Z') || ('0' <= c && c <= '9') || c
            == '_'),
{
    ('a' <= c && c <= 'z') || ('A' <= c && c <= 'Z') || ('0' <= c && c <= '9') || c == '_'
}

/// Read an identifier at the cursor, if one starts there.
fn parse_ident(chars: &Vec<char>, pos: &mut usize) -> (r: Option<Vec<char>>)
    requires
        *old(pos) <= chars@.len(),
    ensures
        *old(pos) <= *final(pos) <= chars@.len(),
        r is Some ==> *old(pos) < *final(pos),
{
    if *pos >= chars.len() || !is_ident_start(chars[*pos]) {
        return None;
    }
    let mut out: Vec<char> = Vec::new();
    out.push(chars[*pos]);
    *pos = *pos + 1;
    while *pos < chars.len() && is_ident_part(chars[*pos])
        invariant
            *old(pos) < *pos <= chars@.len(),
        decreases chars@.len() - *pos,
    {
        out.push(chars[*pos]);
        *pos = *pos + 1;
    }
    Some(out)
}

/// Decode one (possibly escaped) character of a literal. Returns the
/// character and whether the decode succeeded.
fn parse_lit_char(chars: &Vec<char>, pos: &mut usize) -> (r: Option<char>)
    requires
        *old(pos) <= chars@.len(),
    ensures
        *old(pos) <= *final(pos) <= chars@.len(),
        r is Some ==> *old(pos) < *final(pos),
{
    if *pos >= chars.len() {
        return None;
    }
    let c = chars[*pos];
    if c == '\\' {
        if *pos + 1 >= chars.len() {
            return None;
        }
        let e = chars[*pos + 1];
        *pos = *pos + 2;
        if e == 'n' {
            Some('\n')
        } else if e == 'r' {
            Some('\r')
        } else if e == 't' {
            Some('\t')
        } else if e == '\\' {
            Some('\\')
        } else if e == '"' {
            Some('"')
        } else if e == '\'' {
            Some('\'')
        } else if e == '0' {
            Some('\0')
        } else {
            None
        }
    } else {
        *pos = *pos + 1;
        Some(c)
    }
}

/// Parse an atom of the meta-language: `ANY`, `EOI`, a rule name, a string
/// literal, a character range, or a parenthesised choice.
#[verifier::loop_isolation(false)]
fn parse_atom(
    chars: &Vec<char>,
    pos: &mut usize,
    table: &mut RuleTable,
    tags: &mut Vec<Vec<char>>,
) -> (r: Option<Term<u32>>)
    requires
        *old(pos) <= chars@.len(),
        old(table).wf(),
    ensures
        *old(pos) <= *final(pos) <= chars@.len(),
        final(table).wf(),
        r is Some ==> *old(pos) < *final(pos),
    decreases chars@.len() - *old(pos), 4int,
{
    skip_ws(chars, pos);
    if *pos >= chars.len() {
        return None;
    }
    let c = chars[*pos];
    if is_ident_start(c) {
        let name = match parse_ident(chars, pos) {
            Some(n) => n,
            None => {
                return None;
            },
        };
        let any = vec!['A', 'N', 'Y'];
        let eoi = vec!['E', 'O', 'I'];
        if chars_eq(&name, &any) {
            return Some(Term::AnyChar);
        }
        if chars_eq(&name, &eoi) {
            return Some(Term::EndOfInput);
        }
        let idx = table.intern(&name);
        return Some(Term::Rule(idx));
    }
    if c == '"' {
        *pos = *pos + 1;
        let mut lit: Vec<char> = Vec::new();
        while *pos < chars.len() && chars[*pos] != '"'
            invariant
                *old(pos) < *pos <= chars@.len(),
            decreases chars@.len() - *pos,
        {
            match parse_lit_char(chars, pos) {
                Some(l) => lit.push(l),
                None => {
                    return None;
                },
            }
        }
        if *pos >= chars.len() {
            return None;
        }
        *pos = *pos + 1;
        let mut icase = false;
        if *pos < chars.len() && chars[*pos] == 'i' {
            icase = true;
            *pos = *pos + 1;
        }
        return Some(Term::Literal(lit, icase));
    }
    if c == '\'' {
        *pos = *pos + 1;
        let lo = match parse_lit_char(chars, pos) {
            Some(l) => l,
            None => {
                return None;
            },
        };
        if *pos >= chars.len() || chars[*pos] != '\'' {
            return None;
        }
        *pos = *pos + 1;
        if *pos >= chars.len() || *pos + 1 >= chars.len() || chars[*pos] != '.' || chars[*pos
            + 1] != '.' {
            return None;
        }
        *pos = *pos + 2;
        if *pos >= chars.len() || chars[*pos] != '\'' {
            return None;
        }
        *pos = *pos + 1;
        let hi = match parse_lit_char(chars, pos) {
            Some(h) => h,
            None => {
                return None;
            },
        };
        if *pos >= chars.len() || chars[*pos] != '\'' {
            return None;
        }
        *pos = *pos + 1;
        let mut icase = false;
        if *pos < chars.len() && chars[*pos] == 'i' {
            icase = true;
            *pos = *pos + 1;
        }
        return Some(Term::Range(lo, hi, icase));
    }
    if c == '(' {
        *pos = *pos + 1;
        let inner = match parse_choice(chars, pos, table, tags) {
            Some(t) => t,
            None => {
                return None;
            },
        };
        skip_ws(chars, pos);
        if *pos >= chars.len() || chars[*pos] != ')' {
            return None;
        }
        *pos = *pos + 1;
        return Some(inner);
    }
    None
}

/// Parse an atom followed by any number of `?`, `*`, `+` suffixes.
#[verifier::loop_isolation(false)]
fn parse_repeat(
    chars: &Vec<char>,
    pos: &mut usize,
    table: &mut RuleTable,
    tags: &mut Vec<Vec<char>>,
) -> (r: Option<Term<u32>>)
    requires
        *old(pos) <= chars@.len(),
        old(table).wf(),
    ensures
        *old(pos) <= *final(pos) <= chars@.len(),
        final(table).wf(),
        r is Some ==> *old(pos) < *final(pos),
    decreases chars@.len() - *old(pos), 5int,
{
    let mut result = match parse_atom(chars, pos, table, tags) {
        Some(t) => t,
        None => {
            return None;
        },
    };
    while *pos < chars.len() && (chars[*pos] == '?' || chars[*pos] == '*' || chars[*pos] == '+')
        invariant
            *old(pos) < *pos <= chars@.len(),
            table.wf(),
        decreases chars@.len() - *pos,
    {
        let suffix = chars[*pos];
        *pos = *pos + 1;
        if suffix == '?' {
            result = Term::Optional(Box::new(result));
        } else if suffix == '*' {
            result = Term::Star(Box::new(result));
        } else {
            result = Term::Plus(Box::new(result));
        }
    }
    Some(result)
}

/// Parse a prefixed term: `!x`, `&x`, `#Tag:x`, or a plain repeat.
#[verifier::loop_isolation(false)]
fn parse_prefix(
    chars: &Vec<char>,
    pos: &mut usize,
    table: &mut RuleTable,
    tags: &mut Vec<Vec<char>>,
) -> (r: Option<Term<u32>>)
    requires
        *old(pos) <= chars@.len(),
        old(table).wf(),
    ensures
        *old(pos) <= *final(pos) <= chars@.len(),
        final(table).wf(),
        r is Some ==> *old(pos) < *final(pos),
    decreases chars@.len() - *old(pos), 6int,
{
    skip_ws(chars, pos);
    if *pos >= chars.len() {
        return None;
    }
    let c = chars[*pos];
    if c == '!' {
        *pos = *pos + 1;
        match parse_repeat(chars, pos, table, tags) {
            Some(t) => Some(Term::NegLookahead(Box::new(t))),
            None => None,
        }
    } else if c == '&' {
        *pos = *pos + 1;
        match parse_repeat(chars, pos, table, tags) {
            Some(t) => Some(Term::PosLookahead(Box::new(t))),
            None => None,
        }
    } else if c == '#' {
        *pos = *pos + 1;
        let tag_name = match parse_ident(chars, pos) {
            Some(n) => n,
            None => {
                return None;
            },
        };
        if *pos >= chars.len() || chars[*pos] != ':' {
            return None;
        }
        *pos = *pos + 1;
        let tag_idx = intern_tag(tags, &tag_name);
        if tag_idx >= 0xffff_ffff {
            return None;
        }
        match parse_repeat(chars, pos, table, tags) {
            Some(t) => Some(Term::Capture(tag_idx as u32, Box::new(t))),
            None => None,
        }
    } else {
        parse_repeat(chars, pos, table, tags)
    }
}

/// Parse a juxtaposed sequence of prefixed terms.
#[verifier::loop_isolation(false)]
fn parse_sequence(
    chars: &Vec<char>,
    pos: &mut usize,
    table: &mut RuleTable,
    tags: &mut Vec<Vec<char>>,
) -> (r: Option<Term<u32>>)
    requires
        *old(pos) <= chars@.len(),
        old(table).wf(),
    ensures
        *old(pos) <= *final(pos) <= chars@.len(),
        final(table).wf(),
        r is Some ==> *old(pos) < *final(pos),
    decreases chars@.len() - *old(pos), 7int,
{
    let first = match parse_prefix(chars, pos, table, tags) {
        Some(t) => t,
        None => {
            return None;
        },
    };
    let mut terms: Vec<Term<u32>> = Vec::new();
    terms.push(first);
    loop
        invariant
            *old(pos) < *pos <= chars@.len(),
            table.wf(),
            terms@.len() >= 1,
        decreases chars@.len() - *pos,
    {
        skip_ws(chars, pos);
        if *pos >= chars.len() {
            break ;
        }
        let c = chars[*pos];
        if c == '/' || c == ';' || c == ')' {
            break ;
        }
        match parse_prefix(chars, pos, table, tags) {
            Some(t) => terms.push(t),
            None => {
                return None;
            },
        }
    }
    if terms.len() == 1 {
        match terms.pop() {
            Some(t) => Some(t),
            None => None,
        }
    } else {
        Some(Term::Sequence(terms))
    }
}

/// Parse an ordered choice of sequences separated by `/`.
#[verifier::loop_isolation(false)]
fn parse_choice(
    chars: &Vec<char>,
    pos: &mut usize,
    table: &mut RuleTable,
    tags: &mut Vec<Vec<char>>,
) -> (r: Option<Term<u32>>)
    requires
        *old(pos) <= chars@.len(),
        old(table).wf(),
    ensures
        *old(pos) <= *final(pos) <= chars@.len(),
        final(table).wf(),
        r is Some ==> *old(pos) < *final(pos),
    decreases chars@.len() - *old(pos), 8int,
{
    let first = match parse_sequence(chars, pos, table, tags) {
        Some(t) => t,
        None => {
            return None;
        },
    };
    let mut terms: Vec<Term<u32>> = Vec::new();
    terms.push(first);
    loop
        invariant
            *old(pos) < *pos <= chars@.len(),
            table.wf(),
            terms@.len() >= 1,
        decreases chars@.len() - *pos,
    {
        skip_ws(chars, pos);
        if *pos >= chars.len() || chars[*pos] != '/' {
            break ;
        }
        *pos = *pos + 1;
        match parse_sequence(chars, pos, table, tags) {
            Some(t) => terms.push(t),
            None => {
                return None;
            },
        }
    }
    if terms.len() == 1 {
        match terms.pop() {
            Some(t) => Some(t),
            None => None,
        }
    } else {
        Some(Term::Choice(terms))
    }
}

/// What case-folding does to a term, at view level: every literal and
/// range gets its folding flag set; rule calls, `ANY` and `EOI` are
/// unaffected.
pub open spec fn icase_view<T>(t: crate::ir::TermView<T>) -> crate::ir::TermView<T>
    decreases t,
{
    match t {
        crate::ir::TermView::Literal(s, _) => crate::ir::TermView::Literal(s, true),
        crate::ir::TermView::Range(lo, hi, _) => crate::ir::TermView::Range(lo, hi, true),
        crate::ir::TermView::Sequence(ts) => crate::ir::TermView::Sequence(icase_views(ts, 0)),
        crate::ir::TermView::Choice(ts) => crate::ir::TermView::Choice(icase_views(ts, 0)),
        crate::ir::TermView::Optional(t1) => crate::ir::TermView::Optional(
            Box::new(icase_view(*t1)),
        ),
        crate::ir::TermView::Star(t1) => crate::ir::TermView::Star(Box::new(icase_view(*t1))),
        crate::ir::TermView::Plus(t1) => crate::ir::TermView::Plus(Box::new(icase_view(*t1))),
        crate::ir::TermView::PosLookahead(t1) => crate::ir::TermView::PosLookahead(
            Box::new(icase_view(*t1)),
        ),
        crate::ir::TermView::NegLookahead(t1) => crate::ir::TermView::NegLookahead(
            Box::new(icase_view(*t1)),
        ),
        crate::ir::TermView::Capture(tag, t1) => crate::ir::TermView::Capture(
            tag,
            Box::new(icase_view(*t1)),
        ),
        _ => t,
    }
}

/// Case-fold the views of a list of terms, from index `i` on.
pub open spec fn icase_views<T>(
    ts: Seq<crate::ir::TermView<T>>,
    i: int,
) -> Seq<crate::ir::TermView<T>>
    decreases ts, (if 0 <= i <= ts.len() { ts.len() - i } else { 0 }), 0int,
{
    if 0 <= i < ts.len() {
        seq![icase_view(ts[i])] + icase_views(ts, i + 1)
    } else {
        Seq::empty()
    }
}

/// The folded view list has one folded view per view, in order.
pub proof fn lemma_icase_views<T>(ts: Seq<crate::ir::TermView<T>>, k: int)
    requires
        0 <= k <= ts.len(),
    ensures
        icase_views(ts, k).len() == ts.len() - k,
        forall|i: int| k <= i < ts.len() ==> icase_views(ts, k)[i - k] == icase_view(ts[i]),
    decreases ts.len() - k,
{
    if k < ts.len() {
        lemma_icase_views(ts, k + 1);
    }
}

/// Rewrite every literal and range below the term to its case-folding
/// variant; rule calls, `ANY` and `EOI` are unaffected.
#[verifier::loop_isolation(false)]
pub fn make_icase<T: Copy>(t: &Term<T>) -> (r: Term<T>)
    ensures
        crate::ir::term_view(r) == icase_view(crate::ir::term_view(*t)),
    decreases *t,
{
    match t {
        Term::Literal(s, _) => Term::Literal(crate::registry::copy_chars(s), true),
        Term::Range(lo, hi, _) => Term::Range(*lo, *hi, true),
        Term::Sequence(ts) => {
            let mut out: Vec<Term<T>> = Vec::new();
            let mut i: usize = 0;
            while i < ts.len()
                invariant
                    i <= ts@.len(),
                    out@.len() == i,
                    forall|k: int|
                        0 <= k < i ==> crate::ir::term_view(#[trigger] out@[k]) == icase_view(
                            crate::ir::term_view(ts@[k]),
                        ),
                decreases ts@.len() - i,
            {
                proof {
                    assert(decreases_to!(*t => *ts));
                    assert(decreases_to!(*ts => ts@[i as int]));
                }
                out.push(make_icase(&ts[i]));
                i = i + 1;
            }
            proof {
                crate::ir::lemma_views_from(out@, 0);
                crate::ir::lemma_views_from(ts@, 0);
                lemma_icase_views(crate::ir::views_from(ts@, 0), 0);
                assert forall|k: int| 0 <= k < out@.len() implies crate::ir::views_from(
                    out@,
                    0,
                )[k] == icase_views(crate::ir::views_from(ts@, 0), 0)[k] by {
                    assert(crate::ir::views_from(out@, 0)[k] == crate::ir::term_view(out@[k]));
                    assert(crate::ir::views_from(ts@, 0)[k] == crate::ir::term_view(ts@[k]));
                    assert(icase_views(crate::ir::views_from(ts@, 0), 0)[k] == icase_view(
                        crate::ir::views_from(ts@, 0)[k],
                    ));
                }
                assert(crate::ir::views_from(out@, 0) =~= icase_views(
                    crate::ir::views_from(ts@, 0),
                    0,
                ));
            }
            Term::Sequence(out)
        },
        Term::Choice(ts) => {
            let mut out: Vec<Term<T>> = Vec::new();
            let mut i: usize = 0;
            while i < ts.len()
                invariant
                    i <= ts@.len(),
                    out@.len() == i,
                    forall|k: int|
                        0 <= k < i ==> crate::ir::term_view(#[trigger] out@[k]) == icase_view(
                            crate::ir::term_view(ts@[k]),
                        ),
                decreases ts@.len() - i,
            {
                proof {
                    assert(decreases_to!(*t => *ts));
                    assert(decreases_to!(*ts => ts@[i as int]));
                }
                out.push(make_icase(&ts[i]));
                i = i + 1;
            }
            proof {
                crate::ir::lemma_views_from(out@, 0);
                crate::ir::lemma_views_from(ts@, 0);
                lemma_icase_views(crate::ir::views_from(ts@, 0), 0);
                assert forall|k: int| 0 <= k < out@.len() implies crate::ir::views_from(
                    out@,
                    0,
                )[k] == icase_views(crate::ir::views_from(ts@, 0), 0)[k] by {
                    assert(crate::ir::views_from(out@, 0)[k] == crate::ir::term_view(out@[k]));
                    assert(crate::ir::views_from(ts@, 0)[k] == crate::ir::term_view(ts@[k]));
                    assert(icase_views(crate::ir::views_from(ts@, 0), 0)[k] == icase_view(
                        crate::ir::views_from(ts@, 0)[k],
                    ));
                }
                assert(crate::ir::views_from(out@, 0) =~= icase_views(
                    crate::ir::views_from(ts@, 0),
                    0,
                ));
            }
            Term::Choice(out)
        },
        Term::Optional(t1) => Term::Optional(Box::new(make_icase(&**t1))),
        Term::Star(t1) => Term::Star(Box::new(make_icase(&**t1))),
        Term::Plus(t1) => Term::Plus(Box::new(make_icase(&**t1))),
        Term::PosLookahead(t1) => Term::PosLookahead(Box::new(make_icase(&**t1))),
        Term::NegLookahead(t1) => Term::NegLookahead(Box::new(make_icase(&**t1))),
        Term::Capture(tag, t1) => Term::Capture(*tag, Box::new(make_icase(&**t1))),
        Term::AnyChar => Term::AnyChar,
        Term::EndOfInput => Term::EndOfInput,
        Term::Rule(i) => Term::Rule(*i),
    }
}

/// Parse a whole grammar: a sequence of `name = expression ;` declarations,
/// optionally decorated with `@icase`. Returns `None` when the text is not
/// a well-formed grammar or a referenced rule has no declaration.
pub fn parse_grammar(text: &Vec<char>) -> (r: Option<MetaGrammar>)
    ensures
        r is Some ==> r->Some_0.names@.len() == r->Some_0.rules@.len(),
{
    let mut table = RuleTable { names: Vec::new(), bodies: Vec::new(), defined: Vec::new() };
    let mut tags: Vec<Vec<char>> = Vec::new();
    let mut pos: usize = 0;
    loop
        invariant
            pos <= text@.len(),
            table.wf(),
        decreases text@.len() - pos,
    {
        skip_ws(text, &mut pos);
        if pos >= text.len() {
            break ;
        }
        let mut icase = false;
        if text[pos] == '@' {
            pos = pos + 1;
            let kw = match parse_ident(text, &mut pos) {
                Some(n) => n,
                None => {
                    return None;
                },
            };
            let icase_kw = vec!['i', 'c', 'a', 's', 'e'];
            if !chars_eq(&kw, &icase_kw) {
                return None;
            }
            icase = true;
            skip_ws(text, &mut pos);
        }
        let name = match parse_ident(text, &mut pos) {
            Some(n) => n,
            None => {
                return None;
            },
        };
        skip_ws(text, &mut pos);
        if pos >= text.len() || text[pos] != '=' {
            return None;
        }
        pos = pos + 1;
        let mut body = match parse_choice(text, &mut pos, &mut table, &mut tags) {
            Some(t) => t,
            None => {
                return None;
            },
        };
        skip_ws(text, &mut pos);
        if pos >= text.len() || text[pos] != ';' {
            return None;
        }
        pos = pos + 1;
        if icase {
            body = make_icase(&body);
        }
        let idx = table.intern(&name);
        if table.defined[idx] {
            return None;
        }
        table.bodies.set(idx, body);
        table.defined.set(idx, true);
    }
    let mut i: usize = 0;
    while i < table.defined.len()
        invariant
            i <= table.defined@.len(),
            table.wf(),
        decreases table.defined@.len() - i,
    {
        if !table.defined[i] {
            return None;
        }
        i = i + 1;
    }
    Some(MetaGrammar { names: table.names, rules: table.bodies, tags })
}

impl MetaGrammar {
    /// Index of the rule with this name, if it exists.
    pub fn find_rule(&self, name: &Vec<char>) -> (r: Option<usize>)
        ensures
            r is Some ==> r->Some_0 < self.names@.len(),
    {
        let mut i: usize = 0;
        while i < self.names.len()
            invariant
                i <= self.names@.len(),
            decreases self.names@.len() - i,
        {
            if chars_eq(&self.names[i], name) {
                return Some(i);
            }
            i = i + 1;
        }
        None
    }
}

} // verus!
