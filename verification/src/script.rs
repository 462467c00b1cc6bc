//! The concrete grammar for one script, written as grammar IR. It covers
//! one line at a time: label definitions, commands with their conditions,
//! directions and tile kinds, and plain text lines. The captures that the
//! later passes read are the typed tags below.

use vstd::prelude::*;

use crate::ir::{term_view, views_from, Term, TermView};
use crate::meta::{icase_view, make_icase};
use crate::text::chars_of;

verus! {

/// The typed capture tags the script grammar produces.
#[derive(Clone, Copy, PartialEq, Eq, Structural, Debug)]
pub enum ScriptTag {
    /// A label, defined or referenced.
    Label,
    /// A message: a reference to a label, with an optional recipient.
    Reference,
    /// The namespace part of a label, before `~`.
    Namespace,
    /// The base (section) part of a named label.
    Global,
    /// The local part of a label, after `.`.
    Local,
    /// An anonymous label `@`, or an anonymous reference `@b` / `@f`.
    Anon,
    /// The recipient part of a message, before `:`.
    Recipient,
    /// Ignored characters between a command and the end of its line.
    WarnTrailing,
}

pub const R_PROGRAM: usize = 0;
pub const R_LINE: usize = 1;
pub const R_STATEMENT: usize = 2;
pub const R_MOVEMENT: usize = 3;
pub const R_TEXT: usize = 4;
pub const R_LABEL_LINE: usize = 5;
pub const R_COMMAND: usize = 6;
pub const R_BARE_COMMAND: usize = 7;
pub const R_BARE_COMPOUND_COMMAND: usize = 8;
pub const R_BARE_SIMPLE_COMMAND: usize = 9;
pub const R_COLOR: usize = 10;
pub const R_CONDITION: usize = 11;
pub const R_BASE_CONDITION: usize = 12;
pub const R_COUNTER: usize = 13;
pub const R_DIRECTION: usize = 14;
pub const R_DIRECTION_MODIFIER: usize = 15;
pub const R_BASE_DIRECTION: usize = 16;
pub const R_LABEL: usize = 17;
pub const R_NAMESPACE: usize = 18;
pub const R_LABEL_NAME: usize = 19;
pub const R_LABEL_GLOBAL: usize = 20;
pub const R_LABEL_LOCAL: usize = 21;
pub const R_LABEL_WORD: usize = 22;
pub const R_MESSAGE: usize = 23;
pub const R_RECIPIENT: usize = 24;
pub const R_MESSAGE_NAME: usize = 25;
pub const R_ANON_MESSAGE: usize = 26;
pub const R_KIND: usize = 27;
pub const R_BASE_KIND: usize = 28;
pub const R_WARN_TRAILING: usize = 29;
pub const R_EOL: usize = 30;
pub const R_EOW: usize = 31;
pub const R_S: usize = 32;
pub const R_SP: usize = 33;
pub const R_VALUE: usize = 34;
pub const R_WORD: usize = 35;
pub const R_WORD_CHAR: usize = 36;
pub const NUM_RULES: usize = 37;

// View-level shorthand for the spec mirror of each rule below.

pub open spec fn vlit(s: Seq<char>) -> TermView<ScriptTag> {
    TermView::Literal(s, false)
}

pub open spec fn vlit_i(s: Seq<char>) -> TermView<ScriptTag> {
    TermView::Literal(s, true)
}

pub open spec fn vrng(lo: char, hi: char) -> TermView<ScriptTag> {
    TermView::Range(lo, hi, false)
}

pub open spec fn vrng_i(lo: char, hi: char) -> TermView<ScriptTag> {
    TermView::Range(lo, hi, true)
}

pub open spec fn vrule(i: usize) -> TermView<ScriptTag> {
    TermView::Rule(i)
}

pub open spec fn vseq(ts: Seq<TermView<ScriptTag>>) -> TermView<ScriptTag> {
    TermView::Sequence(ts)
}

pub open spec fn vcho(ts: Seq<TermView<ScriptTag>>) -> TermView<ScriptTag> {
    TermView::Choice(ts)
}

pub open spec fn vopt(t: TermView<ScriptTag>) -> TermView<ScriptTag> {
    TermView::Optional(Box::new(t))
}

pub open spec fn vstar(t: TermView<ScriptTag>) -> TermView<ScriptTag> {
    TermView::Star(Box::new(t))
}

pub open spec fn vplus(t: TermView<ScriptTag>) -> TermView<ScriptTag> {
    TermView::Plus(Box::new(t))
}

pub open spec fn vpos(t: TermView<ScriptTag>) -> TermView<ScriptTag> {
    TermView::PosLookahead(Box::new(t))
}

pub open spec fn vneg(t: TermView<ScriptTag>) -> TermView<ScriptTag> {
    TermView::NegLookahead(Box::new(t))
}

pub open spec fn vcap(tag: ScriptTag, t: TermView<ScriptTag>) -> TermView<ScriptTag> {
    TermView::Capture(tag, Box::new(t))
}

fn lit(s: &str) -> (r: Term<ScriptTag>)
    ensures
        term_view(r) == vlit(s@),
{
    Term::Literal(chars_of(s), false)
}

fn lit_i(s: &str) -> (r: Term<ScriptTag>)
    ensures
        term_view(r) == vlit_i(s@),
{
    Term::Literal(chars_of(s), true)
}

fn rng(lo: char, hi: char) -> (r: Term<ScriptTag>)
    ensures
        term_view(r) == vrng(lo, hi),
{
    Term::Range(lo, hi, false)
}

fn rng_i(lo: char, hi: char) -> (r: Term<ScriptTag>)
    ensures
        term_view(r) == vrng_i(lo, hi),
{
    Term::Range(lo, hi, true)
}

fn rule(i: usize) -> (r: Term<ScriptTag>)
    ensures
        term_view(r) == vrule(i),
{
    Term::Rule(i)
}

fn seq(ts: Vec<Term<ScriptTag>>) -> (r: Term<ScriptTag>)
    ensures
        term_view(r) == vseq(views_from(ts@, 0)),
        views_from(ts@, 0).len() == ts@.len(),
        forall|i: int|
            0 <= i < ts@.len() ==> views_from(ts@, 0)[i] == term_view(#[trigger] ts@[i]),
{
    proof {
        crate::ir::lemma_views_from(ts@, 0);
    }
    Term::Sequence(ts)
}

fn cho(ts: Vec<Term<ScriptTag>>) -> (r: Term<ScriptTag>)
    ensures
        term_view(r) == vcho(views_from(ts@, 0)),
        views_from(ts@, 0).len() == ts@.len(),
        forall|i: int|
            0 <= i < ts@.len() ==> views_from(ts@, 0)[i] == term_view(#[trigger] ts@[i]),
{
    proof {
        crate::ir::lemma_views_from(ts@, 0);
    }
    Term::Choice(ts)
}

fn opt(t: Term<ScriptTag>) -> (r: Term<ScriptTag>)
    ensures
        term_view(r) == vopt(term_view(t)),
{
    Term::Optional(Box::new(t))
}

fn star(t: Term<ScriptTag>) -> (r: Term<ScriptTag>)
    ensures
        term_view(r) == vstar(term_view(t)),
{
    Term::Star(Box::new(t))
}

fn plus(t: Term<ScriptTag>) -> (r: Term<ScriptTag>)
    ensures
        term_view(r) == vplus(term_view(t)),
{
    Term::Plus(Box::new(t))
}

fn pos(t: Term<ScriptTag>) -> (r: Term<ScriptTag>)
    ensures
        term_view(r) == vpos(term_view(t)),
{
    Term::PosLookahead(Box::new(t))
}

fn neg(t: Term<ScriptTag>) -> (r: Term<ScriptTag>)
    ensures
        term_view(r) == vneg(term_view(t)),
{
    Term::NegLookahead(Box::new(t))
}

fn cap(tag: ScriptTag, t: Term<ScriptTag>) -> (r: Term<ScriptTag>)
    ensures
        term_view(r) == vcap(tag, term_view(t)),
{
    Term::Capture(tag, Box::new(t))
}

/// program = (line ("\n" line)*)? EOI
pub open spec fn v_program() -> TermView<ScriptTag> {
    vseq(
        seq![
            vopt(
                vseq(
                    seq![
                        vrule(R_LINE),
                        vstar(vseq(seq![vlit(("\n")@), vrule(R_LINE)])),
                    ],
                ),
            ),
            TermView::EndOfInput,
        ],
    )
}

// program = (line ("\n" line)*)? EOI
fn r_program() -> (r: Term<ScriptTag>)
    ensures
        term_view(r) == v_program(),
{
    let v1: Vec<Term<ScriptTag>> = vec![lit("\n"), rule(R_LINE)];
    proof {
        crate::ir::lemma_views_from(v1@, 0);
        assert(views_from(v1@, 0) =~= seq![vlit(("\n")@), vrule(R_LINE)]);
    }
    let v2: Vec<Term<ScriptTag>> = vec![rule(R_LINE), star(seq(v1))];
    proof {
        crate::ir::lemma_views_from(v2@, 0);
        assert(views_from(v2@, 0) =~= seq![
            vrule(R_LINE),
            vstar(vseq(seq![vlit(("\n")@), vrule(R_LINE)])),
        ]);
    }
    let v3: Vec<Term<ScriptTag>> = vec![opt(seq(v2)), Term::EndOfInput];
    proof {
        crate::ir::lemma_views_from(v3@, 0);
        assert(views_from(v3@, 0) =~= seq![
            vopt(
                vseq(
                    seq![
                        vrule(R_LINE),
                        vstar(vseq(seq![vlit(("\n")@), vrule(R_LINE)])),
                    ],
                ),
            ),
            TermView::EndOfInput,
        ]);
    }
    seq(v3)
}

/// line = label_line / statement / text
pub open spec fn v_line() -> TermView<ScriptTag> {
    vcho(seq![vrule(R_LABEL_LINE), vrule(R_STATEMENT), vrule(R_TEXT)])
}

// line = label_line / statement / text
fn r_line() -> (r: Term<ScriptTag>)
    ensures
        term_view(r) == v_line(),
{
    let v1: Vec<Term<ScriptTag>> = vec![rule(R_LABEL_LINE), rule(R_STATEMENT), rule(R_TEXT)];
    proof {
        crate::ir::lemma_views_from(v1@, 0);
        assert(views_from(v1@, 0) =~= seq![vrule(R_LABEL_LINE), vrule(R_STATEMENT), vrule(R_TEXT)]);
    }
    cho(v1)
}

/// statement = movement+ command? / command
pub open spec fn v_statement() -> TermView<ScriptTag> {
    vcho(seq![vseq(seq![vplus(vrule(R_MOVEMENT)), vopt(vrule(R_COMMAND))]), vrule(R_COMMAND)])
}

// statement = movement+ command? / command
fn r_statement() -> (r: Term<ScriptTag>)
    ensures
        term_view(r) == v_statement(),
{
    let v1: Vec<Term<ScriptTag>> = vec![plus(rule(R_MOVEMENT)), opt(rule(R_COMMAND))];
    proof {
        crate::ir::lemma_views_from(v1@, 0);
        assert(views_from(v1@, 0) =~= seq![vplus(vrule(R_MOVEMENT)), vopt(vrule(R_COMMAND))]);
    }
    let v2: Vec<Term<ScriptTag>> = vec![seq(v1), rule(R_COMMAND)];
    proof {
        crate::ir::lemma_views_from(v2@, 0);
        assert(views_from(v2@, 0) =~= seq![vseq(seq![vplus(vrule(R_MOVEMENT)), vopt(vrule(R_COMMAND))]), vrule(R_COMMAND)]);
    }
    cho(v2)
}

/// movement = ("/" / "?") s direction
pub open spec fn v_movement() -> TermView<ScriptTag> {
    vseq(seq![vcho(seq![vlit(("/")@), vlit(("?")@)]), vrule(R_S), vrule(R_DIRECTION)])
}

// movement = ("/" / "?") s direction
fn r_movement() -> (r: Term<ScriptTag>)
    ensures
        term_view(r) == v_movement(),
{
    let v1: Vec<Term<ScriptTag>> = vec![lit("/"), lit("?")];
    proof {
        crate::ir::lemma_views_from(v1@, 0);
        assert(views_from(v1@, 0) =~= seq![vlit(("/")@), vlit(("?")@)]);
    }
    let v2: Vec<Term<ScriptTag>> = vec![cho(v1), rule(R_S), rule(R_DIRECTION)];
    proof {
        crate::ir::lemma_views_from(v2@, 0);
        assert(views_from(v2@, 0) =~= seq![vcho(seq![vlit(("/")@), vlit(("?")@)]), vrule(R_S), vrule(R_DIRECTION)]);
    }
    seq(v2)
}

/// text = !("#" / "/" / "?") (!"\n" ANY)*
pub open spec fn v_text() -> TermView<ScriptTag> {
    vseq(seq![vneg(vcho(seq![vlit(("#")@), vlit(("/")@), vlit(("?")@)])), vstar(vseq(seq![vneg(vlit(("\n")@)), TermView::AnyChar]))])
}

// text = !("#" / "/" / "?") (!"\n" ANY)*
fn r_text() -> (r: Term<ScriptTag>)
    ensures
        term_view(r) == v_text(),
{
    let v1: Vec<Term<ScriptTag>> = vec![lit("#"), lit("/"), lit("?")];
    proof {
        crate::ir::lemma_views_from(v1@, 0);
        assert(views_from(v1@, 0) =~= seq![vlit(("#")@), vlit(("/")@), vlit(("?")@)]);
    }
    let v2: Vec<Term<ScriptTag>> = vec![neg(lit("\n")), Term::AnyChar];
    proof {
        crate::ir::lemma_views_from(v2@, 0);
        assert(views_from(v2@, 0) =~= seq![vneg(vlit(("\n")@)), TermView::AnyChar]);
    }
    let v3: Vec<Term<ScriptTag>> = vec![neg(cho(v1)), star(seq(v2))];
    proof {
        crate::ir::lemma_views_from(v3@, 0);
        assert(views_from(v3@, 0) =~= seq![vneg(vcho(seq![vlit(("#")@), vlit(("/")@), vlit(("?")@)])), vstar(vseq(seq![vneg(vlit(("\n")@)), TermView::AnyChar]))]);
    }
    seq(v3)
}

/// label_line = ":" label eol
pub open spec fn v_label_line() -> TermView<ScriptTag> {
    vseq(seq![vlit((":")@), vrule(R_LABEL), vrule(R_EOL)])
}

// label_line = ":" label eol
fn r_label_line() -> (r: Term<ScriptTag>)
    ensures
        term_view(r) == v_label_line(),
{
    let v1: Vec<Term<ScriptTag>> = vec![lit(":"), rule(R_LABEL), rule(R_EOL)];
    proof {
        crate::ir::lemma_views_from(v1@, 0);
        assert(views_from(v1@, 0) =~= seq![vlit((":")@), vrule(R_LABEL), vrule(R_EOL)]);
    }
    seq(v1)
}

/// command = "#" bare_command
pub open spec fn v_command() -> TermView<ScriptTag> {
    vseq(seq![vlit(("#")@), vrule(R_BARE_COMMAND)])
}

// command = "#" bare_command
fn r_command() -> (r: Term<ScriptTag>)
    ensures
        term_view(r) == v_command(),
{
    let v1: Vec<Term<ScriptTag>> = vec![lit("#"), rule(R_BARE_COMMAND)];
    proof {
        crate::ir::lemma_views_from(v1@, 0);
        assert(views_from(v1@, 0) =~= seq![vlit(("#")@), vrule(R_BARE_COMMAND)]);
    }
    seq(v1)
}

/// bare_command = bare_compound_command / bare_simple_command
pub open spec fn v_bare_command() -> TermView<ScriptTag> {
    vcho(seq![vrule(R_BARE_COMPOUND_COMMAND), vrule(R_BARE_SIMPLE_COMMAND)])
}

// bare_command = bare_compound_command / bare_simple_command
fn r_bare_command() -> (r: Term<ScriptTag>)
    ensures
        term_view(r) == v_bare_command(),
{
    let v1: Vec<Term<ScriptTag>> = vec![rule(R_BARE_COMPOUND_COMMAND), rule(R_BARE_SIMPLE_COMMAND)];
    proof {
        crate::ir::lemma_views_from(v1@, 0);
        assert(views_from(v1@, 0) =~= seq![vrule(R_BARE_COMPOUND_COMMAND), vrule(R_BARE_SIMPLE_COMMAND)]);
    }
    cho(v1)
}

/// bare_compound_command, case-folded:
///   (("give" / "take") sp counter sp value / "if" sp condition /
///    "try" sp direction) s (statement / bare_command / eol)
pub open spec fn v_bare_compound_command() -> TermView<ScriptTag> {
    icase_view(vseq(seq![vcho(seq![vseq(seq![vcho(seq![vlit(("give")@), vlit(("take")@)]), vrule(R_SP), vrule(R_COUNTER), vrule(R_SP), vrule(R_VALUE)]), vseq(seq![vlit(("if")@), vrule(R_SP), vrule(R_CONDITION)]), vseq(seq![vlit(("try")@), vrule(R_SP), vrule(R_DIRECTION)])]), vrule(R_S), vcho(seq![vrule(R_STATEMENT), vrule(R_BARE_COMMAND), vrule(R_EOL)])]))
}

// bare_compound_command, case-folded:
//   (("give" / "take") sp counter sp value / "if" sp condition /
//    "try" sp direction) s (statement / bare_command / eol)
fn r_bare_compound_command() -> (r: Term<ScriptTag>)
    ensures
        term_view(r) == v_bare_compound_command(),
{
    let v1: Vec<Term<ScriptTag>> = vec![lit("give"), lit("take")];
    proof {
        crate::ir::lemma_views_from(v1@, 0);
        assert(views_from(v1@, 0) =~= seq![vlit(("give")@), vlit(("take")@)]);
    }
    let v2: Vec<Term<ScriptTag>> = vec![cho(v1), rule(R_SP), rule(R_COUNTER), rule(R_SP), rule(R_VALUE)];
    proof {
        crate::ir::lemma_views_from(v2@, 0);
        assert(views_from(v2@, 0) =~= seq![vcho(seq![vlit(("give")@), vlit(("take")@)]), vrule(R_SP), vrule(R_COUNTER), vrule(R_SP), vrule(R_VALUE)]);
    }
    let v3: Vec<Term<ScriptTag>> = vec![lit("if"), rule(R_SP), rule(R_CONDITION)];
    proof {
        crate::ir::lemma_views_from(v3@, 0);
        assert(views_from(v3@, 0) =~= seq![vlit(("if")@), vrule(R_SP), vrule(R_CONDITION)]);
    }
    let v4: Vec<Term<ScriptTag>> = vec![lit("try"), rule(R_SP), rule(R_DIRECTION)];
    proof {
        crate::ir::lemma_views_from(v4@, 0);
        assert(views_from(v4@, 0) =~= seq![vlit(("try")@), vrule(R_SP), vrule(R_DIRECTION)]);
    }
    let v5: Vec<Term<ScriptTag>> = vec![seq(v2), seq(v3), seq(v4)];
    proof {
        crate::ir::lemma_views_from(v5@, 0);
        assert(views_from(v5@, 0) =~= seq![vseq(seq![vcho(seq![vlit(("give")@), vlit(("take")@)]), vrule(R_SP), vrule(R_COUNTER), vrule(R_SP), vrule(R_VALUE)]), vseq(seq![vlit(("if")@), vrule(R_SP), vrule(R_CONDITION)]), vseq(seq![vlit(("try")@), vrule(R_SP), vrule(R_DIRECTION)])]);
    }
    let v6: Vec<Term<ScriptTag>> = vec![rule(R_STATEMENT), rule(R_BARE_COMMAND), rule(R_EOL)];
    proof {
        crate::ir::lemma_views_from(v6@, 0);
        assert(views_from(v6@, 0) =~= seq![vrule(R_STATEMENT), vrule(R_BARE_COMMAND), vrule(R_EOL)]);
    }
    let v7: Vec<Term<ScriptTag>> = vec![cho(v5), rule(R_S), cho(v6)];
    proof {
        crate::ir::lemma_views_from(v7@, 0);
        assert(views_from(v7@, 0) =~= seq![vcho(seq![vseq(seq![vcho(seq![vlit(("give")@), vlit(("take")@)]), vrule(R_SP), vrule(R_COUNTER), vrule(R_SP), vrule(R_VALUE)]), vseq(seq![vlit(("if")@), vrule(R_SP), vrule(R_CONDITION)]), vseq(seq![vlit(("try")@), vrule(R_SP), vrule(R_DIRECTION)])]), vrule(R_S), vcho(seq![vrule(R_STATEMENT), vrule(R_BARE_COMMAND), vrule(R_EOL)])]);
    }
    let v8 = seq(v7);
    make_icase(&v8)
}

/// bare_simple_command, case-folded: a closed set of commands grouped by
/// first letter, or a bare message as a shorthand send, then trailing
/// characters and the end of the line.
pub open spec fn v_bare_simple_command() -> TermView<ScriptTag> {
    icase_view(vseq(seq![vcho(seq![vseq(seq![vpos(vrng('b', 'c')), vcho(seq![vseq(seq![vlit(("become")@), vrule(R_SP), vrule(R_KIND)]), vseq(seq![vlit(("bind")@), vrule(R_SP), vrule(R_WORD)]), vseq(seq![vlit(("change")@), vrule(R_SP), vrule(R_KIND), vrule(R_SP), vrule(R_KIND)]), vseq(seq![vlit(("char")@), vrule(R_SP), vrule(R_VALUE)]), vseq(seq![vlit(("clear")@), vrule(R_SP), vrule(R_WORD)]), vseq(seq![vlit(("cycle")@), vrule(R_SP), vrule(R_VALUE)])])]), vseq(seq![vpos(vrng('d', 'l')), vcho(seq![vseq(seq![vlit(("die")@), vrule(R_EOW)]), vseq(seq![vlit(("end")@), vopt(vlit(("game")@)), vrule(R_EOW)]), vseq(seq![vlit(("go")@), vrule(R_SP), vrule(R_DIRECTION)]), vseq(seq![vlit(("idle")@), vrule(R_EOW)]), vseq(seq![vlit(("lock")@), vrule(R_EOW)])])]), vseq(seq![vpos(vrng('p', 's')), vcho(seq![vseq(seq![vlit(("play")@), vrule(R_EOW), vstar(vseq(seq![vneg(vlit(("\n")@)), TermView::AnyChar]))]), vseq(seq![vlit(("put")@), vrule(R_SP), vrule(R_DIRECTION), vrule(R_SP), vrule(R_KIND)]), vseq(seq![vlit(("restart")@), vrule(R_EOW)]), vseq(seq![vlit(("restore")@), vrule(R_SP), vrule(R_MESSAGE)]), vseq(seq![vlit(("send")@), vrule(R_SP), vrule(R_MESSAGE)]), vseq(seq![vlit(("set")@), vrule(R_SP), vrule(R_WORD)]), vseq(seq![vlit(("shoot")@), vrule(R_SP), vrule(R_DIRECTION)])])]), vseq(seq![vpos(vrng('t', 'z')), vcho(seq![vseq(seq![vlit(("throwstar")@), vrule(R_SP), vrule(R_DIRECTION)]), vseq(seq![vlit(("unlock")@), vrule(R_EOW)]), vseq(seq![vlit(("walk")@), vrule(R_SP), vrule(R_DIRECTION)]), vseq(seq![vlit(("zap")@), vrule(R_SP), vrule(R_MESSAGE)])])]), vrule(R_MESSAGE)]), vrule(R_WARN_TRAILING), vrule(R_EOL)]))
}

// bare_simple_command, case-folded: a closed set of commands grouped by
// first letter, or a bare message as a shorthand send, then trailing
// characters and the end of the line.
fn r_bare_simple_command() -> (r: Term<ScriptTag>)
    ensures
        term_view(r) == v_bare_simple_command(),
{
    let v1: Vec<Term<ScriptTag>> = vec![lit("become"), rule(R_SP), rule(R_KIND)];
    proof {
        crate::ir::lemma_views_from(v1@, 0);
        assert(views_from(v1@, 0) =~= seq![vlit(("become")@), vrule(R_SP), vrule(R_KIND)]);
    }
    let v2: Vec<Term<ScriptTag>> = vec![lit("bind"), rule(R_SP), rule(R_WORD)];
    proof {
        crate::ir::lemma_views_from(v2@, 0);
        assert(views_from(v2@, 0) =~= seq![vlit(("bind")@), vrule(R_SP), vrule(R_WORD)]);
    }
    let v3: Vec<Term<ScriptTag>> = vec![lit("change"), rule(R_SP), rule(R_KIND), rule(R_SP), rule(R_KIND)];
    proof {
        crate::ir::lemma_views_from(v3@, 0);
        assert(views_from(v3@, 0) =~= seq![vlit(("change")@), vrule(R_SP), vrule(R_KIND), vrule(R_SP), vrule(R_KIND)]);
    }
    let v4: Vec<Term<ScriptTag>> = vec![lit("char"), rule(R_SP), rule(R_VALUE)];
    proof {
        crate::ir::lemma_views_from(v4@, 0);
        assert(views_from(v4@, 0) =~= seq![vlit(("char")@), vrule(R_SP), vrule(R_VALUE)]);
    }
    let v5: Vec<Term<ScriptTag>> = vec![lit("clear"), rule(R_SP), rule(R_WORD)];
    proof {
        crate::ir::lemma_views_from(v5@, 0);
        assert(views_from(v5@, 0) =~= seq![vlit(("clear")@), vrule(R_SP), vrule(R_WORD)]);
    }
    let v6: Vec<Term<ScriptTag>> = vec![lit("cycle"), rule(R_SP), rule(R_VALUE)];
    proof {
        crate::ir::lemma_views_from(v6@, 0);
        assert(views_from(v6@, 0) =~= seq![vlit(("cycle")@), vrule(R_SP), vrule(R_VALUE)]);
    }
    let v7: Vec<Term<ScriptTag>> = vec![seq(v1), seq(v2), seq(v3), seq(v4), seq(v5), seq(v6)];
    proof {
        crate::ir::lemma_views_from(v7@, 0);
        assert(views_from(v7@, 0) =~= seq![vseq(seq![vlit(("become")@), vrule(R_SP), vrule(R_KIND)]), vseq(seq![vlit(("bind")@), vrule(R_SP), vrule(R_WORD)]), vseq(seq![vlit(("change")@), vrule(R_SP), vrule(R_KIND), vrule(R_SP), vrule(R_KIND)]), vseq(seq![vlit(("char")@), vrule(R_SP), vrule(R_VALUE)]), vseq(seq![vlit(("clear")@), vrule(R_SP), vrule(R_WORD)]), vseq(seq![vlit(("cycle")@), vrule(R_SP), vrule(R_VALUE)])]);
    }
    let v8: Vec<Term<ScriptTag>> = vec![pos(rng('b', 'c')), cho(v7)];
    proof {
        crate::ir::lemma_views_from(v8@, 0);
        assert(views_from(v8@, 0) =~= seq![vpos(vrng('b', 'c')), vcho(seq![vseq(seq![vlit(("become")@), vrule(R_SP), vrule(R_KIND)]), vseq(seq![vlit(("bind")@), vrule(R_SP), vrule(R_WORD)]), vseq(seq![vlit(("change")@), vrule(R_SP), vrule(R_KIND), vrule(R_SP), vrule(R_KIND)]), vseq(seq![vlit(("char")@), vrule(R_SP), vrule(R_VALUE)]), vseq(seq![vlit(("clear")@), vrule(R_SP), vrule(R_WORD)]), vseq(seq![vlit(("cycle")@), vrule(R_SP), vrule(R_VALUE)])])]);
    }
    let v9: Vec<Term<ScriptTag>> = vec![lit("die"), rule(R_EOW)];
    proof {
        crate::ir::lemma_views_from(v9@, 0);
        assert(views_from(v9@, 0) =~= seq![vlit(("die")@), vrule(R_EOW)]);
    }
    let v10: Vec<Term<ScriptTag>> = vec![lit("end"), opt(lit("game")), rule(R_EOW)];
    proof {
        crate::ir::lemma_views_from(v10@, 0);
        assert(views_from(v10@, 0) =~= seq![vlit(("end")@), vopt(vlit(("game")@)), vrule(R_EOW)]);
    }
    let v11: Vec<Term<ScriptTag>> = vec![lit("go"), rule(R_SP), rule(R_DIRECTION)];
    proof {
        crate::ir::lemma_views_from(v11@, 0);
        assert(views_from(v11@, 0) =~= seq![vlit(("go")@), vrule(R_SP), vrule(R_DIRECTION)]);
    }
    let v12: Vec<Term<ScriptTag>> = vec![lit("idle"), rule(R_EOW)];
    proof {
        crate::ir::lemma_views_from(v12@, 0);
        assert(views_from(v12@, 0) =~= seq![vlit(("idle")@), vrule(R_EOW)]);
    }
    let v13: Vec<Term<ScriptTag>> = vec![lit("lock"), rule(R_EOW)];
    proof {
        crate::ir::lemma_views_from(v13@, 0);
        assert(views_from(v13@, 0) =~= seq![vlit(("lock")@), vrule(R_EOW)]);
    }
    let v14: Vec<Term<ScriptTag>> = vec![seq(v9), seq(v10), seq(v11), seq(v12), seq(v13)];
    proof {
        crate::ir::lemma_views_from(v14@, 0);
        assert(views_from(v14@, 0) =~= seq![vseq(seq![vlit(("die")@), vrule(R_EOW)]), vseq(seq![vlit(("end")@), vopt(vlit(("game")@)), vrule(R_EOW)]), vseq(seq![vlit(("go")@), vrule(R_SP), vrule(R_DIRECTION)]), vseq(seq![vlit(("idle")@), vrule(R_EOW)]), vseq(seq![vlit(("lock")@), vrule(R_EOW)])]);
    }
    let v15: Vec<Term<ScriptTag>> = vec![pos(rng('d', 'l')), cho(v14)];
    proof {
        crate::ir::lemma_views_from(v15@, 0);
        assert(views_from(v15@, 0) =~= seq![vpos(vrng('d', 'l')), vcho(seq![vseq(seq![vlit(("die")@), vrule(R_EOW)]), vseq(seq![vlit(("end")@), vopt(vlit(("game")@)), vrule(R_EOW)]), vseq(seq![vlit(("go")@), vrule(R_SP), vrule(R_DIRECTION)]), vseq(seq![vlit(("idle")@), vrule(R_EOW)]), vseq(seq![vlit(("lock")@), vrule(R_EOW)])])]);
    }
    let v16: Vec<Term<ScriptTag>> = vec![neg(lit("\n")), Term::AnyChar];
    proof {
        crate::ir::lemma_views_from(v16@, 0);
        assert(views_from(v16@, 0) =~= seq![vneg(vlit(("\n")@)), TermView::AnyChar]);
    }
    let v17: Vec<Term<ScriptTag>> = vec![lit("play"), rule(R_EOW), star(seq(v16))];
    proof {
        crate::ir::lemma_views_from(v17@, 0);
        assert(views_from(v17@, 0) =~= seq![vlit(("play")@), vrule(R_EOW), vstar(vseq(seq![vneg(vlit(("\n")@)), TermView::AnyChar]))]);
    }
    let v18: Vec<Term<ScriptTag>> = vec![lit("put"), rule(R_SP), rule(R_DIRECTION), rule(R_SP), rule(R_KIND)];
    proof {
        crate::ir::lemma_views_from(v18@, 0);
        assert(views_from(v18@, 0) =~= seq![vlit(("put")@), vrule(R_SP), vrule(R_DIRECTION), vrule(R_SP), vrule(R_KIND)]);
    }
    let v19: Vec<Term<ScriptTag>> = vec![lit("restart"), rule(R_EOW)];
    proof {
        crate::ir::lemma_views_from(v19@, 0);
        assert(views_from(v19@, 0) =~= seq![vlit(("restart")@), vrule(R_EOW)]);
    }
    let v20: Vec<Term<ScriptTag>> = vec![lit("restore"), rule(R_SP), rule(R_MESSAGE)];
    proof {
        crate::ir::lemma_views_from(v20@, 0);
        assert(views_from(v20@, 0) =~= seq![vlit(("restore")@), vrule(R_SP), vrule(R_MESSAGE)]);
    }
    let v21: Vec<Term<ScriptTag>> = vec![lit("send"), rule(R_SP), rule(R_MESSAGE)];
    proof {
        crate::ir::lemma_views_from(v21@, 0);
        assert(views_from(v21@, 0) =~= seq![vlit(("send")@), vrule(R_SP), vrule(R_MESSAGE)]);
    }
    let v22: Vec<Term<ScriptTag>> = vec![lit("set"), rule(R_SP), rule(R_WORD)];
    proof {
        crate::ir::lemma_views_from(v22@, 0);
        assert(views_from(v22@, 0) =~= seq![vlit(("set")@), vrule(R_SP), vrule(R_WORD)]);
    }
    let v23: Vec<Term<ScriptTag>> = vec![lit("shoot"), rule(R_SP), rule(R_DIRECTION)];
    proof {
        crate::ir::lemma_views_from(v23@, 0);
        assert(views_from(v23@, 0) =~= seq![vlit(("shoot")@), vrule(R_SP), vrule(R_DIRECTION)]);
    }
    let v24: Vec<Term<ScriptTag>> = vec![seq(v17), seq(v18), seq(v19), seq(v20), seq(v21), seq(v22), seq(v23)];
    proof {
        crate::ir::lemma_views_from(v24@, 0);
        assert(views_from(v24@, 0) =~= seq![vseq(seq![vlit(("play")@), vrule(R_EOW), vstar(vseq(seq![vneg(vlit(("\n")@)), TermView::AnyChar]))]), vseq(seq![vlit(("put")@), vrule(R_SP), vrule(R_DIRECTION), vrule(R_SP), vrule(R_KIND)]), vseq(seq![vlit(("restart")@), vrule(R_EOW)]), vseq(seq![vlit(("restore")@), vrule(R_SP), vrule(R_MESSAGE)]), vseq(seq![vlit(("send")@), vrule(R_SP), vrule(R_MESSAGE)]), vseq(seq![vlit(("set")@), vrule(R_SP), vrule(R_WORD)]), vseq(seq![vlit(("shoot")@), vrule(R_SP), vrule(R_DIRECTION)])]);
    }
    let v25: Vec<Term<ScriptTag>> = vec![pos(rng('p', 's')), cho(v24)];
    proof {
        crate::ir::lemma_views_from(v25@, 0);
        assert(views_from(v25@, 0) =~= seq![vpos(vrng('p', 's')), vcho(seq![vseq(seq![vlit(("play")@), vrule(R_EOW), vstar(vseq(seq![vneg(vlit(("\n")@)), TermView::AnyChar]))]), vseq(seq![vlit(("put")@), vrule(R_SP), vrule(R_DIRECTION), vrule(R_SP), vrule(R_KIND)]), vseq(seq![vlit(("restart")@), vrule(R_EOW)]), vseq(seq![vlit(("restore")@), vrule(R_SP), vrule(R_MESSAGE)]), vseq(seq![vlit(("send")@), vrule(R_SP), vrule(R_MESSAGE)]), vseq(seq![vlit(("set")@), vrule(R_SP), vrule(R_WORD)]), vseq(seq![vlit(("shoot")@), vrule(R_SP), vrule(R_DIRECTION)])])]);
    }
    let v26: Vec<Term<ScriptTag>> = vec![lit("throwstar"), rule(R_SP), rule(R_DIRECTION)];
    proof {
        crate::ir::lemma_views_from(v26@, 0);
        assert(views_from(v26@, 0) =~= seq![vlit(("throwstar")@), vrule(R_SP), vrule(R_DIRECTION)]);
    }
    let v27: Vec<Term<ScriptTag>> = vec![lit("unlock"), rule(R_EOW)];
    proof {
        crate::ir::lemma_views_from(v27@, 0);
        assert(views_from(v27@, 0) =~= seq![vlit(("unlock")@), vrule(R_EOW)]);
    }
    let v28: Vec<Term<ScriptTag>> = vec![lit("walk"), rule(R_SP), rule(R_DIRECTION)];
    proof {
        crate::ir::lemma_views_from(v28@, 0);
        assert(views_from(v28@, 0) =~= seq![vlit(("walk")@), vrule(R_SP), vrule(R_DIRECTION)]);
    }
    let v29: Vec<Term<ScriptTag>> = vec![lit("zap"), rule(R_SP), rule(R_MESSAGE)];
    proof {
        crate::ir::lemma_views_from(v29@, 0);
        assert(views_from(v29@, 0) =~= seq![vlit(("zap")@), vrule(R_SP), vrule(R_MESSAGE)]);
    }
    let v30: Vec<Term<ScriptTag>> = vec![seq(v26), seq(v27), seq(v28), seq(v29)];
    proof {
        crate::ir::lemma_views_from(v30@, 0);
        assert(views_from(v30@, 0) =~= seq![vseq(seq![vlit(("throwstar")@), vrule(R_SP), vrule(R_DIRECTION)]), vseq(seq![vlit(("unlock")@), vrule(R_EOW)]), vseq(seq![vlit(("walk")@), vrule(R_SP), vrule(R_DIRECTION)]), vseq(seq![vlit(("zap")@), vrule(R_SP), vrule(R_MESSAGE)])]);
    }
    let v31: Vec<Term<ScriptTag>> = vec![pos(rng('t', 'z')), cho(v30)];
    proof {
        crate::ir::lemma_views_from(v31@, 0);
        assert(views_from(v31@, 0) =~= seq![vpos(vrng('t', 'z')), vcho(seq![vseq(seq![vlit(("throwstar")@), vrule(R_SP), vrule(R_DIRECTION)]), vseq(seq![vlit(("unlock")@), vrule(R_EOW)]), vseq(seq![vlit(("walk")@), vrule(R_SP), vrule(R_DIRECTION)]), vseq(seq![vlit(("zap")@), vrule(R_SP), vrule(R_MESSAGE)])])]);
    }
    let v32: Vec<Term<ScriptTag>> = vec![seq(v8), seq(v15), seq(v25), seq(v31), rule(R_MESSAGE)];
    proof {
        crate::ir::lemma_views_from(v32@, 0);
        assert(views_from(v32@, 0) =~= seq![vseq(seq![vpos(vrng('b', 'c')), vcho(seq![vseq(seq![vlit(("become")@), vrule(R_SP), vrule(R_KIND)]), vseq(seq![vlit(("bind")@), vrule(R_SP), vrule(R_WORD)]), vseq(seq![vlit(("change")@), vrule(R_SP), vrule(R_KIND), vrule(R_SP), vrule(R_KIND)]), vseq(seq![vlit(("char")@), vrule(R_SP), vrule(R_VALUE)]), vseq(seq![vlit(("clear")@), vrule(R_SP), vrule(R_WORD)]), vseq(seq![vlit(("cycle")@), vrule(R_SP), vrule(R_VALUE)])])]), vseq(seq![vpos(vrng('d', 'l')), vcho(seq![vseq(seq![vlit(("die")@), vrule(R_EOW)]), vseq(seq![vlit(("end")@), vopt(vlit(("game")@)), vrule(R_EOW)]), vseq(seq![vlit(("go")@), vrule(R_SP), vrule(R_DIRECTION)]), vseq(seq![vlit(("idle")@), vrule(R_EOW)]), vseq(seq![vlit(("lock")@), vrule(R_EOW)])])]), vseq(seq![vpos(vrng('p', 's')), vcho(seq![vseq(seq![vlit(("play")@), vrule(R_EOW), vstar(vseq(seq![vneg(vlit(("\n")@)), TermView::AnyChar]))]), vseq(seq![vlit(("put")@), vrule(R_SP), vrule(R_DIRECTION), vrule(R_SP), vrule(R_KIND)]), vseq(seq![vlit(("restart")@), vrule(R_EOW)]), vseq(seq![vlit(("restore")@), vrule(R_SP), vrule(R_MESSAGE)]), vseq(seq![vlit(("send")@), vrule(R_SP), vrule(R_MESSAGE)]), vseq(seq![vlit(("set")@), vrule(R_SP), vrule(R_WORD)]), vseq(seq![vlit(("shoot")@), vrule(R_SP), vrule(R_DIRECTION)])])]), vseq(seq![vpos(vrng('t', 'z')), vcho(seq![vseq(seq![vlit(("throwstar")@), vrule(R_SP), vrule(R_DIRECTION)]), vseq(seq![vlit(("unlock")@), vrule(R_EOW)]), vseq(seq![vlit(("walk")@), vrule(R_SP), vrule(R_DIRECTION)]), vseq(seq![vlit(("zap")@), vrule(R_SP), vrule(R_MESSAGE)])])]), vrule(R_MESSAGE)]);
    }
    let v33: Vec<Term<ScriptTag>> = vec![cho(v32), rule(R_WARN_TRAILING), rule(R_EOL)];
    proof {
        crate::ir::lemma_views_from(v33@, 0);
        assert(views_from(v33@, 0) =~= seq![vcho(seq![vseq(seq![vpos(vrng('b', 'c')), vcho(seq![vseq(seq![vlit(("become")@), vrule(R_SP), vrule(R_KIND)]), vseq(seq![vlit(("bind")@), vrule(R_SP), vrule(R_WORD)]), vseq(seq![vlit(("change")@), vrule(R_SP), vrule(R_KIND), vrule(R_SP), vrule(R_KIND)]), vseq(seq![vlit(("char")@), vrule(R_SP), vrule(R_VALUE)]), vseq(seq![vlit(("clear")@), vrule(R_SP), vrule(R_WORD)]), vseq(seq![vlit(("cycle")@), vrule(R_SP), vrule(R_VALUE)])])]), vseq(seq![vpos(vrng('d', 'l')), vcho(seq![vseq(seq![vlit(("die")@), vrule(R_EOW)]), vseq(seq![vlit(("end")@), vopt(vlit(("game")@)), vrule(R_EOW)]), vseq(seq![vlit(("go")@), vrule(R_SP), vrule(R_DIRECTION)]), vseq(seq![vlit(("idle")@), vrule(R_EOW)]), vseq(seq![vlit(("lock")@), vrule(R_EOW)])])]), vseq(seq![vpos(vrng('p', 's')), vcho(seq![vseq(seq![vlit(("play")@), vrule(R_EOW), vstar(vseq(seq![vneg(vlit(("\n")@)), TermView::AnyChar]))]), vseq(seq![vlit(("put")@), vrule(R_SP), vrule(R_DIRECTION), vrule(R_SP), vrule(R_KIND)]), vseq(seq![vlit(("restart")@), vrule(R_EOW)]), vseq(seq![vlit(("restore")@), vrule(R_SP), vrule(R_MESSAGE)]), vseq(seq![vlit(("send")@), vrule(R_SP), vrule(R_MESSAGE)]), vseq(seq![vlit(("set")@), vrule(R_SP), vrule(R_WORD)]), vseq(seq![vlit(("shoot")@), vrule(R_SP), vrule(R_DIRECTION)])])]), vseq(seq![vpos(vrng('t', 'z')), vcho(seq![vseq(seq![vlit(("throwstar")@), vrule(R_SP), vrule(R_DIRECTION)]), vseq(seq![vlit(("unlock")@), vrule(R_EOW)]), vseq(seq![vlit(("walk")@), vrule(R_SP), vrule(R_DIRECTION)]), vseq(seq![vlit(("zap")@), vrule(R_SP), vrule(R_MESSAGE)])])]), vrule(R_MESSAGE)]), vrule(R_WARN_TRAILING), vrule(R_EOL)]);
    }
    let v34 = seq(v33);
    make_icase(&v34)
}

/// color = ("blue" / "green" / "cyan" / "red" / "purple" / "yellow" /
///          "white") eow, case-folded
pub open spec fn v_color() -> TermView<ScriptTag> {
    icase_view(vseq(seq![vcho(seq![vlit(("blue")@), vlit(("green")@), vlit(("cyan")@), vlit(("red")@), vlit(("purple")@), vlit(("yellow")@), vlit(("white")@)]), vrule(R_EOW)]))
}

// color = ("blue" / "green" / "cyan" / "red" / "purple" / "yellow" /
//          "white") eow, case-folded
fn r_color() -> (r: Term<ScriptTag>)
    ensures
        term_view(r) == v_color(),
{
    let v1: Vec<Term<ScriptTag>> = vec![lit("blue"), lit("green"), lit("cyan"), lit("red"), lit("purple"), lit("yellow"), lit("white")];
    proof {
        crate::ir::lemma_views_from(v1@, 0);
        assert(views_from(v1@, 0) =~= seq![vlit(("blue")@), vlit(("green")@), vlit(("cyan")@), vlit(("red")@), vlit(("purple")@), vlit(("yellow")@), vlit(("white")@)]);
    }
    let v2: Vec<Term<ScriptTag>> = vec![cho(v1), rule(R_EOW)];
    proof {
        crate::ir::lemma_views_from(v2@, 0);
        assert(views_from(v2@, 0) =~= seq![vcho(seq![vlit(("blue")@), vlit(("green")@), vlit(("cyan")@), vlit(("red")@), vlit(("purple")@), vlit(("yellow")@), vlit(("white")@)]), vrule(R_EOW)]);
    }
    let v3 = seq(v2);
    make_icase(&v3)
}

/// condition = ("not"i sp)* base_condition
pub open spec fn v_condition() -> TermView<ScriptTag> {
    vseq(seq![vstar(vseq(seq![vlit_i(("not")@), vrule(R_SP)])), vrule(R_BASE_CONDITION)])
}

// condition = ("not"i sp)* base_condition
fn r_condition() -> (r: Term<ScriptTag>)
    ensures
        term_view(r) == v_condition(),
{
    let v1: Vec<Term<ScriptTag>> = vec![lit_i("not"), rule(R_SP)];
    proof {
        crate::ir::lemma_views_from(v1@, 0);
        assert(views_from(v1@, 0) =~= seq![vlit_i(("not")@), vrule(R_SP)]);
    }
    let v2: Vec<Term<ScriptTag>> = vec![star(seq(v1)), rule(R_BASE_CONDITION)];
    proof {
        crate::ir::lemma_views_from(v2@, 0);
        assert(views_from(v2@, 0) =~= seq![vstar(vseq(seq![vlit_i(("not")@), vrule(R_SP)])), vrule(R_BASE_CONDITION)]);
    }
    seq(v2)
}

/// base_condition, case-folded; each literal needs eow or sp right after
/// it, because it could also be a prefix of a flag name.
pub open spec fn v_base_condition() -> TermView<ScriptTag> {
    icase_view(vcho(seq![vseq(seq![vlit(("alligned")@), vrule(R_EOW)]), vseq(seq![vlit(("any")@), vrule(R_SP), vrule(R_KIND)]), vseq(seq![vlit(("blocked")@), vrule(R_SP), vrule(R_DIRECTION)]), vseq(seq![vlit(("contact")@), vrule(R_EOW)]), vseq(seq![vlit(("energized")@), vrule(R_EOW)]), vrule(R_WORD)]))
}

// base_condition, case-folded; each literal needs eow or sp right after
// it, because it could also be a prefix of a flag name.
fn r_base_condition() -> (r: Term<ScriptTag>)
    ensures
        term_view(r) == v_base_condition(),
{
    let v1: Vec<Term<ScriptTag>> = vec![lit("alligned"), rule(R_EOW)];
    proof {
        crate::ir::lemma_views_from(v1@, 0);
        assert(views_from(v1@, 0) =~= seq![vlit(("alligned")@), vrule(R_EOW)]);
    }
    let v2: Vec<Term<ScriptTag>> = vec![lit("any"), rule(R_SP), rule(R_KIND)];
    proof {
        crate::ir::lemma_views_from(v2@, 0);
        assert(views_from(v2@, 0) =~= seq![vlit(("any")@), vrule(R_SP), vrule(R_KIND)]);
    }
    let v3: Vec<Term<ScriptTag>> = vec![lit("blocked"), rule(R_SP), rule(R_DIRECTION)];
    proof {
        crate::ir::lemma_views_from(v3@, 0);
        assert(views_from(v3@, 0) =~= seq![vlit(("blocked")@), vrule(R_SP), vrule(R_DIRECTION)]);
    }
    let v4: Vec<Term<ScriptTag>> = vec![lit("contact"), rule(R_EOW)];
    proof {
        crate::ir::lemma_views_from(v4@, 0);
        assert(views_from(v4@, 0) =~= seq![vlit(("contact")@), vrule(R_EOW)]);
    }
    let v5: Vec<Term<ScriptTag>> = vec![lit("energized"), rule(R_EOW)];
    proof {
        crate::ir::lemma_views_from(v5@, 0);
        assert(views_from(v5@, 0) =~= seq![vlit(("energized")@), vrule(R_EOW)]);
    }
    let v6: Vec<Term<ScriptTag>> = vec![seq(v1), seq(v2), seq(v3), seq(v4), seq(v5), rule(R_WORD)];
    proof {
        crate::ir::lemma_views_from(v6@, 0);
        assert(views_from(v6@, 0) =~= seq![vseq(seq![vlit(("alligned")@), vrule(R_EOW)]), vseq(seq![vlit(("any")@), vrule(R_SP), vrule(R_KIND)]), vseq(seq![vlit(("blocked")@), vrule(R_SP), vrule(R_DIRECTION)]), vseq(seq![vlit(("contact")@), vrule(R_EOW)]), vseq(seq![vlit(("energized")@), vrule(R_EOW)]), vrule(R_WORD)]);
    }
    let v7 = cho(v6);
    make_icase(&v7)
}

/// counter = ("ammo" / "gems" / "health" / "score" / "time" / "torches") eow
pub open spec fn v_counter() -> TermView<ScriptTag> {
    vseq(seq![vcho(seq![vlit(("ammo")@), vlit(("gems")@), vlit(("health")@), vlit(("score")@), vlit(("time")@), vlit(("torches")@)]), vrule(R_EOW)])
}

// counter = ("ammo" / "gems" / "health" / "score" / "time" / "torches") eow
fn r_counter() -> (r: Term<ScriptTag>)
    ensures
        term_view(r) == v_counter(),
{
    let v1: Vec<Term<ScriptTag>> = vec![lit("ammo"), lit("gems"), lit("health"), lit("score"), lit("time"), lit("torches")];
    proof {
        crate::ir::lemma_views_from(v1@, 0);
        assert(views_from(v1@, 0) =~= seq![vlit(("ammo")@), vlit(("gems")@), vlit(("health")@), vlit(("score")@), vlit(("time")@), vlit(("torches")@)]);
    }
    let v2: Vec<Term<ScriptTag>> = vec![cho(v1), rule(R_EOW)];
    proof {
        crate::ir::lemma_views_from(v2@, 0);
        assert(views_from(v2@, 0) =~= seq![vcho(seq![vlit(("ammo")@), vlit(("gems")@), vlit(("health")@), vlit(("score")@), vlit(("time")@), vlit(("torches")@)]), vrule(R_EOW)]);
    }
    seq(v2)
}

/// direction = (direction_modifier sp)* base_direction
pub open spec fn v_direction() -> TermView<ScriptTag> {
    vseq(seq![vstar(vseq(seq![vrule(R_DIRECTION_MODIFIER), vrule(R_SP)])), vrule(R_BASE_DIRECTION)])
}

// direction = (direction_modifier sp)* base_direction
fn r_direction() -> (r: Term<ScriptTag>)
    ensures
        term_view(r) == v_direction(),
{
    let v1: Vec<Term<ScriptTag>> = vec![rule(R_DIRECTION_MODIFIER), rule(R_SP)];
    proof {
        crate::ir::lemma_views_from(v1@, 0);
        assert(views_from(v1@, 0) =~= seq![vrule(R_DIRECTION_MODIFIER), vrule(R_SP)]);
    }
    let v2: Vec<Term<ScriptTag>> = vec![star(seq(v1)), rule(R_BASE_DIRECTION)];
    proof {
        crate::ir::lemma_views_from(v2@, 0);
        assert(views_from(v2@, 0) =~= seq![vstar(vseq(seq![vrule(R_DIRECTION_MODIFIER), vrule(R_SP)])), vrule(R_BASE_DIRECTION)]);
    }
    seq(v2)
}

/// direction_modifier = ("cw" / "ccw" / "opp" / "rndp") eow, case-folded
pub open spec fn v_direction_modifier() -> TermView<ScriptTag> {
    icase_view(vseq(seq![vcho(seq![vlit(("cw")@), vlit(("ccw")@), vlit(("opp")@), vlit(("rndp")@)]), vrule(R_EOW)]))
}

// direction_modifier = ("cw" / "ccw" / "opp" / "rndp") eow, case-folded
fn r_direction_modifier() -> (r: Term<ScriptTag>)
    ensures
        term_view(r) == v_direction_modifier(),
{
    let v1: Vec<Term<ScriptTag>> = vec![lit("cw"), lit("ccw"), lit("opp"), lit("rndp")];
    proof {
        crate::ir::lemma_views_from(v1@, 0);
        assert(views_from(v1@, 0) =~= seq![vlit(("cw")@), vlit(("ccw")@), vlit(("opp")@), vlit(("rndp")@)]);
    }
    let v2: Vec<Term<ScriptTag>> = vec![cho(v1), rule(R_EOW)];
    proof {
        crate::ir::lemma_views_from(v2@, 0);
        assert(views_from(v2@, 0) =~= seq![vcho(seq![vlit(("cw")@), vlit(("ccw")@), vlit(("opp")@), vlit(("rndp")@)]), vrule(R_EOW)]);
    }
    let v3 = seq(v2);
    make_icase(&v3)
}

/// base_direction = dynamic, long and short forms, then eow, case-folded
pub open spec fn v_base_direction() -> TermView<ScriptTag> {
    icase_view(vseq(seq![vcho(seq![vlit(("flow")@), vseq(seq![vlit(("rnd")@), vopt(vcho(seq![vlit(("ne")@), vlit(("ns")@)]))]), vlit(("seek")@), vlit(("north")@), vlit(("south")@), vlit(("east")@), vlit(("west")@), vlit(("idle")@), vlit(("n")@), vlit(("s")@), vlit(("e")@), vlit(("w")@), vlit(("i")@)]), vrule(R_EOW)]))
}

// base_direction = dynamic, long and short forms, then eow, case-folded
fn r_base_direction() -> (r: Term<ScriptTag>)
    ensures
        term_view(r) == v_base_direction(),
{
    let v1: Vec<Term<ScriptTag>> = vec![lit("ne"), lit("ns")];
    proof {
        crate::ir::lemma_views_from(v1@, 0);
        assert(views_from(v1@, 0) =~= seq![vlit(("ne")@), vlit(("ns")@)]);
    }
    let v2: Vec<Term<ScriptTag>> = vec![lit("rnd"), opt(cho(v1))];
    proof {
        crate::ir::lemma_views_from(v2@, 0);
        assert(views_from(v2@, 0) =~= seq![vlit(("rnd")@), vopt(vcho(seq![vlit(("ne")@), vlit(("ns")@)]))]);
    }
    let v3: Vec<Term<ScriptTag>> = vec![lit("flow"), seq(v2), lit("seek"), lit("north"), lit("south"), lit("east"), lit("west"), lit("idle"), lit("n"), lit("s"), lit("e"), lit("w"), lit("i")];
    proof {
        crate::ir::lemma_views_from(v3@, 0);
        assert(views_from(v3@, 0) =~= seq![vlit(("flow")@), vseq(seq![vlit(("rnd")@), vopt(vcho(seq![vlit(("ne")@), vlit(("ns")@)]))]), vlit(("seek")@), vlit(("north")@), vlit(("south")@), vlit(("east")@), vlit(("west")@), vlit(("idle")@), vlit(("n")@), vlit(("s")@), vlit(("e")@), vlit(("w")@), vlit(("i")@)]);
    }
    let v4: Vec<Term<ScriptTag>> = vec![cho(v3), rule(R_EOW)];
    proof {
        crate::ir::lemma_views_from(v4@, 0);
        assert(views_from(v4@, 0) =~= seq![vcho(seq![vlit(("flow")@), vseq(seq![vlit(("rnd")@), vopt(vcho(seq![vlit(("ne")@), vlit(("ns")@)]))]), vlit(("seek")@), vlit(("north")@), vlit(("south")@), vlit(("east")@), vlit(("west")@), vlit(("idle")@), vlit(("n")@), vlit(("s")@), vlit(("e")@), vlit(("w")@), vlit(("i")@)]), vrule(R_EOW)]);
    }
    let v5 = seq(v4);
    make_icase(&v5)
}

/// label = #Label:(namespace? (label_name / #Anon:"@"))
pub open spec fn v_label() -> TermView<ScriptTag> {
    vcap(ScriptTag::Label, vseq(seq![vopt(vrule(R_NAMESPACE)), vcho(seq![vrule(R_LABEL_NAME), vcap(ScriptTag::Anon, vlit(("@")@))])]))
}

// label = #Label:(namespace? (label_name / #Anon:"@"))
fn r_label() -> (r: Term<ScriptTag>)
    ensures
        term_view(r) == v_label(),
{
    let v1: Vec<Term<ScriptTag>> = vec![rule(R_LABEL_NAME), cap(ScriptTag::Anon, lit("@"))];
    proof {
        crate::ir::lemma_views_from(v1@, 0);
        assert(views_from(v1@, 0) =~= seq![vrule(R_LABEL_NAME), vcap(ScriptTag::Anon, vlit(("@")@))]);
    }
    let v2: Vec<Term<ScriptTag>> = vec![opt(rule(R_NAMESPACE)), cho(v1)];
    proof {
        crate::ir::lemma_views_from(v2@, 0);
        assert(views_from(v2@, 0) =~= seq![vopt(vrule(R_NAMESPACE)), vcho(seq![vrule(R_LABEL_NAME), vcap(ScriptTag::Anon, vlit(("@")@))])]);
    }
    cap(ScriptTag::Label, seq(v2))
}

/// namespace = #Namespace:label_word "~"
pub open spec fn v_namespace() -> TermView<ScriptTag> {
    vseq(seq![vcap(ScriptTag::Namespace, vrule(R_LABEL_WORD)), vlit(("~")@)])
}

// namespace = #Namespace:label_word "~"
fn r_namespace() -> (r: Term<ScriptTag>)
    ensures
        term_view(r) == v_namespace(),
{
    let v1: Vec<Term<ScriptTag>> = vec![cap(ScriptTag::Namespace, rule(R_LABEL_WORD)), lit("~")];
    proof {
        crate::ir::lemma_views_from(v1@, 0);
        assert(views_from(v1@, 0) =~= seq![vcap(ScriptTag::Namespace, vrule(R_LABEL_WORD)), vlit(("~")@)]);
    }
    seq(v1)
}

/// label_name = label_local / label_global label_local?
pub open spec fn v_label_name() -> TermView<ScriptTag> {
    vcho(seq![vrule(R_LABEL_LOCAL), vseq(seq![vrule(R_LABEL_GLOBAL), vopt(vrule(R_LABEL_LOCAL))])])
}

// label_name = label_local / label_global label_local?
fn r_label_name() -> (r: Term<ScriptTag>)
    ensures
        term_view(r) == v_label_name(),
{
    let v1: Vec<Term<ScriptTag>> = vec![rule(R_LABEL_GLOBAL), opt(rule(R_LABEL_LOCAL))];
    proof {
        crate::ir::lemma_views_from(v1@, 0);
        assert(views_from(v1@, 0) =~= seq![vrule(R_LABEL_GLOBAL), vopt(vrule(R_LABEL_LOCAL))]);
    }
    let v2: Vec<Term<ScriptTag>> = vec![rule(R_LABEL_LOCAL), seq(v1)];
    proof {
        crate::ir::lemma_views_from(v2@, 0);
        assert(views_from(v2@, 0) =~= seq![vrule(R_LABEL_LOCAL), vseq(seq![vrule(R_LABEL_GLOBAL), vopt(vrule(R_LABEL_LOCAL))])]);
    }
    cho(v2)
}

/// label_global = #Global:label_word
pub open spec fn v_label_global() -> TermView<ScriptTag> {
    vcap(ScriptTag::Global, vrule(R_LABEL_WORD))
}

// label_global = #Global:label_word
fn r_label_global() -> (r: Term<ScriptTag>)
    ensures
        term_view(r) == v_label_global(),
{
    cap(ScriptTag::Global, rule(R_LABEL_WORD))
}

/// label_local = "." #Local:label_word
pub open spec fn v_label_local() -> TermView<ScriptTag> {
    vseq(seq![vlit((".")@), vcap(ScriptTag::Local, vrule(R_LABEL_WORD))])
}

// label_local = "." #Local:label_word
fn r_label_local() -> (r: Term<ScriptTag>)
    ensures
        term_view(r) == v_label_local(),
{
    let v1: Vec<Term<ScriptTag>> = vec![lit("."), cap(ScriptTag::Local, rule(R_LABEL_WORD))];
    proof {
        crate::ir::lemma_views_from(v1@, 0);
        assert(views_from(v1@, 0) =~= seq![vlit((".")@), vcap(ScriptTag::Local, vrule(R_LABEL_WORD))]);
    }
    seq(v1)
}

/// label_word = word_char+  (labels may start with a digit)
pub open spec fn v_label_word() -> TermView<ScriptTag> {
    vplus(vrule(R_WORD_CHAR))
}

// label_word = word_char+  (labels may start with a digit)
fn r_label_word() -> (r: Term<ScriptTag>)
    ensures
        term_view(r) == v_label_word(),
{
    plus(rule(R_WORD_CHAR))
}

/// message = #Reference:(recipient? #Label:message_name)
pub open spec fn v_message() -> TermView<ScriptTag> {
    vcap(ScriptTag::Reference, vseq(seq![vopt(vrule(R_RECIPIENT)), vcap(ScriptTag::Label, vrule(R_MESSAGE_NAME))]))
}

// message = #Reference:(recipient? #Label:message_name)
fn r_message() -> (r: Term<ScriptTag>)
    ensures
        term_view(r) == v_message(),
{
    let v1: Vec<Term<ScriptTag>> = vec![opt(rule(R_RECIPIENT)), cap(ScriptTag::Label, rule(R_MESSAGE_NAME))];
    proof {
        crate::ir::lemma_views_from(v1@, 0);
        assert(views_from(v1@, 0) =~= seq![vopt(vrule(R_RECIPIENT)), vcap(ScriptTag::Label, vrule(R_MESSAGE_NAME))]);
    }
    cap(ScriptTag::Reference, seq(v1))
}

/// recipient = #Recipient:word ":"
pub open spec fn v_recipient() -> TermView<ScriptTag> {
    vseq(seq![vcap(ScriptTag::Recipient, vrule(R_WORD)), vlit((":")@)])
}

// recipient = #Recipient:word ":"
fn r_recipient() -> (r: Term<ScriptTag>)
    ensures
        term_view(r) == v_recipient(),
{
    let v1: Vec<Term<ScriptTag>> = vec![cap(ScriptTag::Recipient, rule(R_WORD)), lit(":")];
    proof {
        crate::ir::lemma_views_from(v1@, 0);
        assert(views_from(v1@, 0) =~= seq![vcap(ScriptTag::Recipient, vrule(R_WORD)), vlit((":")@)]);
    }
    seq(v1)
}

/// message_name = namespace? (label_name / #Anon:anon_message)
pub open spec fn v_message_name() -> TermView<ScriptTag> {
    vseq(seq![vopt(vrule(R_NAMESPACE)), vcho(seq![vrule(R_LABEL_NAME), vcap(ScriptTag::Anon, vrule(R_ANON_MESSAGE))])])
}

// message_name = namespace? (label_name / #Anon:anon_message)
fn r_message_name() -> (r: Term<ScriptTag>)
    ensures
        term_view(r) == v_message_name(),
{
    let v1: Vec<Term<ScriptTag>> = vec![rule(R_LABEL_NAME), cap(ScriptTag::Anon, rule(R_ANON_MESSAGE))];
    proof {
        crate::ir::lemma_views_from(v1@, 0);
        assert(views_from(v1@, 0) =~= seq![vrule(R_LABEL_NAME), vcap(ScriptTag::Anon, vrule(R_ANON_MESSAGE))]);
    }
    let v2: Vec<Term<ScriptTag>> = vec![opt(rule(R_NAMESPACE)), cho(v1)];
    proof {
        crate::ir::lemma_views_from(v2@, 0);
        assert(views_from(v2@, 0) =~= seq![vopt(vrule(R_NAMESPACE)), vcho(seq![vrule(R_LABEL_NAME), vcap(ScriptTag::Anon, vrule(R_ANON_MESSAGE))])]);
    }
    seq(v2)
}

/// anon_message = "@" ("b" / "f")
pub open spec fn v_anon_message() -> TermView<ScriptTag> {
    vseq(seq![vlit(("@")@), vcho(seq![vlit(("b")@), vlit(("f")@)])])
}

// anon_message = "@" ("b" / "f")
fn r_anon_message() -> (r: Term<ScriptTag>)
    ensures
        term_view(r) == v_anon_message(),
{
    let v1: Vec<Term<ScriptTag>> = vec![lit("b"), lit("f")];
    proof {
        crate::ir::lemma_views_from(v1@, 0);
        assert(views_from(v1@, 0) =~= seq![vlit(("b")@), vlit(("f")@)]);
    }
    let v2: Vec<Term<ScriptTag>> = vec![lit("@"), cho(v1)];
    proof {
        crate::ir::lemma_views_from(v2@, 0);
        assert(views_from(v2@, 0) =~= seq![vlit(("@")@), vcho(seq![vlit(("b")@), vlit(("f")@)])]);
    }
    seq(v2)
}

/// kind = (color sp)? base_kind
pub open spec fn v_kind() -> TermView<ScriptTag> {
    vseq(seq![vopt(vseq(seq![vrule(R_COLOR), vrule(R_SP)])), vrule(R_BASE_KIND)])
}

// kind = (color sp)? base_kind
fn r_kind() -> (r: Term<ScriptTag>)
    ensures
        term_view(r) == v_kind(),
{
    let v1: Vec<Term<ScriptTag>> = vec![rule(R_COLOR), rule(R_SP)];
    proof {
        crate::ir::lemma_views_from(v1@, 0);
        assert(views_from(v1@, 0) =~= seq![vrule(R_COLOR), vrule(R_SP)]);
    }
    let v2: Vec<Term<ScriptTag>> = vec![opt(seq(v1)), rule(R_BASE_KIND)];
    proof {
        crate::ir::lemma_views_from(v2@, 0);
        assert(views_from(v2@, 0) =~= seq![vopt(vseq(seq![vrule(R_COLOR), vrule(R_SP)])), vrule(R_BASE_KIND)]);
    }
    seq(v2)
}

/// base_kind: the closed set of tile kinds grouped by first letter, then
/// eow, case-folded
pub open spec fn v_base_kind() -> TermView<ScriptTag> {
    icase_view(vseq(seq![vcho(seq![vseq(seq![vpos(vrng('a', 'b')), vcho(seq![vlit(("ammo")@), vlit(("bear")@), vlit(("blinkwall")@), vlit(("bomb")@), vlit(("boulder")@), vlit(("breakable")@), vlit(("bullet")@)])]), vseq(seq![vpos(vrng('c', 'e')), vcho(seq![vlit(("clockwise")@), vlit(("counter")@), vlit(("door")@), vlit(("duplicator")@), vlit(("empty")@), vlit(("energizer")@)])]), vseq(seq![vpos(vrng('f', 'k')), vcho(seq![vlit(("fake")@), vlit(("forest")@), vlit(("gem")@), vlit(("head")@), vlit(("invisible")@), vlit(("key")@)])]), vseq(seq![vpos(vrng('l', 'o')), vcho(seq![vlit(("line")@), vlit(("lion")@), vlit(("monitor")@), vlit(("normal")@), vlit(("object")@)])]), vseq(seq![vpos(vrng('p', 'r')), vcho(seq![vlit(("passage")@), vlit(("player")@), vlit(("pusher")@), vlit(("ricochet")@), vlit(("ruffian")@)])]), vseq(seq![vpos(vlit(("s")@)), vcho(seq![vlit(("scroll")@), vlit(("segment")@), vlit(("shark")@), vseq(seq![vlit(("slider")@), vcho(seq![vlit(("ew")@), vlit(("ns")@)])]), vlit(("slime")@), vlit(("solid")@), vlit(("spinninggun")@), vlit(("star")@)])]), vseq(seq![vpos(vrng('t', 'w')), vcho(seq![vlit(("tiger")@), vlit(("torch")@), vlit(("transporter")@), vlit(("water")@)])])]), vrule(R_EOW)]))
}

// base_kind: the closed set of tile kinds grouped by first letter, then
// eow, case-folded
fn r_base_kind() -> (r: Term<ScriptTag>)
    ensures
        term_view(r) == v_base_kind(),
{
    let v1: Vec<Term<ScriptTag>> = vec![lit("ammo"), lit("bear"), lit("blinkwall"), lit("bomb"), lit("boulder"), lit("breakable"), lit("bullet")];
    proof {
        crate::ir::lemma_views_from(v1@, 0);
        assert(views_from(v1@, 0) =~= seq![vlit(("ammo")@), vlit(("bear")@), vlit(("blinkwall")@), vlit(("bomb")@), vlit(("boulder")@), vlit(("breakable")@), vlit(("bullet")@)]);
    }
    let v2: Vec<Term<ScriptTag>> = vec![pos(rng('a', 'b')), cho(v1)];
    proof {
        crate::ir::lemma_views_from(v2@, 0);
        assert(views_from(v2@, 0) =~= seq![vpos(vrng('a', 'b')), vcho(seq![vlit(("ammo")@), vlit(("bear")@), vlit(("blinkwall")@), vlit(("bomb")@), vlit(("boulder")@), vlit(("breakable")@), vlit(("bullet")@)])]);
    }
    let v3: Vec<Term<ScriptTag>> = vec![lit("clockwise"), lit("counter"), lit("door"), lit("duplicator"), lit("empty"), lit("energizer")];
    proof {
        crate::ir::lemma_views_from(v3@, 0);
        assert(views_from(v3@, 0) =~= seq![vlit(("clockwise")@), vlit(("counter")@), vlit(("door")@), vlit(("duplicator")@), vlit(("empty")@), vlit(("energizer")@)]);
    }
    let v4: Vec<Term<ScriptTag>> = vec![pos(rng('c', 'e')), cho(v3)];
    proof {
        crate::ir::lemma_views_from(v4@, 0);
        assert(views_from(v4@, 0) =~= seq![vpos(vrng('c', 'e')), vcho(seq![vlit(("clockwise")@), vlit(("counter")@), vlit(("door")@), vlit(("duplicator")@), vlit(("empty")@), vlit(("energizer")@)])]);
    }
    let v5: Vec<Term<ScriptTag>> = vec![lit("fake"), lit("forest"), lit("gem"), lit("head"), lit("invisible"), lit("key")];
    proof {
        crate::ir::lemma_views_from(v5@, 0);
        assert(views_from(v5@, 0) =~= seq![vlit(("fake")@), vlit(("forest")@), vlit(("gem")@), vlit(("head")@), vlit(("invisible")@), vlit(("key")@)]);
    }
    let v6: Vec<Term<ScriptTag>> = vec![pos(rng('f', 'k')), cho(v5)];
    proof {
        crate::ir::lemma_views_from(v6@, 0);
        assert(views_from(v6@, 0) =~= seq![vpos(vrng('f', 'k')), vcho(seq![vlit(("fake")@), vlit(("forest")@), vlit(("gem")@), vlit(("head")@), vlit(("invisible")@), vlit(("key")@)])]);
    }
    let v7: Vec<Term<ScriptTag>> = vec![lit("line"), lit("lion"), lit("monitor"), lit("normal"), lit("object")];
    proof {
        crate::ir::lemma_views_from(v7@, 0);
        assert(views_from(v7@, 0) =~= seq![vlit(("line")@), vlit(("lion")@), vlit(("monitor")@), vlit(("normal")@), vlit(("object")@)]);
    }
    let v8: Vec<Term<ScriptTag>> = vec![pos(rng('l', 'o')), cho(v7)];
    proof {
        crate::ir::lemma_views_from(v8@, 0);
        assert(views_from(v8@, 0) =~= seq![vpos(vrng('l', 'o')), vcho(seq![vlit(("line")@), vlit(("lion")@), vlit(("monitor")@), vlit(("normal")@), vlit(("object")@)])]);
    }
    let v9: Vec<Term<ScriptTag>> = vec![lit("passage"), lit("player"), lit("pusher"), lit("ricochet"), lit("ruffian")];
    proof {
        crate::ir::lemma_views_from(v9@, 0);
        assert(views_from(v9@, 0) =~= seq![vlit(("passage")@), vlit(("player")@), vlit(("pusher")@), vlit(("ricochet")@), vlit(("ruffian")@)]);
    }
    let v10: Vec<Term<ScriptTag>> = vec![pos(rng('p', 'r')), cho(v9)];
    proof {
        crate::ir::lemma_views_from(v10@, 0);
        assert(views_from(v10@, 0) =~= seq![vpos(vrng('p', 'r')), vcho(seq![vlit(("passage")@), vlit(("player")@), vlit(("pusher")@), vlit(("ricochet")@), vlit(("ruffian")@)])]);
    }
    let v11: Vec<Term<ScriptTag>> = vec![lit("ew"), lit("ns")];
    proof {
        crate::ir::lemma_views_from(v11@, 0);
        assert(views_from(v11@, 0) =~= seq![vlit(("ew")@), vlit(("ns")@)]);
    }
    let v12: Vec<Term<ScriptTag>> = vec![lit("slider"), cho(v11)];
    proof {
        crate::ir::lemma_views_from(v12@, 0);
        assert(views_from(v12@, 0) =~= seq![vlit(("slider")@), vcho(seq![vlit(("ew")@), vlit(("ns")@)])]);
    }
    let v13: Vec<Term<ScriptTag>> = vec![lit("scroll"), lit("segment"), lit("shark"), seq(v12), lit("slime"), lit("solid"), lit("spinninggun"), lit("star")];
    proof {
        crate::ir::lemma_views_from(v13@, 0);
        assert(views_from(v13@, 0) =~= seq![vlit(("scroll")@), vlit(("segment")@), vlit(("shark")@), vseq(seq![vlit(("slider")@), vcho(seq![vlit(("ew")@), vlit(("ns")@)])]), vlit(("slime")@), vlit(("solid")@), vlit(("spinninggun")@), vlit(("star")@)]);
    }
    let v14: Vec<Term<ScriptTag>> = vec![pos(lit("s")), cho(v13)];
    proof {
        crate::ir::lemma_views_from(v14@, 0);
        assert(views_from(v14@, 0) =~= seq![vpos(vlit(("s")@)), vcho(seq![vlit(("scroll")@), vlit(("segment")@), vlit(("shark")@), vseq(seq![vlit(("slider")@), vcho(seq![vlit(("ew")@), vlit(("ns")@)])]), vlit(("slime")@), vlit(("solid")@), vlit(("spinninggun")@), vlit(("star")@)])]);
    }
    let v15: Vec<Term<ScriptTag>> = vec![lit("tiger"), lit("torch"), lit("transporter"), lit("water")];
    proof {
        crate::ir::lemma_views_from(v15@, 0);
        assert(views_from(v15@, 0) =~= seq![vlit(("tiger")@), vlit(("torch")@), vlit(("transporter")@), vlit(("water")@)]);
    }
    let v16: Vec<Term<ScriptTag>> = vec![pos(rng('t', 'w')), cho(v15)];
    proof {
        crate::ir::lemma_views_from(v16@, 0);
        assert(views_from(v16@, 0) =~= seq![vpos(vrng('t', 'w')), vcho(seq![vlit(("tiger")@), vlit(("torch")@), vlit(("transporter")@), vlit(("water")@)])]);
    }
    let v17: Vec<Term<ScriptTag>> = vec![seq(v2), seq(v4), seq(v6), seq(v8), seq(v10), seq(v14), seq(v16)];
    proof {
        crate::ir::lemma_views_from(v17@, 0);
        assert(views_from(v17@, 0) =~= seq![vseq(seq![vpos(vrng('a', 'b')), vcho(seq![vlit(("ammo")@), vlit(("bear")@), vlit(("blinkwall")@), vlit(("bomb")@), vlit(("boulder")@), vlit(("breakable")@), vlit(("bullet")@)])]), vseq(seq![vpos(vrng('c', 'e')), vcho(seq![vlit(("clockwise")@), vlit(("counter")@), vlit(("door")@), vlit(("duplicator")@), vlit(("empty")@), vlit(("energizer")@)])]), vseq(seq![vpos(vrng('f', 'k')), vcho(seq![vlit(("fake")@), vlit(("forest")@), vlit(("gem")@), vlit(("head")@), vlit(("invisible")@), vlit(("key")@)])]), vseq(seq![vpos(vrng('l', 'o')), vcho(seq![vlit(("line")@), vlit(("lion")@), vlit(("monitor")@), vlit(("normal")@), vlit(("object")@)])]), vseq(seq![vpos(vrng('p', 'r')), vcho(seq![vlit(("passage")@), vlit(("player")@), vlit(("pusher")@), vlit(("ricochet")@), vlit(("ruffian")@)])]), vseq(seq![vpos(vlit(("s")@)), vcho(seq![vlit(("scroll")@), vlit(("segment")@), vlit(("shark")@), vseq(seq![vlit(("slider")@), vcho(seq![vlit(("ew")@), vlit(("ns")@)])]), vlit(("slime")@), vlit(("solid")@), vlit(("spinninggun")@), vlit(("star")@)])]), vseq(seq![vpos(vrng('t', 'w')), vcho(seq![vlit(("tiger")@), vlit(("torch")@), vlit(("transporter")@), vlit(("water")@)])])]);
    }
    let v18: Vec<Term<ScriptTag>> = vec![cho(v17), rule(R_EOW)];
    proof {
        crate::ir::lemma_views_from(v18@, 0);
        assert(views_from(v18@, 0) =~= seq![vcho(seq![vseq(seq![vpos(vrng('a', 'b')), vcho(seq![vlit(("ammo")@), vlit(("bear")@), vlit(("blinkwall")@), vlit(("bomb")@), vlit(("boulder")@), vlit(("breakable")@), vlit(("bullet")@)])]), vseq(seq![vpos(vrng('c', 'e')), vcho(seq![vlit(("clockwise")@), vlit(("counter")@), vlit(("door")@), vlit(("duplicator")@), vlit(("empty")@), vlit(("energizer")@)])]), vseq(seq![vpos(vrng('f', 'k')), vcho(seq![vlit(("fake")@), vlit(("forest")@), vlit(("gem")@), vlit(("head")@), vlit(("invisible")@), vlit(("key")@)])]), vseq(seq![vpos(vrng('l', 'o')), vcho(seq![vlit(("line")@), vlit(("lion")@), vlit(("monitor")@), vlit(("normal")@), vlit(("object")@)])]), vseq(seq![vpos(vrng('p', 'r')), vcho(seq![vlit(("passage")@), vlit(("player")@), vlit(("pusher")@), vlit(("ricochet")@), vlit(("ruffian")@)])]), vseq(seq![vpos(vlit(("s")@)), vcho(seq![vlit(("scroll")@), vlit(("segment")@), vlit(("shark")@), vseq(seq![vlit(("slider")@), vcho(seq![vlit(("ew")@), vlit(("ns")@)])]), vlit(("slime")@), vlit(("solid")@), vlit(("spinninggun")@), vlit(("star")@)])]), vseq(seq![vpos(vrng('t', 'w')), vcho(seq![vlit(("tiger")@), vlit(("torch")@), vlit(("transporter")@), vlit(("water")@)])])]), vrule(R_EOW)]);
    }
    let v19 = seq(v18);
    make_icase(&v19)
}

/// warn_trailing = (#WarnTrailing:(!eol ANY)+)?
pub open spec fn v_warn_trailing() -> TermView<ScriptTag> {
    vopt(vcap(ScriptTag::WarnTrailing, vplus(vseq(seq![vneg(vrule(R_EOL)), TermView::AnyChar]))))
}

// warn_trailing = (#WarnTrailing:(!eol ANY)+)?
fn r_warn_trailing() -> (r: Term<ScriptTag>)
    ensures
        term_view(r) == v_warn_trailing(),
{
    let v1: Vec<Term<ScriptTag>> = vec![neg(rule(R_EOL)), Term::AnyChar];
    proof {
        crate::ir::lemma_views_from(v1@, 0);
        assert(views_from(v1@, 0) =~= seq![vneg(vrule(R_EOL)), TermView::AnyChar]);
    }
    opt(cap(ScriptTag::WarnTrailing, plus(seq(v1))))
}

/// eol = &("\n" / EOI)
pub open spec fn v_eol() -> TermView<ScriptTag> {
    vpos(vcho(seq![vlit(("\n")@), TermView::EndOfInput]))
}

// eol = &("\n" / EOI)
fn r_eol() -> (r: Term<ScriptTag>)
    ensures
        term_view(r) == v_eol(),
{
    let v1: Vec<Term<ScriptTag>> = vec![lit("\n"), Term::EndOfInput];
    proof {
        crate::ir::lemma_views_from(v1@, 0);
        assert(views_from(v1@, 0) =~= seq![vlit(("\n")@), TermView::EndOfInput]);
    }
    pos(cho(v1))
}

/// eow = !('a'..'z'i / '0'..'9' / "_")
pub open spec fn v_eow() -> TermView<ScriptTag> {
    vneg(vcho(seq![vrng_i('a', 'z'), vrng('0', '9'), vlit(("_")@)]))
}

// eow = !('a'..'z'i / '0'..'9' / "_")
fn r_eow() -> (r: Term<ScriptTag>)
    ensures
        term_view(r) == v_eow(),
{
    let v1: Vec<Term<ScriptTag>> = vec![rng_i('a', 'z'), rng('0', '9'), lit("_")];
    proof {
        crate::ir::lemma_views_from(v1@, 0);
        assert(views_from(v1@, 0) =~= seq![vrng_i('a', 'z'), vrng('0', '9'), vlit(("_")@)]);
    }
    neg(cho(v1))
}

/// s = " "*
pub open spec fn v_s() -> TermView<ScriptTag> {
    vstar(vlit((" ")@))
}

// s = " "*
fn r_s() -> (r: Term<ScriptTag>)
    ensures
        term_view(r) == v_s(),
{
    star(lit(" "))
}

/// sp = " "+
pub open spec fn v_sp() -> TermView<ScriptTag> {
    vplus(vlit((" ")@))
}

// sp = " "+
fn r_sp() -> (r: Term<ScriptTag>)
    ensures
        term_view(r) == v_sp(),
{
    plus(lit(" "))
}

/// value = '0'..'9'+
pub open spec fn v_value() -> TermView<ScriptTag> {
    vplus(vrng('0', '9'))
}

// value = '0'..'9'+
fn r_value() -> (r: Term<ScriptTag>)
    ensures
        term_view(r) == v_value(),
{
    plus(rng('0', '9'))
}

/// word = !'0'..'9' word_char+
pub open spec fn v_word() -> TermView<ScriptTag> {
    vseq(seq![vneg(vrng('0', '9')), vplus(vrule(R_WORD_CHAR))])
}

// word = !'0'..'9' word_char+
fn r_word() -> (r: Term<ScriptTag>)
    ensures
        term_view(r) == v_word(),
{
    let v1: Vec<Term<ScriptTag>> = vec![neg(rng('0', '9')), plus(rule(R_WORD_CHAR))];
    proof {
        crate::ir::lemma_views_from(v1@, 0);
        assert(views_from(v1@, 0) =~= seq![vneg(vrng('0', '9')), vplus(vrule(R_WORD_CHAR))]);
    }
    seq(v1)
}

/// word_char = ('a'..'z'i / '0'..'9' / "_")
pub open spec fn v_word_char() -> TermView<ScriptTag> {
    vcho(seq![vrng_i('a', 'z'), vrng('0', '9'), vlit(("_")@)])
}

// word_char = ('a'..'z'i / '0'..'9' / "_")
fn r_word_char() -> (r: Term<ScriptTag>)
    ensures
        term_view(r) == v_word_char(),
{
    let v1: Vec<Term<ScriptTag>> = vec![rng_i('a', 'z'), rng('0', '9'), lit("_")];
    proof {
        crate::ir::lemma_views_from(v1@, 0);
        assert(views_from(v1@, 0) =~= seq![vrng_i('a', 'z'), vrng('0', '9'), vlit(("_")@)]);
    }
    cho(v1)
}

/// The whole script grammar, as views: one entry per rule, indexed by
/// the `R_` constants.
pub open spec fn script_grammar_view() -> Seq<TermView<ScriptTag>> {
    seq![
        v_program(),
        v_line(),
        v_statement(),
        v_movement(),
        v_text(),
        v_label_line(),
        v_command(),
        v_bare_command(),
        v_bare_compound_command(),
        v_bare_simple_command(),
        v_color(),
        v_condition(),
        v_base_condition(),
        v_counter(),
        v_direction(),
        v_direction_modifier(),
        v_base_direction(),
        v_label(),
        v_namespace(),
        v_label_name(),
        v_label_global(),
        v_label_local(),
        v_label_word(),
        v_message(),
        v_recipient(),
        v_message_name(),
        v_anon_message(),
        v_kind(),
        v_base_kind(),
        v_warn_trailing(),
        v_eol(),
        v_eow(),
        v_s(),
        v_sp(),
        v_value(),
        v_word(),
        v_word_char(),
    ]
}

/// The script grammar, one term per rule, indexed by the `R_` constants;
/// its value is exactly the grammar views above.
pub fn script_grammar() -> (g: Vec<Term<ScriptTag>>)
    ensures
        g@.len() == NUM_RULES,
        views_from(g@, 0) == script_grammar_view(),
{
    let t0 = r_program();
    let t1 = r_line();
    let t2 = r_statement();
    let t3 = r_movement();
    let t4 = r_text();
    let t5 = r_label_line();
    let t6 = r_command();
    let t7 = r_bare_command();
    let t8 = r_bare_compound_command();
    let t9 = r_bare_simple_command();
    let t10 = r_color();
    let t11 = r_condition();
    let t12 = r_base_condition();
    let t13 = r_counter();
    let t14 = r_direction();
    let t15 = r_direction_modifier();
    let t16 = r_base_direction();
    let t17 = r_label();
    let t18 = r_namespace();
    let t19 = r_label_name();
    let t20 = r_label_global();
    let t21 = r_label_local();
    let t22 = r_label_word();
    let t23 = r_message();
    let t24 = r_recipient();
    let t25 = r_message_name();
    let t26 = r_anon_message();
    let t27 = r_kind();
    let t28 = r_base_kind();
    let t29 = r_warn_trailing();
    let t30 = r_eol();
    let t31 = r_eow();
    let t32 = r_s();
    let t33 = r_sp();
    let t34 = r_value();
    let t35 = r_word();
    let t36 = r_word_char();
    let mut g: Vec<Term<ScriptTag>> = Vec::new();
    g.push(t0);
    g.push(t1);
    g.push(t2);
    g.push(t3);
    g.push(t4);
    g.push(t5);
    g.push(t6);
    g.push(t7);
    g.push(t8);
    g.push(t9);
    g.push(t10);
    g.push(t11);
    g.push(t12);
    g.push(t13);
    g.push(t14);
    g.push(t15);
    g.push(t16);
    g.push(t17);
    g.push(t18);
    g.push(t19);
    g.push(t20);
    g.push(t21);
    g.push(t22);
    g.push(t23);
    g.push(t24);
    g.push(t25);
    g.push(t26);
    g.push(t27);
    g.push(t28);
    g.push(t29);
    g.push(t30);
    g.push(t31);
    g.push(t32);
    g.push(t33);
    g.push(t34);
    g.push(t35);
    g.push(t36);
    proof {
        assert(g@ =~= seq![t0, t1, t2, t3, t4, t5, t6, t7, t8, t9, t10, t11, t12, t13, t14, t15, t16, t17, t18, t19, t20, t21, t22, t23, t24, t25, t26, t27, t28, t29, t30, t31, t32, t33, t34, t35, t36]);
        crate::ir::lemma_views_from(g@, 0);
        assert(views_from(g@, 0) =~= script_grammar_view());
    }
    g
}

} // verus!
