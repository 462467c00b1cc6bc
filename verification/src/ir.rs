//! Grammar intermediate representation and its interpreter.
//!
//! A grammar is a vector of terms; `Term::Rule(i)` calls the `i`-th one. The
//! interpreter `eval` is proved equal to the mathematical semantics
//! `spec_eval`, so parsing is deterministic by construction; it also
//! guarantees atomic failure (a failing term leaves offset and captures
//! exactly as they were) and that every successful term appends a
//! well-formed forest of committed captures to the buffer.

use vstd::prelude::*;

use crate::peg::{
    in_range, in_range_icase, literal_at, literal_at_icase, ParseState, RawCapture,
};

verus! {

/// One node of a grammar expression tree. The type parameter is the capture
/// tag attached by `Capture` nodes.
pub enum Term<T> {
    /// Match any single character.
    AnyChar,
    /// Succeed only at the end of the input.
    EndOfInput,
    /// Match the given characters exactly; the flag folds ASCII case.
    Literal(Vec<char>, bool),
    /// Match one character in the inclusive range; the flag folds ASCII case.
    Range(char, char, bool),
    /// Call the rule with this index in the grammar.
    Rule(usize),
    /// Match every part in order; fail atomically if any part fails.
    Sequence(Vec<Term<T>>),
    /// Ordered choice: commit to the first part that matches.
    Choice(Vec<Term<T>>),
    /// Try the part; succeed either way.
    Optional(Box<Term<T>>),
    /// Repeat the part as long as it matches and consumes input.
    Star(Box<Term<T>>),
    /// Like `Star`, but the first repetition must match.
    Plus(Box<Term<T>>),
    /// Succeed only if the part matches here; consume nothing.
    PosLookahead(Box<Term<T>>),
    /// Succeed only if the part does not match here; consume nothing.
    NegLookahead(Box<Term<T>>),
    /// Match the part and record a tagged capture covering its span.
    Capture(T, Box<Term<T>>),
}

/// The mutable part of a parse state, as mathematical values.
pub struct EvalState<T> {
    pub offset: int,
    pub caps: Seq<RawCapture<T>>,
}

/// What evaluating a term yields: a success flag and the state after.
pub struct EvalOutcome<T> {
    pub ok: bool,
    pub st: EvalState<T>,
}

/// The mathematical value of a term: the same tree with every character
/// vector read as a sequence. Two terms with one view parse alike, so a
/// grammar pinned by view is pinned in behaviour.
#[verifier::ext_equal]
pub enum TermView<T> {
    AnyChar,
    EndOfInput,
    Literal(Seq<char>, bool),
    Range(char, char, bool),
    Rule(usize),
    Sequence(Seq<TermView<T>>),
    Choice(Seq<TermView<T>>),
    Optional(Box<TermView<T>>),
    Star(Box<TermView<T>>),
    Plus(Box<TermView<T>>),
    PosLookahead(Box<TermView<T>>),
    NegLookahead(Box<TermView<T>>),
    Capture(T, Box<TermView<T>>),
}

pub open spec fn term_view<T>(t: Term<T>) -> TermView<T>
    decreases t,
{
    match t {
        Term::AnyChar => TermView::AnyChar,
        Term::EndOfInput => TermView::EndOfInput,
        Term::Literal(s, ic) => TermView::Literal(s@, ic),
        Term::Range(lo, hi, ic) => TermView::Range(lo, hi, ic),
        Term::Rule(i) => TermView::Rule(i),
        Term::Sequence(ts) => TermView::Sequence(views_from(ts@, 0)),
        Term::Choice(ts) => TermView::Choice(views_from(ts@, 0)),
        Term::Optional(t1) => TermView::Optional(Box::new(term_view(*t1))),
        Term::Star(t1) => TermView::Star(Box::new(term_view(*t1))),
        Term::Plus(t1) => TermView::Plus(Box::new(term_view(*t1))),
        Term::PosLookahead(t1) => TermView::PosLookahead(Box::new(term_view(*t1))),
        Term::NegLookahead(t1) => TermView::NegLookahead(Box::new(term_view(*t1))),
        Term::Capture(tag, t1) => TermView::Capture(tag, Box::new(term_view(*t1))),
    }
}

/// The views of the terms of `v`, from index `i` on.
pub open spec fn views_from<T>(v: Seq<Term<T>>, i: int) -> Seq<TermView<T>>
    decreases v, (if 0 <= i <= v.len() { v.len() - i } else { 0 }), 0int,
{
    if 0 <= i < v.len() {
        seq![term_view(v[i])] + views_from(v, i + 1)
    } else {
        Seq::empty()
    }
}

/// The view list has one view per term, in order.
pub proof fn lemma_views_from<T>(v: Seq<Term<T>>, k: int)
    requires
        0 <= k <= v.len(),
    ensures
        views_from(v, k).len() == v.len() - k,
        forall|i: int| k <= i < v.len() ==> views_from(v, k)[i - k] == term_view(v[i]),
    decreases v.len() - k,
{
    if k < v.len() {
        lemma_views_from(v, k + 1);
    }
}

/// The mutable part of a concrete `ParseState`.
pub open spec fn st_of<T>(p: ParseState<T>) -> EvalState<T> {
    EvalState { offset: p.offset as int, caps: p.captures@ }
}

/// Characters left before the end of the input, clamped at zero.
pub open spec fn rem_of(input: Seq<char>, offset: int) -> int {
    if offset <= input.len() {
        input.len() - offset
    } else {
        0
    }
}

/// The semantics of one term: from state `st`, either succeed and advance,
/// or fail and return the state unchanged. `fuel` bounds rule recursion.
pub open spec fn spec_eval<T>(
    g: Seq<Term<T>>,
    input: Seq<char>,
    t: Term<T>,
    st: EvalState<T>,
    fuel: nat,
) -> EvalOutcome<T>
    decreases fuel, t, 0int, 0int,
{
    match t {
        Term::AnyChar => {
            if st.offset < input.len() {
                EvalOutcome { ok: true, st: EvalState { offset: st.offset + 1, caps: st.caps } }
            } else {
                EvalOutcome { ok: false, st }
            }
        },
        Term::EndOfInput => EvalOutcome { ok: st.offset >= input.len(), st },
        Term::Literal(s, icase) => {
            let m = if icase {
                literal_at_icase(input, st.offset, s@)
            } else {
                literal_at(input, st.offset, s@)
            };
            if m {
                EvalOutcome {
                    ok: true,
                    st: EvalState { offset: st.offset + s@.len(), caps: st.caps },
                }
            } else {
                EvalOutcome { ok: false, st }
            }
        },
        Term::Range(lo, hi, icase) => {
            let m = st.offset < input.len() && 0 <= st.offset && (if icase {
                in_range_icase(lo, hi, input[st.offset])
            } else {
                in_range(lo, hi, input[st.offset])
            });
            if m {
                EvalOutcome { ok: true, st: EvalState { offset: st.offset + 1, caps: st.caps } }
            } else {
                EvalOutcome { ok: false, st }
            }
        },
        Term::Rule(idx) => {
            if fuel > 0 && idx < g.len() {
                spec_eval(g, input, g[idx as int], st, (fuel - 1) as nat)
            } else {
                EvalOutcome { ok: false, st }
            }
        },
        Term::Sequence(ts) => {
            let r = spec_eval_seq(g, input, ts@, 0, st, fuel);
            if r.ok {
                r
            } else {
                EvalOutcome { ok: false, st }
            }
        },
        Term::Choice(ts) => spec_eval_choice(g, input, ts@, 0, st, fuel),
        Term::Optional(t1) => {
            let r = spec_eval(g, input, *t1, st, fuel);
            if r.ok {
                r
            } else {
                EvalOutcome { ok: true, st }
            }
        },
        Term::Star(t1) => spec_eval_star(g, input, *t1, st, fuel),
        Term::Plus(t1) => {
            let r = spec_eval(g, input, *t1, st, fuel);
            if !r.ok {
                EvalOutcome { ok: false, st }
            } else if r.st.offset > st.offset && r.st.offset <= input.len() {
                spec_eval_star(g, input, *t1, r.st, fuel)
            } else {
                r
            }
        },
        Term::PosLookahead(t1) => {
            let r = spec_eval(g, input, *t1, st, fuel);
            EvalOutcome { ok: r.ok, st }
        },
        Term::NegLookahead(t1) => {
            let r = spec_eval(g, input, *t1, st, fuel);
            EvalOutcome { ok: !r.ok, st }
        },
        Term::Capture(tag, t1) => {
            let pending = RawCapture { kind: tag, start: 0, end: 0, subtree_len: 0 };
            let st1 = EvalState { offset: st.offset, caps: st.caps.push(pending) };
            let r = spec_eval(g, input, *t1, st1, fuel);
            if r.ok {
                let committed = RawCapture {
                    kind: tag,
                    start: st.offset as usize,
                    end: r.st.offset as usize,
                    subtree_len: (r.st.caps.len() - st.caps.len()) as usize,
                };
                EvalOutcome {
                    ok: true,
                    st: EvalState {
                        offset: r.st.offset,
                        caps: r.st.caps.update(st.caps.len() as int, committed),
                    },
                }
            } else {
                EvalOutcome { ok: false, st }
            }
        },
    }
}

/// Evaluate the parts of a sequence from index `i` on. Failure returns the
/// state reached so far; the sequence term itself restores it.
pub open spec fn spec_eval_seq<T>(
    g: Seq<Term<T>>,
    input: Seq<char>,
    ts: Seq<Term<T>>,
    i: int,
    st: EvalState<T>,
    fuel: nat,
) -> EvalOutcome<T>
    decreases fuel, ts, (if 0 <= i <= ts.len() { ts.len() - i } else { 0 }), 1int,
{
    if 0 <= i < ts.len() {
        let r = spec_eval(g, input, ts[i], st, fuel);
        if r.ok {
            spec_eval_seq(g, input, ts, i + 1, r.st, fuel)
        } else {
            EvalOutcome { ok: false, st: r.st }
        }
    } else {
        EvalOutcome { ok: true, st }
    }
}

/// Try the alternatives of a choice from index `i` on, committing to the
/// first one that matches.
pub open spec fn spec_eval_choice<T>(
    g: Seq<Term<T>>,
    input: Seq<char>,
    ts: Seq<Term<T>>,
    i: int,
    st: EvalState<T>,
    fuel: nat,
) -> EvalOutcome<T>
    decreases fuel, ts, (if 0 <= i <= ts.len() { ts.len() - i } else { 0 }), 1int,
{
    if 0 <= i < ts.len() {
        let r = spec_eval(g, input, ts[i], st, fuel);
        if r.ok {
            r
        } else {
            spec_eval_choice(g, input, ts, i + 1, st, fuel)
        }
    } else {
        EvalOutcome { ok: false, st }
    }
}

/// Repeat a term as long as it matches and consumes input. A repetition
/// that matches without consuming ends the loop after that repetition.
pub open spec fn spec_eval_star<T>(
    g: Seq<Term<T>>,
    input: Seq<char>,
    t: Term<T>,
    st: EvalState<T>,
    fuel: nat,
) -> EvalOutcome<T>
    decreases fuel, t, rem_of(input, st.offset), 1int,
{
    let r = spec_eval(g, input, t, st, fuel);
    if !r.ok {
        EvalOutcome { ok: true, st }
    } else if r.st.offset > st.offset && r.st.offset <= input.len() {
        spec_eval_star(g, input, t, r.st, fuel)
    } else {
        EvalOutcome { ok: true, st: r.st }
    }
}

/// The semantics of one term view: the same function as `spec_eval`,
/// over views, so a contract can speak of a grammar given as views.
pub open spec fn view_eval<T>(
    g: Seq<TermView<T>>,
    input: Seq<char>,
    t: TermView<T>,
    st: EvalState<T>,
    fuel: nat,
) -> EvalOutcome<T>
    decreases fuel, t, 0int, 0int,
{
    match t {
        TermView::AnyChar => {
            if st.offset < input.len() {
                EvalOutcome { ok: true, st: EvalState { offset: st.offset + 1, caps: st.caps } }
            } else {
                EvalOutcome { ok: false, st }
            }
        },
        TermView::EndOfInput => EvalOutcome { ok: st.offset >= input.len(), st },
        TermView::Literal(s, icase) => {
            let m = if icase {
                literal_at_icase(input, st.offset, s)
            } else {
                literal_at(input, st.offset, s)
            };
            if m {
                EvalOutcome {
                    ok: true,
                    st: EvalState { offset: st.offset + s.len(), caps: st.caps },
                }
            } else {
                EvalOutcome { ok: false, st }
            }
        },
        TermView::Range(lo, hi, icase) => {
            let m = st.offset < input.len() && 0 <= st.offset && (if icase {
                in_range_icase(lo, hi, input[st.offset])
            } else {
                in_range(lo, hi, input[st.offset])
            });
            if m {
                EvalOutcome { ok: true, st: EvalState { offset: st.offset + 1, caps: st.caps } }
            } else {
                EvalOutcome { ok: false, st }
            }
        },
        TermView::Rule(idx) => {
            if fuel > 0 && idx < g.len() {
                view_eval(g, input, g[idx as int], st, (fuel - 1) as nat)
            } else {
                EvalOutcome { ok: false, st }
            }
        },
        TermView::Sequence(ts) => {
            let r = view_eval_seq(g, input, ts, 0, st, fuel);
            if r.ok {
                r
            } else {
                EvalOutcome { ok: false, st }
            }
        },
        TermView::Choice(ts) => view_eval_choice(g, input, ts, 0, st, fuel),
        TermView::Optional(t1) => {
            let r = view_eval(g, input, *t1, st, fuel);
            if r.ok {
                r
            } else {
                EvalOutcome { ok: true, st }
            }
        },
        TermView::Star(t1) => view_eval_star(g, input, *t1, st, fuel),
        TermView::Plus(t1) => {
            let r = view_eval(g, input, *t1, st, fuel);
            if !r.ok {
                EvalOutcome { ok: false, st }
            } else if r.st.offset > st.offset && r.st.offset <= input.len() {
                view_eval_star(g, input, *t1, r.st, fuel)
            } else {
                r
            }
        },
        TermView::PosLookahead(t1) => {
            let r = view_eval(g, input, *t1, st, fuel);
            EvalOutcome { ok: r.ok, st }
        },
        TermView::NegLookahead(t1) => {
            let r = view_eval(g, input, *t1, st, fuel);
            EvalOutcome { ok: !r.ok, st }
        },
        TermView::Capture(tag, t1) => {
            let pending = RawCapture { kind: tag, start: 0, end: 0, subtree_len: 0 };
            let st1 = EvalState { offset: st.offset, caps: st.caps.push(pending) };
            let r = view_eval(g, input, *t1, st1, fuel);
            if r.ok {
                let committed = RawCapture {
                    kind: tag,
                    start: st.offset as usize,
                    end: r.st.offset as usize,
                    subtree_len: (r.st.caps.len() - st.caps.len()) as usize,
                };
                EvalOutcome {
                    ok: true,
                    st: EvalState {
                        offset: r.st.offset,
                        caps: r.st.caps.update(st.caps.len() as int, committed),
                    },
                }
            } else {
                EvalOutcome { ok: false, st }
            }
        },
    }
}

/// `spec_eval_seq`, over views.
pub open spec fn view_eval_seq<T>(
    g: Seq<TermView<T>>,
    input: Seq<char>,
    ts: Seq<TermView<T>>,
    i: int,
    st: EvalState<T>,
    fuel: nat,
) -> EvalOutcome<T>
    decreases fuel, ts, (if 0 <= i <= ts.len() { ts.len() - i } else { 0 }), 1int,
{
    if 0 <= i < ts.len() {
        let r = view_eval(g, input, ts[i], st, fuel);
        if r.ok {
            view_eval_seq(g, input, ts, i + 1, r.st, fuel)
        } else {
            EvalOutcome { ok: false, st: r.st }
        }
    } else {
        EvalOutcome { ok: true, st }
    }
}

/// `spec_eval_choice`, over views.
pub open spec fn view_eval_choice<T>(
    g: Seq<TermView<T>>,
    input: Seq<char>,
    ts: Seq<TermView<T>>,
    i: int,
    st: EvalState<T>,
    fuel: nat,
) -> EvalOutcome<T>
    decreases fuel, ts, (if 0 <= i <= ts.len() { ts.len() - i } else { 0 }), 1int,
{
    if 0 <= i < ts.len() {
        let r = view_eval(g, input, ts[i], st, fuel);
        if r.ok {
            r
        } else {
            view_eval_choice(g, input, ts, i + 1, st, fuel)
        }
    } else {
        EvalOutcome { ok: false, st }
    }
}

/// `spec_eval_star`, over views.
pub open spec fn view_eval_star<T>(
    g: Seq<TermView<T>>,
    input: Seq<char>,
    t: TermView<T>,
    st: EvalState<T>,
    fuel: nat,
) -> EvalOutcome<T>
    decreases fuel, t, rem_of(input, st.offset), 1int,
{
    let r = view_eval(g, input, t, st, fuel);
    if !r.ok {
        EvalOutcome { ok: true, st }
    } else if r.st.offset > st.offset && r.st.offset <= input.len() {
        view_eval_star(g, input, t, r.st, fuel)
    } else {
        EvalOutcome { ok: true, st: r.st }
    }
}

/// Evaluating a term equals evaluating its view against the grammar's
/// views: the semantics reads terms only through their views.
pub proof fn lemma_eval_view<T>(
    g: Seq<Term<T>>,
    input: Seq<char>,
    t: Term<T>,
    st: EvalState<T>,
    fuel: nat,
)
    ensures
        spec_eval(g, input, t, st, fuel) == view_eval(
            views_from(g, 0),
            input,
            term_view(t),
            st,
            fuel,
        ),
    decreases fuel, t, 0int, 0int,
{
    let vg = views_from(g, 0);
    match t {
        Term::AnyChar => {},
        Term::EndOfInput => {},
        Term::Literal(s, ic) => {},
        Term::Range(lo, hi, ic) => {},
        Term::Rule(idx) => {
            lemma_views_from(g, 0);
            if fuel > 0 && idx < g.len() {
                lemma_eval_view(g, input, g[idx as int], st, (fuel - 1) as nat);
                assert(vg[idx as int] == term_view(g[idx as int]));
            }
        },
        Term::Sequence(ts) => {
            lemma_eval_view_seq(g, input, ts@, 0, st, fuel);
        },
        Term::Choice(ts) => {
            lemma_eval_view_choice(g, input, ts@, 0, st, fuel);
        },
        Term::Optional(t1) => {
            lemma_eval_view(g, input, *t1, st, fuel);
        },
        Term::Star(t1) => {
            lemma_eval_view_star(g, input, *t1, st, fuel);
        },
        Term::Plus(t1) => {
            lemma_eval_view(g, input, *t1, st, fuel);
            let r = spec_eval(g, input, *t1, st, fuel);
            if r.ok && r.st.offset > st.offset && r.st.offset <= input.len() {
                lemma_eval_view_star(g, input, *t1, r.st, fuel);
            }
        },
        Term::PosLookahead(t1) => {
            lemma_eval_view(g, input, *t1, st, fuel);
        },
        Term::NegLookahead(t1) => {
            lemma_eval_view(g, input, *t1, st, fuel);
        },
        Term::Capture(tag, t1) => {
            let pending = RawCapture { kind: tag, start: 0, end: 0, subtree_len: 0 };
            let st1 = EvalState { offset: st.offset, caps: st.caps.push(pending) };
            lemma_eval_view(g, input, *t1, st1, fuel);
        },
    }
}

proof fn lemma_eval_view_seq<T>(
    g: Seq<Term<T>>,
    input: Seq<char>,
    ts: Seq<Term<T>>,
    i: int,
    st: EvalState<T>,
    fuel: nat,
)
    ensures
        spec_eval_seq(g, input, ts, i, st, fuel) == view_eval_seq(
            views_from(g, 0),
            input,
            views_from(ts, 0),
            i,
            st,
            fuel,
        ),
    decreases fuel, ts, (if 0 <= i <= ts.len() { ts.len() - i } else { 0 }), 1int,
{
    lemma_views_from(ts, 0);
    if 0 <= i < ts.len() {
        lemma_eval_view(g, input, ts[i], st, fuel);
        assert(views_from(ts, 0)[i] == term_view(ts[i]));
        let r = spec_eval(g, input, ts[i], st, fuel);
        if r.ok {
            lemma_eval_view_seq(g, input, ts, i + 1, r.st, fuel);
        }
    }
}

proof fn lemma_eval_view_choice<T>(
    g: Seq<Term<T>>,
    input: Seq<char>,
    ts: Seq<Term<T>>,
    i: int,
    st: EvalState<T>,
    fuel: nat,
)
    ensures
        spec_eval_choice(g, input, ts, i, st, fuel) == view_eval_choice(
            views_from(g, 0),
            input,
            views_from(ts, 0),
            i,
            st,
            fuel,
        ),
    decreases fuel, ts, (if 0 <= i <= ts.len() { ts.len() - i } else { 0 }), 1int,
{
    lemma_views_from(ts, 0);
    if 0 <= i < ts.len() {
        lemma_eval_view(g, input, ts[i], st, fuel);
        assert(views_from(ts, 0)[i] == term_view(ts[i]));
        let r = spec_eval(g, input, ts[i], st, fuel);
        if !r.ok {
            lemma_eval_view_choice(g, input, ts, i + 1, st, fuel);
        }
    }
}

proof fn lemma_eval_view_star<T>(
    g: Seq<Term<T>>,
    input: Seq<char>,
    t: Term<T>,
    st: EvalState<T>,
    fuel: nat,
)
    ensures
        spec_eval_star(g, input, t, st, fuel) == view_eval_star(
            views_from(g, 0),
            input,
            term_view(t),
            st,
            fuel,
        ),
    decreases fuel, t, rem_of(input, st.offset), 1int,
{
    lemma_eval_view(g, input, t, st, fuel);
    let r = spec_eval(g, input, t, st, fuel);
    if r.ok && r.st.offset > st.offset && r.st.offset <= input.len() {
        lemma_eval_view_star(g, input, t, r.st, fuel);
    }
}

/// The records of `c` with indices in `i..j` form a forest of committed
/// pre-order subtrees whose spans nest and stay inside `lo..hi`, siblings
/// in span order.
pub open spec fn forest_between<T>(
    c: Seq<RawCapture<T>>,
    i: int,
    j: int,
    lo: int,
    hi: int,
) -> bool
    decreases (if i < j { j - i } else { 0 }),
{
    if i < j {
        &&& 0 <= i
        &&& j <= c.len()
        &&& 1 <= c[i].subtree_len <= j - i
        &&& lo <= c[i].start <= c[i].end <= hi
        &&& forest_between(c, i + 1, i + c[i].subtree_len, c[i].start as int, c[i].end as int)
        &&& forest_between(c, i + c[i].subtree_len, j, c[i].end as int, hi)
    } else {
        true
    }
}

/// A forest only looks at the records between its bounds: any buffer that
/// agrees there carries the same forest.
pub proof fn lemma_forest_frame<T>(
    c1: Seq<RawCapture<T>>,
    c2: Seq<RawCapture<T>>,
    i: int,
    j: int,
    lo: int,
    hi: int,
)
    requires
        forest_between(c1, i, j, lo, hi),
        j <= c2.len(),
        forall|k: int| i <= k < j ==> c2[k] == c1[k],
    ensures
        forest_between(c2, i, j, lo, hi),
    decreases (if i < j { j - i } else { 0 }),
{
    if i < j {
        let stl = c1[i].subtree_len as int;
        lemma_forest_frame(c1, c2, i + 1, i + stl, c1[i].start as int, c1[i].end as int);
        lemma_forest_frame(c1, c2, i + stl, j, c1[i].end as int, hi);
    }
}

/// Widening the span bounds keeps a forest a forest.
pub proof fn lemma_forest_widen<T>(
    c: Seq<RawCapture<T>>,
    i: int,
    j: int,
    lo: int,
    hi: int,
    lo2: int,
    hi2: int,
)
    requires
        forest_between(c, i, j, lo, hi),
        lo2 <= lo,
        hi <= hi2,
    ensures
        forest_between(c, i, j, lo2, hi2),
    decreases (if i < j { j - i } else { 0 }),
{
    if i < j {
        let stl = c[i].subtree_len as int;
        lemma_forest_widen(c, i + stl, j, c[i].end as int, hi, c[i].end as int, hi2);
    }
}

/// Two adjacent forests whose span bounds meet form one forest.
pub proof fn lemma_forest_concat<T>(
    c: Seq<RawCapture<T>>,
    i: int,
    j: int,
    k: int,
    lo: int,
    m: int,
    hi: int,
)
    requires
        i <= j <= k,
        lo <= m <= hi,
        forest_between(c, i, j, lo, m),
        forest_between(c, j, k, m, hi),
    ensures
        forest_between(c, i, k, lo, hi),
    decreases (if i < j { j - i } else { 0 }),
{
    if i < j {
        let stl = c[i].subtree_len as int;
        lemma_forest_concat(c, i + stl, j, k, c[i].end as int, m, hi);
    } else {
        lemma_forest_widen(c, j, k, m, hi, lo, hi);
    }
}

} // verus!

// The executable interpreter lives below. Each function is proved equal to
// the corresponding specification function, which yields parse determinism;
// the shared postcondition `eval_post` adds atomic failure and forest shape.

verus! {

/// What every interpreter step guarantees about the state transition:
/// the input is untouched, the cursor only moves forward, earlier capture
/// records are preserved, failure restores the state exactly, and success
/// appends one well-formed forest covering the consumed span.
pub open spec fn eval_post<T>(pre: ParseState<T>, post: ParseState<T>, b: bool) -> bool {
    &&& post.wf()
    &&& post.input == pre.input
    &&& pre.offset <= post.offset
    &&& pre.captures@.len() <= post.captures@.len()
    &&& (forall|k: int| 0 <= k < pre.captures@.len() ==> post.captures@[k] == pre.captures@[k])
    &&& (!b ==> post.offset == pre.offset && post.captures@ == pre.captures@)
    &&& (b ==> forest_between(
        post.captures@,
        pre.captures@.len() as int,
        post.captures@.len() as int,
        pre.offset as int,
        post.offset as int,
    ))
}

/// Evaluate one term against the parse state. `fuel` bounds the depth of
/// rule calls; when it runs out the rule call fails.
#[verifier::loop_isolation(false)]
pub fn eval<T: Copy>(g: &Vec<Term<T>>, t: &Term<T>, p: &mut ParseState<T>, fuel: u64) -> (b: bool)
    requires
        old(p).wf(),
    ensures
        eval_post(*old(p), *final(p), b),
        spec_eval(g@, old(p).input@, *t, st_of(*old(p)), fuel as nat) == (EvalOutcome {
            ok: b,
            st: st_of(*final(p)),
        }),
    decreases fuel, *t, 0int,
{
    let ghost pre = *old(p);
    let ghost st0 = st_of(pre);
    match t {
        Term::AnyChar => p.any(),
        Term::EndOfInput => p.eoi(),
        Term::Literal(s, icase) => {
            if *icase {
                p.literal_i(s)
            } else {
                p.literal(s)
            }
        },
        Term::Range(lo, hi, icase) => {
            if *icase {
                p.range_i(*lo, *hi)
            } else {
                p.range(*lo, *hi)
            }
        },
        Term::Rule(idx) => {
            if fuel > 0 && *idx < g.len() {
                eval(g, &g[*idx], p, fuel - 1)
            } else {
                false
            }
        },
        Term::Sequence(ts) => {
            let sp = p.save();
            let ok = eval_seq(g, ts, p, fuel);
            if ok {
                true
            } else {
                p.restore(sp);
                proof {
                    assert(p.captures@ =~= pre.captures@);
                }
                false
            }
        },
        Term::Choice(ts) => eval_choice(g, ts, p, fuel),
        Term::Optional(t1) => {
            // the part may fail; a failed attempt restores the state
            eval(g, &**t1, p, fuel);
            true
        },
        Term::Star(t1) => {
            eval_star(g, &**t1, p, fuel);
            true
        },
        Term::Plus(t1) => {
            let before = p.offset;
            let ok = eval(g, &**t1, p, fuel);
            if !ok {
                false
            } else if p.offset == before {
                true
            } else {
                let ghost mid = *p;
                eval_star(g, &**t1, p, fuel);
                proof {
                    lemma_forest_frame(
                        mid.captures@,
                        p.captures@,
                        pre.captures@.len() as int,
                        mid.captures@.len() as int,
                        pre.offset as int,
                        mid.offset as int,
                    );
                    lemma_forest_concat(
                        p.captures@,
                        pre.captures@.len() as int,
                        mid.captures@.len() as int,
                        p.captures@.len() as int,
                        pre.offset as int,
                        mid.offset as int,
                        p.offset as int,
                    );
                }
                true
            }
        },
        Term::PosLookahead(t1) => {
            let sp = p.save();
            let ok = eval(g, &**t1, p, fuel);
            if ok {
                p.restore(sp);
                proof {
                    assert(p.captures@ =~= pre.captures@);
                }
                true
            } else {
                false
            }
        },
        Term::NegLookahead(t1) => {
            let sp = p.save();
            let ok = eval(g, &**t1, p, fuel);
            if ok {
                p.restore(sp);
                proof {
                    assert(p.captures@ =~= pre.captures@);
                }
                false
            } else {
                true
            }
        },
        Term::Capture(tag, t1) => {
            let sp = p.begin_capture(*tag);
            let ghost st1p = *p;
            let ok = eval(g, &**t1, p, fuel);
            if ok {
                let ghost c1 = *p;
                let n1e = p.captures.len();
                proof {
                    assert(c1.captures@[pre.captures@.len() as int]
                        == st1p.captures@[pre.captures@.len() as int]);
                }
                p.commit_capture(sp);
                proof {
                    let l = pre.captures@.len() as int;
                    let n1 = c1.captures@.len() as int;
                    assert(n1 == n1e as int);
                    assert(p.captures@[l].subtree_len as int == n1 - l);
                    assert(p.captures@[l].start == pre.offset);
                    assert(p.captures@[l].end == c1.offset);
                    lemma_forest_frame(
                        c1.captures@,
                        p.captures@,
                        l + 1,
                        n1,
                        st1p.offset as int,
                        c1.offset as int,
                    );
                    assert(forest_between(p.captures@, n1, n1, c1.offset as int, p.offset as int));
                    assert(forest_between(
                        p.captures@,
                        l,
                        n1,
                        pre.offset as int,
                        p.offset as int,
                    ));
                }
                true
            } else {
                p.restore(sp);
                proof {
                    assert(p.captures@ =~= pre.captures@);
                }
                false
            }
        },
    }
}

/// Evaluate the parts of a sequence in order, stopping at the first part
/// that fails; the caller restores the state on failure.
#[verifier::loop_isolation(false)]
fn eval_seq<T: Copy>(g: &Vec<Term<T>>, ts: &Vec<Term<T>>, p: &mut ParseState<T>, fuel: u64) -> (b:
    bool)
    requires
        old(p).wf(),
    ensures
        final(p).wf(),
        final(p).input == old(p).input,
        old(p).offset <= final(p).offset,
        old(p).captures@.len() <= final(p).captures@.len(),
        forall|k: int|
            0 <= k < old(p).captures@.len() ==> final(p).captures@[k] == old(p).captures@[k],
        forest_between(
            final(p).captures@,
            old(p).captures@.len() as int,
            final(p).captures@.len() as int,
            old(p).offset as int,
            final(p).offset as int,
        ),
        spec_eval_seq(g@, old(p).input@, ts@, 0, st_of(*old(p)), fuel as nat) == (EvalOutcome {
            ok: b,
            st: st_of(*final(p)),
        }),
    decreases fuel, *ts, 1int,
{
    let ghost pre = *old(p);
    let mut i: usize = 0;
    while i < ts.len()
        invariant
            i <= ts@.len(),
            p.wf(),
            p.input == pre.input,
            pre.offset <= p.offset,
            pre.captures@.len() <= p.captures@.len(),
            forall|k: int| 0 <= k < pre.captures@.len() ==> p.captures@[k] == pre.captures@[k],
            forest_between(
                p.captures@,
                pre.captures@.len() as int,
                p.captures@.len() as int,
                pre.offset as int,
                p.offset as int,
            ),
            spec_eval_seq(g@, pre.input@, ts@, 0, st_of(pre), fuel as nat) == spec_eval_seq(
                g@,
                pre.input@,
                ts@,
                i as int,
                st_of(*p),
                fuel as nat,
            ),
        decreases ts@.len() - i,
    {
        let ghost mid = *p;
        let ok = eval(g, &ts[i], p, fuel);
        if !ok {
            return false;
        }
        proof {
            lemma_forest_frame(
                mid.captures@,
                p.captures@,
                pre.captures@.len() as int,
                mid.captures@.len() as int,
                pre.offset as int,
                mid.offset as int,
            );
            lemma_forest_concat(
                p.captures@,
                pre.captures@.len() as int,
                mid.captures@.len() as int,
                p.captures@.len() as int,
                pre.offset as int,
                mid.offset as int,
                p.offset as int,
            );
        }
        i = i + 1;
    }
    true
}

/// Try the alternatives of a choice in order, committing to the first one
/// that matches; failed alternatives leave no trace.
#[verifier::loop_isolation(false)]
fn eval_choice<T: Copy>(
    g: &Vec<Term<T>>,
    ts: &Vec<Term<T>>,
    p: &mut ParseState<T>,
    fuel: u64,
) -> (b: bool)
    requires
        old(p).wf(),
    ensures
        eval_post(*old(p), *final(p), b),
        spec_eval_choice(g@, old(p).input@, ts@, 0, st_of(*old(p)), fuel as nat) == (EvalOutcome {
            ok: b,
            st: st_of(*final(p)),
        }),
    decreases fuel, *ts, 1int,
{
    let ghost pre = *old(p);
    let mut i: usize = 0;
    while i < ts.len()
        invariant
            i <= ts@.len(),
            p.wf(),
            p.input == pre.input,
            p.offset == pre.offset,
            p.captures@ == pre.captures@,
            spec_eval_choice(g@, pre.input@, ts@, 0, st_of(pre), fuel as nat) == spec_eval_choice(
                g@,
                pre.input@,
                ts@,
                i as int,
                st_of(pre),
                fuel as nat,
            ),
        decreases ts@.len() - i,
    {
        let ok = eval(g, &ts[i], p, fuel);
        if ok {
            return true;
        }
        i = i + 1;
    }
    false
}

/// Repeat a term as long as it matches and consumes input. A repetition
/// that matches without consuming ends the loop after that repetition, so
/// the loop always terminates; such a grammar would otherwise not make
/// progress at all.
#[verifier::loop_isolation(false)]
fn eval_star<T: Copy>(g: &Vec<Term<T>>, t: &Term<T>, p: &mut ParseState<T>, fuel: u64)
    requires
        old(p).wf(),
    ensures
        eval_post(*old(p), *final(p), true),
        spec_eval_star(g@, old(p).input@, *t, st_of(*old(p)), fuel as nat) == (EvalOutcome {
            ok: true,
            st: st_of(*final(p)),
        }),
    decreases fuel, *t, 1int,
{
    let ghost pre = *old(p);
    let mut go = true;
    while go
        invariant
            p.wf(),
            p.input == pre.input,
            pre.offset <= p.offset,
            pre.captures@.len() <= p.captures@.len(),
            forall|k: int| 0 <= k < pre.captures@.len() ==> p.captures@[k] == pre.captures@[k],
            forest_between(
                p.captures@,
                pre.captures@.len() as int,
                p.captures@.len() as int,
                pre.offset as int,
                p.offset as int,
            ),
            go ==> spec_eval_star(g@, pre.input@, *t, st_of(pre), fuel as nat) == spec_eval_star(
                g@,
                pre.input@,
                *t,
                st_of(*p),
                fuel as nat,
            ),
            !go ==> spec_eval_star(g@, pre.input@, *t, st_of(pre), fuel as nat) == (EvalOutcome {
                ok: true,
                st: st_of(*p),
            }),
        decreases p.input@.len() - p.offset + (if go { 1int } else { 0int }),
    {
        let before = p.offset;
        let ghost mid = *p;
        let ok = eval(g, t, p, fuel);
        if !ok {
            go = false;
        } else if p.offset == before {
            go = false;
            proof {
                lemma_forest_frame(
                    mid.captures@,
                    p.captures@,
                    pre.captures@.len() as int,
                    mid.captures@.len() as int,
                    pre.offset as int,
                    mid.offset as int,
                );
                lemma_forest_concat(
                    p.captures@,
                    pre.captures@.len() as int,
                    mid.captures@.len() as int,
                    p.captures@.len() as int,
                    pre.offset as int,
                    mid.offset as int,
                    p.offset as int,
                );
            }
        } else {
            proof {
                lemma_forest_frame(
                    mid.captures@,
                    p.captures@,
                    pre.captures@.len() as int,
                    mid.captures@.len() as int,
                    pre.offset as int,
                    mid.offset as int,
                );
                lemma_forest_concat(
                    p.captures@,
                    pre.captures@.len() as int,
                    mid.captures@.len() as int,
                    p.captures@.len() as int,
                    pre.offset as int,
                    mid.offset as int,
                    p.offset as int,
                );
            }
        }
    }
}

} // verus!

// Iteration over the committed capture forest, for callers that read the
// capture tree directly.

verus! {

/// An iterator over the top-level subtrees of a region of the capture
/// buffer.
pub struct Captures<'a, T> {
    pub ps: &'a ParseState<T>,
    pub index: usize,
    pub end: usize,
}

/// One subtree of the capture buffer, rooted at `index`.
pub struct Capture<'a, T> {
    pub ps: &'a ParseState<T>,
    pub index: usize,
}

impl<'a, T> Captures<'a, T> {
    /// The region left to iterate is a forest within the input's bounds.
    pub open spec fn wf(self) -> bool {
        &&& self.index <= self.end <= self.ps.captures@.len()
        &&& self.ps.wf()
        &&& forest_between(
            self.ps.captures@,
            self.index as int,
            self.end as int,
            0,
            self.ps.input@.len() as int,
        )
    }

    /// The next top-level subtree, if any is left.
    pub fn next(&mut self) -> (r: Option<Capture<'a, T>>)
        requires
            old(self).wf(),
        ensures
            final(self).wf(),
            final(self).ps == old(self).ps,
            final(self).end == old(self).end,
            match r {
                Some(c) => old(self).index < old(self).end && c.wf() && c.ps == old(self).ps
                    && c.index == old(self).index && final(self).index == old(self).index
                    + old(self).ps.captures@[old(self).index as int].subtree_len,
                None => old(self).index == old(self).end && *final(self) == *old(self),
            },
    {
        if self.index >= self.end {
            return None;
        }
        let here = self.index;
        let stl = self.ps.captures[here].subtree_len;
        proof {
            lemma_forest_widen(
                self.ps.captures@,
                here + self.ps.captures@[here as int].subtree_len,
                self.end as int,
                self.ps.captures@[here as int].end as int,
                self.ps.input@.len() as int,
                0,
                self.ps.input@.len() as int,
            );
        }
        self.index = here + stl;
        Some(Capture { ps: self.ps, index: here })
    }
}

impl<'a, T> Capture<'a, T> {
    /// The subtree at `index` is committed, in bounds, and its children
    /// form a forest within its span, which lies within the input.
    pub open spec fn wf(self) -> bool {
        &&& self.index < self.ps.captures@.len()
        &&& self.ps.wf()
        &&& 1 <= self.ps.captures@[self.index as int].subtree_len
        &&& self.index + self.ps.captures@[self.index as int].subtree_len
            <= self.ps.captures@.len()
        &&& self.ps.captures@[self.index as int].start
            <= self.ps.captures@[self.index as int].end <= self.ps.input@.len()
        &&& forest_between(
            self.ps.captures@,
            self.index + 1,
            self.index + self.ps.captures@[self.index as int].subtree_len,
            self.ps.captures@[self.index as int].start as int,
            self.ps.captures@[self.index as int].end as int,
        )
    }
}

impl<'a, T: Copy> Capture<'a, T> {
    /// The capture's tag.
    pub fn kind(&self) -> (r: T)
        requires
            self.wf(),
        ensures
            r == self.ps.captures@[self.index as int].kind,
    {
        self.ps.captures[self.index].kind
    }

    /// The capture's span in the input.
    pub fn span(&self) -> (r: (usize, usize))
        requires
            self.wf(),
        ensures
            r.0 == self.ps.captures@[self.index as int].start,
            r.1 == self.ps.captures@[self.index as int].end,
    {
        (self.ps.captures[self.index].start, self.ps.captures[self.index].end)
    }

    /// The input characters the capture covers.
    pub fn text(&self) -> (r: Vec<char>)
        requires
            self.wf(),
        ensures
            r@ == self.ps.input@.subrange(
                self.ps.captures@[self.index as int].start as int,
                self.ps.captures@[self.index as int].end as int,
            ),
    {
        crate::text::slice_chars(
            &self.ps.input,
            self.ps.captures[self.index].start,
            self.ps.captures[self.index].end,
        )
    }

    /// The capture's direct children, as an iterator: the records strictly
    /// inside this subtree, excluding its head.
    pub fn children(&self) -> (r: Captures<'a, T>)
        requires
            self.wf(),
        ensures
            r.wf(),
            r.ps == self.ps,
            r.index == self.index + 1,
            r.end == self.index + self.ps.captures@[self.index as int].subtree_len,
    {
        let n = self.ps.captures.len();
        proof {
            lemma_forest_widen(
                self.ps.captures@,
                self.index + 1,
                self.index + self.ps.captures@[self.index as int].subtree_len,
                self.ps.captures@[self.index as int].start as int,
                self.ps.captures@[self.index as int].end as int,
                0,
                self.ps.input@.len() as int,
            );
        }
        Captures {
            ps: self.ps,
            index: self.index + 1,
            end: self.index + self.ps.captures[self.index].subtree_len,
        }
    }
}

impl<T: Copy> ParseState<T> {
    /// Iterate the committed capture forest. After a successful top-level
    /// `eval` from a fresh state, the whole buffer is such a forest.
    pub fn captures<'a>(&'a self) -> (r: Captures<'a, T>)
        requires
            self.wf(),
            forest_between(
                self.captures@,
                0,
                self.captures@.len() as int,
                0,
                self.input@.len() as int,
            ),
        ensures
            r.wf(),
            r.ps == self,
            r.index == 0,
            r.end == self.captures@.len(),
    {
        Captures { ps: self, index: 0, end: self.captures.len() }
    }
}

} // verus!

// The laws the interpreter's contract yields.

verus! {

/// Parse determinism: evaluating a term is a mathematical function of the
/// grammar, the input, the starting state and the fuel, so two runs from
/// equal states yield the same success flag, offset and capture buffer.
/// `eval` is proved to return exactly this function's value.
pub proof fn lemma_parse_deterministic<T>(
    g: Seq<Term<T>>,
    input: Seq<char>,
    t: Term<T>,
    st1: EvalState<T>,
    st2: EvalState<T>,
    fuel: nat,
)
    requires
        st1 == st2,
    ensures
        spec_eval(g, input, t, st1, fuel) == spec_eval(g, input, t, st2, fuel),
{
}

/// Atomic failure: a term that fails leaves the offset and the capture
/// buffer exactly as they were. The interpreter returns this function's
/// value, so a failed combinator observes no progress.
pub proof fn lemma_atomic_failure<T>(
    g: Seq<Term<T>>,
    input: Seq<char>,
    t: Term<T>,
    st: EvalState<T>,
    fuel: nat,
)
    ensures
        !spec_eval(g, input, t, st, fuel).ok ==> spec_eval(g, input, t, st, fuel).st == st,
    decreases fuel, t, 0int, 0int,
{
    match t {
        Term::Rule(idx) => {
            if fuel > 0 && idx < g.len() {
                lemma_atomic_failure(g, input, g[idx as int], st, (fuel - 1) as nat);
            }
        },
        Term::Choice(ts) => {
            lemma_atomic_failure_choice(g, input, ts@, 0, st, fuel);
        },
        Term::Star(t1) => {
            lemma_star_never_fails(g, input, *t1, st, fuel);
        },
        Term::Plus(t1) => {
            let r = spec_eval(g, input, *t1, st, fuel);
            if r.ok && r.st.offset > st.offset && r.st.offset <= input.len() {
                lemma_star_never_fails(g, input, *t1, r.st, fuel);
            }
        },
        _ => {},
    }
}

/// A repetition always succeeds, possibly with zero repetitions.
proof fn lemma_star_never_fails<T>(
    g: Seq<Term<T>>,
    input: Seq<char>,
    t: Term<T>,
    st: EvalState<T>,
    fuel: nat,
)
    ensures
        spec_eval_star(g, input, t, st, fuel).ok,
    decreases fuel, t, rem_of(input, st.offset), 1int,
{
    let r = spec_eval(g, input, t, st, fuel);
    if r.ok && r.st.offset > st.offset && r.st.offset <= input.len() {
        lemma_star_never_fails(g, input, t, r.st, fuel);
    }
}

proof fn lemma_atomic_failure_choice<T>(
    g: Seq<Term<T>>,
    input: Seq<char>,
    ts: Seq<Term<T>>,
    i: int,
    st: EvalState<T>,
    fuel: nat,
)
    ensures
        !spec_eval_choice(g, input, ts, i, st, fuel).ok ==> spec_eval_choice(
            g,
            input,
            ts,
            i,
            st,
            fuel,
        ).st == st,
    decreases fuel, ts, (if 0 <= i <= ts.len() { ts.len() - i } else { 0 }), 1int,
{
    if 0 <= i < ts.len() {
        if !spec_eval(g, input, ts[i], st, fuel).ok {
            lemma_atomic_failure_choice(g, input, ts, i + 1, st, fuel);
        }
    }
}

/// Capture-tree wellformedness, in subtree-length form: within a forest
/// region, every record's subtree fits inside the region that starts at
/// it. Together with the nesting of `forest_between` itself this says the
/// capture buffer decodes as a forest whose subtrees never interleave.
pub proof fn lemma_forest_subtree_bounds<T>(
    c: Seq<RawCapture<T>>,
    i: int,
    j: int,
    lo: int,
    hi: int,
    k: int,
)
    requires
        forest_between(c, i, j, lo, hi),
        i <= k < j,
    ensures
        1 <= c[k].subtree_len <= j - k,
    decreases (if i < j { j - i } else { 0 }),
{
    if i < j {
        let stl = c[i].subtree_len as int;
        if k == i {
        } else if k < i + stl {
            lemma_forest_subtree_bounds(
                c,
                i + 1,
                i + stl,
                c[i].start as int,
                c[i].end as int,
                k,
            );
        } else {
            lemma_forest_subtree_bounds(c, i + stl, j, c[i].end as int, hi, k);
        }
    }
}

} // verus!
