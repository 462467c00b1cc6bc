//! Chunked parse of one script: run the script grammar, then split the
//! text into verbatim runs and label chunks along the captured label
//! spans. Concatenating the chunks' texts reproduces the script exactly;
//! the resolver passes later rewrite only the label chunks' base names.

use vstd::prelude::*;

use crate::diag::Context;
use crate::ir::{eval, forest_between, Term};
use crate::peg::{ParseState, RawCapture};
use crate::registry::copy_chars;
use crate::script::{script_grammar, ScriptTag, NUM_RULES, R_PROGRAM};
use crate::text::slice_chars;

verus! {

/// The parts of a label occurrence: optional namespace, base name,
/// optional local part, and the character span it came from.
pub struct LabelName {
    pub namespace: Option<Vec<char>>,
    pub name: Vec<char>,
    pub local: Option<Vec<char>>,
    pub span_start: usize,
    pub span_end: usize,
}

/// One piece of a script: either text that is passed through untouched, or
/// a label occurrence whose base name the resolver will rewrite. `raw`
/// holds the characters the label was written with.
pub enum Chunk {
    Verbatim(Vec<char>),
    Label { is_ref: bool, is_anon: bool, raw: Vec<char>, name: LabelName },
}

/// The text a chunk stands for before any rewriting.
pub open spec fn chunk_text(c: Chunk) -> Seq<char> {
    match c {
        Chunk::Verbatim(s) => s@,
        Chunk::Label { raw, .. } => raw@,
    }
}

/// The concatenation of all chunks' texts.
pub open spec fn chunks_text(cs: Seq<Chunk>) -> Seq<char>
    decreases cs.len(),
{
    if cs.len() == 0 {
        Seq::empty()
    } else {
        chunk_text(cs[0]) + chunks_text(cs.drop_first())
    }
}

/// Appending a chunk appends its text.
pub proof fn lemma_chunks_text_snoc(cs: Seq<Chunk>, c: Chunk)
    ensures
        chunks_text(cs.push(c)) =~= chunks_text(cs) + chunk_text(c),
    decreases cs.len(),
{
    if cs.len() == 0 {
        assert(cs.push(c).drop_first() =~= Seq::<Chunk>::empty());
        assert(chunks_text(Seq::<Chunk>::empty()) =~= Seq::<char>::empty());
        assert(chunks_text(cs.push(c)) =~= chunk_text(c));
        assert(cs =~= Seq::<Chunk>::empty());
    } else {
        assert(cs.push(c).drop_first() =~= cs.drop_first().push(c));
        lemma_chunks_text_snoc(cs.drop_first(), c);
        assert(chunks_text(cs.push(c)) == chunk_text(cs[0]) + chunks_text(
            cs.push(c).drop_first(),
        ));
    }
}

/// The span of a label chunk; `(0, 0)` for verbatim text.
pub open spec fn chunk_span(c: Chunk) -> (int, int) {
    match c {
        Chunk::Label { name, .. } => (name.span_start as int, name.span_end as int),
        _ => (0int, 0int),
    }
}

/// The characters a label chunk was written with.
pub open spec fn chunk_raw(c: Chunk) -> Seq<char> {
    match c {
        Chunk::Label { raw, .. } => raw@,
        _ => Seq::empty(),
    }
}

/// Every label chunk carries its own span, within the script, and its
/// `raw` text is exactly the script's characters at that span.
pub open spec fn labels_sourced(cs: Seq<Chunk>, code: Seq<char>) -> bool {
    forall|k: int|
        0 <= k < cs.len() && (#[trigger] cs[k]) is Label ==> {
            let (ss, se) = chunk_span(cs[k]);
            0 <= ss <= se <= code.len() && chunk_raw(cs[k]) == code.subrange(ss, se)
        }
}

/// The index of the first `Label` subtree among the sibling subtrees
/// `i..j`, or `-1`.
pub open spec fn find_label(caps: Seq<RawCapture<ScriptTag>>, i: int, j: int) -> int
    decreases (if i < j { j - i } else { 0 }),
{
    if 0 <= i < j {
        if caps[i].kind is Label {
            i
        } else if caps[i].subtree_len >= 1 {
            find_label(caps, i + caps[i].subtree_len, j)
        } else {
            -1
        }
    } else {
        -1
    }
}

/// The label occurrences the capture forest `i..j` dictates, in order:
/// each root tagged `Label` is a definition at its own span, and each
/// root tagged `Reference` whose subtree holds a `Label` child is a
/// reference at that child's span.
pub open spec fn root_spans(caps: Seq<RawCapture<ScriptTag>>, i: int, j: int) -> Seq<
    (bool, int, int),
>
    decreases (if i < j { j - i } else { 0 }),
{
    if 0 <= i < j && caps[i].subtree_len >= 1 {
        let rest = root_spans(caps, i + caps[i].subtree_len, j);
        if caps[i].kind is Label {
            seq![(false, caps[i].start as int, caps[i].end as int)] + rest
        } else if caps[i].kind is Reference {
            let li = find_label(caps, i + 1, i + caps[i].subtree_len);
            if li >= 0 {
                seq![(true, caps[li].start as int, caps[li].end as int)] + rest
            } else {
                rest
            }
        } else {
            rest
        }
    } else {
        Seq::empty()
    }
}

/// A found label among the sibling subtrees `i..j` lies inside their
/// span bounds.
proof fn lemma_find_label_span(caps: Seq<RawCapture<ScriptTag>>, i: int, j: int, lo: int, hi: int)
    requires
        forest_between(caps, i, j, lo, hi),
        find_label(caps, i, j) >= 0,
    ensures
        ({
            let li = find_label(caps, i, j);
            &&& i <= li < j
            &&& lo <= caps[li].start <= caps[li].end <= hi
        }),
    decreases (if i < j { j - i } else { 0 }),
{
    if i < j {
        if caps[i].kind is Label {
        } else {
            lemma_find_label_span(caps, i + caps[i].subtree_len, j, caps[i].end as int, hi);
        }
    }
}

/// The label occurrences a capture forest dictates come in span order,
/// within the forest's bounds: each occurrence ends no later than the
/// next begins, and none overlap.
pub proof fn lemma_root_spans_ordered(
    caps: Seq<RawCapture<ScriptTag>>,
    i: int,
    j: int,
    lo: int,
    hi: int,
)
    requires
        forest_between(caps, i, j, lo, hi),
    ensures
        ({
            let rs = root_spans(caps, i, j);
            &&& (forall|k: int| 0 <= k < rs.len() ==> lo <= (#[trigger] rs[k]).1 <= rs[k].2 <= hi)
            &&& (forall|k1: int, k2: int|
                0 <= k1 < k2 < rs.len() ==> (#[trigger] rs[k1]).2 <= (#[trigger] rs[k2]).1)
        }),
    decreases (if i < j { j - i } else { 0 }),
{
    if i < j {
        let stl = caps[i].subtree_len as int;
        lemma_root_spans_ordered(caps, i + stl, j, caps[i].end as int, hi);
        let rest = root_spans(caps, i + stl, j);
        let rs = root_spans(caps, i, j);
        if caps[i].kind is Label {
            assert(rs =~= seq![(false, caps[i].start as int, caps[i].end as int)] + rest);
        } else if caps[i].kind is Reference {
            let li = find_label(caps, i + 1, i + stl);
            if li >= 0 {
                lemma_find_label_span(
                    caps,
                    i + 1,
                    i + stl,
                    caps[i].start as int,
                    caps[i].end as int,
                );
                assert(rs =~= seq![(true, caps[li].start as int, caps[li].end as int)] + rest);
            } else {
                assert(rs =~= rest);
            }
        } else {
            assert(rs =~= rest);
        }
    }
}

/// The label occurrences the forest `i..j` dictates, each as its kind
/// and the index of the label record that carries its span and parts.
pub open spec fn root_label_idx(caps: Seq<RawCapture<ScriptTag>>, i: int, j: int) -> Seq<
    (bool, int),
>
    decreases (if i < j { j - i } else { 0 }),
{
    if 0 <= i < j && caps[i].subtree_len >= 1 {
        let rest = root_label_idx(caps, i + caps[i].subtree_len, j);
        if caps[i].kind is Label {
            seq![(false, i)] + rest
        } else if caps[i].kind is Reference {
            let li = find_label(caps, i + 1, i + caps[i].subtree_len);
            if li >= 0 {
                seq![(true, li)] + rest
            } else {
                rest
            }
        } else {
            rest
        }
    } else {
        Seq::empty()
    }
}

/// One label chunk reproduces label record `idx` in full: its kind, its
/// span, the characters it was written with, and its parts as the
/// record's child fold dictates.
pub open spec fn chunk_matches_record(
    c: Chunk,
    caps: Seq<RawCapture<ScriptTag>>,
    is_ref: bool,
    idx: int,
    input: Seq<char>,
) -> bool {
    match c {
        Chunk::Label { is_ref: cr, is_anon, raw, name } => {
            &&& 0 <= idx < caps.len()
            &&& cr == is_ref
            &&& name.span_start == caps[idx].start
            &&& name.span_end == caps[idx].end
            &&& ({
                let f = fields_from(caps, idx + 1, idx + caps[idx].subtree_len, no_fields());
                &&& opt_matches(name.namespace, f.ns, input)
                &&& opt_matches(name.local, f.local, input)
                &&& (match f.base {
                    Some((a, b)) => 0 <= a <= b <= input.len() && name.name@ == input.subrange(
                        a,
                        b,
                    ),
                    None => name.name@ == Seq::<char>::empty(),
                })
                &&& is_anon == f.anon
            })
        },
        _ => false,
    }
}

/// The label chunks of `cs`, in order, reproduce the listed label
/// records one for one; verbatim chunks stand between them freely.
pub open spec fn labels_correspond(
    cs: Seq<Chunk>,
    ri: Seq<(bool, int)>,
    caps: Seq<RawCapture<ScriptTag>>,
    input: Seq<char>,
) -> bool
    decreases cs.len(),
{
    if cs.len() == 0 {
        ri.len() == 0
    } else if cs[0] is Label {
        &&& ri.len() > 0
        &&& chunk_matches_record(cs[0], caps, ri[0].0, ri[0].1, input)
        &&& labels_correspond(cs.drop_first(), ri.drop_first(), caps, input)
    } else {
        labels_correspond(cs.drop_first(), ri, caps, input)
    }
}

/// Appending a verbatim chunk changes no correspondence.
proof fn lemma_correspond_verbatim(
    cs: Seq<Chunk>,
    c: Chunk,
    ri: Seq<(bool, int)>,
    caps: Seq<RawCapture<ScriptTag>>,
    input: Seq<char>,
)
    requires
        labels_correspond(cs, ri, caps, input),
        c is Verbatim,
    ensures
        labels_correspond(cs.push(c), ri, caps, input),
    decreases cs.len(),
{
    assert(cs.push(c)[0] == if cs.len() == 0 {
        c
    } else {
        cs[0]
    });
    if cs.len() == 0 {
        assert(ri.len() == 0);
        assert(cs.push(c).drop_first() =~= Seq::<Chunk>::empty());
        assert(labels_correspond(cs.push(c).drop_first(), ri, caps, input));
    } else {
        assert(cs.push(c).drop_first() =~= cs.drop_first().push(c));
        if cs[0] is Label {
            lemma_correspond_verbatim(cs.drop_first(), c, ri.drop_first(), caps, input);
            assert(labels_correspond(cs.push(c).drop_first(), ri.drop_first(), caps, input));
        } else {
            lemma_correspond_verbatim(cs.drop_first(), c, ri, caps, input);
            assert(labels_correspond(cs.push(c).drop_first(), ri, caps, input));
        }
    }
}

/// Appending a label chunk that reproduces one more record extends the
/// correspondence by that record.
proof fn lemma_correspond_label(
    cs: Seq<Chunk>,
    c: Chunk,
    ri: Seq<(bool, int)>,
    pair: (bool, int),
    caps: Seq<RawCapture<ScriptTag>>,
    input: Seq<char>,
)
    requires
        labels_correspond(cs, ri, caps, input),
        c is Label,
        chunk_matches_record(c, caps, pair.0, pair.1, input),
    ensures
        labels_correspond(cs.push(c), ri.push(pair), caps, input),
    decreases cs.len(),
{
    assert(cs.push(c)[0] == if cs.len() == 0 {
        c
    } else {
        cs[0]
    });
    if cs.len() == 0 {
        assert(ri.len() == 0);
        assert(cs.push(c).drop_first() =~= Seq::<Chunk>::empty());
        assert(ri.push(pair).drop_first() =~= Seq::<(bool, int)>::empty());
        assert(ri.push(pair)[0] == pair);
        assert(labels_correspond(
            cs.push(c).drop_first(),
            ri.push(pair).drop_first(),
            caps,
            input,
        ));
    } else {
        assert(cs.push(c).drop_first() =~= cs.drop_first().push(c));
        if cs[0] is Label {
            assert(ri.len() > 0);
            assert(ri.push(pair).drop_first() =~= ri.drop_first().push(pair));
            assert(ri.push(pair)[0] == ri[0]);
            lemma_correspond_label(cs.drop_first(), c, ri.drop_first(), pair, caps, input);
            assert(labels_correspond(
                cs.push(c).drop_first(),
                ri.push(pair).drop_first(),
                caps,
                input,
            ));
        } else {
            lemma_correspond_label(cs.drop_first(), c, ri, pair, caps, input);
            assert(labels_correspond(cs.push(c).drop_first(), ri.push(pair), caps, input));
        }
    }
}

/// What a walk of a `Reference` subtree sees: whether an `Anon` or a
/// `Local` record occurs anywhere in it, and the last `Recipient`
/// record's span.
pub struct RefScan {
    pub has_anon: bool,
    pub has_local: bool,
    pub recipient: Option<(usize, usize)>,
}

/// The empty reference scan.
pub open spec fn no_ref_scan() -> RefScan {
    RefScan { has_anon: false, has_local: false, recipient: None::<(usize, usize)> }
}

/// Fold the records `i..j` over the reference scan, one record at a time.
pub open spec fn ref_scan(caps: Seq<RawCapture<ScriptTag>>, i: int, j: int, acc: RefScan) -> RefScan
    decreases (if i < j { j - i } else { 0 }),
{
    if 0 <= i < j {
        let acc2 = match caps[i].kind {
            ScriptTag::Anon => RefScan { has_anon: true, ..acc },
            ScriptTag::Local => RefScan { has_local: true, ..acc },
            ScriptTag::Recipient => RefScan {
                recipient: Some((caps[i].start, caps[i].end)),
                ..acc
            },
            _ => acc,
        };
        ref_scan(caps, i + 1, j, acc2)
    } else {
        acc
    }
}

/// The diagnostics the capture forest `i..j` dictates, in order: a
/// warning at each `WarnTrailing` root, and, at each `Reference` root
/// that combines a recipient with an anonymous or a local label, the
/// matching error at the recipient's span.
pub open spec fn root_msgs(
    caps: Seq<RawCapture<ScriptTag>>,
    i: int,
    j: int,
    loc: crate::diag::LocView,
) -> Seq<crate::diag::MsgView>
    decreases (if i < j { j - i } else { 0 }),
{
    if 0 <= i < j && caps[i].subtree_len >= 1 {
        let rest = root_msgs(caps, i + caps[i].subtree_len, j, loc);
        (match caps[i].kind {
            ScriptTag::WarnTrailing => seq![
                crate::diag::MsgView {
                    level: crate::diag::Level::Warning,
                    message: ("trailing characters at end of line")@,
                    location: crate::diag::LocView {
                        span: Some((caps[i].start, caps[i].end)),
                        ..loc
                    },
                },
            ],
            ScriptTag::Reference => {
                let sc = ref_scan(caps, i + 1, i + caps[i].subtree_len, no_ref_scan());
                match sc.recipient {
                    Some((rs, re)) => if sc.has_anon {
                        seq![
                            crate::diag::MsgView {
                                level: crate::diag::Level::Error,
                                message: ("message targets not allowed for anonymous labels")@,
                                location: crate::diag::LocView { span: Some((rs, re)), ..loc },
                            },
                        ]
                    } else if sc.has_local {
                        seq![
                            crate::diag::MsgView {
                                level: crate::diag::Level::Error,
                                message: ("message targets not supported for local labels")@,
                                location: crate::diag::LocView { span: Some((rs, re)), ..loc },
                            },
                        ]
                    } else {
                        Seq::empty()
                    },
                    None => Seq::empty(),
                }
            },
            _ => Seq::<crate::diag::MsgView>::empty(),
        }) + rest
    } else {
        Seq::empty()
    }
}

/// The label chunks of a chunk list, each as its kind and span.
pub open spec fn lab_spans(cs: Seq<Chunk>) -> Seq<(bool, int, int)>
    decreases cs.len(),
{
    if cs.len() == 0 {
        Seq::empty()
    } else {
        (match cs[0] {
            Chunk::Label { is_ref, name, .. } => seq![
                (is_ref, name.span_start as int, name.span_end as int),
            ],
            _ => Seq::<(bool, int, int)>::empty(),
        }) + lab_spans(cs.drop_first())
    }
}

/// Appending a chunk appends its label span, if it is a label.
proof fn lemma_lab_spans_snoc(cs: Seq<Chunk>, c: Chunk)
    ensures
        lab_spans(cs.push(c)) =~= lab_spans(cs) + (match c {
            Chunk::Label { is_ref, name, .. } => seq![
                (is_ref, name.span_start as int, name.span_end as int),
            ],
            _ => Seq::<(bool, int, int)>::empty(),
        }),
    decreases cs.len(),
{
    if cs.len() == 0 {
        assert(cs.push(c).drop_first() =~= Seq::<Chunk>::empty());
        assert(cs =~= Seq::<Chunk>::empty());
    } else {
        assert(cs.push(c).drop_first() =~= cs.drop_first().push(c));
        lemma_lab_spans_snoc(cs.drop_first(), c);
    }
}

/// The parts of a label found so far while walking its child subtrees:
/// each as the span it was captured at, the later sibling winning.
pub struct FieldSpans {
    pub ns: Option<(int, int)>,
    pub local: Option<(int, int)>,
    pub base: Option<(int, int)>,
    pub anon: bool,
}

/// Fold the direct child subtrees `i..j` over the field accumulator: a
/// `Namespace`, `Local`, `Global` or `Anon` child sets its field to its
/// own span, and a `Global` or `Anon` child also settles whether the
/// label is anonymous.
pub open spec fn fields_from(
    caps: Seq<RawCapture<ScriptTag>>,
    i: int,
    j: int,
    acc: FieldSpans,
) -> FieldSpans
    decreases (if i < j { j - i } else { 0 }),
{
    if 0 <= i < j && caps[i].subtree_len >= 1 {
        let span = (caps[i].start as int, caps[i].end as int);
        let acc2 = match caps[i].kind {
            ScriptTag::Namespace => FieldSpans { ns: Some(span), ..acc },
            ScriptTag::Global => FieldSpans { base: Some(span), anon: false, ..acc },
            ScriptTag::Anon => FieldSpans { base: Some(span), anon: true, ..acc },
            ScriptTag::Local => FieldSpans { local: Some(span), ..acc },
            _ => acc,
        };
        fields_from(caps, i + caps[i].subtree_len, j, acc2)
    } else {
        acc
    }
}

/// The empty field accumulator: no parts seen, not anonymous.
pub open spec fn no_fields() -> FieldSpans {
    FieldSpans {
        ns: None::<(int, int)>,
        local: None::<(int, int)>,
        base: None::<(int, int)>,
        anon: false,
    }
}

/// An optional slice of the input equals an optional field span.
pub open spec fn opt_matches(o: Option<Vec<char>>, f: Option<(int, int)>, input: Seq<char>) -> bool {
    match f {
        Some((a, b)) => o is Some && 0 <= a <= b <= input.len() && o->0@ == input.subrange(a, b),
        None => o is None,
    }
}

/// Read the parts of the label capture rooted at `li` out of the capture
/// buffer: its namespace, base, local and anonymous children, exactly as
/// the child-subtree fold dictates.
#[verifier::loop_isolation(false)]
fn read_label_fields(p: &ParseState<ScriptTag>, li: usize) -> (r: (LabelName, bool))
    requires
        p.wf(),
        li < p.captures@.len(),
        1 <= p.captures@[li as int].subtree_len,
        li + p.captures@[li as int].subtree_len <= p.captures@.len(),
        forest_between(
            p.captures@,
            li + 1,
            li + p.captures@[li as int].subtree_len,
            p.captures@[li as int].start as int,
            p.captures@[li as int].end as int,
        ),
        p.captures@[li as int].end <= p.input@.len(),
        p.captures@[li as int].start <= p.captures@[li as int].end,
    ensures
        r.0.span_start == p.captures@[li as int].start,
        r.0.span_end == p.captures@[li as int].end,
        ({
            let f = fields_from(
                p.captures@,
                li + 1,
                li + p.captures@[li as int].subtree_len,
                no_fields(),
            );
            &&& opt_matches(r.0.namespace, f.ns, p.input@)
            &&& opt_matches(r.0.local, f.local, p.input@)
            &&& (match f.base {
                Some((a, b)) => 0 <= a <= b <= p.input@.len() && r.0.name@ == p.input@.subrange(
                    a,
                    b,
                ),
                None => r.0.name@ == Seq::<char>::empty(),
            })
            &&& r.1 == f.anon
        }),
{
    let n = p.captures.len();
    let node_start = p.captures[li].start;
    let node_end = p.captures[li].end;
    let stl = p.captures[li].subtree_len;
    let node_hi = li + stl;
    let ghost caps = p.captures@;
    let mut namespace: Option<Vec<char>> = None;
    let mut local: Option<Vec<char>> = None;
    let mut name: Vec<char> = Vec::new();
    let mut is_anon = false;
    let mut j: usize = li + 1;
    let ghost mut lo: int = node_start as int;
    let ghost mut acc: FieldSpans = no_fields();
    while j < node_hi
        invariant
            li + 1 <= j <= node_hi,
            node_hi == li + p.captures@[li as int].subtree_len,
            node_hi <= p.captures@.len(),
            forest_between(p.captures@, j as int, node_hi as int, lo, node_end as int),
            node_end <= p.input@.len(),
            fields_from(caps, li + 1, node_hi as int, no_fields()) == fields_from(
                caps,
                j as int,
                node_hi as int,
                acc,
            ),
            opt_matches(namespace, acc.ns, p.input@),
            opt_matches(local, acc.local, p.input@),
            match acc.base {
                Some((a, b)) => 0 <= a <= b <= p.input@.len() && name@ == p.input@.subrange(
                    a,
                    b,
                ),
                None => name@ == Seq::<char>::empty(),
            },
            is_anon == acc.anon,
        decreases node_hi - j,
    {
        let cstl = p.captures[j].subtree_len;
        let cs = p.captures[j].start;
        let ce = p.captures[j].end;
        proof {
            assert(1 <= p.captures@[j as int].subtree_len <= node_hi - j);
            assert(lo <= cs <= ce <= node_end);
        }
        match p.captures[j].kind {
            ScriptTag::Namespace => {
                namespace = Some(slice_chars(&p.input, cs, ce));
            },
            ScriptTag::Global => {
                name = slice_chars(&p.input, cs, ce);
                is_anon = false;
            },
            ScriptTag::Anon => {
                name = slice_chars(&p.input, cs, ce);
                is_anon = true;
            },
            ScriptTag::Local => {
                local = Some(slice_chars(&p.input, cs, ce));
            },
            _ => {},
        }
        proof {
            let span = (caps[j as int].start as int, caps[j as int].end as int);
            acc = match caps[j as int].kind {
                ScriptTag::Namespace => FieldSpans { ns: Some(span), ..acc },
                ScriptTag::Global => FieldSpans { base: Some(span), anon: false, ..acc },
                ScriptTag::Anon => FieldSpans { base: Some(span), anon: true, ..acc },
                ScriptTag::Local => FieldSpans { local: Some(span), ..acc },
                _ => acc,
            };
            lo = p.captures@[j as int].end as int;
        }
        j = j + cstl;
    }
    proof {
        assert(fields_from(caps, node_hi as int, node_hi as int, acc) == acc);
    }
    (
        LabelName { namespace, name, local, span_start: node_start, span_end: node_end },
        is_anon,
    )
}

/// The fuel the script parse runs with: beyond the input length plus the
/// grammar's deepest call chain, so it never runs out on a real script.
pub open spec fn script_fuel(n: nat) -> nat {
    if n < 0xffff_ffff_0000_0000 {
        (n + 64) as nat
    } else {
        0xffff_ffff_ffff_ffff as nat
    }
}

/// The outcome of running the script grammar's top rule over a script,
/// from a fresh state: whether the script is accepted, and the capture
/// forest it produces.
pub open spec fn script_parse(code: Seq<char>) -> crate::ir::EvalOutcome<ScriptTag> {
    crate::ir::view_eval(
        crate::script::script_grammar_view(),
        code,
        crate::script::script_grammar_view()[R_PROGRAM as int],
        crate::ir::EvalState { offset: 0, caps: Seq::empty() },
        script_fuel(code.len() as nat),
    )
}

/// What the chunked parse yields for one script, fixed by the script
/// grammar's outcome: a script the grammar accepts becomes the chunk
/// list its capture forest dictates; a rejected script is one verbatim
/// chunk.
pub open spec fn parsed_chunks(code: Seq<char>, cs: Seq<Chunk>) -> bool {
    &&& chunks_text(cs) == code
    &&& labels_sourced(cs, code)
    &&& ({
        let out = script_parse(code);
        &&& (out.ok ==> labels_correspond(
            cs,
            root_label_idx(out.st.caps, 0, out.st.caps.len() as int),
            out.st.caps,
            code,
        ) && lab_spans(cs) == root_spans(out.st.caps, 0, out.st.caps.len() as int))
        &&& (!out.ok ==> cs.len() == 1 && cs[0] is Verbatim)
    })
}

/// The diagnostics the chunked parse records for one script: the capture
/// forest's own messages when the grammar accepts it, and one warning
/// when it does not.
pub open spec fn parsed_msgs(code: Seq<char>, loc: crate::diag::LocView) -> Seq<
    crate::diag::MsgView,
> {
    let out = script_parse(code);
    if out.ok {
        root_msgs(out.st.caps, 0, out.st.caps.len() as int, loc)
    } else {
        seq![
            crate::diag::MsgView {
                level: crate::diag::Level::Warning,
                message: ("script failed to parse")@,
                location: loc,
            },
        ]
    }
}

/// Parse one script into its chunk list. A script the grammar rejects is
/// returned as one verbatim chunk, with a warning recorded; every label
/// definition and reference otherwise becomes a label chunk, the text in
/// between becomes verbatim chunks, and invalid message recipients and
/// trailing characters produce diagnostics — exactly as the script
/// grammar's capture forest dictates.
#[verifier::loop_isolation(false)]
pub fn parse_stat_labels(code: &Vec<char>, ctx: &mut Context) -> (r: Vec<Chunk>)
    ensures
        chunks_text(r@) =~= code@,
        labels_sourced(r@, code@),
        parsed_chunks(code@, r@),
        crate::diag::loc_of(final(ctx).location) == crate::diag::loc_of(old(ctx).location),
        crate::diag::msgs_of(final(ctx).messages@) =~= crate::diag::msgs_of(
            old(ctx).messages@,
        ) + parsed_msgs(code@, crate::diag::loc_of(old(ctx).location)),
{
    let g = script_grammar();
    let mut p = ParseState::new(copy_chars(code));
    let ghost pre = p;
    let n_in = p.input.len();
    let fuel: u64 = if (n_in as u64) < 0xffff_ffff_0000_0000u64 {
        n_in as u64 + 64
    } else {
        0xffff_ffff_ffff_ffffu64
    };
    let ok = eval(&g, &g[R_PROGRAM], &mut p, fuel);
    proof {
        crate::ir::lemma_eval_view(
            g@,
            pre.input@,
            g@[R_PROGRAM as int],
            crate::ir::st_of(pre),
            fuel as nat,
        );
        crate::ir::lemma_views_from(g@, 0);
        assert(crate::ir::views_from(g@, 0)[R_PROGRAM as int] == crate::ir::term_view(
            g@[R_PROGRAM as int],
        ));
        assert(pre.captures@ =~= Seq::<crate::peg::RawCapture<ScriptTag>>::empty());
        assert(crate::ir::st_of(pre) == (crate::ir::EvalState {
            offset: 0,
            caps: Seq::<crate::peg::RawCapture<ScriptTag>>::empty(),
        }));
        assert(fuel as nat == script_fuel(code@.len() as nat));
        assert(script_parse(code@) == (crate::ir::EvalOutcome {
            ok,
            st: crate::ir::st_of(p),
        }));
    }
    if !ok {
        let mut out: Vec<Chunk> = Vec::new();
        out.push(Chunk::Verbatim(copy_chars(code)));
        ctx.warning("script failed to parse");
        proof {
            assert(out@.drop_first() =~= Seq::<Chunk>::empty());
            assert(chunks_text(Seq::<Chunk>::empty()) =~= Seq::<char>::empty());
            assert(chunks_text(out@) =~= code@);
            assert(crate::diag::msgs_of(ctx.messages@) =~= crate::diag::msgs_of(
                old(ctx).messages@,
            ) + parsed_msgs(code@, crate::diag::loc_of(old(ctx).location)));
        }
        return out;
    }
    let r = capture_chunks(&p, ctx);
    proof {
        assert(chunks_text(r@) =~= code@);
        assert(script_parse(code@).st.caps == p.captures@);
    }
    r
}

/// Split a parsed script along its capture forest: one label chunk for
/// each root capture tagged `Label`, one for each root tagged `Reference`
/// through its `Label` child, at exactly the spans the forest dictates
/// and in forest order; the text in between becomes verbatim chunks, and
/// invalid message recipients and trailing characters produce
/// diagnostics.
#[verifier::loop_isolation(false)]
#[verifier::rlimit(100)]
pub fn capture_chunks(p: &ParseState<ScriptTag>, ctx: &mut Context) -> (r: Vec<Chunk>)
    requires
        p.wf(),
        forest_between(p.captures@, 0, p.captures@.len() as int, 0, p.offset as int),
    ensures
        chunks_text(r@) =~= p.input@,
        labels_sourced(r@, p.input@),
        lab_spans(r@) =~= root_spans(p.captures@, 0, p.captures@.len() as int),
        labels_correspond(
            r@,
            root_label_idx(p.captures@, 0, p.captures@.len() as int),
            p.captures@,
            p.input@,
        ),
        crate::diag::loc_of(final(ctx).location) == crate::diag::loc_of(old(ctx).location),
        crate::diag::msgs_of(final(ctx).messages@) =~= crate::diag::msgs_of(
            old(ctx).messages@,
        ) + root_msgs(
            p.captures@,
            0,
            p.captures@.len() as int,
            crate::diag::loc_of(old(ctx).location),
        ),
{
    let code = &p.input;
    let ghost caps = p.captures@;
    let ghost loc0 = crate::diag::loc_of(old(ctx).location);
    let ghost mut gmsgs: Seq<crate::diag::MsgView> = Seq::empty();
    let caps_len = p.captures.len();
    let code_len = code.len();
    let mut out: Vec<Chunk> = Vec::new();
    let mut last: usize = 0;
    let mut i: usize = 0;
    let ghost mut lo: int = 0;
    let ghost mut ric: Seq<(bool, int)> = Seq::empty();
    while i < caps_len
        invariant
            i <= caps_len,
            caps_len == p.captures@.len(),
            p.wf(),
            p.input@ == code@,
            code_len == code@.len(),
            forest_between(p.captures@, i as int, caps_len as int, lo, p.offset as int),
            p.offset <= code@.len(),
            last <= lo || i == caps_len,
            last <= code_len,
            chunks_text(out@) =~= code@.subrange(0, last as int),
            labels_sourced(out@, code@),
            root_spans(caps, 0, caps_len as int) =~= lab_spans(out@) + root_spans(
                caps,
                i as int,
                caps_len as int,
            ),
            root_label_idx(caps, 0, caps_len as int) =~= ric + root_label_idx(
                caps,
                i as int,
                caps_len as int,
            ),
            labels_correspond(out@, ric, caps, code@),
            crate::diag::loc_of(ctx.location) == loc0,
            crate::diag::msgs_of(ctx.messages@) =~= crate::diag::msgs_of(old(ctx).messages@)
                + gmsgs,
            root_msgs(caps, 0, caps_len as int, loc0) =~= gmsgs + root_msgs(
                caps,
                i as int,
                caps_len as int,
                loc0,
            ),
        decreases caps_len - i,
    {
        let stl = p.captures[i].subtree_len;
        let start = p.captures[i].start;
        let end = p.captures[i].end;
        proof {
            assert(1 <= p.captures@[i as int].subtree_len <= caps_len - i);
            assert(lo <= start <= end <= p.offset);
            assert(forest_between(
                p.captures@,
                i + 1,
                i + p.captures@[i as int].subtree_len,
                start as int,
                end as int,
            ));
        }
        match p.captures[i].kind {
            ScriptTag::WarnTrailing => {
                let mut sub = ctx.with_span(start, end);
                sub.warning("trailing characters at end of line");
                ctx.absorb(sub);
                proof {
                    assert(root_spans(caps, i as int, caps_len as int) =~= root_spans(
                        caps,
                        i + stl,
                        caps_len as int,
                    ));
                    assert(root_label_idx(caps, i as int, caps_len as int) =~= root_label_idx(
                        caps,
                        i + stl,
                        caps_len as int,
                    ));
                    let m = crate::diag::MsgView {
                        level: crate::diag::Level::Warning,
                        message: ("trailing characters at end of line")@,
                        location: crate::diag::LocView { span: Some((start, end)), ..loc0 },
                    };
                    gmsgs = gmsgs.push(m);
                    assert(root_msgs(caps, i as int, caps_len as int, loc0) =~= seq![m]
                        + root_msgs(caps, i + stl, caps_len as int, loc0));
                    assert(root_msgs(caps, 0, caps_len as int, loc0) =~= gmsgs + root_msgs(
                        caps,
                        i + stl,
                        caps_len as int,
                        loc0,
                    ));
                    assert(crate::diag::msgs_of(ctx.messages@) =~= crate::diag::msgs_of(
                        old(ctx).messages@,
                    ) + gmsgs);
                }
            },
            ScriptTag::Label => {
                if last < start {
                    let piece = slice_chars(code, last, start);
                    let ch = Chunk::Verbatim(piece);
                    let ghost cg = ch;
                    let ghost prev = out@;
                    out.push(ch);
                    proof {
                        lemma_chunks_text_snoc(prev, cg);
                        lemma_lab_spans_snoc(prev, cg);
                        lemma_correspond_verbatim(prev, cg, ric, caps, code@);
                        assert(code@.subrange(0, last as int) + code@.subrange(
                            last as int,
                            start as int,
                        ) =~= code@.subrange(0, start as int));
                        assert(lab_spans(out@) =~= lab_spans(prev));
                    }
                    last = start;
                }
                let (name, is_anon) = read_label_fields(&p, i);
                let raw = slice_chars(code, start, end);
                let ch = Chunk::Label { is_ref: false, is_anon, raw, name };
                let ghost cg = ch;
                let ghost prev = out@;
                out.push(ch);
                proof {
                    lemma_chunks_text_snoc(prev, cg);
                    lemma_lab_spans_snoc(prev, cg);
                    assert(chunk_matches_record(cg, caps, false, i as int, code@));
                    lemma_correspond_label(prev, cg, ric, (false, i as int), caps, code@);
                    let ghost ric_pre = ric;
                    ric = ric.push((false, i as int));
                    assert(code@.subrange(0, last as int) + code@.subrange(
                        last as int,
                        end as int,
                    ) =~= code@.subrange(0, end as int));
                    assert(root_spans(caps, i as int, caps_len as int) =~= seq![
                        (false, start as int, end as int),
                    ] + root_spans(caps, i + stl, caps_len as int));
                    assert(root_label_idx(caps, i as int, caps_len as int) =~= seq![
                        (false, i as int),
                    ] + root_label_idx(caps, i + stl, caps_len as int));
                    assert(lab_spans(out@) =~= lab_spans(prev) + seq![
                        (false, start as int, end as int),
                    ]);
                    assert(root_label_idx(caps, 0, caps_len as int) =~= ric + root_label_idx(
                        caps,
                        i + stl,
                        caps_len as int,
                    ));
                    assert(root_msgs(caps, i as int, caps_len as int, loc0) =~= root_msgs(
                        caps,
                        i + stl,
                        caps_len as int,
                        loc0,
                    ));
                }
                last = end;
            },
            ScriptTag::Reference => {
                // check for a recipient combined with an anonymous or
                // local label, walking every record of the subtree
                let mut has_anon = false;
                let mut has_local = false;
                let mut recipient_span: Option<(usize, usize)> = None;
                let ghost mut racc: RefScan = no_ref_scan();
                let mut k = i + 1;
                while k < i + stl
                    invariant
                        i + 1 <= k <= i + stl,
                        i + stl <= caps_len,
                        caps_len == p.captures@.len(),
                        ref_scan(caps, i + 1, (i + stl) as int, no_ref_scan()) == ref_scan(
                            caps,
                            k as int,
                            (i + stl) as int,
                            racc,
                        ),
                        has_anon == racc.has_anon,
                        has_local == racc.has_local,
                        recipient_span == racc.recipient,
                    decreases i + stl - k,
                {
                    match p.captures[k].kind {
                        ScriptTag::Anon => {
                            has_anon = true;
                        },
                        ScriptTag::Local => {
                            has_local = true;
                        },
                        ScriptTag::Recipient => {
                            recipient_span = Some((p.captures[k].start, p.captures[k].end));
                        },
                        _ => {},
                    }
                    proof {
                        racc = match caps[k as int].kind {
                            ScriptTag::Anon => RefScan { has_anon: true, ..racc },
                            ScriptTag::Local => RefScan { has_local: true, ..racc },
                            ScriptTag::Recipient => RefScan {
                                recipient: Some((caps[k as int].start, caps[k as int].end)),
                                ..racc
                            },
                            _ => racc,
                        };
                    }
                    k = k + 1;
                }
                let ghost sc = ref_scan(caps, i + 1, (i + stl) as int, no_ref_scan());
                proof {
                    assert(sc == racc);
                }
                match recipient_span {
                    Some((rs, re)) => {
                        if has_anon {
                            let mut sub = ctx.with_span(rs, re);
                            sub.error("message targets not allowed for anonymous labels");
                            ctx.absorb(sub);
                            proof {
                                let m = crate::diag::MsgView {
                                    level: crate::diag::Level::Error,
                                    message: (
                                    "message targets not allowed for anonymous labels")@,
                                    location: crate::diag::LocView {
                                        span: Some((rs, re)),
                                        ..loc0
                                    },
                                };
                                gmsgs = gmsgs.push(m);
                                assert(root_msgs(caps, i as int, caps_len as int, loc0)
                                    =~= seq![m] + root_msgs(
                                    caps,
                                    i + stl,
                                    caps_len as int,
                                    loc0,
                                ));
                            }
                        } else if has_local {
                            let mut sub = ctx.with_span(rs, re);
                            sub.error("message targets not supported for local labels");
                            ctx.absorb(sub);
                            proof {
                                let m = crate::diag::MsgView {
                                    level: crate::diag::Level::Error,
                                    message: (
                                    "message targets not supported for local labels")@,
                                    location: crate::diag::LocView {
                                        span: Some((rs, re)),
                                        ..loc0
                                    },
                                };
                                gmsgs = gmsgs.push(m);
                                assert(root_msgs(caps, i as int, caps_len as int, loc0)
                                    =~= seq![m] + root_msgs(
                                    caps,
                                    i + stl,
                                    caps_len as int,
                                    loc0,
                                ));
                            }
                        } else {
                            proof {
                                assert(root_msgs(caps, i as int, caps_len as int, loc0)
                                    =~= root_msgs(caps, i + stl, caps_len as int, loc0));
                            }
                        }
                    },
                    None => {
                        proof {
                            assert(root_msgs(caps, i as int, caps_len as int, loc0)
                                =~= root_msgs(caps, i + stl, caps_len as int, loc0));
                        }
                    },
                }
                proof {
                    assert(root_msgs(caps, 0, caps_len as int, loc0) =~= gmsgs + root_msgs(
                        caps,
                        i + stl,
                        caps_len as int,
                        loc0,
                    ));
                    assert(crate::diag::msgs_of(ctx.messages@) =~= crate::diag::msgs_of(
                        old(ctx).messages@,
                    ) + gmsgs);
                }
                // the single label child of the reference is the chunk
                let ghost out0 = out@;
                let ghost last0 = last;
                let mut j = i + 1;
                let ghost mut clo: int = start as int;
                let mut found = false;
                while j < i + stl && !found
                    invariant
                        i + 1 <= j <= i + stl,
                        i + stl <= caps_len,
                        caps_len == p.captures@.len(),
                        p.input@ == code@,
                        p.wf(),
                        !found ==> forest_between(
                            p.captures@,
                            j as int,
                            (i + stl) as int,
                            clo,
                            end as int,
                        ),
                        !found ==> last <= clo,
                        !found ==> out@ == out0 && last == last0,
                        !found ==> find_label(caps, i + 1, (i + stl) as int) == find_label(
                            caps,
                            j as int,
                            (i + stl) as int,
                        ),
                        found ==> find_label(caps, i + 1, (i + stl) as int) == j as int
                            && lab_spans(out@) =~= lab_spans(out0) + seq![
                            (true, caps[j as int].start as int, caps[j as int].end as int),
                        ] && labels_correspond(out@, ric.push((true, j as int)), caps, code@),
                        clo <= end as int,
                        found ==> j <= caps_len,
                        found ==> last <= end,
                        end <= p.offset,
                        last <= code_len,
                        chunks_text(out@) =~= code@.subrange(0, last as int),
                        labels_sourced(out@, code@),
                    decreases i + stl - j + (if found { 0int } else { 1int }),
                {
                    let cstl = p.captures[j].subtree_len;
                    let cs = p.captures[j].start;
                    let ce = p.captures[j].end;
                    proof {
                        assert(1 <= p.captures@[j as int].subtree_len <= i + stl - j);
                        assert(clo <= cs <= ce <= end);
                        assert(forest_between(
                            p.captures@,
                            j + 1,
                            j + p.captures@[j as int].subtree_len,
                            cs as int,
                            ce as int,
                        ));
                    }
                    let is_label = match p.captures[j].kind {
                        ScriptTag::Label => true,
                        _ => false,
                    };
                    if is_label {
                        if last < cs {
                            let piece = slice_chars(code, last, cs);
                            let ch = Chunk::Verbatim(piece);
                            let ghost cg = ch;
                            let ghost prev = out@;
                            out.push(ch);
                            proof {
                                lemma_chunks_text_snoc(prev, cg);
                                lemma_lab_spans_snoc(prev, cg);
                                lemma_correspond_verbatim(prev, cg, ric, caps, code@);
                                assert(code@.subrange(0, last as int) + code@.subrange(
                                    last as int,
                                    cs as int,
                                ) =~= code@.subrange(0, cs as int));
                                assert(lab_spans(out@) =~= lab_spans(prev));
                            }
                            last = cs;
                        }
                        let (name, is_anon) = read_label_fields(&p, j);
                        let raw = slice_chars(code, cs, ce);
                        let ch = Chunk::Label { is_ref: true, is_anon, raw, name };
                        let ghost cg = ch;
                        let ghost prev = out@;
                        out.push(ch);
                        proof {
                            lemma_chunks_text_snoc(prev, cg);
                            lemma_lab_spans_snoc(prev, cg);
                            assert(chunk_matches_record(cg, caps, true, j as int, code@));
                            lemma_correspond_label(
                                prev,
                                cg,
                                ric,
                                (true, j as int),
                                caps,
                                code@,
                            );
                            assert(code@.subrange(0, last as int) + code@.subrange(
                                last as int,
                                ce as int,
                            ) =~= code@.subrange(0, ce as int));
                            assert(find_label(caps, j as int, (i + stl) as int) == j as int);
                            assert(lab_spans(out@) =~= lab_spans(out0) + seq![
                                (true, cs as int, ce as int),
                            ]);
                        }
                        last = ce;
                        found = true;
                    } else {
                        proof {
                            clo = ce as int;
                            assert(find_label(caps, j as int, (i + stl) as int) == find_label(
                                caps,
                                j + p.captures@[j as int].subtree_len,
                                (i + stl) as int,
                            ));
                        }
                        j = j + cstl;
                    }
                }
                proof {
                    let li = find_label(caps, i + 1, (i + stl) as int);
                    if found {
                        assert(li == j as int);
                        assert(root_spans(caps, i as int, caps_len as int) =~= seq![
                            (true, caps[li].start as int, caps[li].end as int),
                        ] + root_spans(caps, i + stl, caps_len as int));
                        assert(root_label_idx(caps, i as int, caps_len as int) =~= seq![
                            (true, li),
                        ] + root_label_idx(caps, i + stl, caps_len as int));
                        ric = ric.push((true, j as int));
                        assert(root_label_idx(caps, 0, caps_len as int) =~= ric
                            + root_label_idx(caps, i + stl, caps_len as int));
                    } else {
                        assert(li == find_label(caps, (i + stl) as int, (i + stl) as int));
                        assert(li == -1);
                        assert(root_spans(caps, i as int, caps_len as int) =~= root_spans(
                            caps,
                            i + stl,
                            caps_len as int,
                        ));
                        assert(root_label_idx(caps, i as int, caps_len as int)
                            =~= root_label_idx(caps, i + stl, caps_len as int));
                    }
                }
            },
            _ => {
                proof {
                    assert(root_spans(caps, i as int, caps_len as int) =~= root_spans(
                        caps,
                        i + stl,
                        caps_len as int,
                    ));
                    assert(root_label_idx(caps, i as int, caps_len as int) =~= root_label_idx(
                        caps,
                        i + stl,
                        caps_len as int,
                    ));
                    assert(root_msgs(caps, i as int, caps_len as int, loc0) =~= root_msgs(
                        caps,
                        i + stl,
                        caps_len as int,
                        loc0,
                    ));
                }
            },
        }
        proof {
            lo = end as int;
        }
        i = i + stl;
    }
    if last < code_len {
        let piece = slice_chars(code, last, code_len);
        let ch = Chunk::Verbatim(piece);
        let ghost cg = ch;
        let ghost prev = out@;
        out.push(ch);
        proof {
            lemma_chunks_text_snoc(prev, cg);
            lemma_lab_spans_snoc(prev, cg);
            lemma_correspond_verbatim(prev, cg, ric, caps, code@);
            assert(code@.subrange(0, last as int) + code@.subrange(
                last as int,
                code_len as int,
            ) =~= code@.subrange(0, code_len as int));
            assert(lab_spans(out@) =~= lab_spans(prev));
        }
    }
    proof {
        assert(code@.subrange(0, code@.len() as int) =~= code@);
        assert(root_spans(caps, caps_len as int, caps_len as int) =~= Seq::<
            (bool, int, int),
        >::empty());
        assert(root_label_idx(caps, caps_len as int, caps_len as int) =~= Seq::<
            (bool, int),
        >::empty());
        assert(ric =~= root_label_idx(caps, 0, caps_len as int));
        assert(labels_correspond(out@, root_label_idx(caps, 0, caps_len as int), caps, code@));
        assert(root_msgs(caps, caps_len as int, caps_len as int, loc0) =~= Seq::<
            crate::diag::MsgView,
        >::empty());
        assert(root_msgs(caps, 0, caps_len as int, loc0) =~= gmsgs);
    }
    out
}

} // verus!
