//! The resolver pipeline: four passes over the chunk lists of all scripts
//! on one board. Locals are expanded to `section.local` form, named labels
//! are sanitized through the registry, and anonymous labels are assigned
//! generated names and wired to their `@b` / `@f` references.

use vstd::prelude::*;

use crate::chunks::{Chunk, LabelName};
use crate::diag::Context;
use crate::registry::{copy_chars, Registry};
use crate::text::chars_eq;

verus! {

// Spec views of chunk fields.

pub open spec fn c_is_label(c: Chunk) -> bool {
    c is Label
}

pub open spec fn c_is_ref(c: Chunk) -> bool {
    match c {
        Chunk::Label { is_ref, .. } => is_ref,
        _ => false,
    }
}

pub open spec fn c_is_anon(c: Chunk) -> bool {
    match c {
        Chunk::Label { is_anon, .. } => is_anon,
        _ => false,
    }
}

pub open spec fn c_ns(c: Chunk) -> Option<Seq<char>> {
    match c {
        Chunk::Label { name, .. } => match name.namespace {
            Some(n) => Some(n@),
            None => None,
        },
        _ => None,
    }
}

pub open spec fn c_base(c: Chunk) -> Seq<char> {
    match c {
        Chunk::Label { name, .. } => name.name@,
        _ => Seq::empty(),
    }
}

pub open spec fn c_local(c: Chunk) -> Option<Seq<char>> {
    match c {
        Chunk::Label { name, .. } => match name.local {
            Some(l) => Some(l@),
            None => None,
        },
        _ => None,
    }
}

/// Two chunks agree on everything except possibly the label's base name.
pub open spec fn same_shape(a: Chunk, b: Chunk) -> bool {
    &&& (a is Verbatim <==> b is Verbatim)
    &&& (a is Verbatim ==> crate::chunks::chunk_text(a) == crate::chunks::chunk_text(b))
    &&& (a is Label ==> {
        &&& c_is_ref(a) == c_is_ref(b)
        &&& c_is_anon(a) == c_is_anon(b)
        &&& c_ns(a) == c_ns(b)
        &&& c_local(a) == c_local(b)
    })
}

/// Chunk lists of equal length whose chunks agree except on base names.
pub open spec fn same_shapes(a: Seq<Chunk>, b: Seq<Chunk>) -> bool {
    a.len() == b.len() && forall|i: int| 0 <= i < a.len() ==> same_shape(a[i], #[trigger] b[i])
}

// Decimal rendering of the section disambiguator.

/// The decimal digit characters of `n`.
pub open spec fn dec_digits(n: int) -> Seq<char>
    decreases n,
{
    if n < 10 {
        seq![digit_char(if 0 <= n { n % 10 } else { 0 })]
    } else {
        dec_digits(n / 10).push(digit_char(n % 10))
    }
}

pub open spec fn digit_char(d: int) -> char {
    if d == 0 {
        '0'
    } else if d == 1 {
        '1'
    } else if d == 2 {
        '2'
    } else if d == 3 {
        '3'
    } else if d == 4 {
        '4'
    } else if d == 5 {
        '5'
    } else if d == 6 {
        '6'
    } else if d == 7 {
        '7'
    } else if d == 8 {
        '8'
    } else {
        '9'
    }
}

proof fn lemma_digit_char_injective(a: int, b: int)
    requires
        0 <= a <= 9,
        0 <= b <= 9,
        digit_char(a) == digit_char(b),
    ensures
        a == b,
{
}

/// Decimal renderings of distinct numbers are distinct.
pub proof fn lemma_dec_digits_injective(a: int, b: int)
    requires
        0 <= a,
        0 <= b,
        dec_digits(a) == dec_digits(b),
    ensures
        a == b,
    decreases a,
{
    if a < 10 && b < 10 {
        assert(dec_digits(a)[0] == digit_char(a));
        assert(dec_digits(b)[0] == digit_char(b));
        lemma_digit_char_injective(a, b);
    } else if a < 10 {
        assert(dec_digits(a).len() == 1);
        lemma_dec_digits_len(b);
        assert(false);
    } else if b < 10 {
        assert(dec_digits(b).len() == 1);
        lemma_dec_digits_len(a);
        assert(false);
    } else {
        assert(dec_digits(a).last() == digit_char(a % 10));
        assert(dec_digits(b).last() == digit_char(b % 10));
        lemma_digit_char_injective(a % 10, b % 10);
        assert(dec_digits(a).drop_last() =~= dec_digits(a / 10));
        assert(dec_digits(b).drop_last() =~= dec_digits(b / 10));
        lemma_dec_digits_injective(a / 10, b / 10);
    }
}

proof fn lemma_dec_digits_len(n: int)
    requires
        n >= 10,
    ensures
        dec_digits(n).len() >= 2,
    decreases n,
{
    if n / 10 >= 10 {
        lemma_dec_digits_len(n / 10);
    } else {
        assert(dec_digits(n / 10).len() == 1);
    }
}

fn digit_of(d: usize) -> (c: char)
    requires
        d <= 9,
    ensures
        c == digit_char(d as int),
{
    match d {
        0 => '0',
        1 => '1',
        2 => '2',
        3 => '3',
        4 => '4',
        5 => '5',
        6 => '6',
        7 => '7',
        8 => '8',
        _ => '9',
    }
}

/// The decimal rendering of `n`.
pub fn dec_chars(n: usize) -> (r: Vec<char>)
    ensures
        r@ == dec_digits(n as int),
    decreases n,
{
    if n < 10 {
        let mut r: Vec<char> = Vec::new();
        r.push(digit_of(n));
        proof {
            assert(r@ =~= dec_digits(n as int));
        }
        r
    } else {
        let mut r = dec_chars(n / 10);
        r.push(digit_of(n % 10));
        r
    }
}

// The per-namespace local-label resolver.

/// Resolves `.local` shortcuts within one namespace of one script: it
/// tracks the current section and, per (section, local) pair, how many
/// sections of that name have resolved that local so far.
pub struct LocalLabelResolver {
    /// The base name of the section being read.
    pub current_section: Vec<char>,
    /// How many sections have started so far.
    pub current_section_index: usize,
    /// Per (section, local) pair: the index of the section that last
    /// resolved it, and how many sections of this name have resolved it.
    pub pair_info: Vec<((Vec<char>, Vec<char>), (usize, usize))>,
}

/// The pair table, looked up by the values of section and local.
pub open spec fn pair_at(
    r: LocalLabelResolver,
    section: Seq<char>,
    local: Seq<char>,
) -> Option<(usize, usize)> {
    if exists|i: int|
        0 <= i < r.pair_info@.len() && (#[trigger] r.pair_info@[i]).0.0@ == section
            && r.pair_info@[i].0.1@ == local {
        let i = choose|i: int|
            0 <= i < r.pair_info@.len() && (#[trigger] r.pair_info@[i]).0.0@ == section
                && r.pair_info@[i].0.1@ == local;
        Some(r.pair_info@[i].1)
    } else {
        None
    }
}

/// Keys in the pair table are unique, and the recorded section indices
/// and counts never run ahead of the section counter.
pub open spec fn resolver_wf(r: LocalLabelResolver) -> bool {
    &&& (forall|i: int, j: int|
        0 <= i < j < r.pair_info@.len() ==> !((#[trigger] r.pair_info@[i]).0.0@ == (
        #[trigger] r.pair_info@[j]).0.0@ && r.pair_info@[i].0.1@ == r.pair_info@[j].0.1@))
    &&& (forall|i: int|
        0 <= i < r.pair_info@.len() ==> (#[trigger] r.pair_info@[i]).1.0
            <= r.current_section_index && 1 <= r.pair_info@[i].1.1 <= r.pair_info@[i].1.0 + 1)
}

/// What starting a new section does: remember its name and advance the
/// section counter.
pub open spec fn new_section_post(
    pre: LocalLabelResolver,
    post: LocalLabelResolver,
    section: Seq<char>,
) -> bool {
    &&& post.current_section@ == section
    &&& post.current_section_index == (if pre.current_section_index < usize::MAX {
        pre.current_section_index + 1
    } else {
        pre.current_section_index as int
    })
    &&& post.pair_info == pre.pair_info
}

/// What resolving a local does: the pair's section count is established
/// at 1 or bumped when a new section of the same name resolves it again,
/// and the prefix is the section name, `$`-tagged with count minus one
/// when the count exceeds one.
pub open spec fn prefix_post(
    pre: LocalLabelResolver,
    post: LocalLabelResolver,
    local: Seq<char>,
    result: Seq<char>,
) -> bool {
    &&& post.current_section == pre.current_section
    &&& post.current_section_index == pre.current_section_index
    &&& {
        let sec = pre.current_section@;
        let idx = pre.current_section_index;
        let num: int = match pair_at(pre, sec, local) {
            Some((last, num)) => if last != idx && num < usize::MAX {
                num + 1
            } else {
                num as int
            },
            None => 1,
        };
        &&& pair_at(post, sec, local) == Some((idx, num as usize))
        &&& num <= usize::MAX
        &&& (forall|s2: Seq<char>, l2: Seq<char>|
            !(s2 == sec && l2 == local) ==> #[trigger] pair_at(post, s2, l2) == pair_at(
                pre,
                s2,
                l2,
            ))
        &&& result == if num > 1 {
            sec + seq!['$'] + dec_digits(num - 1)
        } else {
            sec
        }
    }
}

impl LocalLabelResolver {
    /// A fresh resolver: no sections yet, empty pair table.
    pub fn new() -> (r: LocalLabelResolver)
        ensures
            resolver_wf(r),
            r.current_section@ =~= Seq::<char>::empty(),
            r.current_section_index == 0,
            r.pair_info@.len() == 0,
    {
        LocalLabelResolver {
            current_section: Vec::new(),
            current_section_index: 0,
            pair_info: Vec::new(),
        }
    }

    /// Record the start of a new section. Each occurrence of a top-level
    /// label starts one, so a repeated label name makes several sections.
    pub fn start_new_section(&mut self, section: &Vec<char>)
        requires
            resolver_wf(*old(self)),
        ensures
            resolver_wf(*final(self)),
            new_section_post(*old(self), *final(self), section@),
    {
        self.current_section = copy_chars(section);
        if self.current_section_index < usize::MAX {
            self.current_section_index = self.current_section_index + 1;
        }
    }

    /// The section prefix a local resolves to in the current section:
    /// `touch` for the first `touch` section that uses this local, then
    /// `touch$1`, `touch$2`, … for later sections of the same name.
    #[verifier::loop_isolation(false)]
    pub fn get_section_prefix(&mut self, local: &Vec<char>) -> (result: Vec<char>)
        requires
            resolver_wf(*old(self)),
        ensures
            resolver_wf(*final(self)),
            prefix_post(*old(self), *final(self), local@, result@),
    {
        let ghost pre = *self;
        let mut i: usize = 0;
        let n = self.pair_info.len();
        let mut found: Option<usize> = None;
        while i < n && found.is_none()
            invariant
                i <= n,
                n == self.pair_info@.len(),
                *self == pre,
                match found {
                    Some(k) => k < n && self.pair_info@[k as int].0.0@
                        == self.current_section@ && self.pair_info@[k as int].0.1@ == local@,
                    None => forall|j: int|
                        0 <= j < i ==> !((#[trigger] self.pair_info@[j]).0.0@
                            == self.current_section@ && self.pair_info@[j].0.1@ == local@),
                },
            decreases n - i + (if found.is_none() { 1int } else { 0int }),
        {
            if chars_eq(&self.pair_info[i].0.0, &self.current_section) && chars_eq(
                &self.pair_info[i].0.1,
                local,
            ) {
                found = Some(i);
            } else {
                i = i + 1;
            }
        }
        let ghost sec = pre.current_section@;
        match found {
            Some(k) => {
                proof {
                    lemma_pair_at_witness(pre, sec, local@, k as int);
                }
                let (last, num) = self.pair_info[k].1;
                let new_num: usize = if last != self.current_section_index && num < usize::MAX {
                    num + 1
                } else {
                    num
                };
                let key_sec = copy_chars(&self.pair_info[k].0.0);
                let key_loc = copy_chars(&self.pair_info[k].0.1);
                self.pair_info.set(
                    k,
                    ((key_sec, key_loc), (self.current_section_index, new_num)),
                );
                proof {
                    lemma_pair_at_witness(*self, sec, local@, k as int);
                    assert forall|s2: Seq<char>, l2: Seq<char>|
                        !(s2 == sec && l2 == local@) implies #[trigger] pair_at(*self, s2, l2)
                        == pair_at(pre, s2, l2) by {
                        lemma_pair_at_frame(pre, *self, s2, l2, k as int);
                    }
                }
                let mut result = copy_chars(&self.current_section);
                if new_num > 1 {
                    result.push('$');
                    let digits = dec_chars(new_num - 1);
                    let mut di: usize = 0;
                    while di < digits.len()
                        invariant
                            di <= digits@.len(),
                            result@ == sec + seq!['$'] + digits@.subrange(0, di as int),
                        decreases digits@.len() - di,
                    {
                        result.push(digits[di]);
                        di = di + 1;
                        proof {
                            assert(result@ =~= sec + seq!['$'] + digits@.subrange(0, di as int));
                        }
                    }
                    proof {
                        assert(digits@.subrange(0, digits@.len() as int) =~= digits@);
                    }
                } else {
                    proof {
                        assert(result@ =~= sec);
                    }
                }
                proof {
                    assert(result@ =~= sec + seq!['$'] + dec_digits(
                        pair_at(*self, sec, local@)->Some_0.1 - 1,
                    ) || result@ =~= sec);
                }
                result
            },
            None => {
                let key_sec = copy_chars(&self.current_section);
                let key_loc = copy_chars(local);
                let ghost old_len = self.pair_info@.len();
                self.pair_info.push(((key_sec, key_loc), (self.current_section_index, 1)));
                proof {
                    lemma_pair_at_witness(*self, sec, local@, old_len as int);
                    assert forall|s2: Seq<char>, l2: Seq<char>|
                        !(s2 == sec && l2 == local@) implies #[trigger] pair_at(*self, s2, l2)
                        == pair_at(pre, s2, l2) by {
                        lemma_pair_at_frame(pre, *self, s2, l2, old_len as int);
                    }
                }
                copy_chars(&self.current_section)
            },
        }
    }
}

/// If entry `k` matches (section, local) and keys are unique, the table
/// lookup returns entry `k`'s value.
proof fn lemma_pair_at_witness(r: LocalLabelResolver, sec: Seq<char>, local: Seq<char>, k: int)
    requires
        resolver_wf(r),
        0 <= k < r.pair_info@.len(),
        r.pair_info@[k].0.0@ == sec,
        r.pair_info@[k].0.1@ == local,
    ensures
        pair_at(r, sec, local) == Some(r.pair_info@[k].1),
{
    let i = choose|i: int|
        0 <= i < r.pair_info@.len() && (#[trigger] r.pair_info@[i]).0.0@ == sec
            && r.pair_info@[i].0.1@ == local;
    if i != k {
        assert(false);
    }
}

/// A change at entry `k` leaves lookups of other keys unchanged, when
/// entry `k`'s key is (sec, local) in both tables and the rest agree.
proof fn lemma_pair_at_frame(
    pre: LocalLabelResolver,
    post: LocalLabelResolver,
    s2: Seq<char>,
    l2: Seq<char>,
    k: int,
)
    requires
        resolver_wf(pre),
        resolver_wf(post),
        0 <= k < post.pair_info@.len(),
        pre.pair_info@.len() == post.pair_info@.len() || pre.pair_info@.len() + 1
            == post.pair_info@.len(),
        forall|j: int|
            0 <= j < pre.pair_info@.len() && j != k ==> #[trigger] post.pair_info@[j]
                == pre.pair_info@[j],
        pre.pair_info@.len() == post.pair_info@.len() ==> (post.pair_info@[k].0.0@
            == pre.pair_info@[k].0.0@ && post.pair_info@[k].0.1@ == pre.pair_info@[k].0.1@),
        pre.pair_info@.len() + 1 == post.pair_info@.len() ==> k == pre.pair_info@.len(),
        !(s2 == post.pair_info@[k].0.0@ && l2 == post.pair_info@[k].0.1@),
    ensures
        pair_at(post, s2, l2) == pair_at(pre, s2, l2),
{
    if exists|i: int|
        0 <= i < pre.pair_info@.len() && (#[trigger] pre.pair_info@[i]).0.0@ == s2
            && pre.pair_info@[i].0.1@ == l2 {
        let i = choose|i: int|
            0 <= i < pre.pair_info@.len() && (#[trigger] pre.pair_info@[i]).0.0@ == s2
                && pre.pair_info@[i].0.1@ == l2;
        assert(i != k);
        assert(post.pair_info@[i] == pre.pair_info@[i]);
        lemma_pair_at_witness_gen(pre, s2, l2, i);
        lemma_pair_at_witness_gen(post, s2, l2, i);
    } else {
        if exists|i: int|
            0 <= i < post.pair_info@.len() && (#[trigger] post.pair_info@[i]).0.0@ == s2
                && post.pair_info@[i].0.1@ == l2 {
            let i = choose|i: int|
                0 <= i < post.pair_info@.len() && (#[trigger] post.pair_info@[i]).0.0@ == s2
                    && post.pair_info@[i].0.1@ == l2;
            assert(i == k || i < pre.pair_info@.len());
            assert(false);
        }
    }
}

proof fn lemma_pair_at_witness_gen(r: LocalLabelResolver, sec: Seq<char>, local: Seq<char>, k: int)
    requires
        resolver_wf(r),
        0 <= k < r.pair_info@.len(),
        r.pair_info@[k].0.0@ == sec,
        r.pair_info@[k].0.1@ == local,
    ensures
        pair_at(r, sec, local) == Some(r.pair_info@[k].1),
{
    lemma_pair_at_witness(r, sec, local, k);
}

/// Local disambiguation: when a second section with the same base name
/// resolves the same local, the two sections receive distinct prefixes
/// (for example `touch` and `touch$1`).
pub proof fn lemma_local_disambiguation(
    r0: LocalLabelResolver,
    r1: LocalLabelResolver,
    r2: LocalLabelResolver,
    r3: LocalLabelResolver,
    r4: LocalLabelResolver,
    section: Seq<char>,
    local: Seq<char>,
    p1: Seq<char>,
    p2: Seq<char>,
)
    requires
        resolver_wf(r1),
        resolver_wf(r3),
        r0.current_section_index + 4 < usize::MAX,
        new_section_post(r0, r1, section),
        prefix_post(r1, r2, local, p1),
        new_section_post(r2, r3, section),
        prefix_post(r3, r4, local, p2),
    ensures
        p1 != p2,
{
    let idx1 = r1.current_section_index;
    let idx3 = r3.current_section_index;
    assert(idx3 == idx1 + 1);
    let num1: int = match pair_at(r1, section, local) {
        Some((last, num)) => if last != idx1 && num < usize::MAX {
            num + 1
        } else {
            num as int
        },
        None => 1,
    };
    assert(1 <= num1 < usize::MAX) by {
        match pair_at(r1, section, local) {
            Some((last, num)) => {
                let w = choose|i: int|
                    0 <= i < r1.pair_info@.len() && (#[trigger] r1.pair_info@[i]).0.0@ == section
                        && r1.pair_info@[i].0.1@ == local;
                lemma_pair_at_witness_gen(r1, section, local, w);
                assert(r1.pair_info@[w].1 == (last, num));
            },
            None => {},
        }
    }
    assert(pair_at(r2, section, local) == Some((idx1, num1 as usize)));
    assert(pair_at(r3, section, local) == Some((idx1, num1 as usize)));
    let num2: int = num1 + 1;
    assert(pair_at(r4, section, local) == Some((idx3, num2 as usize)));
    assert(num2 > 1);
    assert(p2 == section + seq!['$'] + dec_digits(num2 - 1));
    if num1 > 1 {
        assert(p1 == section + seq!['$'] + dec_digits(num1 - 1));
        if p1 == p2 {
            assert(dec_digits(num1 - 1) =~= p1.subrange(
                section.len() as int + 1,
                p1.len() as int,
            ));
            assert(dec_digits(num2 - 1) =~= p2.subrange(
                section.len() as int + 1,
                p2.len() as int,
            ));
            lemma_dec_digits_injective(num1 - 1, num2 - 1);
            assert(false);
        }
    } else {
        assert(p1 == section);
        assert(p2.len() > section.len());
    }
}

} // verus!

// The four passes and the driver that runs them over one board.

verus! {

/// An anonymous label definition (`:@`).
pub open spec fn anon_def(c: Chunk) -> bool {
    c_is_label(c) && !c_is_ref(c) && c_is_anon(c)
}

/// An anonymous label reference (`@b` or `@f`).
pub open spec fn anon_ref(c: Chunk) -> bool {
    c_is_label(c) && c_is_ref(c) && c_is_anon(c)
}

/// The namespace value of an optional namespace.
pub open spec fn nsv(o: Option<Vec<char>>) -> Option<Seq<char>> {
    match o {
        Some(v) => Some(v@),
        None => None,
    }
}

/// How many anonymous definitions precede index `i`.
pub open spec fn anon_defs_before(s: Seq<Chunk>, i: int) -> int
    decreases i,
{
    if i <= 0 {
        0
    } else {
        anon_defs_before(s, i - 1) + (if anon_def(s[i - 1]) {
            1int
        } else {
            0int
        })
    }
}

/// The index of the nearest anonymous definition before `i` in namespace
/// `ns`, or -1.
pub open spec fn last_anon_def(s: Seq<Chunk>, i: int, ns: Option<Seq<char>>) -> int
    decreases i,
{
    if i <= 0 {
        -1
    } else if anon_def(s[i - 1]) && c_ns(s[i - 1]) == ns {
        i - 1
    } else {
        last_anon_def(s, i - 1, ns)
    }
}

/// The index of the nearest anonymous definition after `i` in namespace
/// `ns`, or -1.
pub open spec fn next_anon_def(s: Seq<Chunk>, i: int, ns: Option<Seq<char>>) -> int
    decreases (if i < s.len() { s.len() - i } else { 0 }),
{
    if i + 1 >= s.len() {
        -1
    } else if anon_def(s[i + 1]) && c_ns(s[i + 1]) == ns {
        i + 1
    } else {
        next_anon_def(s, i + 1, ns)
    }
}

/// The character span a label chunk points at.
pub open spec fn c_span(c: Chunk) -> (usize, usize) {
    match c {
        Chunk::Label { name, .. } => (name.span_start, name.span_end),
        _ => (0usize, 0usize),
    }
}

/// An error message at the span of chunk `c`, under the scope `loc`.
pub open spec fn err_at(loc: crate::diag::LocView, c: Chunk, text: Seq<char>) -> crate::diag::MsgView {
    crate::diag::MsgView {
        level: crate::diag::Level::Error,
        message: text,
        location: crate::diag::LocView { span: Some(c_span(c)), ..loc },
    }
}

/// What the forward pass records for chunk `i`: one error exactly when a
/// `@b` reference has no anonymous definition before it in its namespace.
pub open spec fn forward_step_msg(s: Seq<Chunk>, loc: crate::diag::LocView, i: int) -> Seq<
    crate::diag::MsgView,
> {
    if anon_ref(s[i]) && c_base(s[i]) == seq!['@', 'b'] && last_anon_def(s, i, c_ns(s[i])) < 0 {
        seq![err_at(loc, s[i], ("backward reference needs an anonymous label")@)]
    } else {
        Seq::empty()
    }
}

/// Everything the forward pass records over chunks `i..j`, in order.
pub open spec fn forward_msgs(s: Seq<Chunk>, loc: crate::diag::LocView, i: int, j: int) -> Seq<
    crate::diag::MsgView,
>
    decreases (if i < j { j - i } else { 0 }),
{
    if i >= j {
        Seq::empty()
    } else {
        forward_step_msg(s, loc, i) + forward_msgs(s, loc, i + 1, j)
    }
}

/// The forward message list over `a..i+1` splits off its last step.
proof fn lemma_forward_msgs_snoc(s: Seq<Chunk>, loc: crate::diag::LocView, a: int, i: int)
    requires
        a <= i,
    ensures
        forward_msgs(s, loc, a, i + 1) =~= forward_msgs(s, loc, a, i) + forward_step_msg(
            s,
            loc,
            i,
        ),
    decreases i - a,
{
    if a < i {
        lemma_forward_msgs_snoc(s, loc, a + 1, i);
        assert(forward_msgs(s, loc, a, i + 1) =~= forward_step_msg(s, loc, a) + forward_msgs(
            s,
            loc,
            a + 1,
            i + 1,
        ));
        assert(forward_msgs(s, loc, a, i) =~= forward_step_msg(s, loc, a) + forward_msgs(
            s,
            loc,
            a + 1,
            i,
        ));
    } else {
        assert(forward_msgs(s, loc, i + 1, i + 1) =~= Seq::<crate::diag::MsgView>::empty());
        assert(forward_msgs(s, loc, a, i) =~= Seq::<crate::diag::MsgView>::empty());
    }
}

/// What the backward pass records for chunk `i`: one error exactly when a
/// `@f` reference has no anonymous definition after it in its namespace.
pub open spec fn backward_step_msg(s: Seq<Chunk>, loc: crate::diag::LocView, i: int) -> Seq<
    crate::diag::MsgView,
> {
    if anon_ref(s[i]) && c_base(s[i]) == seq!['@', 'f'] && next_anon_def(s, i, c_ns(s[i])) < 0 {
        seq![err_at(loc, s[i], ("forward reference needs an anonymous label")@)]
    } else {
        Seq::empty()
    }
}

/// Everything the backward pass records over chunks `i..j`: the pass
/// walks in reverse, so the message for chunk `j - 1` comes first.
pub open spec fn backward_msgs(s: Seq<Chunk>, loc: crate::diag::LocView, i: int, j: int) -> Seq<
    crate::diag::MsgView,
>
    decreases (if i < j { j - i } else { 0 }),
{
    if i >= j {
        Seq::empty()
    } else {
        backward_msgs(s, loc, i + 1, j) + backward_step_msg(s, loc, i)
    }
}

/// `b` is `a` with its base name replaced by `nb`: same label otherwise,
/// same original text.
pub open spec fn label_with_base(a: Chunk, b: Chunk, nb: Seq<char>) -> bool {
    &&& b is Label
    &&& same_shape(a, b)
    &&& crate::chunks::chunk_text(b) == crate::chunks::chunk_text(a)
    &&& c_base(b) == nb
}

/// Counts of anonymous definitions are between zero and the prefix
/// length.
proof fn lemma_anon_defs_bounds(s: Seq<Chunk>, i: int)
    requires
        0 <= i,
    ensures
        0 <= anon_defs_before(s, i) <= i,
    decreases i,
{
    if i > 0 {
        lemma_anon_defs_bounds(s, i - 1);
    }
}

/// Counts of anonymous definitions grow with the prefix.
proof fn lemma_anon_defs_before_mono(s: Seq<Chunk>, i: int, j: int)
    requires
        0 <= i <= j,
    ensures
        anon_defs_before(s, i) <= anon_defs_before(s, j),
    decreases j - i,
{
    if i < j {
        lemma_anon_defs_before_mono(s, i, j - 1);
    }
}

/// Replace the base name of the label chunk at `i`.
fn set_base(chunks: &mut Vec<Chunk>, i: usize, nb: Vec<char>)
    requires
        i < old(chunks)@.len(),
        old(chunks)@[i as int] is Label,
    ensures
        final(chunks)@.len() == old(chunks)@.len(),
        forall|k: int|
            0 <= k < old(chunks)@.len() && k != i ==> final(chunks)@[k] == old(chunks)@[k],
        label_with_base(old(chunks)@[i as int], final(chunks)@[i as int], nb@),
{
    let replacement = match &chunks[i] {
        Chunk::Label { is_ref, is_anon, raw, name } => {
            let new_name = LabelName {
                namespace: match &name.namespace {
                    Some(n) => Some(copy_chars(n)),
                    None => None,
                },
                name: nb,
                local: match &name.local {
                    Some(l) => Some(copy_chars(l)),
                    None => None,
                },
                span_start: name.span_start,
                span_end: name.span_end,
            };
            Chunk::Label { is_ref: *is_ref, is_anon: *is_anon, raw: copy_chars(raw), name: new_name }
        },
        Chunk::Verbatim(v) => Chunk::Verbatim(copy_chars(v)),
    };
    chunks.set(i, replacement);
}

/// Whether two optional namespaces hold the same characters.
fn opt_chars_eq(a: &Option<Vec<char>>, b: &Option<Vec<char>>) -> (r: bool)
    ensures
        r == (nsv(*a) == nsv(*b)),
{
    match (a, b) {
        (Some(x), Some(y)) => chars_eq(x, y),
        (None, None) => true,
        _ => false,
    }
}

/// How many anonymous definitions a chunk list holds.
#[verifier::loop_isolation(false)]
fn count_anon_defs(chunks: &Vec<Chunk>) -> (r: usize)
    ensures
        r == anon_defs_before(chunks@, chunks@.len() as int),
{
    let mut r: usize = 0;
    let mut i: usize = 0;
    while i < chunks.len()
        invariant
            i <= chunks@.len(),
            r == anon_defs_before(chunks@, i as int),
        decreases chunks@.len() - i,
    {
        let is_def = match &chunks[i] {
            Chunk::Label { is_ref, is_anon, .. } => !*is_ref && *is_anon,
            _ => false,
        };
        if is_def {
            proof {
                lemma_anon_defs_bounds(chunks@, i as int);
            }
            r = r + 1;
        }
        i = i + 1;
    }
    r
}

} // verus!

// The anonymous forward pass.

verus! {

/// The pool of generated anonymous names, as values.
pub open spec fn pool_view(p: Seq<Vec<char>>) -> Seq<Seq<char>> {
    p.map_values(|v: Vec<char>| v@)
}

/// What the forward pass does to chunk `i` of one script: the k-th
/// anonymous definition takes the k-th pool name, and a `@b` reference
/// takes the name of the nearest anonymous definition before it in its
/// namespace — the error case leaves it unchanged. Everything else is
/// untouched.
pub open spec fn forward_chunk_post(
    s: Seq<Chunk>,
    t: Seq<Chunk>,
    pool: Seq<Seq<char>>,
    i: int,
) -> bool {
    if anon_def(s[i]) {
        label_with_base(s[i], t[i], pool[anon_defs_before(s, i)])
    } else if anon_ref(s[i]) && c_base(s[i]) == seq!['@', 'b'] {
        {
            let j = last_anon_def(s, i, c_ns(s[i]));
            if j >= 0 {
                label_with_base(s[i], t[i], pool[anon_defs_before(s, j)])
            } else {
                t[i] == s[i]
            }
        }
    } else {
        t[i] == s[i]
    }
}

/// Copy an optional namespace.
fn copy_opt_chars(o: &Option<Vec<char>>) -> (r: Option<Vec<char>>)
    ensures
        nsv(r) == nsv(*o),
{
    match o {
        Some(v) => Some(copy_chars(v)),
        None => None,
    }
}

/// Assign pool names to the anonymous definitions of one script and wire
/// every `@b` reference to the nearest definition before it in the same
/// namespace; a `@b` with no definition before it is an error.
#[verifier::loop_isolation(false)]
fn anonymous_forward_stat(chunks: &mut Vec<Chunk>, pool: &Vec<Vec<char>>, ctx: &mut Context)
    requires
        anon_defs_before(old(chunks)@, old(chunks)@.len() as int) <= pool@.len(),
    ensures
        final(chunks)@.len() == old(chunks)@.len(),
        forall|i: int|
            0 <= i < old(chunks)@.len() ==> forward_chunk_post(
                old(chunks)@,
                final(chunks)@,
                pool_view(pool@),
                i,
            ),
        crate::diag::loc_of(final(ctx).location) == crate::diag::loc_of(old(ctx).location),
        crate::diag::msgs_of(final(ctx).messages@) =~= crate::diag::msgs_of(
            old(ctx).messages@,
        ) + forward_msgs(
            old(chunks)@,
            crate::diag::loc_of(old(ctx).location),
            0,
            old(chunks)@.len() as int,
        ),
{
    let ghost s = old(chunks)@;
    let mut latest: Vec<(Option<Vec<char>>, Vec<char>)> = Vec::new();
    let mut defs: usize = 0;
    let mut i: usize = 0;
    while i < chunks.len()
        invariant
            i <= s.len(),
            chunks@.len() == s.len(),
            defs == anon_defs_before(s, i as int),
            crate::diag::loc_of(ctx.location) == crate::diag::loc_of(old(ctx).location),
            crate::diag::msgs_of(ctx.messages@) =~= crate::diag::msgs_of(old(ctx).messages@)
                + forward_msgs(s, crate::diag::loc_of(old(ctx).location), 0, i as int),
            forall|k: int| i <= k < s.len() ==> chunks@[k] == s[k],
            forall|k: int|
                0 <= k < i ==> forward_chunk_post(s, chunks@, pool_view(pool@), k),
            forall|e1: int, e2: int|
                0 <= e1 < e2 < latest@.len() ==> nsv((#[trigger] latest@[e1]).0) != nsv(
                    (#[trigger] latest@[e2]).0,
                ),
            forall|e: int|
                0 <= e < latest@.len() ==> {
                    let j = last_anon_def(s, i as int, nsv((#[trigger] latest@[e]).0));
                    &&& j >= 0
                    &&& 0 <= anon_defs_before(s, j) < pool@.len()
                    &&& latest@[e].1@ == pool_view(pool@)[anon_defs_before(s, j)]
                },
            forall|ns: Option<Seq<char>>|
                #[trigger] last_anon_def(s, i as int, ns) >= 0 ==> exists|e: int|
                    0 <= e < latest@.len() && nsv(latest@[e].0) == ns,
        decreases s.len() - i,
    {
        let ghost ghost_pre = chunks@;
        forward_step(chunks, pool, ctx, &mut latest, &mut defs, i, Ghost(s));
        proof {
            assert forall|k: int|
                0 <= k < i implies forward_chunk_post(s, chunks@, pool_view(pool@), k) by {
                assert(chunks@[k] == ghost_pre[k]);
                assert(forward_chunk_post(s, ghost_pre, pool_view(pool@), k));
            }
            lemma_forward_msgs_snoc(s, crate::diag::loc_of(old(ctx).location), 0, i as int);
        }
        i = i + 1;
    }
}

/// One step of the forward pass: handle chunk `i`.
#[verifier::loop_isolation(false)]
fn forward_step(
    chunks: &mut Vec<Chunk>,
    pool: &Vec<Vec<char>>,
    ctx: &mut Context,
    latest: &mut Vec<(Option<Vec<char>>, Vec<char>)>,
    defs: &mut usize,
    i: usize,
    Ghost(s): Ghost<Seq<Chunk>>,
)
    requires
        i < s.len(),
        old(chunks)@.len() == s.len(),
        *old(defs) == anon_defs_before(s, i as int),
        anon_defs_before(s, s.len() as int) <= pool@.len(),
        forall|k: int| i <= k < s.len() ==> old(chunks)@[k] == s[k],
        forall|e1: int, e2: int|
            0 <= e1 < e2 < old(latest)@.len() ==> nsv((#[trigger] old(latest)@[e1]).0) != nsv(
                (#[trigger] old(latest)@[e2]).0,
            ),
        forall|e: int|
            0 <= e < old(latest)@.len() ==> {
                let j = last_anon_def(s, i as int, nsv((#[trigger] old(latest)@[e]).0));
                &&& j >= 0
                &&& 0 <= anon_defs_before(s, j) < pool@.len()
                &&& old(latest)@[e].1@ == pool_view(pool@)[anon_defs_before(s, j)]
            },
        forall|ns: Option<Seq<char>>|
            #[trigger] last_anon_def(s, i as int, ns) >= 0 ==> exists|e: int|
                0 <= e < old(latest)@.len() && nsv(old(latest)@[e].0) == ns,
    ensures
        final(chunks)@.len() == s.len(),
        forall|k: int| 0 <= k < s.len() && k != i ==> final(chunks)@[k] == old(chunks)@[k],
        forward_chunk_post(s, final(chunks)@, pool_view(pool@), i as int),
        crate::diag::loc_of(final(ctx).location) == crate::diag::loc_of(old(ctx).location),
        crate::diag::msgs_of(final(ctx).messages@) =~= crate::diag::msgs_of(
            old(ctx).messages@,
        ) + forward_step_msg(s, crate::diag::loc_of(old(ctx).location), i as int),
        *final(defs) == anon_defs_before(s, i + 1),
        forall|e1: int, e2: int|
            0 <= e1 < e2 < final(latest)@.len() ==> nsv((#[trigger] final(latest)@[e1]).0) != nsv(
                (#[trigger] final(latest)@[e2]).0,
            ),
        forall|e: int|
            0 <= e < final(latest)@.len() ==> {
                let j = last_anon_def(s, i + 1, nsv((#[trigger] final(latest)@[e]).0));
                &&& j >= 0
                &&& 0 <= anon_defs_before(s, j) < pool@.len()
                &&& final(latest)@[e].1@ == pool_view(pool@)[anon_defs_before(s, j)]
            },
        forall|ns: Option<Seq<char>>|
            #[trigger] last_anon_def(s, i + 1, ns) >= 0 ==> exists|e: int|
                0 <= e < final(latest)@.len() && nsv(final(latest)@[e].0) == ns,
{
    let cl = chunks.len();
    proof {
        lemma_anon_defs_bounds(s, i as int);
    }
    let step = match &chunks[i] {
        Chunk::Label { is_ref, is_anon, name, .. } => {
            if !*is_ref && *is_anon {
                1usize
            } else if *is_ref && *is_anon {
                2usize
            } else {
                0usize
            }
        },
        _ => 0usize,
    };
    if step == 1 {
        // anonymous definition: take the next pool name
        proof {
            lemma_anon_defs_bounds(s, i as int);
            lemma_anon_defs_before_mono(s, i + 1, s.len() as int);
            assert(anon_defs_before(s, i + 1) == anon_defs_before(s, i as int) + 1);
        }
        let ns = match &chunks[i] {
            Chunk::Label { name, .. } => copy_opt_chars(&name.namespace),
            _ => None,
        };
        let nb = copy_chars(&pool[*defs]);
        set_base(chunks, i, nb);
        proof {
            assert(c_ns(s[i as int]) == nsv(ns));
        }
        // record this namespace's latest name
        let mut e: usize = 0;
        let n = latest.len();
        let mut found = false;
        while e < n && !found
            invariant
                e <= n,
                n == latest@.len(),
                *latest == *old(latest),
                !found ==> forall|e2: int|
                    0 <= e2 < e ==> nsv((#[trigger] latest@[e2]).0) != nsv(ns),
                found ==> e < n && nsv(latest@[e as int].0) == nsv(ns),
            decreases n - e + (if found { 0int } else { 1int }),
        {
            if opt_chars_eq(&latest[e].0, &ns) {
                found = true;
            } else {
                e = e + 1;
            }
        }
        let entry = (ns, copy_chars(&pool[*defs]));
        if found {
            latest.set(e, entry);
        } else {
            latest.push(entry);
        }
        *defs = *defs + 1;
        proof {
            assert forall|e2: int|
                0 <= e2 < final(latest)@.len() implies {
                let j = last_anon_def(s, i + 1, nsv((#[trigger] final(latest)@[e2]).0));
                &&& j >= 0
                &&& 0 <= anon_defs_before(s, j) < pool@.len()
                &&& final(latest)@[e2].1@ == pool_view(pool@)[anon_defs_before(s, j)]
            } by {
                let ns2 = nsv(latest@[e2].0);
                if (found && e2 == e) || (!found && e2 == old(latest)@.len()) {
                    assert(last_anon_def(s, i + 1, ns2) == i);
                } else {
                    assert(latest@[e2] == old(latest)@[e2]);
                    assert(ns2 != c_ns(s[i as int]));
                    assert(last_anon_def(s, i + 1, ns2) == last_anon_def(s, i as int, ns2));
                }
            }
            assert forall|ns2: Option<Seq<char>>|
                #[trigger] last_anon_def(s, i + 1, ns2) >= 0 implies exists|e2: int|
                0 <= e2 < final(latest)@.len() && nsv(final(latest)@[e2].0) == ns2 by {
                if ns2 == c_ns(s[i as int]) {
                    if found {
                        assert(nsv(latest@[e as int].0) == ns2);
                    } else {
                        assert(nsv(latest@[old(latest)@.len() as int].0) == ns2);
                    }
                } else {
                    assert(last_anon_def(s, i as int, ns2) == last_anon_def(s, i + 1, ns2));
                    let w = choose|e2: int|
                        0 <= e2 < old(latest)@.len() && nsv(old(latest)@[e2].0) == ns2;
                    assert(nsv(latest@[w].0) == ns2);
                }
            }
            assert(!anon_ref(s[i as int]));
            assert(crate::diag::msgs_of(ctx.messages@) =~= crate::diag::msgs_of(
                old(ctx).messages@,
            ) + forward_step_msg(s, crate::diag::loc_of(old(ctx).location), i as int));
        }
    } else if step == 2 {
        // anonymous reference: wire `@b` to the latest definition
        let atb = vec!['@', 'b'];
        let (is_b, ns, ss, se) = match &chunks[i] {
            Chunk::Label { name, .. } => {
                let b = chars_eq(&name.name, &atb);
                (b, copy_opt_chars(&name.namespace), name.span_start, name.span_end)
            },
            _ => (false, None, 0usize, 0usize),
        };
        proof {
            assert(c_ns(s[i as int]) == nsv(ns));
            assert(anon_defs_before(s, i + 1) == anon_defs_before(s, i as int));
        }
        if is_b {
            proof {
                assert(c_base(s[i as int]) =~= seq!['@', 'b']) by {
                    assert(atb@ =~= seq!['@', 'b']);
                }
            }
            let mut e: usize = 0;
            let n = latest.len();
            let mut found = false;
            while e < n && !found
                invariant
                    e <= n,
                    n == latest@.len(),
                    *latest == *old(latest),
                    !found ==> forall|e2: int|
                        0 <= e2 < e ==> nsv((#[trigger] latest@[e2]).0) != nsv(ns),
                    found ==> e < n && nsv(latest@[e as int].0) == nsv(ns),
                decreases n - e + (if found { 0int } else { 1int }),
            {
                if opt_chars_eq(&latest[e].0, &ns) {
                    found = true;
                } else {
                    e = e + 1;
                }
            }
            if found {
                let nb = copy_chars(&latest[e].1);
                set_base(chunks, i, nb);
                proof {
                    assert(last_anon_def(s, i as int, nsv(ns)) >= 0);
                    assert(last_anon_def(s, i + 1, nsv(ns)) == last_anon_def(
                        s,
                        i as int,
                        nsv(ns),
                    ));
                    assert(crate::diag::msgs_of(ctx.messages@) =~= crate::diag::msgs_of(
                        old(ctx).messages@,
                    ) + forward_step_msg(s, crate::diag::loc_of(old(ctx).location), i as int));
                }
            } else {
                proof {
                    if last_anon_def(s, i as int, nsv(ns)) >= 0 {
                        let w = choose|e2: int|
                            0 <= e2 < latest@.len() && nsv(latest@[e2].0) == nsv(ns);
                        assert(false);
                    }
                }
                let mut sub = ctx.with_span(ss, se);
                sub.error("backward reference needs an anonymous label");
                ctx.absorb(sub);
                proof {
                    assert((ss, se) == c_span(s[i as int]));
                    assert(crate::diag::msgs_of(ctx.messages@) =~= crate::diag::msgs_of(
                        old(ctx).messages@,
                    ) + forward_step_msg(s, crate::diag::loc_of(old(ctx).location), i as int));
                }
            }
        } else {
            proof {
                assert(atb@ =~= seq!['@', 'b']);
                assert(c_base(s[i as int]) != seq!['@', 'b']);
                assert(crate::diag::msgs_of(ctx.messages@) =~= crate::diag::msgs_of(
                    old(ctx).messages@,
                ) + forward_step_msg(s, crate::diag::loc_of(old(ctx).location), i as int));
            }
        }
        proof {
            assert forall|ns2: Option<Seq<char>>|
                #[trigger] last_anon_def(s, i + 1, ns2) >= 0 implies exists|e2: int|
                0 <= e2 < final(latest)@.len() && nsv(final(latest)@[e2].0) == ns2 by {
                assert(last_anon_def(s, i + 1, ns2) == last_anon_def(s, i as int, ns2));
                let w = choose|e2: int|
                    0 <= e2 < old(latest)@.len() && nsv(old(latest)@[e2].0) == ns2;
                assert(nsv(latest@[w].0) == ns2);
            }
            assert forall|e2: int|
                0 <= e2 < final(latest)@.len() implies {
                let j = last_anon_def(s, i + 1, nsv((#[trigger] final(latest)@[e2]).0));
                &&& j >= 0
                &&& 0 <= anon_defs_before(s, j) < pool@.len()
                &&& final(latest)@[e2].1@ == pool_view(pool@)[anon_defs_before(s, j)]
            } by {
                let ns2 = nsv(latest@[e2].0);
                assert(last_anon_def(s, i + 1, ns2) == last_anon_def(s, i as int, ns2));
            }
        }
    } else {
        proof {
            assert(anon_defs_before(s, i + 1) == anon_defs_before(s, i as int));
            assert(!anon_ref(s[i as int]));
            assert(crate::diag::msgs_of(ctx.messages@) =~= crate::diag::msgs_of(
                old(ctx).messages@,
            ) + forward_step_msg(s, crate::diag::loc_of(old(ctx).location), i as int));
            assert forall|ns2: Option<Seq<char>>|
                #[trigger] last_anon_def(s, i + 1, ns2) >= 0 implies exists|e2: int|
                0 <= e2 < final(latest)@.len() && nsv(final(latest)@[e2].0) == ns2 by {
                assert(last_anon_def(s, i + 1, ns2) == last_anon_def(s, i as int, ns2));
                let w = choose|e2: int|
                    0 <= e2 < old(latest)@.len() && nsv(old(latest)@[e2].0) == ns2;
                assert(nsv(latest@[w].0) == ns2);
            }
            assert forall|e2: int|
                0 <= e2 < final(latest)@.len() implies {
                let j = last_anon_def(s, i + 1, nsv((#[trigger] final(latest)@[e2]).0));
                &&& j >= 0
                &&& 0 <= anon_defs_before(s, j) < pool@.len()
                &&& final(latest)@[e2].1@ == pool_view(pool@)[anon_defs_before(s, j)]
            } by {
                let ns2 = nsv(latest@[e2].0);
                assert(last_anon_def(s, i + 1, ns2) == last_anon_def(s, i as int, ns2));
            }
        }
    }
}

} // verus!

// The anonymous backward pass.

verus! {

/// What the backward pass does to chunk `i` of one script: a `@f`
/// reference takes the base name of the nearest anonymous definition
/// after it in its namespace — the error case leaves it unchanged.
/// Everything else is untouched.
pub open spec fn backward_chunk_post(s: Seq<Chunk>, t: Seq<Chunk>, i: int) -> bool {
    if anon_ref(s[i]) && c_base(s[i]) == seq!['@', 'f'] {
        {
            let j = next_anon_def(s, i, c_ns(s[i]));
            if j >= 0 {
                label_with_base(s[i], t[i], c_base(s[j]))
            } else {
                t[i] == s[i]
            }
        }
    } else {
        t[i] == s[i]
    }
}

/// Wire every `@f` reference of one script to the nearest anonymous
/// definition after it in the same namespace; a `@f` with no definition
/// after it is an error.
#[verifier::loop_isolation(false)]
fn anonymous_backward_stat(chunks: &mut Vec<Chunk>, ctx: &mut Context)
    ensures
        final(chunks)@.len() == old(chunks)@.len(),
        forall|i: int|
            0 <= i < old(chunks)@.len() ==> backward_chunk_post(old(chunks)@, final(chunks)@, i),
        crate::diag::loc_of(final(ctx).location) == crate::diag::loc_of(old(ctx).location),
        crate::diag::msgs_of(final(ctx).messages@) =~= crate::diag::msgs_of(
            old(ctx).messages@,
        ) + backward_msgs(
            old(chunks)@,
            crate::diag::loc_of(old(ctx).location),
            0,
            old(chunks)@.len() as int,
        ),
{
    let ghost s = old(chunks)@;
    let mut upcoming: Vec<(Option<Vec<char>>, Vec<char>)> = Vec::new();
    let mut i = chunks.len();
    proof {
        assert(backward_msgs(s, crate::diag::loc_of(old(ctx).location), i as int, s.len() as int)
            =~= Seq::<crate::diag::MsgView>::empty());
    }
    while i > 0
        invariant
            i <= s.len(),
            chunks@.len() == s.len(),
            crate::diag::loc_of(ctx.location) == crate::diag::loc_of(old(ctx).location),
            crate::diag::msgs_of(ctx.messages@) =~= crate::diag::msgs_of(old(ctx).messages@)
                + backward_msgs(
                s,
                crate::diag::loc_of(old(ctx).location),
                i as int,
                s.len() as int,
            ),
            forall|k: int| 0 <= k < i ==> chunks@[k] == s[k],
            forall|k: int| i <= k < s.len() ==> backward_chunk_post(s, chunks@, k),
            forall|e1: int, e2: int|
                0 <= e1 < e2 < upcoming@.len() ==> nsv((#[trigger] upcoming@[e1]).0) != nsv(
                    (#[trigger] upcoming@[e2]).0,
                ),
            forall|e: int|
                0 <= e < upcoming@.len() ==> {
                    let j = next_anon_def(s, i - 1, nsv((#[trigger] upcoming@[e]).0));
                    &&& j >= 0
                    &&& upcoming@[e].1@ == c_base(s[j])
                },
            forall|ns: Option<Seq<char>>|
                #[trigger] next_anon_def(s, i - 1, ns) >= 0 ==> exists|e: int|
                    0 <= e < upcoming@.len() && nsv(upcoming@[e].0) == ns,
        decreases i,
    {
        i = i - 1;
        let ghost ghost_pre = chunks@;
        backward_step(chunks, ctx, &mut upcoming, i, Ghost(s));
        proof {
            assert forall|k: int|
                i < k < s.len() implies backward_chunk_post(s, chunks@, k) by {
                assert(chunks@[k] == ghost_pre[k]);
                assert(backward_chunk_post(s, ghost_pre, k));
            }
            assert(crate::diag::msgs_of(ctx.messages@) =~= crate::diag::msgs_of(
                old(ctx).messages@,
            ) + backward_msgs(
                s,
                crate::diag::loc_of(old(ctx).location),
                i as int,
                s.len() as int,
            ));
        }
    }
}

/// One step of the backward pass: handle chunk `i`.
#[verifier::loop_isolation(false)]
fn backward_step(
    chunks: &mut Vec<Chunk>,
    ctx: &mut Context,
    upcoming: &mut Vec<(Option<Vec<char>>, Vec<char>)>,
    i: usize,
    Ghost(s): Ghost<Seq<Chunk>>,
)
    requires
        i < s.len(),
        old(chunks)@.len() == s.len(),
        forall|k: int| 0 <= k <= i ==> old(chunks)@[k] == s[k],
        forall|e1: int, e2: int|
            0 <= e1 < e2 < old(upcoming)@.len() ==> nsv((#[trigger] old(upcoming)@[e1]).0) != nsv(
                (#[trigger] old(upcoming)@[e2]).0,
            ),
        forall|e: int|
            0 <= e < old(upcoming)@.len() ==> {
                let j = next_anon_def(s, i as int, nsv((#[trigger] old(upcoming)@[e]).0));
                &&& j >= 0
                &&& old(upcoming)@[e].1@ == c_base(s[j])
            },
        forall|ns: Option<Seq<char>>|
            #[trigger] next_anon_def(s, i as int, ns) >= 0 ==> exists|e: int|
                0 <= e < old(upcoming)@.len() && nsv(old(upcoming)@[e].0) == ns,
    ensures
        final(chunks)@.len() == s.len(),
        forall|k: int| 0 <= k < s.len() && k != i ==> final(chunks)@[k] == old(chunks)@[k],
        backward_chunk_post(s, final(chunks)@, i as int),
        crate::diag::loc_of(final(ctx).location) == crate::diag::loc_of(old(ctx).location),
        crate::diag::msgs_of(final(ctx).messages@) =~= crate::diag::msgs_of(
            old(ctx).messages@,
        ) + backward_step_msg(s, crate::diag::loc_of(old(ctx).location), i as int),
        forall|e1: int, e2: int|
            0 <= e1 < e2 < final(upcoming)@.len() ==> nsv((#[trigger] final(upcoming)@[e1]).0)
                != nsv((#[trigger] final(upcoming)@[e2]).0),
        forall|e: int|
            0 <= e < final(upcoming)@.len() ==> {
                let j = next_anon_def(s, i - 1, nsv((#[trigger] final(upcoming)@[e]).0));
                &&& j >= 0
                &&& final(upcoming)@[e].1@ == c_base(s[j])
            },
        forall|ns: Option<Seq<char>>|
            #[trigger] next_anon_def(s, i - 1, ns) >= 0 ==> exists|e: int|
                0 <= e < final(upcoming)@.len() && nsv(final(upcoming)@[e].0) == ns,
{
    let step = match &chunks[i] {
        Chunk::Label { is_ref, is_anon, .. } => {
            if !*is_ref && *is_anon {
                1usize
            } else if *is_ref && *is_anon {
                2usize
            } else {
                0usize
            }
        },
        _ => 0usize,
    };
    if step == 1 {
        // anonymous definition: record its assigned name for `@f` below it
        let (ns, nm) = match &chunks[i] {
            Chunk::Label { name, .. } => (copy_opt_chars(&name.namespace), copy_chars(&name.name)),
            _ => (None, Vec::new()),
        };
        proof {
            assert(c_ns(s[i as int]) == nsv(ns));
            assert(nm@ == c_base(s[i as int]));
        }
        let mut e: usize = 0;
        let n = upcoming.len();
        let mut found = false;
        while e < n && !found
            invariant
                e <= n,
                n == upcoming@.len(),
                *upcoming == *old(upcoming),
                !found ==> forall|e2: int|
                    0 <= e2 < e ==> nsv((#[trigger] upcoming@[e2]).0) != nsv(ns),
                found ==> e < n && nsv(upcoming@[e as int].0) == nsv(ns),
            decreases n - e + (if found { 0int } else { 1int }),
        {
            if opt_chars_eq(&upcoming[e].0, &ns) {
                found = true;
            } else {
                e = e + 1;
            }
        }
        let entry = (ns, nm);
        if found {
            upcoming.set(e, entry);
        } else {
            upcoming.push(entry);
        }
        proof {
            assert forall|e2: int|
                0 <= e2 < final(upcoming)@.len() implies {
                let j = next_anon_def(s, i - 1, nsv((#[trigger] final(upcoming)@[e2]).0));
                &&& j >= 0
                &&& final(upcoming)@[e2].1@ == c_base(s[j])
            } by {
                let ns2 = nsv(upcoming@[e2].0);
                if (found && e2 == e) || (!found && e2 == old(upcoming)@.len()) {
                    assert(next_anon_def(s, i - 1, ns2) == i);
                } else {
                    assert(upcoming@[e2] == old(upcoming)@[e2]);
                    assert(ns2 != c_ns(s[i as int]));
                    assert(next_anon_def(s, i - 1, ns2) == next_anon_def(s, i as int, ns2));
                }
            }
            assert forall|ns2: Option<Seq<char>>|
                #[trigger] next_anon_def(s, i - 1, ns2) >= 0 implies exists|e2: int|
                0 <= e2 < final(upcoming)@.len() && nsv(final(upcoming)@[e2].0) == ns2 by {
                if ns2 == c_ns(s[i as int]) {
                    if found {
                        assert(nsv(upcoming@[e as int].0) == ns2);
                    } else {
                        assert(nsv(upcoming@[old(upcoming)@.len() as int].0) == ns2);
                    }
                } else {
                    assert(next_anon_def(s, i as int, ns2) == next_anon_def(s, i - 1, ns2));
                    let w = choose|e2: int|
                        0 <= e2 < old(upcoming)@.len() && nsv(old(upcoming)@[e2].0) == ns2;
                    assert(nsv(upcoming@[w].0) == ns2);
                }
            }
            assert(!anon_ref(s[i as int]));
            assert(crate::diag::msgs_of(ctx.messages@) =~= crate::diag::msgs_of(
                old(ctx).messages@,
            ) + backward_step_msg(s, crate::diag::loc_of(old(ctx).location), i as int));
        }
    } else if step == 2 {
        // anonymous reference: wire `@f` to the upcoming definition
        let atf = vec!['@', 'f'];
        let (is_f, ns, ss, se) = match &chunks[i] {
            Chunk::Label { name, .. } => {
                let b = chars_eq(&name.name, &atf);
                (b, copy_opt_chars(&name.namespace), name.span_start, name.span_end)
            },
            _ => (false, None, 0usize, 0usize),
        };
        proof {
            assert(c_ns(s[i as int]) == nsv(ns));
        }
        if is_f {
            proof {
                assert(c_base(s[i as int]) =~= seq!['@', 'f']) by {
                    assert(atf@ =~= seq!['@', 'f']);
                }
            }
            let mut e: usize = 0;
            let n = upcoming.len();
            let mut found = false;
            while e < n && !found
                invariant
                    e <= n,
                    n == upcoming@.len(),
                    *upcoming == *old(upcoming),
                    !found ==> forall|e2: int|
                        0 <= e2 < e ==> nsv((#[trigger] upcoming@[e2]).0) != nsv(ns),
                    found ==> e < n && nsv(upcoming@[e as int].0) == nsv(ns),
                decreases n - e + (if found { 0int } else { 1int }),
            {
                if opt_chars_eq(&upcoming[e].0, &ns) {
                    found = true;
                } else {
                    e = e + 1;
                }
            }
            if found {
                let nb = copy_chars(&upcoming[e].1);
                set_base(chunks, i, nb);
                proof {
                    assert(next_anon_def(s, i as int, nsv(ns)) >= 0);
                    assert(crate::diag::msgs_of(ctx.messages@) =~= crate::diag::msgs_of(
                        old(ctx).messages@,
                    ) + backward_step_msg(s, crate::diag::loc_of(old(ctx).location), i as int));
                }
            } else {
                proof {
                    if next_anon_def(s, i as int, nsv(ns)) >= 0 {
                        let w = choose|e2: int|
                            0 <= e2 < upcoming@.len() && nsv(upcoming@[e2].0) == nsv(ns);
                        assert(false);
                    }
                }
                let mut sub = ctx.with_span(ss, se);
                sub.error("forward reference needs an anonymous label");
                ctx.absorb(sub);
                proof {
                    assert((ss, se) == c_span(s[i as int]));
                    assert(crate::diag::msgs_of(ctx.messages@) =~= crate::diag::msgs_of(
                        old(ctx).messages@,
                    ) + backward_step_msg(s, crate::diag::loc_of(old(ctx).location), i as int));
                }
            }
        } else {
            proof {
                assert(atf@ =~= seq!['@', 'f']);
                assert(c_base(s[i as int]) != seq!['@', 'f']);
                assert(crate::diag::msgs_of(ctx.messages@) =~= crate::diag::msgs_of(
                    old(ctx).messages@,
                ) + backward_step_msg(s, crate::diag::loc_of(old(ctx).location), i as int));
            }
        }
        proof {
            assert(!anon_def(s[i as int]));
            assert forall|ns2: Option<Seq<char>>|
                #[trigger] next_anon_def(s, i - 1, ns2) >= 0 implies exists|e2: int|
                0 <= e2 < final(upcoming)@.len() && nsv(final(upcoming)@[e2].0) == ns2 by {
                assert(next_anon_def(s, i - 1, ns2) == next_anon_def(s, i as int, ns2));
                let w = choose|e2: int|
                    0 <= e2 < old(upcoming)@.len() && nsv(old(upcoming)@[e2].0) == ns2;
                assert(nsv(upcoming@[w].0) == ns2);
            }
            assert forall|e2: int|
                0 <= e2 < final(upcoming)@.len() implies {
                let j = next_anon_def(s, i - 1, nsv((#[trigger] final(upcoming)@[e2]).0));
                &&& j >= 0
                &&& final(upcoming)@[e2].1@ == c_base(s[j])
            } by {
                let ns2 = nsv(upcoming@[e2].0);
                assert(next_anon_def(s, i - 1, ns2) == next_anon_def(s, i as int, ns2));
            }
        }
    } else {
        proof {
            assert(!anon_def(s[i as int]));
            assert(!anon_ref(s[i as int]));
            assert(crate::diag::msgs_of(ctx.messages@) =~= crate::diag::msgs_of(
                old(ctx).messages@,
            ) + backward_step_msg(s, crate::diag::loc_of(old(ctx).location), i as int));
            assert forall|ns2: Option<Seq<char>>|
                #[trigger] next_anon_def(s, i - 1, ns2) >= 0 implies exists|e2: int|
                0 <= e2 < final(upcoming)@.len() && nsv(final(upcoming)@[e2].0) == ns2 by {
                assert(next_anon_def(s, i - 1, ns2) == next_anon_def(s, i as int, ns2));
                let w = choose|e2: int|
                    0 <= e2 < old(upcoming)@.len() && nsv(old(upcoming)@[e2].0) == ns2;
                assert(nsv(upcoming@[w].0) == ns2);
            }
            assert forall|e2: int|
                0 <= e2 < final(upcoming)@.len() implies {
                let j = next_anon_def(s, i - 1, nsv((#[trigger] final(upcoming)@[e2]).0));
                &&& j >= 0
                &&& final(upcoming)@[e2].1@ == c_base(s[j])
            } by {
                let ns2 = nsv(upcoming@[e2].0);
                assert(next_anon_def(s, i - 1, ns2) == next_anon_def(s, i as int, ns2));
            }
        }
    }
}

} // verus!

// Local resolution, sanitization, joining, and the board driver.

verus! {

/// A bare `.local` occurrence: a non-anonymous label whose base is empty
/// and whose local part is present; the pass fills in the section prefix.
pub open spec fn is_bare_local(c: Chunk) -> bool {
    c is Label && !c_is_anon(c) && c_local(c) is Some && c_base(c).len() == 0
}

/// A top-level label definition: it starts a new section in its namespace.
pub open spec fn is_section_start(c: Chunk) -> bool {
    c is Label && !c_is_anon(c) && !c_is_ref(c) && c_local(c) is None
}

/// A local label defined with an explicit section name, such as
/// `:touch.foo`: the local pass reports it and leaves it unchanged.
pub open spec fn is_local_def_error(c: Chunk) -> bool {
    c is Label && !c_is_anon(c) && !c_is_ref(c) && c_local(c) is Some && c_base(c).len() > 0
}

/// What the local pass records for chunk `i`: one error exactly when a
/// local label is defined with an explicit section name.
pub open spec fn local_step_msg(s: Seq<Chunk>, loc: crate::diag::LocView, i: int) -> Seq<
    crate::diag::MsgView,
> {
    if is_local_def_error(s[i]) {
        seq![err_at(loc, s[i], ("local label definitions cannot specify a section name")@)]
    } else {
        Seq::empty()
    }
}

/// Everything the local pass records over chunks `i..j`, in order.
pub open spec fn local_msgs(s: Seq<Chunk>, loc: crate::diag::LocView, i: int, j: int) -> Seq<
    crate::diag::MsgView,
>
    decreases (if i < j { j - i } else { 0 }),
{
    if i >= j {
        Seq::empty()
    } else {
        local_step_msg(s, loc, i) + local_msgs(s, loc, i + 1, j)
    }
}

/// The local message list over `a..i+1` splits off its last step.
proof fn lemma_local_msgs_snoc(s: Seq<Chunk>, loc: crate::diag::LocView, a: int, i: int)
    requires
        a <= i,
    ensures
        local_msgs(s, loc, a, i + 1) =~= local_msgs(s, loc, a, i) + local_step_msg(s, loc, i),
    decreases i - a,
{
    if a < i {
        lemma_local_msgs_snoc(s, loc, a + 1, i);
        assert(local_msgs(s, loc, a, i + 1) =~= local_step_msg(s, loc, a) + local_msgs(
            s,
            loc,
            a + 1,
            i + 1,
        ));
        assert(local_msgs(s, loc, a, i) =~= local_step_msg(s, loc, a) + local_msgs(
            s,
            loc,
            a + 1,
            i,
        ));
    } else {
        assert(local_msgs(s, loc, i + 1, i + 1) =~= Seq::<crate::diag::MsgView>::empty());
        assert(local_msgs(s, loc, a, i) =~= Seq::<crate::diag::MsgView>::empty());
    }
}

/// The resolver the local pass uses for namespace `ns`: the one the map
/// records, or a fresh one when the namespace has not been touched yet.
pub open spec fn resolver_entry(
    m: Map<Option<Seq<char>>, LocalLabelResolver>,
    ns: Option<Seq<char>>,
    r: LocalLabelResolver,
) -> bool {
    if m.dom().contains(ns) {
        r == m[ns]
    } else {
        &&& r.current_section@ == Seq::<char>::empty()
        &&& r.current_section_index == 0
        &&& r.pair_info@.len() == 0
    }
}

/// What the local pass does to chunks `i..j` of one script, threading one
/// resolver per namespace from the map `m0` to `m1`: a bare `.local`
/// takes exactly the section prefix its namespace's resolver fixes
/// (`prefix_post`), a top-level definition starts a new section
/// (`new_section_post`), and every other chunk is unchanged.
pub open spec fn local_chunks_to(
    s: Seq<Chunk>,
    t: Seq<Chunk>,
    m0: Map<Option<Seq<char>>, LocalLabelResolver>,
    i: int,
    j: int,
    m1: Map<Option<Seq<char>>, LocalLabelResolver>,
) -> bool
    decreases (if i < j { j - i } else { 0 }),
{
    if i >= j {
        m1 == m0
    } else if is_bare_local(s[i]) {
        exists|rpre: LocalLabelResolver, rpost: LocalLabelResolver, nb: Seq<char>|
            {
                &&& #[trigger] prefix_post(rpre, rpost, c_local(s[i])->Some_0, nb)
                &&& resolver_entry(m0, c_ns(s[i]), rpre)
                &&& label_with_base(s[i], t[i], nb)
                &&& local_chunks_to(s, t, m0.insert(c_ns(s[i]), rpost), i + 1, j, m1)
            }
    } else if is_section_start(s[i]) {
        t[i] == s[i] && exists|rpre: LocalLabelResolver, rpost: LocalLabelResolver|
            {
                &&& #[trigger] new_section_post(rpre, rpost, c_base(s[i]))
                &&& resolver_entry(m0, c_ns(s[i]), rpre)
                &&& local_chunks_to(s, t, m0.insert(c_ns(s[i]), rpost), i + 1, j, m1)
            }
    } else {
        t[i] == s[i] && local_chunks_to(s, t, m0, i + 1, j, m1)
    }
}

/// The local pass over chunks `i..j`, with the final resolver states left
/// open: the form the public contract states.
pub open spec fn local_chunks_from(
    s: Seq<Chunk>,
    t: Seq<Chunk>,
    m0: Map<Option<Seq<char>>, LocalLabelResolver>,
    i: int,
    j: int,
) -> bool {
    exists|m1: Map<Option<Seq<char>>, LocalLabelResolver>|
        #[trigger] local_chunks_to(s, t, m0, i, j, m1)
}

/// A finished chain over `a..i` extends by one explained chunk.
proof fn lemma_local_snoc(
    s: Seq<Chunk>,
    t: Seq<Chunk>,
    m0: Map<Option<Seq<char>>, LocalLabelResolver>,
    a: int,
    i: int,
    gmid: Map<Option<Seq<char>>, LocalLabelResolver>,
    gm1: Map<Option<Seq<char>>, LocalLabelResolver>,
)
    requires
        a <= i,
        local_chunks_to(s, t, m0, a, i, gmid),
        ({
            if is_bare_local(s[i]) {
                exists|rpre: LocalLabelResolver, rpost: LocalLabelResolver, nb: Seq<char>|
                    {
                        &&& #[trigger] prefix_post(rpre, rpost, c_local(s[i])->Some_0, nb)
                        &&& resolver_entry(gmid, c_ns(s[i]), rpre)
                        &&& label_with_base(s[i], t[i], nb)
                        &&& gm1 == gmid.insert(c_ns(s[i]), rpost)
                    }
            } else if is_section_start(s[i]) {
                t[i] == s[i] && exists|rpre: LocalLabelResolver, rpost: LocalLabelResolver|
                    {
                        &&& #[trigger] new_section_post(rpre, rpost, c_base(s[i]))
                        &&& resolver_entry(gmid, c_ns(s[i]), rpre)
                        &&& gm1 == gmid.insert(c_ns(s[i]), rpost)
                    }
            } else {
                t[i] == s[i] && gm1 == gmid
            }
        }),
    ensures
        local_chunks_to(s, t, m0, a, i + 1, gm1),
    decreases i - a,
{
    if a == i {
        assert(gmid == m0);
        if is_bare_local(s[i]) {
            let (rpre, rpost, nb) = choose|
                rpre: LocalLabelResolver,
                rpost: LocalLabelResolver,
                nb: Seq<char>,
            |
                {
                    &&& #[trigger] prefix_post(rpre, rpost, c_local(s[i])->Some_0, nb)
                    &&& resolver_entry(gmid, c_ns(s[i]), rpre)
                    &&& label_with_base(s[i], t[i], nb)
                    &&& gm1 == gmid.insert(c_ns(s[i]), rpost)
                };
            assert(local_chunks_to(s, t, m0.insert(c_ns(s[i]), rpost), i + 1, i + 1, gm1));
            assert(prefix_post(rpre, rpost, c_local(s[i])->Some_0, nb) && resolver_entry(
                m0,
                c_ns(s[i]),
                rpre,
            ) && label_with_base(s[i], t[i], nb) && local_chunks_to(
                s,
                t,
                m0.insert(c_ns(s[i]), rpost),
                i + 1,
                i + 1,
                gm1,
            ));
        } else if is_section_start(s[i]) {
            let (rpre, rpost) = choose|rpre: LocalLabelResolver, rpost: LocalLabelResolver|
                {
                    &&& #[trigger] new_section_post(rpre, rpost, c_base(s[i]))
                    &&& resolver_entry(gmid, c_ns(s[i]), rpre)
                    &&& gm1 == gmid.insert(c_ns(s[i]), rpost)
                };
            assert(local_chunks_to(s, t, m0.insert(c_ns(s[i]), rpost), i + 1, i + 1, gm1));
            assert(new_section_post(rpre, rpost, c_base(s[i])) && resolver_entry(
                m0,
                c_ns(s[i]),
                rpre,
            ) && local_chunks_to(s, t, m0.insert(c_ns(s[i]), rpost), i + 1, i + 1, gm1));
        } else {
            assert(local_chunks_to(s, t, m0, i + 1, i + 1, gm1));
        }
    } else {
        if is_bare_local(s[a]) {
            let (rpre, rpost, nb) = choose|
                rpre: LocalLabelResolver,
                rpost: LocalLabelResolver,
                nb: Seq<char>,
            |
                {
                    &&& #[trigger] prefix_post(rpre, rpost, c_local(s[a])->Some_0, nb)
                    &&& resolver_entry(m0, c_ns(s[a]), rpre)
                    &&& label_with_base(s[a], t[a], nb)
                    &&& local_chunks_to(s, t, m0.insert(c_ns(s[a]), rpost), a + 1, i, gmid)
                };
            lemma_local_snoc(s, t, m0.insert(c_ns(s[a]), rpost), a + 1, i, gmid, gm1);
            assert(prefix_post(rpre, rpost, c_local(s[a])->Some_0, nb) && resolver_entry(
                m0,
                c_ns(s[a]),
                rpre,
            ) && label_with_base(s[a], t[a], nb) && local_chunks_to(
                s,
                t,
                m0.insert(c_ns(s[a]), rpost),
                a + 1,
                i + 1,
                gm1,
            ));
        } else if is_section_start(s[a]) {
            let (rpre, rpost) = choose|rpre: LocalLabelResolver, rpost: LocalLabelResolver|
                {
                    &&& #[trigger] new_section_post(rpre, rpost, c_base(s[a]))
                    &&& resolver_entry(m0, c_ns(s[a]), rpre)
                    &&& local_chunks_to(s, t, m0.insert(c_ns(s[a]), rpost), a + 1, i, gmid)
                };
            lemma_local_snoc(s, t, m0.insert(c_ns(s[a]), rpost), a + 1, i, gmid, gm1);
            assert(new_section_post(rpre, rpost, c_base(s[a])) && resolver_entry(
                m0,
                c_ns(s[a]),
                rpre,
            ) && local_chunks_to(s, t, m0.insert(c_ns(s[a]), rpost), a + 1, i + 1, gm1));
        } else {
            lemma_local_snoc(s, t, m0, a + 1, i, gmid, gm1);
        }
    }
}

/// The chain over `a..j` only reads `t` inside `a..j`.
proof fn lemma_local_frame(
    s: Seq<Chunk>,
    t1: Seq<Chunk>,
    t2: Seq<Chunk>,
    m0: Map<Option<Seq<char>>, LocalLabelResolver>,
    a: int,
    j: int,
    m1: Map<Option<Seq<char>>, LocalLabelResolver>,
)
    requires
        local_chunks_to(s, t1, m0, a, j, m1),
        forall|k: int| a <= k < j ==> t2[k] == t1[k],
    ensures
        local_chunks_to(s, t2, m0, a, j, m1),
    decreases (if a < j { j - a } else { 0 }),
{
    if a < j {
        if is_bare_local(s[a]) {
            let (rpre, rpost, nb) = choose|
                rpre: LocalLabelResolver,
                rpost: LocalLabelResolver,
                nb: Seq<char>,
            |
                {
                    &&& #[trigger] prefix_post(rpre, rpost, c_local(s[a])->Some_0, nb)
                    &&& resolver_entry(m0, c_ns(s[a]), rpre)
                    &&& label_with_base(s[a], t1[a], nb)
                    &&& local_chunks_to(s, t1, m0.insert(c_ns(s[a]), rpost), a + 1, j, m1)
                };
            lemma_local_frame(s, t1, t2, m0.insert(c_ns(s[a]), rpost), a + 1, j, m1);
            assert(prefix_post(rpre, rpost, c_local(s[a])->Some_0, nb) && resolver_entry(
                m0,
                c_ns(s[a]),
                rpre,
            ) && label_with_base(s[a], t2[a], nb) && local_chunks_to(
                s,
                t2,
                m0.insert(c_ns(s[a]), rpost),
                a + 1,
                j,
                m1,
            ));
        } else if is_section_start(s[a]) {
            let (rpre, rpost) = choose|rpre: LocalLabelResolver, rpost: LocalLabelResolver|
                {
                    &&& #[trigger] new_section_post(rpre, rpost, c_base(s[a]))
                    &&& resolver_entry(m0, c_ns(s[a]), rpre)
                    &&& local_chunks_to(s, t1, m0.insert(c_ns(s[a]), rpost), a + 1, j, m1)
                };
            lemma_local_frame(s, t1, t2, m0.insert(c_ns(s[a]), rpost), a + 1, j, m1);
            assert(new_section_post(rpre, rpost, c_base(s[a])) && resolver_entry(
                m0,
                c_ns(s[a]),
                rpre,
            ) && local_chunks_to(s, t2, m0.insert(c_ns(s[a]), rpost), a + 1, j, m1));
        } else {
            lemma_local_frame(s, t1, t2, m0, a + 1, j, m1);
        }
    }
}

/// Expand the `.local` shortcuts of one script and report local labels
/// that are defined with an explicit section name. Each bare `.local`
/// receives exactly the section prefix fixed by the resolver state of its
/// namespace; everything else keeps its shape, and only the base names of
/// labels change.
#[verifier::loop_isolation(false)]
fn resolve_local_stat(chunks: &mut Vec<Chunk>, ctx: &mut Context)
    ensures
        same_shapes(old(chunks)@, final(chunks)@),
        forall|k: int|
            0 <= k < old(chunks)@.len() && !(c_is_label(#[trigger] old(chunks)@[k]) && !c_is_anon(
                old(chunks)@[k],
            )) ==> final(chunks)@[k] == old(chunks)@[k],
        local_chunks_from(
            old(chunks)@,
            final(chunks)@,
            Map::<Option<Seq<char>>, LocalLabelResolver>::empty(),
            0,
            old(chunks)@.len() as int,
        ),
        crate::diag::loc_of(final(ctx).location) == crate::diag::loc_of(old(ctx).location),
        crate::diag::msgs_of(final(ctx).messages@) =~= crate::diag::msgs_of(
            old(ctx).messages@,
        ) + local_msgs(
            old(chunks)@,
            crate::diag::loc_of(old(ctx).location),
            0,
            old(chunks)@.len() as int,
        ),
{
    let ghost s = old(chunks)@;
    let mut resolvers: Vec<(Option<Vec<char>>, LocalLabelResolver)> = Vec::new();
    let ghost mut gm: Map<Option<Seq<char>>, LocalLabelResolver> = Map::empty();
    let mut i: usize = 0;
    while i < chunks.len()
        invariant
            i <= s.len(),
            chunks@.len() == s.len(),
            crate::diag::loc_of(ctx.location) == crate::diag::loc_of(old(ctx).location),
            crate::diag::msgs_of(ctx.messages@) =~= crate::diag::msgs_of(old(ctx).messages@)
                + local_msgs(s, crate::diag::loc_of(old(ctx).location), 0, i as int),
            forall|k: int| i <= k < s.len() ==> chunks@[k] == s[k],
            forall|k: int| 0 <= k < i ==> same_shape(s[k], #[trigger] chunks@[k]),
            forall|k: int|
                0 <= k < i && !(c_is_label(#[trigger] s[k]) && !c_is_anon(s[k])) ==> chunks@[k]
                    == s[k],
            forall|e: int|
                0 <= e < resolvers@.len() ==> resolver_wf((#[trigger] resolvers@[e]).1),
            forall|e1: int, e2: int|
                0 <= e1 < e2 < resolvers@.len() ==> nsv((#[trigger] resolvers@[e1]).0) != nsv(
                    (#[trigger] resolvers@[e2]).0,
                ),
            forall|e: int|
                0 <= e < resolvers@.len() ==> gm.dom().contains(
                    nsv((#[trigger] resolvers@[e]).0),
                ) && gm[nsv(resolvers@[e].0)] == resolvers@[e].1,
            forall|ns2: Option<Seq<char>>|
                #[trigger] gm.dom().contains(ns2) ==> exists|e: int|
                    0 <= e < resolvers@.len() && nsv(resolvers@[e].0) == ns2,
            local_chunks_to(
                s,
                chunks@,
                Map::<Option<Seq<char>>, LocalLabelResolver>::empty(),
                0,
                i as int,
                gm,
            ),
        decreases s.len() - i,
    {
        let ghost gm_pre = gm;
        let ghost t_pre = chunks@;
        let kind: usize = match &chunks[i] {
            Chunk::Label { is_ref, is_anon, name, .. } => {
                if *is_anon {
                    0
                } else {
                    let base_empty = name.name.len() == 0;
                    let has_local = match &name.local {
                        Some(_) => true,
                        None => false,
                    };
                    if has_local && base_empty {
                        1  // a bare `.local`: resolve it
                    } else if !*is_ref && has_local {
                        2  // a definition like `:touch.foo`: an error
                    } else if !*is_ref {
                        3  // a top-level definition: a new section
                    } else {
                        0
                    }
                }
            },
            _ => 0,
        };
        proof {
            assert(kind == 1 <==> is_bare_local(s[i as int]));
            assert(kind == 3 <==> is_section_start(s[i as int]));
            assert(kind == 2 <==> is_local_def_error(s[i as int]));
        }
        if kind == 1 || kind == 3 {
            let ns = match &chunks[i] {
                Chunk::Label { name, .. } => copy_opt_chars(&name.namespace),
                _ => None,
            };
            let ghost nsg = nsv(ns);
            proof {
                assert(c_ns(s[i as int]) == nsg);
            }
            // find or create this namespace's resolver
            let ghost rs_orig = resolvers@;
            let mut e: usize = 0;
            let n = resolvers.len();
            let mut found = false;
            while e < n && !found
                invariant
                    e <= n,
                    n == resolvers@.len(),
                    !found ==> forall|e2: int|
                        0 <= e2 < e ==> nsv((#[trigger] resolvers@[e2]).0) != nsg,
                    found ==> e < n && nsv(resolvers@[e as int].0) == nsg,
                decreases n - e + (if found { 0int } else { 1int }),
            {
                if opt_chars_eq(&resolvers[e].0, &ns) {
                    found = true;
                } else {
                    e = e + 1;
                }
            }
            if !found {
                proof {
                    if gm.dom().contains(nsg) {
                        let w = choose|e2: int|
                            0 <= e2 < resolvers@.len() && nsv(resolvers@[e2].0) == nsg;
                        assert(false);
                    }
                }
                resolvers.push((copy_opt_chars(&ns), LocalLabelResolver::new()));
            }
            let ei = if found {
                e
            } else {
                resolvers.len() - 1
            };
            let ghost rs_pre = resolvers@;
            let mut entry = resolvers.remove(ei);
            let ghost rpre = entry.1;
            proof {
                assert(nsv(rs_pre[ei as int].0) == nsg);
                assert(resolver_entry(gm, nsg, rpre));
            }
            if kind == 1 {
                let local = match &chunks[i] {
                    Chunk::Label { name, .. } => match &name.local {
                        Some(l) => copy_chars(l),
                        None => Vec::new(),
                    },
                    _ => Vec::new(),
                };
                proof {
                    assert(local@ == c_local(s[i as int])->Some_0);
                }
                let prefix = entry.1.get_section_prefix(&local);
                let ghost rpost = entry.1;
                let ghost nbg = prefix@;
                set_base(chunks, i, prefix);
                proof {
                    gm = gm.insert(nsg, rpost);
                    lemma_local_frame(
                        s,
                        t_pre,
                        chunks@,
                        Map::<Option<Seq<char>>, LocalLabelResolver>::empty(),
                        0,
                        i as int,
                        gm_pre,
                    );
                    assert(prefix_post(rpre, rpost, c_local(s[i as int])->Some_0, nbg)
                        && resolver_entry(gm_pre, c_ns(s[i as int]), rpre) && label_with_base(
                        s[i as int],
                        chunks@[i as int],
                        nbg,
                    ) && gm == gm_pre.insert(c_ns(s[i as int]), rpost));
                    lemma_local_snoc(
                        s,
                        chunks@,
                        Map::<Option<Seq<char>>, LocalLabelResolver>::empty(),
                        0,
                        i as int,
                        gm_pre,
                        gm,
                    );
                }
            } else {
                let base = match &chunks[i] {
                    Chunk::Label { name, .. } => copy_chars(&name.name),
                    _ => Vec::new(),
                };
                proof {
                    assert(base@ == c_base(s[i as int]));
                }
                entry.1.start_new_section(&base);
                let ghost rpost = entry.1;
                proof {
                    gm = gm.insert(nsg, rpost);
                    assert(new_section_post(rpre, rpost, c_base(s[i as int])) && resolver_entry(
                        gm_pre,
                        c_ns(s[i as int]),
                        rpre,
                    ) && gm == gm_pre.insert(c_ns(s[i as int]), rpost));
                    lemma_local_snoc(
                        s,
                        chunks@,
                        Map::<Option<Seq<char>>, LocalLabelResolver>::empty(),
                        0,
                        i as int,
                        gm_pre,
                        gm,
                    );
                }
            }
            resolvers.insert(ei, entry);
            proof {
                assert(resolvers@ =~= rs_pre.update(ei as int, resolvers@[ei as int]));
                assert(nsv(resolvers@[ei as int].0) == nsg);
                assert forall|e2: int|
                    0 <= e2 < resolvers@.len() && e2 != ei implies resolvers@[e2] == rs_orig[e2]
                    && nsv((#[trigger] resolvers@[e2]).0) != nsg by {
                    assert(resolvers@[e2] == rs_pre[e2]);
                    assert(rs_pre[e2] == rs_orig[e2]);
                    if found {
                        assert(nsv(rs_orig[ei as int].0) == nsg);
                    }
                }
                assert forall|e2: int|
                    0 <= e2 < resolvers@.len() implies gm.dom().contains(
                    nsv((#[trigger] resolvers@[e2]).0),
                ) && gm[nsv(resolvers@[e2].0)] == resolvers@[e2].1 by {
                    if e2 != ei {
                        assert(gm_pre.dom().contains(nsv(rs_orig[e2].0)) && gm_pre[nsv(
                            rs_orig[e2].0,
                        )] == rs_orig[e2].1);
                    }
                }
                assert forall|ns2: Option<Seq<char>>|
                    #[trigger] gm.dom().contains(ns2) implies exists|e2: int|
                    0 <= e2 < resolvers@.len() && nsv(resolvers@[e2].0) == ns2 by {
                    if ns2 == nsg {
                        assert(nsv(resolvers@[ei as int].0) == ns2);
                    } else {
                        assert(gm_pre.dom().contains(ns2));
                        let w = choose|e2: int|
                            0 <= e2 < rs_orig.len() && nsv(rs_orig[e2].0) == ns2;
                        if w == ei {
                            if found {
                                assert(nsv(rs_orig[w].0) == nsg);
                            }
                            assert(false);
                        }
                        assert(resolvers@[w] == rs_orig[w]);
                        assert(nsv(resolvers@[w].0) == ns2);
                    }
                }
            }
        } else if kind == 2 {
            let (ss, se) = match &chunks[i] {
                Chunk::Label { name, .. } => (name.span_start, name.span_end),
                _ => (0usize, 0usize),
            };
            let mut sub = ctx.with_span(ss, se);
            sub.error("local label definitions cannot specify a section name");
            ctx.absorb(sub);
            proof {
                assert((ss, se) == c_span(s[i as int]));
                lemma_local_snoc(
                    s,
                    chunks@,
                    Map::<Option<Seq<char>>, LocalLabelResolver>::empty(),
                    0,
                    i as int,
                    gm_pre,
                    gm,
                );
            }
        } else {
            proof {
                lemma_local_snoc(
                    s,
                    chunks@,
                    Map::<Option<Seq<char>>, LocalLabelResolver>::empty(),
                    0,
                    i as int,
                    gm_pre,
                    gm,
                );
            }
        }
        proof {
            assert(same_shape(s[i as int], chunks@[i as int]));
            lemma_local_msgs_snoc(s, crate::diag::loc_of(old(ctx).location), 0, i as int);
            assert(crate::diag::msgs_of(ctx.messages@) =~= crate::diag::msgs_of(
                old(ctx).messages@,
            ) + local_msgs(s, crate::diag::loc_of(old(ctx).location), 0, i + 1));
        }
        i = i + 1;
    }
}

/// A named (non-anonymous) label chunk: the sanitize pass rewrites it.
pub open spec fn is_named_label(c: Chunk) -> bool {
    c is Label && !c_is_anon(c)
}

/// The canonical full key of a label chunk: `[namespace ~] base [. local]`.
pub open spec fn chunk_key(c: Chunk) -> Seq<char> {
    (match c_ns(c) {
        Some(ns) => ns + seq!['~'],
        None => Seq::<char>::empty(),
    }) + c_base(c) + (match c_local(c) {
        Some(l) => seq!['.'] + l,
        None => Seq::<char>::empty(),
    })
}

/// The largest registry the pipeline keeps feeding, far beyond any real
/// board; at the bound labels pass through unchanged.
pub open spec fn registry_bound() -> int {
    9_000_000
}

/// What the sanitize pass does to chunks `i..j` of one script, threading
/// the registry from `r0` to `r1`: each named label's base becomes exactly
/// the name the registry fixes for its full key (`sanitize_post`), its
/// other fields and every other chunk stay unchanged.
pub open spec fn sanitize_chunks_to(
    s: Seq<Chunk>,
    t: Seq<Chunk>,
    r0: Registry,
    i: int,
    j: int,
    r1: Registry,
) -> bool
    decreases (if i < j { j - i } else { 0 }),
{
    if i >= j {
        r1 == r0
    } else if is_named_label(s[i]) && r0.taken@.len() < registry_bound() {
        exists|rmid: Registry, nb: Seq<char>|
            {
                &&& #[trigger] crate::registry::sanitize_post(r0, rmid, chunk_key(s[i]), nb)
                &&& label_with_base(s[i], t[i], nb)
                &&& sanitize_chunks_to(s, t, rmid, i + 1, j, r1)
            }
    } else {
        t[i] == s[i] && sanitize_chunks_to(s, t, r0, i + 1, j, r1)
    }
}

/// A finished chain over `a..i` extends by one explained chunk.
proof fn lemma_sanitize_snoc(
    s: Seq<Chunk>,
    t: Seq<Chunk>,
    r0: Registry,
    a: int,
    i: int,
    rmid: Registry,
    r1: Registry,
)
    requires
        a <= i,
        sanitize_chunks_to(s, t, r0, a, i, rmid),
        ({
            if is_named_label(s[i]) && rmid.taken@.len() < registry_bound() {
                exists|r2: Registry, nb: Seq<char>|
                    {
                        &&& #[trigger] crate::registry::sanitize_post(
                            rmid,
                            r2,
                            chunk_key(s[i]),
                            nb,
                        )
                        &&& label_with_base(s[i], t[i], nb)
                        &&& r1 == r2
                    }
            } else {
                t[i] == s[i] && r1 == rmid
            }
        }),
    ensures
        sanitize_chunks_to(s, t, r0, a, i + 1, r1),
    decreases i - a,
{
    if a == i {
        assert(rmid == r0);
        if is_named_label(s[i]) && rmid.taken@.len() < registry_bound() {
            let (r2, nb) = choose|r2: Registry, nb: Seq<char>|
                {
                    &&& #[trigger] crate::registry::sanitize_post(rmid, r2, chunk_key(s[i]), nb)
                    &&& label_with_base(s[i], t[i], nb)
                    &&& r1 == r2
                };
            assert(sanitize_chunks_to(s, t, r2, i + 1, i + 1, r1));
            assert(crate::registry::sanitize_post(r0, r2, chunk_key(s[i]), nb) && label_with_base(
                s[i],
                t[i],
                nb,
            ) && sanitize_chunks_to(s, t, r2, i + 1, i + 1, r1));
        } else {
            assert(t[i] == s[i] && r1 == r0);
            assert(sanitize_chunks_to(s, t, r0, i + 1, i + 1, r1));
        }
    } else {
        if is_named_label(s[a]) && r0.taken@.len() < registry_bound() {
            let (r2, nb) = choose|r2: Registry, nb: Seq<char>|
                {
                    &&& #[trigger] crate::registry::sanitize_post(r0, r2, chunk_key(s[a]), nb)
                    &&& label_with_base(s[a], t[a], nb)
                    &&& sanitize_chunks_to(s, t, r2, a + 1, i, rmid)
                };
            lemma_sanitize_snoc(s, t, r2, a + 1, i, rmid, r1);
            assert(crate::registry::sanitize_post(r0, r2, chunk_key(s[a]), nb) && label_with_base(
                s[a],
                t[a],
                nb,
            ) && sanitize_chunks_to(s, t, r2, a + 1, i + 1, r1));
        } else {
            lemma_sanitize_snoc(s, t, r0, a + 1, i, rmid, r1);
        }
    }
}

/// The chain over `a..j` only reads `t` inside `a..j`.
proof fn lemma_sanitize_frame(
    s: Seq<Chunk>,
    t1: Seq<Chunk>,
    t2: Seq<Chunk>,
    r0: Registry,
    a: int,
    j: int,
    r1: Registry,
)
    requires
        sanitize_chunks_to(s, t1, r0, a, j, r1),
        forall|k: int| a <= k < j ==> t2[k] == t1[k],
    ensures
        sanitize_chunks_to(s, t2, r0, a, j, r1),
    decreases (if a < j { j - a } else { 0 }),
{
    if a < j {
        if is_named_label(s[a]) && r0.taken@.len() < registry_bound() {
            let (r2, nb) = choose|r2: Registry, nb: Seq<char>|
                {
                    &&& #[trigger] crate::registry::sanitize_post(r0, r2, chunk_key(s[a]), nb)
                    &&& label_with_base(s[a], t1[a], nb)
                    &&& sanitize_chunks_to(s, t1, r2, a + 1, j, r1)
                };
            lemma_sanitize_frame(s, t1, t2, r2, a + 1, j, r1);
            assert(label_with_base(s[a], t2[a], nb));
        } else {
            lemma_sanitize_frame(s, t1, t2, r0, a + 1, j, r1);
        }
    }
}

/// Sanitize the named labels of one script: each non-anonymous label's
/// full key `[namespace ~] base [. local]` is mapped through the registry
/// and the base is replaced by the short name the registry fixes for that
/// key; everything else is unchanged.
#[verifier::loop_isolation(false)]
fn sanitize_stat(chunks: &mut Vec<Chunk>, reg: &mut Registry, ctx: &mut Context)
    requires
        old(reg).wf(),
    ensures
        final(reg).wf(),
        same_shapes(old(chunks)@, final(chunks)@),
        sanitize_chunks_to(
            old(chunks)@,
            final(chunks)@,
            *old(reg),
            0,
            old(chunks)@.len() as int,
            *final(reg),
        ),
        crate::diag::loc_of(final(ctx).location) == crate::diag::loc_of(old(ctx).location),
        old(reg).taken@.len() + old(chunks)@.len() < registry_bound()
            ==> crate::diag::msgs_of(final(ctx).messages@) =~= crate::diag::msgs_of(
            old(ctx).messages@,
        ),
        ({
            let pre = crate::diag::msgs_of(old(ctx).messages@);
            let post = crate::diag::msgs_of(final(ctx).messages@);
            &&& post.len() >= pre.len()
            &&& post.subrange(0, pre.len() as int) == pre
            &&& forall|m: int|
                pre.len() <= m < post.len() ==> (#[trigger] post[m]).level
                    == crate::diag::Level::Error && post[m].message == (
                "too many labels on one board")@
        }),
{
    let ghost s = old(chunks)@;
    let mut i: usize = 0;
    while i < chunks.len()
        invariant
            i <= s.len(),
            chunks@.len() == s.len(),
            reg.wf(),
            reg.taken@.len() <= old(reg).taken@.len() + i,
            forall|k: int| i <= k < s.len() ==> chunks@[k] == s[k],
            forall|k: int| 0 <= k < i ==> same_shape(s[k], #[trigger] chunks@[k]),
            sanitize_chunks_to(s, chunks@, *old(reg), 0, i as int, *reg),
            crate::diag::loc_of(ctx.location) == crate::diag::loc_of(old(ctx).location),
            old(reg).taken@.len() + s.len() < registry_bound() ==> crate::diag::msgs_of(
                ctx.messages@,
            ) =~= crate::diag::msgs_of(old(ctx).messages@),
            ({
                let pre = crate::diag::msgs_of(old(ctx).messages@);
                let post = crate::diag::msgs_of(ctx.messages@);
                &&& post.len() >= pre.len()
                &&& post.subrange(0, pre.len() as int) == pre
                &&& forall|m: int|
                    pre.len() <= m < post.len() ==> (#[trigger] post[m]).level
                        == crate::diag::Level::Error && post[m].message == (
                    "too many labels on one board")@
            }),
        decreases s.len() - i,
    {
        let named: bool = match &chunks[i] {
            Chunk::Label { is_anon, .. } => !*is_anon,
            _ => false,
        };
        let ghost rpre = *reg;
        let ghost tpre = chunks@;
        if named {
            let mut key: Vec<char> = Vec::new();
            match &chunks[i] {
                Chunk::Label { name, .. } => {
                    match &name.namespace {
                        Some(ns) => {
                            crate::text::extend_chars(&mut key, ns);
                            key.push('~');
                        },
                        None => {},
                    }
                    crate::text::extend_chars(&mut key, &name.name);
                    match &name.local {
                        Some(l) => {
                            key.push('.');
                            crate::text::extend_chars(&mut key, l);
                        },
                        None => {},
                    }
                },
                _ => {},
            }
            proof {
                assert(key@ =~= chunk_key(s[i as int]));
            }
            // the registry bound is far beyond any real board
            if reg.taken.len() < 9_000_000 {
                let nb = reg.sanitize(&key);
                set_base(chunks, i, nb);
                proof {
                    lemma_sanitize_frame(s, tpre, chunks@, *old(reg), 0, i as int, rpre);
                    assert(crate::registry::sanitize_post(rpre, *reg, chunk_key(s[i as int]), nb@)
                        && label_with_base(s[i as int], chunks@[i as int], nb@) && *reg == *reg);
                    lemma_sanitize_snoc(s, chunks@, *old(reg), 0, i as int, rpre, *reg);
                }
            } else {
                // the label cannot be renamed soundly past the bound:
                // report it rather than pass it through silently
                let (ss_sp, se_sp) = match &chunks[i] {
                    Chunk::Label { name, .. } => (name.span_start, name.span_end),
                    _ => (0usize, 0usize),
                };
                let mut sub = ctx.with_span(ss_sp, se_sp);
                sub.error("too many labels on one board");
                ctx.absorb(sub);
                proof {
                    lemma_sanitize_snoc(s, chunks@, *old(reg), 0, i as int, rpre, *reg);
                }
            }
        } else {
            proof {
                lemma_sanitize_snoc(s, chunks@, *old(reg), 0, i as int, rpre, *reg);
            }
        }
        proof {
            assert(same_shape(s[i as int], chunks@[i as int]));
        }
        i = i + 1;
    }
}

/// The text a chunk contributes to the rewritten script: verbatim text
/// stays, a label contributes its final base name.
pub open spec fn rendered_chunk(c: Chunk) -> Seq<char> {
    match c {
        Chunk::Verbatim(v) => v@,
        Chunk::Label { name, .. } => name.name@,
    }
}

/// The rewritten script: all chunks' contributions in order.
pub open spec fn rendered(cs: Seq<Chunk>) -> Seq<char>
    decreases cs.len(),
{
    if cs.len() == 0 {
        Seq::empty()
    } else {
        rendered_chunk(cs[0]) + rendered(cs.drop_first())
    }
}

proof fn lemma_rendered_snoc(cs: Seq<Chunk>, c: Chunk)
    ensures
        rendered(cs.push(c)) =~= rendered(cs) + rendered_chunk(c),
    decreases cs.len(),
{
    if cs.len() == 0 {
        assert(cs.push(c).drop_first() =~= Seq::<Chunk>::empty());
        assert(rendered(Seq::<Chunk>::empty()) =~= Seq::<char>::empty());
        assert(cs =~= Seq::<Chunk>::empty());
    } else {
        assert(cs.push(c).drop_first() =~= cs.drop_first().push(c));
        lemma_rendered_snoc(cs.drop_first(), c);
        assert(rendered(cs.push(c)) == rendered_chunk(cs[0]) + rendered(cs.push(c).drop_first()));
    }
}

/// Join a chunk list back into script text: verbatim chunks verbatim,
/// label chunks as their final base names.
#[verifier::loop_isolation(false)]
pub fn join_chunks(chunks: &Vec<Chunk>) -> (r: Vec<char>)
    ensures
        r@ == rendered(chunks@),
{
    let mut r: Vec<char> = Vec::new();
    let mut i: usize = 0;
    while i < chunks.len()
        invariant
            i <= chunks@.len(),
            r@ == rendered(chunks@.subrange(0, i as int)),
        decreases chunks@.len() - i,
    {
        match &chunks[i] {
            Chunk::Verbatim(v) => crate::text::extend_chars(&mut r, v),
            Chunk::Label { name, .. } => crate::text::extend_chars(&mut r, &name.name),
        }
        proof {
            lemma_rendered_snoc(chunks@.subrange(0, i as int), chunks@[i as int]);
            assert(chunks@.subrange(0, i + 1) =~= chunks@.subrange(0, i as int).push(
                chunks@[i as int],
            ));
        }
        i = i + 1;
    }
    proof {
        assert(chunks@.subrange(0, chunks@.len() as int) =~= chunks@);
    }
    r
}

/// What one `gen_anonymous` call does: the counter advances to the first
/// free counter string and becomes the name; nothing else changes.
pub open spec fn gen_post(pre: Registry, post: Registry, name: Seq<char>) -> bool {
    &&& post.entries == pre.entries
    &&& post.taken == pre.taken
    &&& name == post.counter@
    &&& crate::registry::counter_valid(name)
    &&& !pre.name_taken(name)
    &&& crate::registry::counter_value(post.counter@) > crate::registry::counter_value(
        pre.counter@,
    )
    &&& (forall|s2: Seq<char>|
        crate::registry::counter_valid(s2) && crate::registry::counter_value(pre.counter@)
            < crate::registry::counter_value(s2) < crate::registry::counter_value(post.counter@)
            ==> pre.name_taken(s2))
}

/// The registry as `Registry::new` builds it: the engine's reserved names
/// pre-registered with empty suffixes, and an empty counter.
pub open spec fn fresh_registry(r: Registry) -> bool {
    &&& r.wf()
    &&& r.counter@ == Seq::<char>::empty()
    &&& r.entries@.len() == 5
    &&& r.taken@.len() == 5
    &&& (forall|i: int| 0 <= i < 5 ==> (#[trigger] r.entries@[i].1@) == Seq::<char>::empty())
    &&& r.entries@[0].0@ == seq!['b', 'o', 'm', 'b', 'e', 'd']
    &&& r.entries@[1].0@ == seq!['e', 'n', 'e', 'r', 'g', 'i', 'z', 'e']
    &&& r.entries@[2].0@ == seq!['s', 'h', 'o', 't']
    &&& r.entries@[3].0@ == seq!['t', 'h', 'u', 'd']
    &&& r.entries@[4].0@ == seq!['t', 'o', 'u', 'c', 'h']
    &&& (forall|i: int| 0 <= i < 5 ==> (#[trigger] r.taken@[i]@) == r.entries@[i].0@)
}

/// How the shared pool of anonymous names `i..j` is generated, threading
/// the registry from `rg0` to `rg1`: each name comes from one
/// `gen_anonymous` step; past the registry bound the pool is padded and an
/// error has been recorded instead.
pub open spec fn pool_gen_to(
    rg0: Registry,
    pool: Seq<Vec<char>>,
    i: int,
    j: int,
    rg1: Registry,
) -> bool
    decreases (if i < j { j - i } else { 0 }),
{
    if i >= j {
        rg1 == rg0
    } else if rg0.taken@.len() < registry_bound() && rg0.counter@.len() < registry_bound() {
        exists|rmid: Registry|
            #[trigger] gen_post(rg0, rmid, pool[i]@) && pool_gen_to(rmid, pool, i + 1, j, rg1)
    } else {
        pool[i]@ == seq!['_'] && pool_gen_to(rg0, pool, i + 1, j, rg1)
    }
}

/// A finished pool chain over `a..i` extends by one explained name.
proof fn lemma_pool_snoc(
    pool: Seq<Vec<char>>,
    rg0: Registry,
    a: int,
    i: int,
    rmid: Registry,
    rg1: Registry,
)
    requires
        a <= i,
        pool_gen_to(rg0, pool, a, i, rmid),
        ({
            if rmid.taken@.len() < registry_bound() && rmid.counter@.len() < registry_bound() {
                exists|r2: Registry| #[trigger] gen_post(rmid, r2, pool[i]@) && rg1 == r2
            } else {
                pool[i]@ == seq!['_'] && rg1 == rmid
            }
        }),
    ensures
        pool_gen_to(rg0, pool, a, i + 1, rg1),
    decreases i - a,
{
    if a == i {
        assert(rmid == rg0);
        if rmid.taken@.len() < registry_bound() && rmid.counter@.len() < registry_bound() {
            let r2 = choose|r2: Registry| #[trigger] gen_post(rmid, r2, pool[i]@) && rg1 == r2;
            assert(pool_gen_to(r2, pool, i + 1, i + 1, rg1));
            assert(gen_post(rg0, r2, pool[i]@) && pool_gen_to(r2, pool, i + 1, i + 1, rg1));
        } else {
            assert(pool_gen_to(rg0, pool, i + 1, i + 1, rg1));
        }
    } else {
        if rg0.taken@.len() < registry_bound() && rg0.counter@.len() < registry_bound() {
            let r2 = choose|r2: Registry|
                #[trigger] gen_post(rg0, r2, pool[a]@) && pool_gen_to(r2, pool, a + 1, i, rmid);
            lemma_pool_snoc(pool, r2, a + 1, i, rmid, rg1);
            assert(gen_post(rg0, r2, pool[a]@) && pool_gen_to(r2, pool, a + 1, i + 1, rg1));
        } else {
            lemma_pool_snoc(pool, rg0, a + 1, i, rmid, rg1);
        }
    }
}

/// The pool chain over `a..j` only reads the names inside `a..j`.
proof fn lemma_pool_frame(
    p1: Seq<Vec<char>>,
    p2: Seq<Vec<char>>,
    rg0: Registry,
    a: int,
    j: int,
    rg1: Registry,
)
    requires
        pool_gen_to(rg0, p1, a, j, rg1),
        forall|k: int| a <= k < j ==> p2[k] == p1[k],
    ensures
        pool_gen_to(rg0, p2, a, j, rg1),
    decreases (if a < j { j - a } else { 0 }),
{
    if a < j {
        if rg0.taken@.len() < registry_bound() && rg0.counter@.len() < registry_bound() {
            let r2 = choose|r2: Registry|
                #[trigger] gen_post(rg0, r2, p1[a]@) && pool_gen_to(r2, p1, a + 1, j, rg1);
            lemma_pool_frame(p1, p2, r2, a + 1, j, rg1);
            assert(gen_post(rg0, r2, p2[a]@) && pool_gen_to(r2, p2, a + 1, j, rg1));
        } else {
            lemma_pool_frame(p1, p2, rg0, a + 1, j, rg1);
        }
    }
}

/// Everything of a board except its stats.
pub open spec fn same_board_frame(a: crate::world::Board, b: crate::world::Board) -> bool {
    &&& a.name@ == b.name@
    &&& a.terrain@ == b.terrain@
    &&& a.max_shots == b.max_shots
    &&& a.is_dark == b.is_dark
    &&& a.board_n == b.board_n
    &&& a.board_s == b.board_s
    &&& a.board_w == b.board_w
    &&& a.board_e == b.board_e
    &&& a.reenter_when_zapped == b.reenter_when_zapped
    &&& a.message@ == b.message@
    &&& a.enter_x == b.enter_x
    &&& a.enter_y == b.enter_y
    &&& a.time_limit == b.time_limit
}

/// The whole pipeline on one board: each stat's script parses into a
/// chunk list whose texts concatenate back to the script; the four passes
/// rewrite the lists — locals resolved per stat, named labels sanitized
/// through one registry threaded across the stats, anonymous labels
/// assigned from one shared generated pool and wired backward and forward
/// — and each output script is the join of its final chunk list.
pub open spec fn board_pipeline(
    stats0: Seq<crate::world::Stat>,
    stats1: Seq<crate::world::Stat>,
    c0: Seq<Vec<Chunk>>,
    c1: Seq<Vec<Chunk>>,
    c2: Seq<Vec<Chunk>>,
    c3: Seq<Vec<Chunk>>,
    c4: Seq<Vec<Chunk>>,
    regs: Seq<Registry>,
    pool: Seq<Vec<char>>,
    rg1: Registry,
) -> bool {
    let n = stats0.len() as int;
    &&& stats1.len() == n
    &&& c0.len() == n && c1.len() == n && c2.len() == n && c3.len() == n && c4.len() == n
    &&& regs.len() == n + 1
    &&& fresh_registry(regs[0])
    &&& (forall|k: int|
        0 <= k < n ==> crate::chunks::parsed_chunks(stats0[k].code@, (#[trigger] c0[k])@))
    &&& (forall|k: int|
        0 <= k < n ==> same_shapes((#[trigger] c0[k])@, c1[k]@) && local_chunks_from(
            c0[k]@,
            c1[k]@,
            Map::<Option<Seq<char>>, LocalLabelResolver>::empty(),
            0,
            c0[k]@.len() as int,
        ))
    &&& (forall|k: int|
        0 <= k < n ==> same_shapes((#[trigger] c1[k])@, c2[k]@) && sanitize_chunks_to(
            c1[k]@,
            c2[k]@,
            regs[k],
            0,
            c1[k]@.len() as int,
            regs[k + 1],
        ))
    &&& pool_gen_to(regs[n], pool, 0, pool.len() as int, rg1)
    &&& (forall|k: int|
        0 <= k < n ==> (#[trigger] c3[k])@.len() == c2[k]@.len() && (forall|i: int|
            0 <= i < c2[k]@.len() ==> forward_chunk_post(c2[k]@, c3[k]@, pool_view(pool), i)))
    &&& (forall|k: int|
        0 <= k < n ==> (#[trigger] c4[k])@.len() == c3[k]@.len() && (forall|i: int|
            0 <= i < c3[k]@.len() ==> backward_chunk_post(c3[k]@, c4[k]@, i)))
    &&& (forall|k: int| 0 <= k < n ==> (#[trigger] stats1[k]).code@ == rendered(c4[k]@))
}

/// Everything of a stat except its script.
pub open spec fn same_stat_frame(a: crate::world::Stat, b: crate::world::Stat) -> bool {
    &&& a.x == b.x
    &&& a.y == b.y
    &&& a.x_step == b.x_step
    &&& a.y_step == b.y_step
    &&& a.cycle == b.cycle
    &&& a.p1 == b.p1
    &&& a.p2 == b.p2
    &&& a.p3 == b.p3
    &&& a.follower == b.follower
    &&& a.leader == b.leader
    &&& a.under_element == b.under_element
    &&& a.under_color == b.under_color
    &&& a.instruction_pointer == b.instruction_pointer
    &&& a.bind_index == b.bind_index
}

/// Copy a stat, giving it a new script.
fn stat_with_code(st: &crate::world::Stat, code: Vec<char>) -> (r: crate::world::Stat)
    ensures
        r.code == code,
        same_stat_frame(*st, r),
{
    crate::world::Stat {
        x: st.x,
        y: st.y,
        x_step: st.x_step,
        y_step: st.y_step,
        cycle: st.cycle,
        p1: st.p1,
        p2: st.p2,
        p3: st.p3,
        follower: st.follower,
        leader: st.leader,
        under_element: st.under_element,
        under_color: st.under_color,
        instruction_pointer: st.instruction_pointer,
        bind_index: st.bind_index,
        code,
    }
}

fn copy_bytes(v: &Vec<u8>) -> (r: Vec<u8>)
    ensures
        r@ == v@,
{
    let mut r: Vec<u8> = Vec::new();
    let mut i: usize = 0;
    while i < v.len()
        invariant
            i <= v@.len(),
            r@ == v@.subrange(0, i as int),
        decreases v@.len() - i,
    {
        r.push(v[i]);
        i = i + 1;
        proof {
            assert(r@ =~= v@.subrange(0, i as int));
        }
    }
    proof {
        assert(r@ =~= v@);
    }
    r
}

fn copy_tiles(v: &Vec<(u8, u8)>) -> (r: Vec<(u8, u8)>)
    ensures
        r@ == v@,
{
    let mut r: Vec<(u8, u8)> = Vec::new();
    let mut i: usize = 0;
    while i < v.len()
        invariant
            i <= v@.len(),
            r@ == v@.subrange(0, i as int),
        decreases v@.len() - i,
    {
        r.push(v[i]);
        i = i + 1;
        proof {
            assert(r@ =~= v@.subrange(0, i as int));
        }
    }
    proof {
        assert(r@ =~= v@);
    }
    r
}

/// Run the whole pipeline over one board: parse every stat's script into
/// chunks, resolve locals, sanitize named labels, assign and wire
/// anonymous labels, and join the chunks back into scripts. The rewritten
/// board is returned only when no error has been recorded; each stat
/// keeps everything but its script.
#[verifier::loop_isolation(false)]
pub fn process_labels(board: &crate::world::Board, ctx: &mut Context) -> (r: Option<
    crate::world::Board,
>)
    ensures
        match r {
            Some(b) => {
                &&& same_board_frame(*board, b)
                &&& b.stats@.len() == board.stats@.len()
                &&& (forall|i: int|
                    0 <= i < board.stats@.len() ==> same_stat_frame(
                        #[trigger] board.stats@[i],
                        b.stats@[i],
                    ))
                &&& exists|
                    c0: Seq<Vec<Chunk>>,
                    c1: Seq<Vec<Chunk>>,
                    c2: Seq<Vec<Chunk>>,
                    c3: Seq<Vec<Chunk>>,
                    c4: Seq<Vec<Chunk>>,
                    regs: Seq<Registry>,
                    pool: Seq<Vec<char>>,
                    rg1: Registry,
                |
                    #[trigger] board_pipeline(
                        board.stats@,
                        b.stats@,
                        c0,
                        c1,
                        c2,
                        c3,
                        c4,
                        regs,
                        pool,
                        rg1,
                    )
            },
            None => true,
        },
        (r is None) <==> exists|i: int|
            0 <= i < final(ctx).messages@.len() && (#[trigger] final(ctx).messages@[i]).level
                == crate::diag::Level::Error,
{
    // parse every stat into chunks
    let mut stats_chunks: Vec<Vec<Chunk>> = Vec::new();
    let mut i: usize = 0;
    while i < board.stats.len()
        invariant
            i <= board.stats@.len(),
            stats_chunks@.len() == i,
            forall|k: int|
                0 <= k < i ==> crate::chunks::parsed_chunks(
                    board.stats@[k].code@,
                    (#[trigger] stats_chunks@[k])@,
                ),
        decreases board.stats@.len() - i,
    {
        let mut sub = ctx.with_stat(i);
        let chunks = crate::chunks::parse_stat_labels(&board.stats[i].code, &mut sub);
        ctx.absorb(sub);
        stats_chunks.push(chunks);
        i = i + 1;
    }
    let n_stats = stats_chunks.len();
    let ghost g0 = stats_chunks@;
    // expand ".local" labels to full "section.local" form
    let mut si: usize = 0;
    while si < n_stats
        invariant
            si <= n_stats,
            stats_chunks@.len() == n_stats,
            forall|k: int| si <= k < n_stats ==> stats_chunks@[k] == g0[k],
            forall|k: int|
                0 <= k < si ==> same_shapes((#[trigger] g0[k])@, stats_chunks@[k]@)
                    && local_chunks_from(
                    g0[k]@,
                    stats_chunks@[k]@,
                    Map::<Option<Seq<char>>, LocalLabelResolver>::empty(),
                    0,
                    g0[k]@.len() as int,
                ),
        decreases n_stats - si,
    {
        let ghost pre = stats_chunks@;
        let mut cl = stats_chunks.remove(si);
        let mut sub = ctx.with_stat(si);
        resolve_local_stat(&mut cl, &mut sub);
        ctx.absorb(sub);
        stats_chunks.insert(si, cl);
        proof {
            assert(stats_chunks@ =~= pre.update(si as int, stats_chunks@[si as int]));
        }
        si = si + 1;
    }
    let ghost g1 = stats_chunks@;
    // sanitize all non-anonymous labels
    let mut reg = Registry::new();
    let ghost mut regs: Seq<Registry> = seq![reg];
    proof {
        assert(fresh_registry(regs[0])) by {
            assert(reg.counter@ =~= Seq::<char>::empty());
            assert forall|k: int| 0 <= k < 5 implies (#[trigger] reg.entries@[k].1@) == Seq::<
                char,
            >::empty() by {
                assert(reg.entries@[k].1@ =~= Seq::<char>::empty());
            }
        }
    }
    let mut si2: usize = 0;
    while si2 < n_stats
        invariant
            si2 <= n_stats,
            stats_chunks@.len() == n_stats,
            reg.wf(),
            regs.len() == si2 + 1,
            fresh_registry(regs[0]),
            regs[si2 as int] == reg,
            forall|k: int| si2 <= k < n_stats ==> stats_chunks@[k] == g1[k],
            forall|k: int|
                0 <= k < si2 ==> same_shapes((#[trigger] g1[k])@, stats_chunks@[k]@)
                    && sanitize_chunks_to(
                    g1[k]@,
                    stats_chunks@[k]@,
                    regs[k],
                    0,
                    g1[k]@.len() as int,
                    regs[k + 1],
                ),
        decreases n_stats - si2,
    {
        let ghost pre = stats_chunks@;
        let mut cl = stats_chunks.remove(si2);
        let mut sub = ctx.with_stat(si2);
        sanitize_stat(&mut cl, &mut reg, &mut sub);
        ctx.absorb(sub);
        stats_chunks.insert(si2, cl);
        proof {
            regs = regs.push(reg);
            assert(stats_chunks@ =~= pre.update(si2 as int, stats_chunks@[si2 as int]));
        }
        si2 = si2 + 1;
    }
    let ghost g2 = stats_chunks@;
    // grow the shared pool of anonymous names to the largest per-script
    // need, so names are reused across the board's scripts
    let mut need: usize = 0;
    let mut si3: usize = 0;
    while si3 < n_stats
        invariant
            si3 <= n_stats,
            stats_chunks@.len() == n_stats,
            forall|k: int|
                0 <= k < si3 ==> anon_defs_before(
                    (#[trigger] stats_chunks@[k])@,
                    stats_chunks@[k]@.len() as int,
                ) <= need,
        decreases n_stats - si3,
    {
        let c = count_anon_defs(&stats_chunks[si3]);
        if c > need {
            need = c;
        }
        si3 = si3 + 1;
    }
    let ghost rg0 = reg;
    let mut pool: Vec<Vec<char>> = Vec::new();
    let mut pi: usize = 0;
    while pi < need
        invariant
            pi <= need,
            pool@.len() == pi,
            reg.wf(),
            pool_gen_to(rg0, pool@, 0, pi as int, reg),
        decreases need - pi,
    {
        let ghost rpre = reg;
        let ghost pool_pre = pool@;
        // the registry bounds are far beyond any real board
        if reg.taken.len() < 9_000_000 && reg.counter.len() < 9_000_000 {
            let name = reg.gen_anonymous();
            pool.push(name);
            proof {
                lemma_pool_frame(pool_pre, pool@, rg0, 0, pi as int, rpre);
                assert(gen_post(rpre, reg, pool@[pi as int]@) && reg == reg);
                lemma_pool_snoc(pool@, rg0, 0, pi as int, rpre, reg);
            }
        } else {
            // the pool cannot grow soundly past the bound: report it
            // rather than hand out colliding names
            ctx.error("too many labels on one board");
            pool.push(vec!['_']);
            proof {
                lemma_pool_frame(pool_pre, pool@, rg0, 0, pi as int, rpre);
                assert(pool@[pi as int]@ =~= seq!['_']);
                lemma_pool_snoc(pool@, rg0, 0, pi as int, rpre, reg);
            }
        }
        pi = pi + 1;
    }
    let ghost rg1 = reg;
    // assign anonymous names and wire the backward references
    let mut si4: usize = 0;
    while si4 < n_stats
        invariant
            si4 <= n_stats,
            stats_chunks@.len() == n_stats,
            pool@.len() == need,
            forall|k: int|
                si4 <= k < n_stats ==> anon_defs_before(
                    (#[trigger] stats_chunks@[k])@,
                    stats_chunks@[k]@.len() as int,
                ) <= need,
            forall|k: int| si4 <= k < n_stats ==> stats_chunks@[k] == g2[k],
            forall|k: int|
                0 <= k < si4 ==> (#[trigger] stats_chunks@[k])@.len() == g2[k]@.len() && (forall|
                    ci: int,
                |
                    0 <= ci < g2[k]@.len() ==> forward_chunk_post(
                        g2[k]@,
                        stats_chunks@[k]@,
                        pool_view(pool@),
                        ci,
                    )),
        decreases n_stats - si4,
    {
        let ghost pre = stats_chunks@;
        let mut cl = stats_chunks.remove(si4);
        let mut sub = ctx.with_stat(si4);
        anonymous_forward_stat(&mut cl, &pool, &mut sub);
        ctx.absorb(sub);
        stats_chunks.insert(si4, cl);
        proof {
            assert(stats_chunks@ =~= pre.update(si4 as int, stats_chunks@[si4 as int]));
        }
        si4 = si4 + 1;
    }
    let ghost g3 = stats_chunks@;
    // wire the forward references
    let mut si5: usize = 0;
    while si5 < n_stats
        invariant
            si5 <= n_stats,
            stats_chunks@.len() == n_stats,
            forall|k: int| si5 <= k < n_stats ==> stats_chunks@[k] == g3[k],
            forall|k: int|
                0 <= k < si5 ==> (#[trigger] stats_chunks@[k])@.len() == g3[k]@.len() && (forall|
                    ci: int,
                |
                    0 <= ci < g3[k]@.len() ==> backward_chunk_post(
                        g3[k]@,
                        stats_chunks@[k]@,
                        ci,
                    )),
        decreases n_stats - si5,
    {
        let ghost pre = stats_chunks@;
        let mut cl = stats_chunks.remove(si5);
        let mut sub = ctx.with_stat(si5);
        anonymous_backward_stat(&mut cl, &mut sub);
        ctx.absorb(sub);
        stats_chunks.insert(si5, cl);
        proof {
            assert(stats_chunks@ =~= pre.update(si5 as int, stats_chunks@[si5 as int]));
        }
        si5 = si5 + 1;
    }
    // join the chunks back into scripts
    let mut new_stats: Vec<crate::world::Stat> = Vec::new();
    let mut si6: usize = 0;
    while si6 < n_stats
        invariant
            si6 <= n_stats,
            stats_chunks@.len() == n_stats,
            n_stats == board.stats@.len(),
            new_stats@.len() == si6,
            forall|i: int|
                0 <= i < si6 ==> same_stat_frame(#[trigger] board.stats@[i], new_stats@[i]),
            forall|i: int|
                0 <= i < si6 ==> (#[trigger] new_stats@[i]).code@ == rendered(
                    stats_chunks@[i]@,
                ),
        decreases n_stats - si6,
    {
        let code = join_chunks(&stats_chunks[si6]);
        new_stats.push(stat_with_code(&board.stats[si6], code));
        si6 = si6 + 1;
    }
    let ghost gfinal = stats_chunks@;
    proof {
        assert(board_pipeline(
            board.stats@,
            new_stats@,
            g0,
            g1,
            g2,
            g3,
            gfinal,
            regs,
            pool@,
            rg1,
        ));
    }
    let result = crate::world::Board {
        name: copy_chars(&board.name),
        terrain: copy_tiles(&board.terrain),
        max_shots: board.max_shots,
        is_dark: board.is_dark,
        board_n: board.board_n,
        board_s: board.board_s,
        board_w: board.board_w,
        board_e: board.board_e,
        reenter_when_zapped: board.reenter_when_zapped,
        message: copy_bytes(&board.message),
        enter_x: board.enter_x,
        enter_y: board.enter_y,
        time_limit: board.time_limit,
        stats: new_stats,
    };
    proof {
        assert(same_board_frame(*board, result));
        assert(result.stats@ == new_stats@);
        assert(exists|
            c0: Seq<Vec<Chunk>>,
            c1: Seq<Vec<Chunk>>,
            c2: Seq<Vec<Chunk>>,
            c3: Seq<Vec<Chunk>>,
            c4: Seq<Vec<Chunk>>,
            regs2: Seq<Registry>,
            pool2: Seq<Vec<char>>,
            rgx: Registry,
        |
            #[trigger] board_pipeline(
                board.stats@,
                result.stats@,
                c0,
                c1,
                c2,
                c3,
                c4,
                regs2,
                pool2,
                rgx,
            )) by {
            assert(board_pipeline(
                board.stats@,
                result.stats@,
                g0,
                g1,
                g2,
                g3,
                gfinal,
                regs,
                pool@,
                rg1,
            ));
        }
    }
    if ctx.any_errors() {
        None
    } else {
        Some(result)
    }
}

} // verus!
