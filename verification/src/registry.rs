//! Label registry: maps every distinct label key to a short name that is
//! valid for the engine and unique under ASCII case folding. Short names are
//! generated by an odometer-style counter over `_` and the lowercase
//! letters; the counter enumerates every such string exactly once, in
//! non-decreasing length, which is proved via the bijective numeration
//! `counter_value`.

use vstd::prelude::*;
use vstd::set_lib::{lemma_int_range, set_int_range};
use vstd::set_lib::lemma_len_subset;

use crate::peg::fold_lower;

verus! {

/// ASCII letter, either case.
pub open spec fn is_letter(c: char) -> bool {
    (97 <= c as u32 && c as u32 <= 122) || (65 <= c as u32 && c as u32 <= 90)
}

/// ASCII decimal digit.
pub open spec fn is_digit(c: char) -> bool {
    48 <= c as u32 && c as u32 <= 57
}

/// A character the engine accepts anywhere in an identifier.
pub open spec fn ident_char(c: char) -> bool {
    is_letter(c) || c == '_'
}

/// The engine's identifier rule: every character is a letter or an
/// underscore, except that the final character may also be a digit.
pub open spec fn valid_ident(s: Seq<char>) -> bool {
    forall|i: int|
        0 <= i < s.len() ==> (ident_char(s[i]) || (i == s.len() - 1 && is_digit(s[i])))
}

/// A character the counter ticks through: underscore or lowercase letter.
pub open spec fn counter_char(c: char) -> bool {
    c == '_' || (97 <= c as u32 && c as u32 <= 122)
}

/// Every character of `s` is a counter character.
pub open spec fn counter_valid(s: Seq<char>) -> bool {
    forall|i: int| 0 <= i < s.len() ==> counter_char(s[i])
}

/// The digit value of one counter character: `_` is 1, `a` is 2, …, `z`
/// is 27.
pub open spec fn char_rank(c: char) -> int {
    if c == '_' {
        1
    } else {
        c as u32 - 95
    }
}

/// Bijective base-27 numeration of counter strings: the empty string is 0,
/// and string order by (length, lexicographic) is numeric order. The counter
/// stepping through values 0, 1, 2, … therefore visits every counter string
/// exactly once, in non-decreasing length.
pub open spec fn counter_value(s: Seq<char>) -> int
    decreases s.len(),
{
    if s.len() == 0 {
        0
    } else {
        counter_value(s.drop_last()) * 27 + char_rank(s.last())
    }
}

/// `n` copies of the character `c`.
pub open spec fn repc(c: char, n: nat) -> Seq<char>
    decreases n,
{
    if n == 0 {
        Seq::empty()
    } else {
        repc(c, (n - 1) as nat).push(c)
    }
}

/// The numeration is non-negative, and positive on non-empty strings.
pub proof fn lemma_value_nonneg(s: Seq<char>)
    requires
        counter_valid(s),
    ensures
        counter_value(s) >= 0,
        s.len() > 0 ==> counter_value(s) >= 1,
    decreases s.len(),
{
    if s.len() > 0 {
        assert(counter_valid(s.drop_last()));
        lemma_value_nonneg(s.drop_last());
    }
}

/// Equal digit values come from equal digits.
proof fn lemma_rank_injective(c1: char, c2: char)
    requires
        counter_char(c1),
        counter_char(c2),
        char_rank(c1) == char_rank(c2),
    ensures
        c1 == c2,
{
    if c1 != '_' && c2 != '_' {
        assert(c1 as u32 == c2 as u32);
        assert(c1 == c2);
    }
}

/// The numeration is injective on counter strings: it never repeats, so the
/// counter enumerates each string at most once.
pub proof fn lemma_counter_value_injective(s1: Seq<char>, s2: Seq<char>)
    requires
        counter_valid(s1),
        counter_valid(s2),
        counter_value(s1) == counter_value(s2),
    ensures
        s1 == s2,
    decreases s1.len(),
{
    lemma_value_nonneg(s1);
    lemma_value_nonneg(s2);
    if s1.len() == 0 {
        if s2.len() > 0 {
            assert(counter_valid(s2.drop_last()));
            lemma_value_nonneg(s2.drop_last());
            assert(counter_value(s2) >= 1);
        }
        assert(s1 =~= s2);
    } else if s2.len() == 0 {
        assert(counter_valid(s1.drop_last()));
        lemma_value_nonneg(s1.drop_last());
        assert(false);
    } else {
        let p1 = s1.drop_last();
        let p2 = s2.drop_last();
        assert(counter_valid(p1));
        assert(counter_valid(p2));
        lemma_value_nonneg(p1);
        lemma_value_nonneg(p2);
        let r1 = char_rank(s1.last());
        let r2 = char_rank(s2.last());
        assert(1 <= r1 <= 27);
        assert(1 <= r2 <= 27);
        assert(counter_value(p1) * 27 + r1 == counter_value(p2) * 27 + r2);
        assert(counter_value(p1) == counter_value(p2)) by {
            let d = counter_value(p1) - counter_value(p2);
            assert(d * 27 == r2 - r1) by (nonlinear_arith)
                requires
                    counter_value(p1) * 27 + r1 == counter_value(p2) * 27 + r2,
                    d == counter_value(p1) - counter_value(p2),
            ;
            if d >= 1 {
                assert(d * 27 >= 27) by (nonlinear_arith)
                    requires
                        d >= 1,
                ;
            }
            if d <= -1 {
                assert(d * 27 <= -27) by (nonlinear_arith)
                    requires
                        d <= -1,
                ;
            }
        }
        assert(r1 == r2);
        assert(counter_char(s1.last()));
        assert(counter_char(s2.last()));
        lemma_rank_injective(s1.last(), s2.last());
        lemma_counter_value_injective(p1, p2);
        assert(s1 =~= p1.push(s1.last()));
        assert(s2 =~= p2.push(s2.last()));
    }
}

/// The counter digit with the given rank: the inverse of `char_rank`.
pub open spec fn rank_char(r: int) -> char {
    if r == 1 {
        '_'
    } else if r == 2 {
        'a'
    } else if r == 3 {
        'b'
    } else if r == 4 {
        'c'
    } else if r == 5 {
        'd'
    } else if r == 6 {
        'e'
    } else if r == 7 {
        'f'
    } else if r == 8 {
        'g'
    } else if r == 9 {
        'h'
    } else if r == 10 {
        'i'
    } else if r == 11 {
        'j'
    } else if r == 12 {
        'k'
    } else if r == 13 {
        'l'
    } else if r == 14 {
        'm'
    } else if r == 15 {
        'n'
    } else if r == 16 {
        'o'
    } else if r == 17 {
        'p'
    } else if r == 18 {
        'q'
    } else if r == 19 {
        'r'
    } else if r == 20 {
        's'
    } else if r == 21 {
        't'
    } else if r == 22 {
        'u'
    } else if r == 23 {
        'v'
    } else if r == 24 {
        'w'
    } else if r == 25 {
        'x'
    } else if r == 26 {
        'y'
    } else {
        'z'
    }
}

/// The numeration reaches every natural number: together with injectivity
/// and the increment's step of one, the counter enumerates every counter
/// string exactly once.
pub proof fn lemma_counter_value_surjective(n: nat)
    ensures
        exists|s: Seq<char>|
            counter_valid(s) && counter_value(s) == n && #[trigger] s.len() >= 0,
    decreases n,
{
    if n == 0 {
        let s = Seq::<char>::empty();
        assert(counter_valid(s) && counter_value(s) == 0 && s.len() >= 0);
    } else {
        let q = ((n - 1) as int) / 27;
        let r = n - 27 * q;
        assert(1 <= r <= 27) by (nonlinear_arith)
            requires
                q == ((n - 1) as int) / 27,
                r == n - 27 * q,
                n >= 1,
        ;
        assert(q < n) by (nonlinear_arith)
            requires
                q == ((n - 1) as int) / 27,
                n >= 1,
        ;
        assert(q >= 0) by (nonlinear_arith)
            requires
                q == ((n - 1) as int) / 27,
                n >= 1,
        ;
        lemma_counter_value_surjective(q as nat);
        let p = choose|s: Seq<char>|
            counter_valid(s) && counter_value(s) == q as nat && #[trigger] s.len() >= 0;
        let c = rank_char(r as int);
        assert(counter_char(c) && char_rank(c) == r);
        let s = p.push(c);
        lemma_value_snoc(p, c);
        assert(counter_valid(s)) by {
            assert(forall|i: int| 0 <= i < p.len() ==> s[i] == p[i]);
            assert(s[s.len() - 1] == c);
        }
        assert(counter_value(s) == 27 * q + r) by (nonlinear_arith)
            requires
                counter_value(s) == counter_value(p) * 27 + char_rank(c),
                counter_value(p) == q,
                char_rank(c) == r,
        ;
        assert(counter_valid(s) && counter_value(s) == n && s.len() >= 0);
    }
}

/// Appending one character multiplies the value by the base and adds the
/// character's rank.
proof fn lemma_value_snoc(s: Seq<char>, c: char)
    ensures
        counter_value(s.push(c)) == counter_value(s) * 27 + char_rank(c),
{
    assert(s.push(c).drop_last() =~= s);
    assert(s.push(c).last() == c);
}

/// Carry propagation: bumping a digit by one and resetting the trailing
/// `z` run to `_` adds exactly one to the value.
proof fn lemma_value_succ_pad(p: Seq<char>, c: char, c2: char, m: nat)
    requires
        char_rank(c2) == char_rank(c) + 1,
    ensures
        counter_value(p.push(c2) + repc('_', m)) == counter_value(p.push(c) + repc('z', m)) + 1,
    decreases m,
{
    if m == 0 {
        assert(p.push(c2) + repc('_', 0) =~= p.push(c2));
        assert(p.push(c) + repc('z', 0) =~= p.push(c));
        lemma_value_snoc(p, c2);
        lemma_value_snoc(p, c);
    } else {
        lemma_value_succ_pad(p, c, c2, (m - 1) as nat);
        assert(p.push(c2) + repc('_', m) =~= (p.push(c2) + repc('_', (m - 1) as nat)).push('_'));
        assert(p.push(c) + repc('z', m) =~= (p.push(c) + repc('z', (m - 1) as nat)).push('z'));
        lemma_value_snoc(p.push(c2) + repc('_', (m - 1) as nat), '_');
        lemma_value_snoc(p.push(c) + repc('z', (m - 1) as nat), 'z');
    }
}

/// Overflow: after a string of `z` digits comes a one-longer string of `_`
/// digits.
proof fn lemma_value_all_z(n: nat)
    ensures
        counter_value(repc('_', n + 1)) == counter_value(repc('z', n)) + 1,
    decreases n,
{
    if n == 0 {
        assert(repc('_', 0) =~= Seq::<char>::empty());
        assert(repc('z', 0) =~= Seq::<char>::empty());
        assert(repc('_', 1) =~= Seq::empty().push('_'));
        lemma_value_snoc(Seq::empty(), '_');
    } else {
        lemma_value_all_z((n - 1) as nat);
        assert(repc('_', n + 1) =~= repc('_', n).push('_'));
        assert(repc('z', n) =~= repc('z', (n - 1) as nat).push('z'));
        lemma_value_snoc(repc('_', n), '_');
        lemma_value_snoc(repc('z', (n - 1) as nat), 'z');
    }
}

/// The successor of one counter digit, `_, a, b, …, z`.
fn succ_char(c: char) -> (r: char)
    requires
        counter_char(c),
        c != 'z',
    ensures
        counter_char(r),
        char_rank(r) == char_rank(c) + 1,
{
    match c {
        '_' => 'a',
        'a' => 'b',
        'b' => 'c',
        'c' => 'd',
        'd' => 'e',
        'e' => 'f',
        'f' => 'g',
        'g' => 'h',
        'h' => 'i',
        'i' => 'j',
        'j' => 'k',
        'k' => 'l',
        'l' => 'm',
        'm' => 'n',
        'n' => 'o',
        'o' => 'p',
        'p' => 'q',
        'q' => 'r',
        'r' => 's',
        's' => 't',
        't' => 'u',
        'u' => 'v',
        'v' => 'w',
        'w' => 'x',
        'x' => 'y',
        'y' => 'z',
        _ => {
            proof {
                assert(false);
            }
            '_'
        },
    }
}

/// Advance the counter string to its successor: the last character ticks
/// upward through `_, a, …, z`, a `z` run carries, and on overflow the
/// string grows by one character (the empty string increments to `_`).
#[verifier::loop_isolation(false)]
pub fn increment(s: &mut Vec<char>)
    requires
        counter_valid(old(s)@),
        old(s)@.len() < 100_000_000,
    ensures
        counter_valid(final(s)@),
        counter_value(final(s)@) == counter_value(old(s)@) + 1,
        final(s)@.len() >= old(s)@.len(),
        final(s)@.len() <= old(s)@.len() + 1,
{
    let original_len = s.len();
    let ghost orig = s@;
    let mut zs: usize = 0;
    while s.len() > 0 && s[s.len() - 1] == 'z'
        invariant
            counter_valid(s@),
            zs + s@.len() == original_len,
            orig =~= s@ + repc('z', zs as nat),
        decreases s@.len(),
    {
        let ghost before = s@;
        let c = s.pop();
        zs = zs + 1;
        proof {
            assert(s@ =~= before.drop_last());
            assert(counter_valid(s@));
            assert(repc('z', zs as nat) =~= seq!['z'] + repc('z', (zs - 1) as nat)) by {
                lemma_repc_unshift('z', zs as nat);
            }
            assert(orig =~= s@ + repc('z', zs as nat));
        }
    }
    if s.len() > 0 {
        let ghost p_full = s@;
        let last = s[s.len() - 1];
        s.pop();
        let ghost p = s@;
        proof {
            assert(p =~= p_full.drop_last());
            assert(p_full.last() == last);
            assert(counter_char(last) && last != 'z');
        }
        let c2 = succ_char(last);
        s.push(c2);
        proof {
            assert(s@ =~= p.push(c2));
        }
        let mut pad: usize = 0;
        while pad < zs
            invariant
                pad <= zs,
                s@ =~= p.push(c2) + repc('_', pad as nat),
            decreases zs - pad,
        {
            s.push('_');
            pad = pad + 1;
            proof {
                assert(repc('_', pad as nat) =~= repc('_', (pad - 1) as nat).push('_'));
                assert(s@ =~= p.push(c2) + repc('_', pad as nat));
            }
        }
        proof {
            lemma_repc_chars('_', zs as nat);
            lemma_repc_chars('z', zs as nat);
            assert(orig =~= p.push(last) + repc('z', zs as nat));
            lemma_value_succ_pad(p, last, c2, zs as nat);
            assert(counter_valid(s@)) by {
                assert(forall|i: int| 0 <= i < s@.len() ==> #[trigger] counter_char(s@[i]));
            }
        }
    } else {
        let mut pad: usize = 0;
        proof {
            assert(orig =~= repc('z', zs as nat));
        }
        while pad < zs + 1
            invariant
                pad <= zs + 1,
                zs < 100_000_000,
                s@ =~= repc('_', pad as nat),
            decreases zs + 1 - pad,
        {
            s.push('_');
            pad = pad + 1;
            proof {
                assert(repc('_', pad as nat) =~= repc('_', (pad - 1) as nat).push('_'));
            }
        }
        proof {
            lemma_value_all_z(zs as nat);
            lemma_repc_chars('_', (zs + 1) as nat);
        }
    }
}

/// A repeated character can also be peeled from the front.
proof fn lemma_repc_unshift(c: char, n: nat)
    requires
        n >= 1,
    ensures
        repc(c, n) =~= seq![c] + repc(c, (n - 1) as nat),
    decreases n,
{
    if n > 1 {
        lemma_repc_unshift(c, (n - 1) as nat);
        assert(repc(c, n) =~= repc(c, (n - 1) as nat).push(c));
    }
}

/// Every character of a repetition is that character.
proof fn lemma_repc_chars(c: char, n: nat)
    ensures
        forall|i: int| 0 <= i < n ==> repc(c, n)[i] == c,
        repc(c, n).len() == n,
    decreases n,
{
    if n > 0 {
        lemma_repc_chars(c, (n - 1) as nat);
    }
}

} // verus!

// Case folding over sequences, the preferred-stem derivation, and the
// registry itself.

verus! {

broadcast use {vstd::seq::group_seq_axioms, vstd::seq_lib::group_seq_lib_default, vstd::set::group_set_axioms, vstd::set_lib::group_set_lib_default};

/// Characters with the same code point are the same character.
proof fn lemma_char_code(c1: char, c2: char)
    requires
        c1 as u32 == c2 as u32,
    ensures
        c1 == c2,
{
}

/// Whether a character is a letter, a digit or an underscore is determined
/// by its folded code point.
proof fn lemma_key_char_fold(c1: char, c2: char)
    requires
        fold_lower(c1) == fold_lower(c2),
    ensures
        key_char(c1) == key_char(c2),
        is_letter(c1) == is_letter(c2),
{
    if c1 as u32 == c2 as u32 {
        lemma_char_code(c1, c2);
    }
}

/// The length and the pointwise values of a folded sequence.
pub proof fn lemma_fold_len(s: Seq<char>)
    ensures
        fold_of(s).len() == s.len(),
{
}

pub proof fn lemma_fold_index(s: Seq<char>, i: int)
    requires
        0 <= i < s.len(),
    ensures
        fold_of(s)[i] == fold_lower(s[i]),
{
}

/// Folded sequences of equal value come from sequences of equal length.
pub proof fn lemma_fold_eq_len(s1: Seq<char>, s2: Seq<char>)
    requires
        fold_of(s1) == fold_of(s2),
    ensures
        s1.len() == s2.len(),
{
    lemma_fold_len(s1);
    lemma_fold_len(s2);
}

/// The ASCII-case-folded code points of a character sequence. Names and
/// keys are compared under this folding.
pub open spec fn fold_of(s: Seq<char>) -> Seq<int> {
    Seq::new(s.len(), |i: int| fold_lower(s[i]))
}

proof fn lemma_fold_concat(a: Seq<char>, b: Seq<char>)
    ensures
        fold_of(a + b) =~= fold_of(a) + fold_of(b),
{
}

proof fn lemma_fold_drop_last(s: Seq<char>)
    requires
        s.len() > 0,
    ensures
        fold_of(s.drop_last()) =~= fold_of(s).drop_last(),
{
}

/// Counter characters fold to themselves, so folding is injective on
/// counter strings.
proof fn lemma_fold_counter_injective(s1: Seq<char>, s2: Seq<char>)
    requires
        counter_valid(s1),
        counter_valid(s2),
        fold_of(s1) == fold_of(s2),
    ensures
        s1 == s2,
{
    lemma_fold_eq_len(s1, s2);
    assert forall|i: int| 0 <= i < s1.len() implies s1[i] == s2[i] by {
        assert(counter_char(s1[i]));
        assert(counter_char(s2[i]));
        lemma_fold_index(s1, i);
        lemma_fold_index(s2, i);
        assert(fold_of(s1)[i] == fold_of(s2)[i]);
        assert(s1[i] as u32 == s2[i] as u32);
        lemma_char_code(s1[i], s2[i]);
    }
    assert(s1 =~= s2);
}

/// A character that does not split a key into namespace, base and section
/// parts: letters, digits and underscore.
pub open spec fn key_char(c: char) -> bool {
    is_letter(c) || is_digit(c) || c == '_'
}

/// Where the final name-worthy part of a key begins: right after the last
/// character that is not a key character.
pub open spec fn base_start(s: Seq<char>) -> int
    decreases s.len(),
{
    if s.len() == 0 {
        0
    } else if !key_char(s.last()) {
        s.len() as int
    } else {
        base_start(s.drop_last())
    }
}

/// Collapse every maximal run of non-letter characters to one underscore;
/// `run` records whether a run is already open.
pub open spec fn collapse(s: Seq<char>, run: bool) -> Seq<char>
    decreases s.len(),
{
    if s.len() == 0 {
        Seq::empty()
    } else if is_letter(s[0]) {
        seq![s[0]] + collapse(s.drop_first(), false)
    } else if !run {
        seq!['_'] + collapse(s.drop_first(), true)
    } else {
        collapse(s.drop_first(), true)
    }
}

/// The preferred stem of a key: the part after the last separator, with
/// non-letter runs collapsed to single underscores.
pub open spec fn stem(s: Seq<char>) -> Seq<char> {
    collapse(s.subrange(base_start(s), s.len() as int), false)
}

/// Every character of a collapsed sequence is a letter or an underscore.
#[verifier::rlimit(30)]
proof fn lemma_collapse_chars(s: Seq<char>, run: bool)
    ensures
        forall|i: int|
            0 <= i < collapse(s, run).len() ==> #[trigger] ident_char(collapse(s, run)[i]),
    decreases s.len(),
{
    if s.len() > 0 {
        lemma_collapse_chars(s.drop_first(), false);
        lemma_collapse_chars(s.drop_first(), true);
        assert forall|i: int|
            0 <= i < collapse(s, run).len() implies #[trigger] ident_char(
            collapse(s, run)[i],
        ) by {
            if is_letter(s[0]) {
                assert(collapse(s, run) == seq![s[0]] + collapse(s.drop_first(), false));
                if i == 0 {
                    assert(collapse(s, run)[0] == s[0]);
                } else {
                    assert(collapse(s, run)[i] == collapse(s.drop_first(), false)[i - 1]);
                    assert(ident_char(collapse(s.drop_first(), false)[i - 1]));
                }
            } else if !run {
                assert(collapse(s, run) == seq!['_'] + collapse(s.drop_first(), true));
                if i == 0 {
                    assert(collapse(s, run)[0] == '_');
                } else {
                    assert(collapse(s, run)[i] == collapse(s.drop_first(), true)[i - 1]);
                    assert(ident_char(collapse(s.drop_first(), true)[i - 1]));
                }
            } else {
                assert(collapse(s, run) == collapse(s.drop_first(), true));
                assert(ident_char(collapse(s.drop_first(), true)[i]));
            }
        }
    }
}

/// Every character of a stem is a letter or an underscore.
pub proof fn lemma_stem_chars(s: Seq<char>)
    ensures
        forall|i: int| 0 <= i < stem(s).len() ==> #[trigger] ident_char(stem(s)[i]),
{
    lemma_collapse_chars(s.subrange(base_start(s), s.len() as int), false);
}

/// Splitting looks only at folded code points.
proof fn lemma_base_start_fold(s1: Seq<char>, s2: Seq<char>)
    requires
        fold_of(s1) == fold_of(s2),
    ensures
        base_start(s1) == base_start(s2),
    decreases s1.len(),
{
    lemma_fold_eq_len(s1, s2);
    if s1.len() > 0 {
        lemma_fold_index(s1, s1.len() - 1);
        lemma_fold_index(s2, s2.len() - 1);
        assert(fold_of(s1)[s1.len() - 1] == fold_of(s2)[s2.len() - 1]);
        lemma_key_char_fold(s1.last(), s2.last());
        assert(key_char(s1.last()) == key_char(s2.last()));
        if key_char(s1.last()) {
            lemma_fold_drop_last(s1);
            lemma_fold_drop_last(s2);
            assert(fold_of(s1.drop_last()) =~= fold_of(s2.drop_last()));
            lemma_base_start_fold(s1.drop_last(), s2.drop_last());
        }
    }
}

proof fn lemma_fold_drop_first(s: Seq<char>)
    requires
        s.len() > 0,
    ensures
        fold_of(s.drop_first()) =~= fold_of(s).drop_first(),
{
}

/// Collapsing looks only at folded code points, and folds commute with it.
proof fn lemma_collapse_fold(s1: Seq<char>, s2: Seq<char>, run: bool)
    requires
        fold_of(s1) == fold_of(s2),
    ensures
        fold_of(collapse(s1, run)) == fold_of(collapse(s2, run)),
    decreases s1.len(),
{
    lemma_fold_eq_len(s1, s2);
    if s1.len() > 0 {
        lemma_fold_index(s1, 0);
        lemma_fold_index(s2, 0);
        assert(fold_of(s1)[0] == fold_of(s2)[0]);
        lemma_key_char_fold(s1[0], s2[0]);
        assert(is_letter(s1[0]) == is_letter(s2[0]));
        lemma_fold_drop_first(s1);
        lemma_fold_drop_first(s2);
        assert(fold_of(s1.drop_first()) =~= fold_of(s2.drop_first()));
        if is_letter(s1[0]) {
            lemma_collapse_fold(s1.drop_first(), s2.drop_first(), false);
            lemma_fold_concat(seq![s1[0]], collapse(s1.drop_first(), false));
            lemma_fold_concat(seq![s2[0]], collapse(s2.drop_first(), false));
            assert(fold_of(seq![s1[0]]) =~= fold_of(seq![s2[0]]));
        } else {
            lemma_collapse_fold(s1.drop_first(), s2.drop_first(), true);
            if !run {
                lemma_fold_concat(seq!['_'], collapse(s1.drop_first(), true));
                lemma_fold_concat(seq!['_'], collapse(s2.drop_first(), true));
            }
        }
    }
}

/// Keys that agree under folding have stems that agree under folding.
pub proof fn lemma_stem_fold(s1: Seq<char>, s2: Seq<char>)
    requires
        fold_of(s1) == fold_of(s2),
    ensures
        fold_of(stem(s1)) == fold_of(stem(s2)),
{
    lemma_fold_eq_len(s1, s2);
    lemma_base_start_fold(s1, s2);
    let b = base_start(s1);
    lemma_base_start_bounds(s1);
    assert(fold_of(s1.subrange(b, s1.len() as int)) =~= fold_of(s2.subrange(b, s2.len() as int)))
        by {
        lemma_fold_len(s1.subrange(b, s1.len() as int));
        lemma_fold_len(s2.subrange(b, s2.len() as int));
        assert forall|i: int| 0 <= i < s1.len() - b implies fold_lower(
            s1.subrange(b, s1.len() as int)[i],
        ) == fold_lower(s2.subrange(b, s2.len() as int)[i]) by {
            lemma_fold_index(s1, b + i);
            lemma_fold_index(s2, b + i);
            assert(fold_of(s1)[b + i] == fold_of(s2)[b + i]);
        }
    }
    lemma_collapse_fold(
        s1.subrange(b, s1.len() as int),
        s2.subrange(b, s2.len() as int),
        false,
    );
}

/// The split point lies within the key.
proof fn lemma_base_start_bounds(s: Seq<char>)
    ensures
        0 <= base_start(s) <= s.len(),
    decreases s.len(),
{
    if s.len() > 0 && key_char(s.last()) {
        lemma_base_start_bounds(s.drop_last());
    }
}

/// A string of letters is its own stem.
proof fn lemma_stem_letters(s: Seq<char>)
    requires
        forall|i: int| 0 <= i < s.len() ==> is_letter(s[i]),
    ensures
        stem(s) == s,
{
    lemma_base_start_letters(s);
    assert(s.subrange(0, s.len() as int) =~= s);
    lemma_collapse_letters(s);
}

proof fn lemma_base_start_letters(s: Seq<char>)
    requires
        forall|i: int| 0 <= i < s.len() ==> is_letter(s[i]),
    ensures
        base_start(s) == 0,
    decreases s.len(),
{
    if s.len() > 0 {
        lemma_base_start_letters(s.drop_last());
    }
}

proof fn lemma_collapse_letters(s: Seq<char>)
    requires
        forall|i: int| 0 <= i < s.len() ==> is_letter(s[i]),
    ensures
        collapse(s, false) == s,
    decreases s.len(),
{
    if s.len() > 0 {
        lemma_collapse_letters(s.drop_first());
        assert(collapse(s, false) =~= seq![s[0]] + s.drop_first());
        assert(seq![s[0]] + s.drop_first() =~= s);
    } else {
        assert(collapse(s, false) =~= s);
    }
}

} // verus!

// Executable helpers over character vectors.

verus! {

/// Copy a character vector.
pub fn copy_chars(v: &Vec<char>) -> (r: Vec<char>)
    ensures
        r@ == v@,
{
    let mut r: Vec<char> = Vec::new();
    let mut i: usize = 0;
    while i < v.len()
        invariant
            i <= v@.len(),
            r@ == v@.subrange(0, i as int),
        decreases v@.len() - i,
    {
        r.push(v[i]);
        i = i + 1;
        proof {
            assert(r@ =~= v@.subrange(0, i as int));
        }
    }
    proof {
        assert(r@ =~= v@);
    }
    r
}

/// Concatenate two character vectors into a new one.
pub fn concat_chars(a: &Vec<char>, b: &Vec<char>) -> (r: Vec<char>)
    ensures
        r@ == a@ + b@,
{
    let mut r = copy_chars(a);
    let mut i: usize = 0;
    while i < b.len()
        invariant
            i <= b@.len(),
            r@ == a@ + b@.subrange(0, i as int),
        decreases b@.len() - i,
    {
        r.push(b[i]);
        i = i + 1;
        proof {
            assert(r@ =~= a@ + b@.subrange(0, i as int));
        }
    }
    proof {
        assert(r@ =~= a@ + b@);
    }
    r
}

/// Compare two character vectors under ASCII case folding.
pub fn chars_eq_fold(a: &Vec<char>, b: &Vec<char>) -> (r: bool)
    ensures
        r == (fold_of(a@) == fold_of(b@)),
{
    proof {
        lemma_fold_len(a@);
        lemma_fold_len(b@);
    }
    if a.len() != b.len() {
        return false;
    }
    let mut i: usize = 0;
    while i < a.len()
        invariant
            i <= a@.len(),
            a@.len() == b@.len(),
            forall|j: int| 0 <= j < i ==> fold_of(a@)[j] == fold_of(b@)[j],
        decreases a@.len() - i,
    {
        let ca = a[i] as u32;
        let cb = b[i] as u32;
        let fa: u32 = if 65 <= ca && ca <= 90 {
            ca + 32
        } else {
            ca
        };
        let fb: u32 = if 65 <= cb && cb <= 90 {
            cb + 32
        } else {
            cb
        };
        if fa != fb {
            proof {
                lemma_fold_index(a@, i as int);
                lemma_fold_index(b@, i as int);
                assert(fold_of(a@)[i as int] != fold_of(b@)[i as int]);
            }
            return false;
        }
        proof {
            lemma_fold_index(a@, i as int);
            lemma_fold_index(b@, i as int);
        }
        i = i + 1;
    }
    proof {
        assert(fold_of(a@) =~= fold_of(b@));
    }
    true
}

/// One character of the engine's key alphabet.
fn is_key_char(c: char) -> (r: bool)
    ensures
        r == key_char(c),
{
    let cu = c as u32;
    (97 <= cu && cu <= 122) || (65 <= cu && cu <= 90) || (48 <= cu && cu <= 57) || c == '_'
}

/// The first-pick name for a label key: the part after the last separator,
/// with every run of non-letter characters collapsed to one underscore.
/// The pick is subject to veto if the name is already taken.
#[verifier::loop_isolation(false)]
pub fn preferred_label_name(key: &Vec<char>) -> (r: Vec<char>)
    ensures
        r@ == stem(key@),
{
    let mut b = key.len();
    let mut scanning = true;
    proof {
        assert(key@.subrange(0, key@.len() as int) =~= key@);
    }
    while scanning && b > 0
        invariant
            b <= key.len(),
            base_start(key@) == if scanning {
                base_start(key@.subrange(0, b as int))
            } else {
                b as int
            },
        decreases b + (if scanning { 1int } else { 0int }),
    {
        let ghost pre = key@.subrange(0, b as int);
        if is_key_char(key[b - 1]) {
            b = b - 1;
            proof {
                assert(pre.drop_last() =~= key@.subrange(0, b as int));
                assert(pre.last() == key@[b as int]);
            }
        } else {
            scanning = false;
            proof {
                assert(pre.last() == key@[b - 1]);
                assert(base_start(pre) == b as int);
            }
        }
    }
    proof {
        if b == 0 {
            assert(key@.subrange(0, 0) =~= Seq::<char>::empty());
        }
        assert(base_start(key@) == b as int);
        lemma_base_start_bounds(key@);
    }
    let mut r: Vec<char> = Vec::new();
    let mut run = false;
    let mut i = b;
    while i < key.len()
        invariant
            b <= i <= key.len(),
            stem(key@) == r@ + collapse(key@.subrange(i as int, key@.len() as int), run),
        decreases key@.len() - i,
    {
        let ghost tail = key@.subrange(i as int, key@.len() as int);
        let c = key[i];
        proof {
            assert(tail[0] == c);
            assert(tail.drop_first() =~= key@.subrange(i + 1, key@.len() as int));
        }
        let cu = c as u32;
        if (97 <= cu && cu <= 122) || (65 <= cu && cu <= 90) {
            r.push(c);
            run = false;
            proof {
                assert(collapse(tail, run) == collapse(tail, run));
                assert(r@ + collapse(tail.drop_first(), false) =~= r@.drop_last() + (seq![c]
                    + collapse(tail.drop_first(), false)));
            }
        } else if !run {
            r.push('_');
            run = true;
            proof {
                assert(r@ + collapse(tail.drop_first(), true) =~= r@.drop_last() + (seq!['_']
                    + collapse(tail.drop_first(), true)));
            }
        } else {
        }
        i = i + 1;
    }
    proof {
        assert(key@.subrange(key@.len() as int, key@.len() as int) =~= Seq::<char>::empty());
        assert(stem(key@) =~= r@);
    }
    r
}

} // verus!

// The registry itself.

verus! {

/// Assigns a short engine-valid name to every distinct label key, keeps all
/// assigned names unique under ASCII case folding, and generates names for
/// anonymous labels.
pub struct Registry {
    /// Each key seen so far, with the suffix chosen for it.
    pub entries: Vec<(Vec<char>, Vec<char>)>,
    /// Every name assigned so far, reserved names included.
    pub taken: Vec<Vec<char>>,
    /// The rolling generator state for anonymous-label names.
    pub counter: Vec<char>,
}

impl Registry {
    /// Some entry is recorded for this key, up to case folding.
    pub open spec fn keyed(self, k: Seq<char>) -> bool {
        exists|i: int|
            0 <= i < self.entries@.len() && fold_of(#[trigger] self.entries@[i].0@) == fold_of(k)
    }

    /// The name that entry `i` stands for.
    pub open spec fn entry_name(self, i: int) -> Seq<char> {
        stem(self.entries@[i].0@) + self.entries@[i].1@
    }

    /// Some assigned name equals `n` up to case folding.
    pub open spec fn name_taken(self, n: Seq<char>) -> bool {
        exists|i: int|
            0 <= i < self.taken@.len() && fold_of(#[trigger] self.taken@[i]@) == fold_of(n)
    }

    /// The registry invariant: keys are recorded at most once, assigned
    /// names never collide under case folding, and every entry's name is
    /// among the assigned names.
    pub open spec fn wf(self) -> bool {
        &&& (forall|i: int, j: int|
            0 <= i < j < self.entries@.len() ==> fold_of(#[trigger] self.entries@[i].0@)
                != fold_of(#[trigger] self.entries@[j].0@))
        &&& (forall|i: int, j: int|
            0 <= i < j < self.taken@.len() ==> fold_of(#[trigger] self.taken@[i]@) != fold_of(
                #[trigger] self.taken@[j]@,
            ))
        &&& (forall|i: int|
            0 <= i < self.entries@.len() ==> self.name_taken(#[trigger] self.entry_name(i)))
        &&& (forall|i: int, j: int|
            0 <= i < j < self.entries@.len() ==> fold_of(#[trigger] self.entry_name(i))
                != fold_of(#[trigger] self.entry_name(j)))
        &&& (forall|i: int|
            0 <= i < self.entries@.len() ==> counter_valid(#[trigger] self.entries@[i].1@))
        &&& counter_valid(self.counter@)
    }

    fn taken_contains(&self, name: &Vec<char>) -> (r: bool)
        ensures
            r == self.name_taken(name@),
    {
        let mut i: usize = 0;
        while i < self.taken.len()
            invariant
                i <= self.taken@.len(),
                forall|j: int| 0 <= j < i ==> fold_of(#[trigger] self.taken@[j]@) != fold_of(
                    name@,
                ),
            decreases self.taken@.len() - i,
        {
            if chars_eq_fold(&self.taken[i], name) {
                return true;
            }
            i = i + 1;
        }
        false
    }

    /// A fresh registry, preloaded with the names the engine treats
    /// specially, each with an empty suffix: a user label that shadows one
    /// of them receives a suffix instead of the bare name.
    pub fn new() -> (r: Registry)
        ensures
            r.wf(),
            r.counter@ =~= Seq::<char>::empty(),
            r.entries@.len() == 5,
            r.taken@.len() == 5,
            forall|i: int| 0 <= i < 5 ==> (#[trigger] r.entries@[i].1@) =~= Seq::<char>::empty(),
            r.entries@[0].0@ =~= seq!['b', 'o', 'm', 'b', 'e', 'd'],
            r.entries@[1].0@ =~= seq!['e', 'n', 'e', 'r', 'g', 'i', 'z', 'e'],
            r.entries@[2].0@ =~= seq!['s', 'h', 'o', 't'],
            r.entries@[3].0@ =~= seq!['t', 'h', 'u', 'd'],
            r.entries@[4].0@ =~= seq!['t', 'o', 'u', 'c', 'h'],
            forall|i: int| 0 <= i < 5 ==> (#[trigger] r.taken@[i]@) == r.entries@[i].0@,
    {
        let n0 = vec!['b', 'o', 'm', 'b', 'e', 'd'];
        let n1 = vec!['e', 'n', 'e', 'r', 'g', 'i', 'z', 'e'];
        let n2 = vec!['s', 'h', 'o', 't'];
        let n3 = vec!['t', 'h', 'u', 'd'];
        let n4 = vec!['t', 'o', 'u', 'c', 'h'];
        let mut entries: Vec<(Vec<char>, Vec<char>)> = Vec::new();
        let mut taken: Vec<Vec<char>> = Vec::new();
        taken.push(copy_chars(&n0));
        taken.push(copy_chars(&n1));
        taken.push(copy_chars(&n2));
        taken.push(copy_chars(&n3));
        taken.push(copy_chars(&n4));
        entries.push((n0, Vec::new()));
        entries.push((n1, Vec::new()));
        entries.push((n2, Vec::new()));
        entries.push((n3, Vec::new()));
        entries.push((n4, Vec::new()));
        let r = Registry { entries, taken, counter: Vec::new() };
        proof {
            lemma_registry_new_wf(r);
        }
        r
    }

    /// Record the key if it is new, and return its short name: the key's
    /// preferred stem followed by the suffix recorded for the key. A new
    /// key receives the first suffix in counter order whose name is free.
    /// The same key always yields the same name, and names for distinct
    /// keys never collide under ASCII case folding.
    #[verifier::loop_isolation(false)]
    pub fn sanitize(&mut self, key: &Vec<char>) -> (name: Vec<char>)
        requires
            old(self).wf(),
            old(self).taken@.len() < 10_000_000,
        ensures
            final(self).wf(),
            final(self).taken@.len() <= old(self).taken@.len() + 1,
            sanitize_post(*old(self), *final(self), key@, name@),
            forall|i: int| 0 <= i < name@.len() ==> ident_char(#[trigger] name@[i]),
            valid_ident(name@),
    {
        let mut i: usize = 0;
        while i < self.entries.len()
            invariant
                i <= self.entries@.len(),
                forall|j: int| 0 <= j < i ==> fold_of(#[trigger] self.entries@[j].0@) != fold_of(
                    key@,
                ),
            decreases self.entries@.len() - i,
        {
            if chars_eq_fold(&self.entries[i].0, key) {
                let stem_v = preferred_label_name(key);
                let name = concat_chars(&stem_v, &self.entries[i].1);
                proof {
                    lemma_stem_chars(key@);
                    assert forall|k: int| 0 <= k < name@.len() implies ident_char(
                        #[trigger] name@[k],
                    ) by {
                        if k < stem(key@).len() {
                            assert(name@[k] == stem(key@)[k]);
                        } else {
                            assert(name@[k] == self.entries@[i as int].1@[k - stem(key@).len()]);
                            assert(counter_char(name@[k]));
                        }
                    }
                }
                return name;
            }
            i = i + 1;
        }
        let ghost pre = *self;
        let stem_v = preferred_label_name(key);
        let mut suffix: Vec<char> = Vec::new();
        let ghost mut matched: Set<int> = Set::empty();
        proof {
            assert(suffix@ =~= Seq::<char>::empty());
            assert(counter_value(suffix@) == 0);
        }
        loop
            invariant
                *self == pre,
                counter_valid(suffix@),
                suffix@.len() <= matched.len() + 1,
                matched.finite(),
                matched.len() == counter_value(suffix@),
                matched.subset_of(set_int_range(0, pre.taken@.len() as int)),
                matched_witnessed(pre, key@, suffix@, matched),
                forall|s2: Seq<char>|
                    counter_valid(s2) && 0 <= counter_value(s2) < counter_value(suffix@)
                        ==> pre.name_taken(stem(key@) + s2),
            decreases pre.taken@.len() - matched.len(),
        {
            proof {
                lemma_int_range(0, pre.taken@.len() as int);
                lemma_len_subset(matched, set_int_range(0, pre.taken@.len() as int));
            }
            let candidate = concat_chars(&stem_v, &suffix);
            if !self.taken_contains(&candidate) {
                let key_c = copy_chars(key);
                let sfx_c = copy_chars(&suffix);
                self.entries.push((key_c, sfx_c));
                let name_c = copy_chars(&candidate);
                self.taken.push(name_c);
                proof {
                    lemma_sanitize_insert(pre, *self, key@, suffix@, candidate@);
                    lemma_stem_chars(key@);
                    assert forall|k: int| 0 <= k < candidate@.len() implies ident_char(
                        #[trigger] candidate@[k],
                    ) by {
                        if k < stem(key@).len() {
                            assert(candidate@[k] == stem(key@)[k]);
                        } else {
                            assert(candidate@[k] == suffix@[k - stem(key@).len()]);
                            assert(counter_char(candidate@[k]));
                        }
                    }
                }
                return candidate;
            }
            let ghost old_suffix = suffix@;
            let ghost jj = choose|j: int|
                0 <= j < pre.taken@.len() && fold_of(#[trigger] pre.taken@[j]@) == fold_of(
                    candidate@,
                );
            proof {
                lemma_match_is_fresh(pre, key@, old_suffix, candidate@, matched, jj);
                vstd::set::axiom_set_insert_len(matched, jj);
                let ghost before = matched;
                matched = matched.insert(jj);
                assert(matched.len() == before.len() + 1);
                lemma_int_range(0, pre.taken@.len() as int);
                lemma_len_subset(matched, set_int_range(0, pre.taken@.len() as int));
            }
            increment(&mut suffix);
            proof {
                assert forall|s2: Seq<char>|
                    counter_valid(s2) && 0 <= counter_value(s2) < counter_value(suffix@)
                        implies pre.name_taken(stem(key@) + s2) by {
                    if counter_value(s2) == counter_value(old_suffix) {
                        lemma_counter_value_injective(s2, old_suffix);
                        assert(stem(key@) + s2 == candidate@);
                    }
                }
                assert forall|j: int| matched.contains(j) implies exists|s2: Seq<char>|
                    counter_valid(s2) && counter_value(s2) < counter_value(suffix@) && fold_of(
                        #[trigger] pre.taken@[j]@,
                    ) == fold_of(stem(key@) + s2) by {
                    if j == jj {
                        assert(counter_valid(old_suffix) && counter_value(old_suffix)
                            < counter_value(suffix@) && fold_of(pre.taken@[j]@) == fold_of(
                            stem(key@) + old_suffix,
                        ));
                    } else {
                        let s2 = choose|s2: Seq<char>|
                            counter_valid(s2) && counter_value(s2) < counter_value(old_suffix)
                                && fold_of(pre.taken@[j]@) == fold_of(stem(key@) + s2);
                        assert(counter_valid(s2) && counter_value(s2) < counter_value(suffix@)
                            && fold_of(pre.taken@[j]@) == fold_of(stem(key@) + s2));
                    }
                }
            }
        }
    }

    /// Advance the anonymous counter past every taken name and return its
    /// value. The result is never a name the registry has assigned, and it
    /// is the first free counter string after the previous counter value.
    #[verifier::loop_isolation(false)]
    pub fn gen_anonymous(&mut self) -> (name: Vec<char>)
        requires
            old(self).wf(),
            old(self).taken@.len() < 10_000_000,
            old(self).counter@.len() < 10_000_000,
        ensures
            final(self).wf(),
            final(self).entries == old(self).entries,
            final(self).taken == old(self).taken,
            final(self).counter@.len() <= old(self).counter@.len() + old(self).taken@.len() + 1,
            name@ == final(self).counter@,
            counter_valid(name@),
            !old(self).name_taken(name@),
            counter_value(final(self).counter@) > counter_value(old(self).counter@),
            forall|s2: Seq<char>|
                counter_valid(s2) && counter_value(old(self).counter@) < counter_value(s2)
                    < counter_value(final(self).counter@) ==> old(self).name_taken(s2),
            valid_ident(name@),
    {
        let ghost pre = *self;
        let ghost mut matched: Set<int> = Set::empty();
        proof {
            lemma_value_nonneg(pre.counter@);
        }
        increment(&mut self.counter);
        loop
            invariant
                self.entries == pre.entries,
                self.taken == pre.taken,
                counter_valid(self.counter@),
                self.counter@.len() <= pre.counter@.len() + matched.len() + 1,
                matched.finite(),
                matched.len() == counter_value(self.counter@) - counter_value(pre.counter@) - 1,
                matched.subset_of(set_int_range(0, pre.taken@.len() as int)),
                counter_matched_witnessed(pre, self.counter@, matched),
                forall|s2: Seq<char>|
                    counter_valid(s2) && counter_value(pre.counter@) < counter_value(s2)
                        < counter_value(self.counter@) ==> pre.name_taken(s2),
            decreases pre.taken@.len() - matched.len(),
        {
            proof {
                lemma_int_range(0, pre.taken@.len() as int);
                lemma_len_subset(matched, set_int_range(0, pre.taken@.len() as int));
            }
            let ghost cur = self.counter@;
            let here = copy_chars(&self.counter);
            if !self.taken_contains(&here) {
                proof {
                    lemma_gen_wf(pre, *self);
                    assert forall|k: int| 0 <= k < here@.len() implies ident_char(
                        #[trigger] here@[k],
                    ) by {
                        assert(counter_char(here@[k]));
                    }
                }
                return here;
            }
            let ghost old_counter = self.counter@;
            let ghost jj = choose|j: int|
                0 <= j < pre.taken@.len() && fold_of(#[trigger] pre.taken@[j]@) == fold_of(cur);
            proof {
                lemma_counter_match_is_fresh(pre, old_counter, matched, jj);
                vstd::set::axiom_set_insert_len(matched, jj);
                let ghost before = matched;
                matched = matched.insert(jj);
                assert(matched.len() == before.len() + 1);
                lemma_int_range(0, pre.taken@.len() as int);
                lemma_len_subset(matched, set_int_range(0, pre.taken@.len() as int));
            }
            increment(&mut self.counter);
            proof {
                assert forall|s2: Seq<char>|
                    counter_valid(s2) && counter_value(pre.counter@) < counter_value(s2)
                        < counter_value(self.counter@) implies pre.name_taken(s2) by {
                    if counter_value(s2) == counter_value(old_counter) {
                        lemma_counter_value_injective(s2, old_counter);
                        assert(fold_of(s2) == fold_of(old_counter));
                    }
                }
                assert forall|j: int| matched.contains(j) implies exists|s2: Seq<char>|
                    counter_valid(s2) && counter_value(s2) < counter_value(self.counter@)
                        && fold_of(#[trigger] pre.taken@[j]@) == fold_of(s2) by {
                    if j == jj {
                        assert(counter_valid(old_counter) && counter_value(old_counter)
                            < counter_value(self.counter@) && fold_of(pre.taken@[j]@) == fold_of(
                            old_counter,
                        ));
                    } else {
                        let s2 = choose|s2: Seq<char>|
                            counter_valid(s2) && counter_value(s2) < counter_value(old_counter)
                                && fold_of(pre.taken@[j]@) == fold_of(s2);
                        assert(counter_valid(s2) && counter_value(s2)
                            < counter_value(self.counter@) && fold_of(pre.taken@[j]@) == fold_of(
                            s2,
                        ));
                    }
                }
            }
        }
    }
}

/// What one call of `sanitize` does to the registry: an already-recorded
/// key changes nothing and yields its recorded name; a fresh key is
/// appended together with the first suffix in counter order whose name is
/// free, and that name joins the taken set.
pub open spec fn sanitize_post(
    pre: Registry,
    post: Registry,
    key: Seq<char>,
    name: Seq<char>,
) -> bool {
    &&& (pre.keyed(key) ==> post == pre)
    &&& (exists|i: int|
        0 <= i < post.entries@.len() && fold_of(#[trigger] post.entries@[i].0@) == fold_of(key)
            && name == stem(key) + post.entries@[i].1@)
    &&& (!pre.keyed(key) ==> {
        let n = pre.entries@.len() as int;
        &&& post.entries@.len() == n + 1
        &&& (forall|j: int| 0 <= j < n ==> #[trigger] post.entries@[j] == pre.entries@[j])
        &&& post.entries@[n].0@ == key
        &&& name == stem(key) + post.entries@[n].1@
        &&& counter_valid(post.entries@[n].1@)
        &&& !pre.name_taken(name)
        &&& post.taken@.len() == pre.taken@.len() + 1
        &&& (forall|j: int| 0 <= j < pre.taken@.len() ==> #[trigger] post.taken@[j] == pre.taken@[j])
        &&& post.taken@[pre.taken@.len() as int]@ == name
        &&& post.counter == pre.counter
        &&& (forall|s2: Seq<char>|
            counter_valid(s2) && 0 <= counter_value(s2) < counter_value(post.entries@[n].1@)
                ==> pre.name_taken(stem(key) + s2))
    })
}

/// Registry idempotence: sanitizing the same key twice in a row yields the
/// same name both times and leaves the registry as the first call left it.
pub proof fn lemma_sanitize_idempotent(
    r0: Registry,
    r1: Registry,
    r2: Registry,
    key: Seq<char>,
    n1: Seq<char>,
    n2: Seq<char>,
)
    requires
        r0.wf(),
        r1.wf(),
        sanitize_post(r0, r1, key, n1),
        sanitize_post(r1, r2, key, n2),
    ensures
        n1 == n2,
        r2 == r1,
{
    assert(r1.keyed(key));
    let i1 = choose|i: int|
        0 <= i < r1.entries@.len() && fold_of(#[trigger] r1.entries@[i].0@) == fold_of(key) && n1
            == stem(key) + r1.entries@[i].1@;
    let i2 = choose|i: int|
        0 <= i < r2.entries@.len() && fold_of(#[trigger] r2.entries@[i].0@) == fold_of(key) && n2
            == stem(key) + r2.entries@[i].1@;
    assert(r2 == r1);
    if i1 != i2 {
        assert(fold_of(r1.entries@[i1].0@) == fold_of(r1.entries@[i2].0@));
        assert(false);
    }
}

/// Registry uniqueness: keys that differ under case folding receive names
/// that differ under case folding.
pub proof fn lemma_sanitize_unique(
    r0: Registry,
    r1: Registry,
    r2: Registry,
    k1: Seq<char>,
    k2: Seq<char>,
    n1: Seq<char>,
    n2: Seq<char>,
)
    requires
        r0.wf(),
        r1.wf(),
        r2.wf(),
        sanitize_post(r0, r1, k1, n1),
        sanitize_post(r1, r2, k2, n2),
        fold_of(k1) != fold_of(k2),
    ensures
        fold_of(n1) != fold_of(n2),
{
    let i1 = choose|i: int|
        0 <= i < r1.entries@.len() && fold_of(#[trigger] r1.entries@[i].0@) == fold_of(k1) && n1
            == stem(k1) + r1.entries@[i].1@;
    let i2 = choose|i: int|
        0 <= i < r2.entries@.len() && fold_of(#[trigger] r2.entries@[i].0@) == fold_of(k2) && n2
            == stem(k2) + r2.entries@[i].1@;
    // entry i1 is unchanged by the second call
    assert(r2.entries@[i1] == r1.entries@[i1]) by {
        if !r1.keyed(k2) {
            assert(i1 < r1.entries@.len());
        }
    }
    assert(i1 != i2) by {
        assert(fold_of(r2.entries@[i1].0@) == fold_of(k1));
    }
    lemma_stem_fold(k1, r2.entries@[i1].0@);
    lemma_stem_fold(k2, r2.entries@[i2].0@);
    lemma_fold_concat(stem(k1), r2.entries@[i1].1@);
    lemma_fold_concat(stem(k2), r2.entries@[i2].1@);
    lemma_fold_concat(stem(r2.entries@[i1].0@), r2.entries@[i1].1@);
    lemma_fold_concat(stem(r2.entries@[i2].0@), r2.entries@[i2].1@);
    assert(fold_of(n1) == fold_of(r2.entry_name(i1)));
    assert(fold_of(n2) == fold_of(r2.entry_name(i2)));
}

proof fn lemma_registry_new_wf(r: Registry)
    requires
        r.entries@.len() == 5,
        r.taken@.len() == 5,
        forall|i: int| 0 <= i < 5 ==> (#[trigger] r.entries@[i].1@) =~= Seq::<char>::empty(),
        r.entries@[0].0@ =~= seq!['b', 'o', 'm', 'b', 'e', 'd'],
        r.entries@[1].0@ =~= seq!['e', 'n', 'e', 'r', 'g', 'i', 'z', 'e'],
        r.entries@[2].0@ =~= seq!['s', 'h', 'o', 't'],
        r.entries@[3].0@ =~= seq!['t', 'h', 'u', 'd'],
        r.entries@[4].0@ =~= seq!['t', 'o', 'u', 'c', 'h'],
        forall|i: int| 0 <= i < 5 ==> (#[trigger] r.taken@[i]@) == r.entries@[i].0@,
        counter_valid(r.counter@),
    ensures
        r.wf(),
{
    assert forall|i: int, j: int|
        0 <= i < j < 5 implies fold_of(#[trigger] r.entries@[i].0@) != fold_of(
        #[trigger] r.entries@[j].0@,
    ) by {
        lemma_fold_len(r.entries@[i].0@);
        lemma_fold_len(r.entries@[j].0@);
        if i == 2 && j == 3 {
            lemma_fold_index(r.entries@[2].0@, 0);
            lemma_fold_index(r.entries@[3].0@, 0);
            assert(fold_of(r.entries@[2].0@)[0] == 's' as u32);
            assert(fold_of(r.entries@[3].0@)[0] == 't' as u32);
        }
    }
    assert forall|i: int| 0 <= i < 5 implies stem(#[trigger] r.entries@[i].0@) == r.entries@[i].0@
        by {
        lemma_stem_letters(r.entries@[i].0@);
    }
    assert forall|i: int| 0 <= i < 5 implies r.name_taken(#[trigger] r.entry_name(i)) by {
        assert(r.entry_name(i) =~= r.entries@[i].0@);
        assert(fold_of(r.taken@[i]@) == fold_of(r.entry_name(i)));
    }
    assert forall|i: int, j: int|
        0 <= i < j < 5 implies fold_of(#[trigger] r.entry_name(i)) != fold_of(
        #[trigger] r.entry_name(j),
    ) by {
        assert(r.entry_name(i) =~= r.entries@[i].0@);
        assert(r.entry_name(j) =~= r.entries@[j].0@);
    }
}

/// In the suffix search, a candidate that is already taken matches a taken
/// entry that no earlier candidate matched: earlier candidates carry
/// strictly smaller counter values.
proof fn lemma_match_is_fresh(
    pre: Registry,
    key: Seq<char>,
    suffix: Seq<char>,
    candidate: Seq<char>,
    matched: Set<int>,
    j: int,
)
    requires
        pre.wf(),
        counter_valid(suffix),
        candidate == stem(key) + suffix,
        0 <= j < pre.taken@.len(),
        fold_of(pre.taken@[j]@) == fold_of(candidate),
        matched_witnessed(pre, key, suffix, matched),
    ensures
        !matched.contains(j),
{
    if !matched.contains(j) {
        return;
    }
    let s2 = choose|s2: Seq<char>|
        counter_valid(s2) && counter_value(s2) < counter_value(suffix) && fold_of(pre.taken@[j]@)
            == fold_of(stem(key) + s2);
    lemma_fold_concat(stem(key), s2);
    lemma_fold_concat(stem(key), suffix);
    assert(fold_of(s2) =~= fold_of(stem(key) + s2).subrange(
        fold_of(stem(key)).len() as int,
        fold_of(stem(key) + s2).len() as int,
    )) by {
        lemma_fold_len(stem(key));
        lemma_fold_len(s2);
    }
    assert(fold_of(suffix) =~= fold_of(stem(key) + suffix).subrange(
        fold_of(stem(key)).len() as int,
        fold_of(stem(key) + suffix).len() as int,
    )) by {
        lemma_fold_len(stem(key));
        lemma_fold_len(suffix);
    }
    assert(fold_of(stem(key) + s2).len() == fold_of(stem(key) + suffix).len()) by {
        lemma_fold_len(stem(key) + s2);
        lemma_fold_len(stem(key) + suffix);
        lemma_fold_len(s2);
        lemma_fold_len(suffix);
        lemma_fold_len(pre.taken@[j]@);
    }
    assert(fold_of(s2) == fold_of(suffix));
    lemma_fold_counter_injective(s2, suffix);
}


/// The invariant carried for the matched set of the suffix search.
pub open spec fn matched_witnessed(
    pre: Registry,
    key: Seq<char>,
    suffix: Seq<char>,
    matched: Set<int>,
) -> bool {
    forall|j: int|
        matched.contains(j) ==> exists|s2: Seq<char>|
            counter_valid(s2) && counter_value(s2) < counter_value(suffix) && fold_of(
                #[trigger] pre.taken@[j]@,
            ) == fold_of(stem(key) + s2)
}

/// Same freshness argument for the anonymous-counter search.
proof fn lemma_counter_match_is_fresh(pre: Registry, cur: Seq<char>, matched: Set<int>, j: int)
    requires
        pre.wf(),
        counter_valid(cur),
        0 <= j < pre.taken@.len(),
        fold_of(pre.taken@[j]@) == fold_of(cur),
        counter_matched_witnessed(pre, cur, matched),
    ensures
        !matched.contains(j),
{
    if !matched.contains(j) {
        return;
    }
    let s2 = choose|s2: Seq<char>|
        counter_valid(s2) && counter_value(s2) < counter_value(cur) && fold_of(pre.taken@[j]@)
            == fold_of(s2);
    lemma_fold_counter_injective(s2, cur);
}

/// The invariant carried for the matched set of the anonymous search.
pub open spec fn counter_matched_witnessed(
    pre: Registry,
    cur: Seq<char>,
    matched: Set<int>,
) -> bool {
    forall|j: int|
        matched.contains(j) ==> exists|s2: Seq<char>|
            counter_valid(s2) && counter_value(s2) < counter_value(cur) && fold_of(
                #[trigger] pre.taken@[j]@,
            ) == fold_of(s2)
}

/// Pushing a fresh key, suffix and name keeps the registry well-formed and
/// establishes the insertion case of `sanitize_post`.
proof fn lemma_sanitize_insert(
    pre: Registry,
    post: Registry,
    key: Seq<char>,
    suffix: Seq<char>,
    candidate: Seq<char>,
)
    requires
        pre.wf(),
        !pre.keyed(key),
        counter_valid(suffix),
        candidate == stem(key) + suffix,
        !pre.name_taken(candidate),
        post.entries@.len() == pre.entries@.len() + 1,
        post.entries@[pre.entries@.len() as int].0@ == key,
        post.entries@[pre.entries@.len() as int].1@ == suffix,
        forall|j: int| 0 <= j < pre.entries@.len() ==> #[trigger] post.entries@[j]
            == pre.entries@[j],
        post.taken@.len() == pre.taken@.len() + 1,
        forall|j: int| 0 <= j < pre.taken@.len() ==> #[trigger] post.taken@[j] == pre.taken@[j],
        post.taken@[pre.taken@.len() as int]@ == candidate,
        post.counter == pre.counter,
    ensures
        post.wf(),
{
    let n = pre.entries@.len() as int;
    let tn = pre.taken@.len() as int;
    assert forall|i: int, j: int|
        0 <= i < j < post.entries@.len() implies fold_of(#[trigger] post.entries@[i].0@)
        != fold_of(#[trigger] post.entries@[j].0@) by {
        if j == n {
            assert(!pre.keyed(key));
            assert(fold_of(pre.entries@[i].0@) != fold_of(key));
        }
    }
    assert forall|i: int, j: int|
        0 <= i < j < post.taken@.len() implies fold_of(#[trigger] post.taken@[i]@) != fold_of(
        #[trigger] post.taken@[j]@,
    ) by {
        if j == tn {
            assert(fold_of(pre.taken@[i]@) != fold_of(candidate));
        }
    }
    assert forall|i: int| 0 <= i < post.entries@.len() implies post.name_taken(
        #[trigger] post.entry_name(i),
    ) by {
        if i < n {
            assert(post.entries@[i] == pre.entries@[i]);
            assert(post.entry_name(i) == pre.entry_name(i));
            assert(pre.name_taken(pre.entry_name(i)));
            let w = choose|w: int|
                0 <= w < pre.taken@.len() && fold_of(#[trigger] pre.taken@[w]@) == fold_of(
                    pre.entry_name(i),
                );
            assert(fold_of(post.taken@[w]@) == fold_of(post.entry_name(i)));
        } else {
            assert(post.entry_name(i) == candidate);
            assert(fold_of(post.taken@[tn]@) == fold_of(post.entry_name(i)));
        }
    }
    assert forall|i: int, j: int|
        0 <= i < j < post.entries@.len() implies fold_of(#[trigger] post.entry_name(i))
        != fold_of(#[trigger] post.entry_name(j)) by {
        if j == n {
            assert(post.entries@[i] == pre.entries@[i]);
            assert(post.entry_name(i) == pre.entry_name(i));
            assert(post.entry_name(j) == candidate);
            assert(pre.name_taken(pre.entry_name(i)));
            let w = choose|w: int|
                0 <= w < pre.taken@.len() && fold_of(#[trigger] pre.taken@[w]@) == fold_of(
                    pre.entry_name(i),
                );
            assert(fold_of(pre.taken@[w]@) != fold_of(candidate));
        } else {
            assert(post.entries@[i] == pre.entries@[i]);
            assert(post.entries@[j] == pre.entries@[j]);
            assert(post.entry_name(i) == pre.entry_name(i));
            assert(post.entry_name(j) == pre.entry_name(j));
            assert(fold_of(pre.entry_name(i)) != fold_of(pre.entry_name(j)));
        }
    }
    assert forall|i: int| 0 <= i < post.entries@.len() implies counter_valid(
        #[trigger] post.entries@[i].1@,
    ) by {
        if i < n {
            assert(post.entries@[i] == pre.entries@[i]);
        }
    }
    assert(forall|i: int, j: int|
        0 <= i < j < post.entries@.len() ==> fold_of(#[trigger] post.entries@[i].0@) != fold_of(
            #[trigger] post.entries@[j].0@,
        ));
    assert(forall|i: int, j: int|
        0 <= i < j < post.taken@.len() ==> fold_of(#[trigger] post.taken@[i]@) != fold_of(
            #[trigger] post.taken@[j]@,
        ));
    assert(forall|i: int|
        0 <= i < post.entries@.len() ==> post.name_taken(#[trigger] post.entry_name(i)));
    assert(forall|i: int, j: int|
        0 <= i < j < post.entries@.len() ==> fold_of(#[trigger] post.entry_name(i)) != fold_of(
            #[trigger] post.entry_name(j),
        ));
    assert(counter_valid(post.counter@));
}

/// Leaving entries and taken names unchanged keeps the registry
/// well-formed under a new counter.
proof fn lemma_gen_wf(pre: Registry, post: Registry)
    requires
        pre.wf(),
        post.entries == pre.entries,
        post.taken == pre.taken,
        counter_valid(post.counter@),
    ensures
        post.wf(),
{
    assert forall|i: int| 0 <= i < post.entries@.len() implies post.name_taken(
        #[trigger] post.entry_name(i),
    ) by {
        assert(post.entry_name(i) == pre.entry_name(i));
        assert(pre.name_taken(pre.entry_name(i)));
    }
    assert forall|i: int, j: int|
        0 <= i < j < post.entries@.len() implies fold_of(#[trigger] post.entry_name(i))
        != fold_of(#[trigger] post.entry_name(j)) by {
        assert(post.entry_name(i) == pre.entry_name(i));
        assert(post.entry_name(j) == pre.entry_name(j));
        assert(fold_of(pre.entry_name(i)) != fold_of(pre.entry_name(j)));
    }
}

} // verus!
