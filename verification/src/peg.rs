//! Parsing state for the PEG runtime: a cursor over a character sequence and
//! a flat capture buffer that stores one pre-order record per committed
//! capture. Matchers either consume a prefix and succeed, or leave the state
//! unchanged and fail; `save`/`restore` give combinators atomic backtracking.

use vstd::prelude::*;

verus! {

/// One record of the capture buffer. `subtree_len` is `0` while the capture
/// is pending and is set to the size of its subtree (itself included) when
/// the capture commits.
pub struct RawCapture<T> {
    pub kind: T,
    pub start: usize,
    pub end: usize,
    pub subtree_len: usize,
}

/// Cursor over the input characters plus the capture buffer.
pub struct ParseState<T> {
    pub input: Vec<char>,
    pub offset: usize,
    pub captures: Vec<RawCapture<T>>,
}

/// A snapshot of the mutable parts of a `ParseState`.
pub struct Savepoint {
    pub offset: usize,
    pub captures_len: usize,
}

/// Case-fold one character to ASCII lowercase, as a code point.
pub open spec fn fold_lower(c: char) -> int {
    if 65 <= c as u32 && c as u32 <= 90 {
        c as u32 + 32
    } else {
        c as u32 as int
    }
}

/// Case-fold one character to ASCII uppercase, as a code point.
pub open spec fn fold_upper(c: char) -> int {
    if 97 <= c as u32 && c as u32 <= 122 {
        c as u32 - 32
    } else {
        c as u32 as int
    }
}

/// Two characters are equal up to ASCII case.
pub open spec fn eq_icase(a: char, b: char) -> bool {
    fold_lower(a) == fold_lower(b)
}

/// The literal `s` matches `input` exactly at offset `off`.
pub open spec fn literal_at(input: Seq<char>, off: int, s: Seq<char>) -> bool {
    &&& off + s.len() <= input.len()
    &&& forall|i: int| 0 <= i < s.len() ==> input[off + i] == s[i]
}

/// The literal `s` matches `input` at offset `off` up to ASCII case.
pub open spec fn literal_at_icase(input: Seq<char>, off: int, s: Seq<char>) -> bool {
    &&& off + s.len() <= input.len()
    &&& forall|i: int| 0 <= i < s.len() ==> eq_icase(input[off + i], s[i])
}

/// The character `c` lies in the inclusive range `lo..=hi`.
pub open spec fn in_range(lo: char, hi: char, c: char) -> bool {
    lo as u32 <= c as u32 && c as u32 <= hi as u32
}

/// Either ASCII case of `c` lies in the inclusive range `lo..=hi`.
pub open spec fn in_range_icase(lo: char, hi: char, c: char) -> bool {
    ||| lo as u32 <= fold_lower(c) && fold_lower(c) <= hi as u32
    ||| lo as u32 <= fold_upper(c) && fold_upper(c) <= hi as u32
}

impl<T> ParseState<T> {
    /// The cursor never runs past the end of the input.
    pub open spec fn wf(self) -> bool {
        self.offset <= self.input@.len()
    }
}

impl<T: Copy> ParseState<T> {
    pub fn new(input: Vec<char>) -> (p: Self)
        ensures
            p.input == input,
            p.offset == 0,
            p.captures@ =~= Seq::<RawCapture<T>>::empty(),
            p.wf(),
    {
        ParseState { input, offset: 0, captures: Vec::new() }
    }

    pub fn save(&self) -> (sp: Savepoint)
        ensures
            sp.offset == self.offset,
            sp.captures_len == self.captures@.len(),
    {
        Savepoint { offset: self.offset, captures_len: self.captures.len() }
    }

    pub fn restore(&mut self, sp: Savepoint)
        requires
            sp.offset <= old(self).input@.len(),
            sp.captures_len <= old(self).captures@.len(),
        ensures
            final(self).input == old(self).input,
            final(self).offset == sp.offset,
            final(self).captures@ == old(self).captures@.subrange(0, sp.captures_len as int),
            final(self).wf(),
    {
        self.offset = sp.offset;
        self.captures.truncate(sp.captures_len);
    }

    pub fn eoi(&self) -> (b: bool)
        ensures
            b == (self.offset >= self.input@.len()),
    {
        self.offset >= self.input.len()
    }

    pub fn any(&mut self) -> (b: bool)
        requires
            old(self).wf(),
        ensures
            final(self).input == old(self).input,
            final(self).captures == old(self).captures,
            final(self).wf(),
            b == (old(self).offset < old(self).input@.len()),
            b ==> final(self).offset == old(self).offset + 1,
            !b ==> final(self).offset == old(self).offset,
    {
        if self.offset < self.input.len() {
            self.offset = self.offset + 1;
            true
        } else {
            false
        }
    }

    pub fn literal(&mut self, s: &Vec<char>) -> (b: bool)
        requires
            old(self).wf(),
        ensures
            final(self).input == old(self).input,
            final(self).captures == old(self).captures,
            final(self).wf(),
            b == literal_at(old(self).input@, old(self).offset as int, s@),
            b ==> final(self).offset == old(self).offset + s@.len(),
            !b ==> final(self).offset == old(self).offset,
    {
        let n = self.input.len();
        if s.len() > n - self.offset {
            return false;
        }
        let mut i: usize = 0;
        while i < s.len()
            invariant
                i <= s@.len(),
                n == self.input@.len(),
                self.offset + s@.len() <= n,
                forall|j: int| 0 <= j < i ==> self.input@[self.offset + j] == s@[j],
            decreases s@.len() - i,
        {
            if self.input[self.offset + i] != s[i] {
                return false;
            }
            i = i + 1;
        }
        self.offset = self.offset + s.len();
        true
    }

    pub fn literal_i(&mut self, s: &Vec<char>) -> (b: bool)
        requires
            old(self).wf(),
        ensures
            final(self).input == old(self).input,
            final(self).captures == old(self).captures,
            final(self).wf(),
            b == literal_at_icase(old(self).input@, old(self).offset as int, s@),
            b ==> final(self).offset == old(self).offset + s@.len(),
            !b ==> final(self).offset == old(self).offset,
    {
        let n = self.input.len();
        if s.len() > n - self.offset {
            return false;
        }
        let mut i: usize = 0;
        while i < s.len()
            invariant
                i <= s@.len(),
                n == self.input@.len(),
                self.offset + s@.len() <= n,
                forall|j: int| 0 <= j < i ==> eq_icase(self.input@[self.offset + j], s@[j]),
            decreases s@.len() - i,
        {
            let au = self.input[self.offset + i] as u32;
            let bu = s[i] as u32;
            let fa: u32 = if 65 <= au && au <= 90 { au + 32 } else { au };
            let fb: u32 = if 65 <= bu && bu <= 90 { bu + 32 } else { bu };
            if fa != fb {
                return false;
            }
            i = i + 1;
        }
        self.offset = self.offset + s.len();
        true
    }

    pub fn range(&mut self, lo: char, hi: char) -> (b: bool)
        requires
            old(self).wf(),
        ensures
            final(self).input == old(self).input,
            final(self).captures == old(self).captures,
            final(self).wf(),
            b == (old(self).offset < old(self).input@.len() && in_range(
                lo,
                hi,
                old(self).input@[old(self).offset as int],
            )),
            b ==> final(self).offset == old(self).offset + 1,
            !b ==> final(self).offset == old(self).offset,
    {
        if self.offset < self.input.len() {
            let c = self.input[self.offset];
            if lo as u32 <= c as u32 && c as u32 <= hi as u32 {
                self.offset = self.offset + 1;
                return true;
            }
        }
        false
    }

    pub fn range_i(&mut self, lo: char, hi: char) -> (b: bool)
        requires
            old(self).wf(),
        ensures
            final(self).input == old(self).input,
            final(self).captures == old(self).captures,
            final(self).wf(),
            b == (old(self).offset < old(self).input@.len() && in_range_icase(
                lo,
                hi,
                old(self).input@[old(self).offset as int],
            )),
            b ==> final(self).offset == old(self).offset + 1,
            !b ==> final(self).offset == old(self).offset,
    {
        if self.offset < self.input.len() {
            let cu = self.input[self.offset] as u32;
            let fl: u32 = if 65 <= cu && cu <= 90 { cu + 32 } else { cu };
            let fu: u32 = if 97 <= cu && cu <= 122 { cu - 32 } else { cu };
            if (lo as u32 <= fl && fl <= hi as u32) || (lo as u32 <= fu && fu <= hi as u32) {
                self.offset = self.offset + 1;
                return true;
            }
        }
        false
    }

    /// Push a pending capture frame and remember where it lives.
    pub fn begin_capture(&mut self, tag: T) -> (sp: Savepoint)
        ensures
            final(self).input == old(self).input,
            final(self).offset == old(self).offset,
            final(self).captures@ == old(self).captures@.push(
                RawCapture { kind: tag, start: 0, end: 0, subtree_len: 0 },
            ),
            sp.offset == old(self).offset,
            sp.captures_len == old(self).captures@.len(),
    {
        let sp = self.save();
        self.captures.push(RawCapture { kind: tag, start: 0, end: 0, subtree_len: 0 });
        sp
    }

    /// Commit the pending capture frame at `sp`: its span runs from the
    /// offset remembered in `sp` to the current offset, and its subtree
    /// covers every record pushed since. The record at `sp` must still be
    /// pending: committing never overwrites a committed record.
    pub fn commit_capture(&mut self, sp: Savepoint)
        requires
            sp.captures_len < old(self).captures@.len(),
            old(self).captures@[sp.captures_len as int].subtree_len == 0,
        ensures
            final(self).input == old(self).input,
            final(self).offset == old(self).offset,
            final(self).captures@ == old(self).captures@.update(
                sp.captures_len as int,
                RawCapture {
                    kind: old(self).captures@[sp.captures_len as int].kind,
                    start: sp.offset,
                    end: old(self).offset,
                    subtree_len: (old(self).captures@.len() - sp.captures_len) as usize,
                },
            ),
    {
        let index = sp.captures_len;
        let kind = self.captures[index].kind;
        let subtree_len = self.captures.len() - index;
        self.captures.set(
            index,
            RawCapture { kind, start: sp.offset, end: self.offset, subtree_len },
        );
    }
}

} // verus!
