//! Diagnostic context: a scope carrying the file, board, stat and byte
//! span a message should point at, together with the messages collected so
//! far. Child scopes refine the location; their messages are merged back
//! into the parent with `absorb`.

use vstd::prelude::*;

use crate::registry::copy_chars;
use crate::text::chars_of;

verus! {

/// The severity of a message.
#[derive(Clone, Copy, PartialEq, Eq, Structural, Debug)]
pub enum Level {
    Error,
    Warning,
}

/// Where a message points: the most specific values that were set along
/// the scope chain when it was recorded.
pub struct Location {
    pub file_path: Option<Vec<char>>,
    pub board: Option<usize>,
    pub stat: Option<usize>,
    pub span: Option<(usize, usize)>,
}

/// One collected diagnostic.
pub struct CompileMessage {
    pub level: Level,
    pub message: Vec<char>,
    pub location: Location,
}

/// A diagnostic scope plus the messages recorded under it.
pub struct Context {
    pub location: Location,
    pub messages: Vec<CompileMessage>,
}

/// The mathematical value of a location.
pub struct LocView {
    pub file_path: Option<Seq<char>>,
    pub board: Option<usize>,
    pub stat: Option<usize>,
    pub span: Option<(usize, usize)>,
}

/// The mathematical value of a message.
pub struct MsgView {
    pub level: Level,
    pub message: Seq<char>,
    pub location: LocView,
}

pub open spec fn loc_of(l: Location) -> LocView {
    LocView {
        file_path: match l.file_path {
            Some(f) => Some(f@),
            None => None,
        },
        board: l.board,
        stat: l.stat,
        span: l.span,
    }
}

pub open spec fn msg_of(m: CompileMessage) -> MsgView {
    MsgView { level: m.level, message: m.message@, location: loc_of(m.location) }
}

pub open spec fn msgs_of(v: Seq<CompileMessage>) -> Seq<MsgView> {
    v.map_values(|m: CompileMessage| msg_of(m))
}

/// Copy a location value.
fn copy_location(l: &Location) -> (r: Location)
    ensures
        loc_of(r) == loc_of(*l),
{
    let file_path = match &l.file_path {
        Some(f) => Some(copy_chars(f)),
        None => None,
    };
    Location { file_path, board: l.board, stat: l.stat, span: l.span }
}

impl Context {
    /// A fresh root scope with no location and no messages.
    pub fn new() -> (c: Context)
        ensures
            loc_of(c.location) == (LocView {
                file_path: None::<Seq<char>>,
                board: None::<usize>,
                stat: None::<usize>,
                span: None::<(usize, usize)>,
            }),
            msgs_of(c.messages@) =~= Seq::<MsgView>::empty(),
    {
        Context {
            location: Location { file_path: None, board: None, stat: None, span: None },
            messages: Vec::new(),
        }
    }

    /// A child scope pointing into the given file; messages recorded on it
    /// are merged back with `absorb`.
    pub fn with_file_path(&self, p: &Vec<char>) -> (c: Context)
        ensures
            loc_of(c.location) == (LocView { file_path: Some(p@), ..loc_of(self.location) }),
            msgs_of(c.messages@) =~= Seq::<MsgView>::empty(),
    {
        let mut location = copy_location(&self.location);
        location.file_path = Some(copy_chars(p));
        Context { location, messages: Vec::new() }
    }

    /// A child scope pointing at one board.
    pub fn with_board(&self, i: usize) -> (c: Context)
        ensures
            loc_of(c.location) == (LocView { board: Some(i), ..loc_of(self.location) }),
            msgs_of(c.messages@) =~= Seq::<MsgView>::empty(),
    {
        let mut location = copy_location(&self.location);
        location.board = Some(i);
        Context { location, messages: Vec::new() }
    }

    /// A child scope pointing at one stat.
    pub fn with_stat(&self, i: usize) -> (c: Context)
        ensures
            loc_of(c.location) == (LocView { stat: Some(i), ..loc_of(self.location) }),
            msgs_of(c.messages@) =~= Seq::<MsgView>::empty(),
    {
        let mut location = copy_location(&self.location);
        location.stat = Some(i);
        Context { location, messages: Vec::new() }
    }

    /// A child scope pointing at a character span of the stat's script.
    pub fn with_span(&self, start: usize, end: usize) -> (c: Context)
        ensures
            loc_of(c.location) == (LocView {
                span: Some((start, end)),
                ..loc_of(self.location)
            }),
            msgs_of(c.messages@) =~= Seq::<MsgView>::empty(),
    {
        let mut location = copy_location(&self.location);
        location.span = Some((start, end));
        Context { location, messages: Vec::new() }
    }

    /// Record an error at this scope's location.
    pub fn error(&mut self, message: &str)
        ensures
            loc_of(final(self).location) == loc_of(old(self).location),
            msgs_of(final(self).messages@) =~= msgs_of(old(self).messages@).push(
                MsgView {
                    level: Level::Error,
                    message: message@,
                    location: loc_of(old(self).location),
                },
            ),
    {
        let location = copy_location(&self.location);
        self.messages.push(
            CompileMessage { level: Level::Error, message: chars_of(message), location },
        );
    }

    /// Record a warning at this scope's location.
    pub fn warning(&mut self, message: &str)
        ensures
            loc_of(final(self).location) == loc_of(old(self).location),
            msgs_of(final(self).messages@) =~= msgs_of(old(self).messages@).push(
                MsgView {
                    level: Level::Warning,
                    message: message@,
                    location: loc_of(old(self).location),
                },
            ),
    {
        let location = copy_location(&self.location);
        self.messages.push(
            CompileMessage { level: Level::Warning, message: chars_of(message), location },
        );
    }

    /// Merge a child scope's messages into this scope.
    #[verifier::loop_isolation(false)]
    pub fn absorb(&mut self, child: Context)
        ensures
            loc_of(final(self).location) == loc_of(old(self).location),
            msgs_of(final(self).messages@) =~= msgs_of(old(self).messages@) + msgs_of(
                child.messages@,
            ),
    {
        let mut rest = child.messages;
        let ghost child_msgs = rest@;
        let ghost old_len = old(self).messages@.len();
        let total = rest.len();
        let mut taken_count: usize = 0;
        while taken_count < total
            invariant
                taken_count <= total,
                total == child_msgs.len(),
                rest@ =~= child_msgs.subrange(taken_count as int, child_msgs.len() as int),
                self.location == old(self).location,
                self.messages@.len() == old_len + taken_count,
                forall|j: int| 0 <= j < old_len ==> self.messages@[j] == old(self).messages@[j],
                forall|j: int|
                    0 <= j < taken_count ==> self.messages@[old_len + j] == child_msgs[j],
            decreases total - taken_count,
        {
            let m = rest.remove(0);
            proof {
                assert(m == child_msgs[taken_count as int]);
            }
            self.messages.push(m);
            taken_count = taken_count + 1;
            proof {
                assert(rest@ =~= child_msgs.subrange(taken_count as int, child_msgs.len() as int));
            }
        }
        proof {
            assert(msgs_of(self.messages@) =~= msgs_of(old(self).messages@) + msgs_of(
                child_msgs,
            ));
        }
    }

    /// The messages collected so far.
    pub fn into_messages(self) -> (r: Vec<CompileMessage>)
        ensures
            r == self.messages,
    {
        self.messages
    }

    /// Whether any recorded message is an error.
    pub fn any_errors(&self) -> (r: bool)
        ensures
            r == exists|i: int|
                0 <= i < self.messages@.len() && (#[trigger] self.messages@[i]).level
                    == Level::Error,
    {
        let mut i: usize = 0;
        while i < self.messages.len()
            invariant
                i <= self.messages@.len(),
                forall|j: int| 0 <= j < i ==> (#[trigger] self.messages@[j]).level != Level::Error,
            decreases self.messages@.len() - i,
        {
            let is_err = match self.messages[i].level {
                Level::Error => true,
                Level::Warning => false,
            };
            if is_err {
                return true;
            }
            i = i + 1;
        }
        false
    }
}

} // verus!

// Rich, human-readable formatting of one message against the world it
// points into.

verus! {

/// Append a decimal number.
fn push_num(out: &mut Vec<char>, n: usize)
    ensures
        final(out)@ == old(out)@ + crate::resolve::dec_digits(n as int),
{
    let digits = crate::resolve::dec_chars(n);
    crate::text::extend_chars(out, &digits);
}

/// Append a string literal.
fn push_lit(out: &mut Vec<char>, s: &str)
    ensures
        final(out)@ == old(out)@ + s@,
{
    let lit = chars_of(s);
    crate::text::extend_chars(out, &lit);
}

/// Append `n` copies of `c`.
fn push_rep(out: &mut Vec<char>, c: char, n: usize)
    requires
        n < 100_000,
    ensures
        final(out)@ == old(out)@ + crate::registry::repc(c, n as nat),
{
    let mut i: usize = 0;
    while i < n
        invariant
            i <= n,
            out@ == old(out)@ + crate::registry::repc(c, i as nat),
        decreases n - i,
    {
        out.push(c);
        i = i + 1;
        proof {
            assert(out@ =~= old(out)@ + crate::registry::repc(c, i as nat));
        }
    }
}

/// A prefix of a sequence is a prefix of any extension that keeps the
/// sequence's characters in place.
proof fn lemma_prefix_step(h: Seq<char>, a: Seq<char>, b: Seq<char>)
    requires
        h.is_prefix_of(a),
        a.len() <= b.len(),
        forall|k: int| 0 <= k < a.len() ==> b[k] == a[k],
    ensures
        h.is_prefix_of(b),
{
    assert(h =~= b.subrange(0, h.len() as int));
}

/// How many line breaks come before offset `i` of the script: the number
/// of the line that holds offset `i`, counting from zero.
pub open spec fn line_of(code: Seq<char>, i: int) -> int
    decreases (if i > 0 { i } else { 0 }),
{
    if i <= 0 {
        0
    } else {
        line_of(code, i - 1) + (if code[i - 1] == '\n' {
            1int
        } else {
            0int
        })
    }
}

/// Where the line that holds offset `i` starts: just after the nearest
/// line break before it.
pub open spec fn line_start_of(code: Seq<char>, i: int) -> int
    decreases (if i > 0 { i } else { 0 }),
{
    if i <= 0 {
        0
    } else if code[i - 1] == '\n' {
        i
    } else {
        line_start_of(code, i - 1)
    }
}

/// The column the formatter shows for a span start: one-based on its
/// line, clamped for absurdly long lines.
pub open spec fn col_of(code: Seq<char>, i: int) -> int {
    if i - line_start_of(code, i) < 100_000 {
        i - line_start_of(code, i) + 1
    } else {
        1
    }
}

/// The `line N:col` breadcrumb tail the excerpt opens with, for a span
/// starting at `ss` (clamped to the script's end).
pub open spec fn line_col_text(code: Seq<char>, ss: int, first: bool) -> Seq<char> {
    let sp = if ss < code.len() {
        ss
    } else {
        code.len() as int
    };
    (if first {
        Seq::<char>::empty()
    } else {
        (" -> ")@
    }) + ("line ")@ + crate::resolve::dec_digits(line_of(code, sp) + 1) + seq![':']
        + crate::resolve::dec_digits(col_of(code, sp))
}

/// The first words of a formatted message: its level.
pub open spec fn level_prefix(l: Level) -> Seq<char> {
    match l {
        Level::Error => ("error: ")@,
        Level::Warning => ("warning: ")@,
    }
}

/// The whole first line of a formatted message, with the `=>` opening of
/// the breadcrumb line after it.
pub open spec fn message_header(m: CompileMessage) -> Seq<char> {
    level_prefix(m.level) + m.message@ + ("\n => ")@
}

impl CompileMessage {
    /// Format the message with a breadcrumb trail and, when a span is
    /// set, an excerpt of the script with the span underlined: up to
    /// three lines before and after, numbered gutters, and padding lines
    /// above and below. The text always opens with `level: message`,
    /// then the breadcrumb line.
    #[verifier::loop_isolation(false)]
    #[verifier::rlimit(100)]
    pub fn rich_format(&self, world: &crate::world::World) -> (r: String)
        ensures
            r@.len() >= message_header(*self).len(),
            r@.subrange(0, message_header(*self).len() as int) == message_header(*self),
    {
        let mut out: Vec<char> = Vec::new();
        match self.level {
            Level::Error => push_lit(&mut out, "error: "),
            Level::Warning => push_lit(&mut out, "warning: "),
        }
        crate::text::extend_chars(&mut out, &self.message);
        // breadcrumbs: file -> board -> stat (x,y) -> line:col
        out.push('\n');
        push_lit(&mut out, " => ");
        let ghost hdr = out@;
        proof {
            reveal_strlit("\n => ");
            reveal_strlit(" => ");
            assert(hdr =~= message_header(*self));
        }
        let mut first = true;
        match &self.location.file_path {
            Some(p) => {
                crate::text::extend_chars(&mut out, p);
                first = false;
            },
            None => {},
        }
        let board: Option<&crate::world::Board> = match self.location.board {
            Some(bi) => {
                if bi < world.boards.len() {
                    Some(&world.boards[bi])
                } else {
                    None
                }
            },
            None => None,
        };
        match board {
            Some(b) => {
                if !first {
                    push_lit(&mut out, " -> ");
                }
                crate::text::extend_chars(&mut out, &b.name);
                first = false;
            },
            None => {},
        }
        let stat: Option<&crate::world::Stat> = match (board, self.location.stat) {
            (Some(b), Some(si)) => {
                if si < b.stats.len() {
                    Some(&b.stats[si])
                } else {
                    None
                }
            },
            _ => None,
        };
        match stat {
            Some(st) => {
                if !first {
                    push_lit(&mut out, " -> ");
                }
                // the stat's display name is its first line when that
                // line starts with `@`, else just "stat"
                let mut named = false;
                if st.code.len() > 0 {
                    if st.code[0] == '@' {
                        named = true;
                    }
                }
                if named {
                    let mut i: usize = 0;
                    while i < st.code.len() && st.code[i] != '\n'
                        invariant
                            i <= st.code@.len(),
                            hdr.is_prefix_of(out@),
                        decreases st.code@.len() - i,
                    {
                        out.push(st.code[i]);
                        i = i + 1;
                    }
                } else {
                    push_lit(&mut out, "stat");
                }
                push_lit(&mut out, " (");
                push_num(&mut out, st.x as usize);
                out.push(',');
                push_num(&mut out, st.y as usize);
                out.push(')');
                first = false;
            },
            None => {},
        }
        match (stat, self.location.span) {
            (Some(st), Some((ss, se))) => {
                push_excerpt(&mut out, &st.code, ss, se, first);
                proof {
                    assert(hdr =~= out@.subrange(0, hdr.len() as int));
                }
            },
            _ => {},
        }
        proof {
            assert(hdr.is_prefix_of(out@));
            assert(out@.subrange(0, hdr.len() as int) == hdr);
        }
        crate::text::string_from_chars(&out)
    }
}

/// Append the `line N:col` breadcrumb tail and the numbered excerpt: up
/// to three lines before and after the span's line, gutters, the span
/// underlined, and padding lines above and below.
#[verifier::loop_isolation(false)]
#[verifier::rlimit(100)]
/// Some line of the table holds offset `j`.
spec fn covered(t: Seq<(usize, usize)>, j: int) -> bool {
    exists|k: int| 0 <= k < t.len() && (#[trigger] t[k]).0 <= j <= t[k].1
}

#[verifier::rlimit(100)]
fn push_excerpt(out: &mut Vec<char>, code: &Vec<char>, ss: usize, se: usize, first: bool)
    ensures
        old(out)@.is_prefix_of(final(out)@),
        final(out)@.len() >= old(out)@.len() + line_col_text(code@, ss as int, first).len(),
        final(out)@.subrange(
            old(out)@.len() as int,
            old(out)@.len() + line_col_text(code@, ss as int, first).len() as int,
        ) == line_col_text(code@, ss as int, first),
{
    let ghost hdr = out@;
    let ghost mut hdr2 = out@;
    {
        {
            {
                // split the script into numbered lines
                let n = code.len();
                let mut line_table: Vec<(usize, usize)> = Vec::new();
                let mut start_i: usize = 0;
                let mut i: usize = 0;
                while i < n
                    invariant
                        start_i <= i <= n,
                        n == code@.len(),
                        hdr.is_prefix_of(out@),
                        line_table@.len() == line_of(code@, i as int),
                        start_i as int == line_start_of(code@, i as int),
                        forall|k: int|
                            0 <= k < line_table@.len() ==> (#[trigger] line_table@[k]).0
                                <= line_table@[k].1 <= n,
                        forall|k: int, j: int|
                            0 <= k < line_table@.len() && line_table@[k].0 <= j
                                <= line_table@[k].1 ==> #[trigger] line_of(code@, j) == k
                                && line_start_of(code@, j) == (#[trigger] line_table@[k]).0,
                        forall|j: int|
                            start_i <= j <= i ==> #[trigger] line_of(code@, j)
                                == line_table@.len() && line_start_of(code@, j) == start_i,
                        forall|j: int| 0 <= j < start_i ==> #[trigger] covered(line_table@, j),
                    decreases n - i,
                {
                    let ghost t_pre = line_table@;
                    let ghost s_pre = start_i;
                    if code[i] == '\n' {
                        line_table.push((start_i, i));
                        start_i = i + 1;
                    }
                    i = i + 1;
                    proof {
                        assert forall|j: int| 0 <= j < start_i implies #[trigger] covered(
                            line_table@,
                            j,
                        ) by {
                            if j < s_pre {
                                assert(covered(t_pre, j));
                                let k = choose|k: int|
                                    0 <= k < t_pre.len() && (#[trigger] t_pre[k]).0 <= j
                                        <= t_pre[k].1;
                                assert((line_table@[k]).0 <= j <= line_table@[k].1);
                            } else {
                                let ghost last = line_table@.len() - 1;
                                assert((line_table@[last]).0 <= j <= line_table@[last].1);
                            }
                        }
                    }
                }
                let ghost t_pre2 = line_table@;
                let ghost s_pre2 = start_i;
                line_table.push((start_i, n));
                proof {
                    assert forall|j: int| 0 <= j <= n implies #[trigger] covered(
                        line_table@,
                        j,
                    ) by {
                        if j < s_pre2 {
                            assert(covered(t_pre2, j));
                            let k = choose|k: int|
                                0 <= k < t_pre2.len() && (#[trigger] t_pre2[k]).0 <= j
                                    <= t_pre2[k].1;
                            assert((line_table@[k]).0 <= j <= line_table@[k].1);
                        } else {
                            let ghost last = line_table@.len() - 1;
                            assert((line_table@[last]).0 <= j <= line_table@[last].1);
                        }
                    }
                }
                // the line holding the span's start, and the column there
                let span_start = if ss < n {
                    ss
                } else {
                    n
                };
                let mut target: usize = 0;
                let mut li: usize = 0;
                let mut matched = false;
                while li < line_table.len()
                    invariant
                        li <= line_table@.len(),
                        target < line_table@.len() || line_table@.len() == 0,
                        hdr.is_prefix_of(out@),
                        forall|k: int|
                            0 <= k < line_table@.len() ==> (#[trigger] line_table@[k]).0
                                <= line_table@[k].1 <= n,
                        matched ==> target < line_table@.len()
                            && line_table@[target as int].0 <= span_start <= line_table@[
                            target as int].1,
                        !matched ==> forall|k: int|
                            0 <= k < li ==> !((#[trigger] line_table@[k]).0 <= span_start
                                <= line_table@[k].1),
                    decreases line_table@.len() - li,
                {
                    if line_table[li].0 <= span_start && (span_start <= line_table[li].1) {
                        target = li;
                        matched = true;
                    }
                    li = li + 1;
                }
                proof {
                    if !matched {
                        assert(covered(line_table@, span_start as int));
                        let w = choose|k: int|
                            0 <= k < line_table@.len() && (#[trigger] line_table@[k]).0
                                <= span_start <= line_table@[k].1;
                        assert(false);
                    }
                    assert(line_of(code@, span_start as int) == target as int);
                    assert(line_start_of(code@, span_start as int) == line_table@[
                        target as int].0);
                }
                let (tls, _tle) = line_table[target];
                let col = if tls <= span_start && span_start - tls < 100_000 {
                    span_start - tls + 1
                } else {
                    1
                };
                proof {
                    assert(col as int == col_of(code@, span_start as int));
                }
                if !first {
                    push_lit(out, " -> ");
                }
                proof {
                    assert(hdr.is_prefix_of(out@));
                }
                push_lit(out, "line ");
                proof {
                    assert(hdr.is_prefix_of(out@));
                }
                push_num(out, target + 1);
                proof {
                    assert(hdr.is_prefix_of(out@));
                }
                (*out).push(':');
                proof {
                    assert(hdr.is_prefix_of(out@));
                }
                push_num(out, col);
                proof {
                    hdr2 = out@;
                    reveal_strlit(" -> ");
                    reveal_strlit("line ");
                    assert(hdr2 =~= hdr + line_col_text(code@, ss as int, first));
                    assert(hdr.is_prefix_of(out@));
                }
                // the excerpt: up to three lines before and after the
                // span's line, numbered gutters, the span underlined,
                // padding lines above and below
                let from = if target > 3 {
                    target - 3
                } else {
                    0
                };
                let lt_len = line_table.len();
                let upto = if target < lt_len && lt_len - 1 - target > 3 {
                    target + 3
                } else {
                    lt_len - 1
                };
                let width = crate::resolve::dec_chars(upto + 1).len();
                (*out).push('\n');
                (*out).push(' ');
                proof {
                    assert(hdr2.is_prefix_of(out@));
                }
                if width < 1_000 {
                    let ghost before_pad = out@;
                    push_rep(out, ' ', width);
                    proof {
                        assert(hdr2 =~= out@.subrange(0, hdr2.len() as int)) by {
                            assert(before_pad.is_prefix_of(out@));
                        }
                    }
                }
                push_lit(out, " |");
                proof {
                    assert(hdr2 =~= out@.subrange(0, hdr2.len() as int));
                }
                let mut ln = from;
                let mut wrote_caret = false;
                while ln <= upto && ln < line_table.len()
                    invariant
                        from <= ln,
                        n == code@.len(),
                        hdr2.is_prefix_of(out@),
                        forall|k: int|
                            0 <= k < line_table@.len() ==> (#[trigger] line_table@[k]).0
                                <= line_table@[k].1 <= n,
                    decreases line_table@.len() - ln,
                {
                    let ghost row0 = out@;
                    let digits = crate::resolve::dec_chars(ln + 1);
                    (*out).push('\n');
                    (*out).push(' ');
                    if digits.len() <= width && width < 1_000 {
                        push_rep(out, ' ', width - digits.len());
                    }
                    crate::text::extend_chars(out, &digits);
                    push_lit(out, " | ");
                    proof {
                        lemma_prefix_step(hdr2, row0, out@);
                    }
                    let (lstart, lend) = line_table[ln];
                    let mut j: usize = lstart;
                    while j < lend
                        invariant
                            lstart <= j <= lend <= n,
                            n == code@.len(),
                            hdr2.is_prefix_of(out@),
                        decreases lend - j,
                    {
                        (*out).push(code[j]);
                        j = j + 1;
                    }
                    if ln == target {
                        // the caret underline of the span on its line
                        let ghost row1 = out@;
                        (*out).push('\n');
                        (*out).push(' ');
                        if width < 1_000 {
                            push_rep(out, ' ', width);
                        }
                        push_lit(out, " | ");
                        if col >= 1 && col < 50_000 {
                            push_rep(out, ' ', col - 1);
                        }
                        let span_len = if se > ss {
                            se - ss
                        } else {
                            1
                        };
                        if span_len < 50_000 {
                            push_rep(out, '^', span_len);
                        } else {
                            (*out).push('^');
                        }
                        proof {
                            lemma_prefix_step(hdr2, row1, out@);
                        }
                        wrote_caret = ln == upto;
                    }
                    ln = ln + 1;
                }
                if !wrote_caret {
                    let ghost rowf = out@;
                    (*out).push('\n');
                    (*out).push(' ');
                    if width < 1_000 {
                        push_rep(out, ' ', width);
                    }
                    push_lit(out, " |");
                    proof {
                        lemma_prefix_step(hdr2, rowf, out@);
                    }
                }
            }
        }
    }
    proof {
        assert(hdr2.is_prefix_of(out@));
        assert(hdr.is_prefix_of(out@));
        assert(hdr2 =~= out@.subrange(0, hdr2.len() as int));
        assert(hdr2.len() == hdr.len() + line_col_text(code@, ss as int, first).len());
        assert forall|m: int|
            0 <= m < line_col_text(code@, ss as int, first).len() implies out@.subrange(
            hdr.len() as int,
            hdr2.len() as int,
        )[m] == line_col_text(code@, ss as int, first)[m] by {
            assert(out@[hdr.len() + m] == hdr2[hdr.len() + m]);
            assert(hdr2[hdr.len() + m] == line_col_text(code@, ss as int, first)[m]);
        }
        assert(out@.subrange(hdr.len() as int, hdr2.len() as int) =~= line_col_text(
            code@,
            ss as int,
            first,
        ));
    }
}

} // verus!
