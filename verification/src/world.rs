//! The game's world container: a header, then boards, each with a name, a
//! run-length-encoded 60-by-25 terrain grid and a list of stats. Only the
//! stats' scripts are ever rewritten. The binary reader and writer below
//! work on plain byte vectors.

use vstd::prelude::*;

verus! {

/// Reading a world from bytes failed; the message says where.
#[derive(Debug)]
pub struct LoadError {
    pub message: Vec<char>,
}

/// A whole world file: the header fields and the boards.
pub struct World {
    pub ammo: i16,
    pub gems: i16,
    pub keys: Vec<bool>,
    pub health: i16,
    pub starting_board: i16,
    pub torches: i16,
    pub torch_cycles: i16,
    pub energizer_cycles: i16,
    pub score: i16,
    pub world_name: Vec<u8>,
    pub flags: Vec<Vec<u8>>,
    pub time: i16,
    pub time_ticks: i16,
    pub locked: bool,
    pub boards: Vec<Board>,
}

/// One board: name, terrain tiles in row order, info bytes and stats.
pub struct Board {
    pub name: Vec<char>,
    pub terrain: Vec<(u8, u8)>,
    pub max_shots: u8,
    pub is_dark: bool,
    pub board_n: u8,
    pub board_s: u8,
    pub board_w: u8,
    pub board_e: u8,
    pub reenter_when_zapped: bool,
    pub message: Vec<u8>,
    pub enter_x: u8,
    pub enter_y: u8,
    pub time_limit: i16,
    pub stats: Vec<Stat>,
}

/// One stat: an active entity with a position and, possibly, a script.
pub struct Stat {
    pub x: u8,
    pub y: u8,
    pub x_step: i16,
    pub y_step: i16,
    pub cycle: i16,
    pub p1: u8,
    pub p2: u8,
    pub p3: u8,
    pub follower: i16,
    pub leader: i16,
    pub under_element: u8,
    pub under_color: u8,
    pub instruction_pointer: i16,
    pub bind_index: i16,
    pub code: Vec<char>,
}

} // verus!

// Reading and writing the binary container.

verus! {

/// The low byte of a 16-bit little-endian value.
pub open spec fn le_lo(v: i16) -> u8 {
    (v as u16 & 0xff) as u8
}

/// The high byte of a 16-bit little-endian value.
pub open spec fn le_hi(v: i16) -> u8 {
    ((v as u16 >> 8) & 0xff) as u8
}

/// Append a little-endian 16-bit value.
fn push_i16(out: &mut Vec<u8>, v: i16)
    ensures
        final(out)@ == old(out)@ + seq![le_lo(v), le_hi(v)],
{
    let u = v as u16;
    let ghost pre = out@;
    out.push((u & 0xff) as u8);
    out.push(((u >> 8) & 0xff) as u8);
    proof {
        assert(final(out)@ =~= pre + seq![le_lo(v), le_hi(v)]) by {
            assert(((u >> 8) & 0xff) as u8 == le_hi(v)) by (bit_vector)
                requires
                    u == v as u16,
            ;
            assert((u & 0xff) as u8 == le_lo(v)) by (bit_vector)
                requires
                    u == v as u16,
            ;
        }
    }
}

fn push_bool(out: &mut Vec<u8>, v: bool)
    ensures
        final(out)@ == old(out)@.push(if v { 1u8 } else { 0u8 }),
{
    out.push(if v { 1 } else { 0 });
}

/// Both bytes of a 16-bit little-endian value.
pub open spec fn le16(v: i16) -> Seq<u8> {
    seq![le_lo(v), le_hi(v)]
}

/// `n` zero bytes.
pub open spec fn zeros(n: nat) -> Seq<u8> {
    Seq::new(n, |i: int| 0u8)
}

/// A Pascal-prefixed string field of capacity `cap`: one length byte,
/// the value's bytes, and zero fill up to the capacity.
pub open spec fn pascal_field(cap: nat, value: Seq<u8>) -> Seq<u8> {
    seq![value.len() as u8] + value + zeros((cap - value.len()) as nat)
}

/// Append `size` zero bytes.
fn push_padding(out: &mut Vec<u8>, size: usize)
    requires
        old(out)@.len() + size <= usize::MAX,
    ensures
        final(out)@ == old(out)@ + zeros(size as nat),
{
    let mut i: usize = 0;
    while i < size
        invariant
            i <= size,
            out@ == old(out)@ + zeros(i as nat),
        decreases size - i,
    {
        out.push(0);
        i = i + 1;
        proof {
            assert(out@ =~= old(out)@ + zeros(i as nat));
        }
    }
}

/// Append a length-prefixed string field, zero-filled to its capacity.
fn push_string(out: &mut Vec<u8>, cap: u8, value: &Vec<u8>) -> (r: Result<(), ()>)
    requires
        old(out)@.len() + cap as int + 1 <= usize::MAX,
    ensures
        match r {
            Ok(_) => {
                &&& final(out)@ == old(out)@ + pascal_field(cap as nat, value@)
                &&& final(out)@.len() == old(out)@.len() + cap as int + 1
                &&& value@.len() <= cap
            },
            Err(_) => final(out)@ == old(out)@ && value@.len() > cap,
        },
{
    if value.len() > cap as usize {
        return Err(());
    }
    out.push(value.len() as u8);
    let mut i: usize = 0;
    while i < value.len()
        invariant
            i <= value@.len(),
            value@.len() <= cap,
            out@ == old(out)@ + seq![value@.len() as u8] + value@.subrange(0, i as int),
            old(out)@.len() + cap as int + 1 <= usize::MAX,
        decreases value@.len() - i,
    {
        out.push(value[i]);
        i = i + 1;
        proof {
            assert(out@ =~= old(out)@ + seq![value@.len() as u8] + value@.subrange(0, i as int));
        }
    }
    proof {
        assert(value@.subrange(0, value@.len() as int) =~= value@);
    }
    push_padding(out, cap as usize - value.len());
    proof {
        assert(out@ =~= old(out)@ + pascal_field(cap as nat, value@));
    }
    Ok(())
}

/// The script of a stat, encoded byte for byte under the code page.
pub open spec fn encoded_code(s: Seq<char>) -> Seq<u8> {
    Seq::new(s.len(), |i: int| crate::encoding::encoded_code_char(s[i]))
}

/// The byte layout of one stat record: position, movement, parameters,
/// follower and leader, under-tile, four pad bytes, instruction pointer,
/// then the 16-bit field that holds the bind index when negative and the
/// script byte count — followed by the script itself — when not.
pub open spec fn stat_layout(s: Stat) -> Seq<u8> {
    let fixed = seq![s.x, s.y] + le16(s.x_step) + le16(s.y_step) + le16(s.cycle) + seq![
        s.p1,
        s.p2,
        s.p3,
    ] + le16(s.follower) + le16(s.leader) + seq![s.under_element, s.under_color] + zeros(4)
        + le16(s.instruction_pointer);
    if s.bind_index < 0 {
        fixed + le16(s.bind_index) + zeros(8)
    } else {
        let code = encoded_code(s.code@);
        fixed + le16(code.len() as i16) + zeros(8) + code
    }
}

/// The script byte count of the stat record at `p0`: the 16-bit field at
/// offset 23 when positive, else nothing.
pub open spec fn stat_code_len(b: Seq<u8>, p0: int) -> int {
    if i16_at(b, p0 + 23) > 0 {
        i16_at(b, p0 + 23) as int
    } else {
        0
    }
}

/// Where the stat record at `p0` ends: its 33 fixed bytes plus its
/// script.
pub open spec fn stat_end(b: Seq<u8>, p0: int) -> int {
    p0 + 33 + stat_code_len(b, p0)
}

/// The bytes hold a whole stat record at `p0`.
pub open spec fn stat_parses(b: Seq<u8>, p0: int) -> bool {
    p0 + 33 <= b.len() && stat_end(b, p0) <= b.len()
}

/// The stat `s` is exactly what the record at `p0` stores: every fixed
/// field at its offset, the bind index from the 16-bit field at offset
/// 23 when negative, and the script decoded from the trailing bytes.
pub open spec fn stat_parsed(b: Seq<u8>, p0: int, s: Stat) -> bool {
    &&& s.x == b[p0] && s.y == b[p0 + 1]
    &&& s.x_step == i16_at(b, p0 + 2)
    &&& s.y_step == i16_at(b, p0 + 4)
    &&& s.cycle == i16_at(b, p0 + 6)
    &&& s.p1 == b[p0 + 8] && s.p2 == b[p0 + 9] && s.p3 == b[p0 + 10]
    &&& s.follower == i16_at(b, p0 + 11)
    &&& s.leader == i16_at(b, p0 + 13)
    &&& s.under_element == b[p0 + 15] && s.under_color == b[p0 + 16]
    &&& s.instruction_pointer == i16_at(b, p0 + 21)
    &&& s.bind_index == (if i16_at(b, p0 + 23) < 0 {
        i16_at(b, p0 + 23)
    } else {
        0i16
    })
    &&& s.code@.len() == stat_code_len(b, p0)
    &&& (forall|i: int|
        0 <= i < stat_code_len(b, p0) ==> s.code@[i] == crate::encoding::decoded_code_char(
            #[trigger] b[p0 + 33 + i],
        ))
}

impl Stat {
    /// Serialise one stat record: position, movement, parameters, binding
    /// and the encoded script, laid out exactly as `stat_layout` says.
    /// The record is 33 bytes plus the script bytes when the stat owns
    /// its script.
    pub fn to_bytes(&self) -> (r: Result<Vec<u8>, ()>)
        requires
            self.code@.len() < 32_000,
        ensures
            r is Ok <==> (forall|i: int|
                0 <= i < self.code@.len() ==> crate::encoding::code_char_encodes(
                    #[trigger] self.code@[i],
                )),
            match r {
                Ok(b) => b@ == stat_layout(*self) && b@.len() == 33 + (if self.bind_index >= 0 {
                    self.code@.len()
                } else {
                    0
                }),
                Err(_) => exists|i: int|
                    0 <= i < self.code@.len() && !crate::encoding::code_char_encodes(
                        #[trigger] self.code@[i],
                    ),
            },
    {
        let code_bytes = match crate::encoding::encode_multiline(&self.code) {
            Ok(b) => b,
            Err(_) => {
                return Err(());
            },
        };
        proof {
            assert(code_bytes@ =~= encoded_code(self.code@));
        }
        let mut out: Vec<u8> = Vec::new();
        out.push(self.x);
        out.push(self.y);
        push_i16(&mut out, self.x_step);
        push_i16(&mut out, self.y_step);
        push_i16(&mut out, self.cycle);
        out.push(self.p1);
        out.push(self.p2);
        out.push(self.p3);
        push_i16(&mut out, self.follower);
        push_i16(&mut out, self.leader);
        out.push(self.under_element);
        out.push(self.under_color);
        push_padding(&mut out, 4);
        push_i16(&mut out, self.instruction_pointer);
        let ghost fixed = out@;
        proof {
            assert(fixed =~= seq![self.x, self.y] + le16(self.x_step) + le16(self.y_step)
                + le16(self.cycle) + seq![self.p1, self.p2, self.p3] + le16(self.follower)
                + le16(self.leader) + seq![self.under_element, self.under_color] + zeros(4)
                + le16(self.instruction_pointer));
        }
        if self.bind_index < 0 {
            push_i16(&mut out, self.bind_index);
            push_padding(&mut out, 8);
            proof {
                assert(out@ =~= stat_layout(*self));
            }
        } else {
            push_i16(&mut out, code_bytes.len() as i16);
            push_padding(&mut out, 8);
            let ghost head = out@;
            let mut i: usize = 0;
            while i < code_bytes.len()
                invariant
                    i <= code_bytes@.len(),
                    out@ == head + code_bytes@.subrange(0, i as int),
                    out@.len() == 33 + i,
                decreases code_bytes@.len() - i,
            {
                out.push(code_bytes[i]);
                i = i + 1;
                proof {
                    assert(out@ =~= head + code_bytes@.subrange(0, i as int));
                }
            }
            proof {
                assert(code_bytes@.subrange(0, code_bytes@.len() as int) =~= code_bytes@);
                assert(out@ =~= stat_layout(*self));
            }
        }
        Ok(out)
    }
}

/// A stat whose record is certain to serialise: a short script whose
/// every character encodes.
pub open spec fn stat_fits(st: Stat) -> bool {
    &&& st.code@.len() <= 100
    &&& (forall|i: int|
        0 <= i < st.code@.len() ==> crate::encoding::code_char_encodes(#[trigger] st.code@[i]))
}

/// A board whose record is certain to serialise: encodable name and
/// fields within their capacities, the full terrain grid, and few enough
/// short stats that the size field cannot overflow.
pub open spec fn board_fits(b: Board) -> bool {
    &&& (forall|i: int|
        0 <= i < b.name@.len() ==> crate::encoding::cp437_byte_of(#[trigger] b.name@[i]) is Some)
    &&& b.name@.len() <= 50
    &&& b.terrain@.len() == 1500
    &&& b.message@.len() <= 58
    &&& 1 <= b.stats@.len() <= 400
    &&& (forall|k: int| 0 <= k < b.stats@.len() ==> stat_fits(#[trigger] b.stats@[k]))
}

/// A truth value as the byte the container stores.
pub open spec fn bool_byte(v: bool) -> u8 {
    if v {
        1u8
    } else {
        0u8
    }
}

/// Both bytes of a 16-bit little-endian unsigned value.
pub open spec fn le16u(v: u16) -> Seq<u8> {
    seq![(v & 0xff) as u8, ((v >> 8) & 0xff) as u8]
}

/// A one-line string, encoded byte for byte under the code page.
pub open spec fn encoded_oneline(s: Seq<char>) -> Seq<u8> {
    Seq::new(s.len(), |i: int| crate::encoding::cp437_byte_of(s[i])->Some_0)
}

/// Where the run of equal tiles that starts at `i` ends, scanning from
/// `j`: at the first differing tile, at 255 tiles, or at the end.
pub open spec fn run_end(t: Seq<(u8, u8)>, i: int, j: int) -> int
    decreases (if j < t.len() { t.len() - j } else { 0 }),
{
    if 0 <= j < t.len() && j - i < 255 && t[j] == t[i] {
        run_end(t, i, j + 1)
    } else {
        j
    }
}

/// A run covers at least the scanned prefix, ends within the input, and
/// never exceeds 255 tiles.
pub proof fn lemma_run_end(t: Seq<(u8, u8)>, i: int, j: int)
    requires
        0 <= i < j <= t.len(),
        j - i <= 255,
    ensures
        j <= run_end(t, i, j) <= t.len(),
        run_end(t, i, j) - i <= 255,
    decreases t.len() - j,
{
    if 0 <= j < t.len() && j - i < 255 && t[j] == t[i] {
        lemma_run_end(t, i, j + 1);
    }
}

/// The run-length encoding of the terrain from index `i` on: each run of
/// up to 255 equal tiles becomes its count, element and color.
pub open spec fn rle_from(t: Seq<(u8, u8)>, i: int) -> Seq<u8>
    decreases (if i < t.len() { t.len() - i } else { 0 }),
{
    if 0 <= i < t.len() {
        let e = run_end(t, i, i + 1);
        if i < e <= t.len() {
            seq![(e - i) as u8, t[i].0, t[i].1] + rle_from(t, e)
        } else {
            seq![1u8, t[i].0, t[i].1]
        }
    } else {
        Seq::empty()
    }
}

/// The records of the stats `i..`, in order.
pub open spec fn stats_bytes(stats: Seq<Stat>, i: int) -> Seq<u8>
    decreases (if i < stats.len() { stats.len() - i } else { 0 }),
{
    if 0 <= i < stats.len() {
        stat_layout(stats[i]) + stats_bytes(stats, i + 1)
    } else {
        Seq::empty()
    }
}

/// The byte layout of one board, after its two-byte size prefix: the
/// Pascal name field, the run-length-encoded terrain, the info bytes,
/// the Pascal message field, the entry point, the time limit, padding,
/// the stat count less one, and the stat records.
pub open spec fn board_body(b: Board) -> Seq<u8> {
    pascal_field(50, encoded_oneline(b.name@)) + rle_from(b.terrain@, 0) + seq![
        b.max_shots,
        bool_byte(b.is_dark),
        b.board_n,
        b.board_s,
        b.board_w,
        b.board_e,
        bool_byte(b.reenter_when_zapped),
    ] + pascal_field(58, b.message@) + seq![b.enter_x, b.enter_y] + le16(b.time_limit) + zeros(16)
        + le16((b.stats@.len() - 1) as i16) + stats_bytes(b.stats@, 0)
}

impl Board {
    /// Serialise one board: its size prefix, name, run-length-encoded
    /// terrain, info bytes and stats, laid out exactly as `board_body`
    /// says behind the size prefix. Fails when the terrain is not
    /// exactly the 60-by-25 grid, a string field overflows, the board has
    /// no stats, or the whole board exceeds the size field's range; a
    /// board within those bounds always serialises.
    #[verifier::rlimit(100)]
    pub fn to_bytes(&self) -> (r: Result<Vec<u8>, ()>)
        ensures
            match r {
                Ok(b) => {
                    &&& 2 <= b@.len() && b@.len() - 2 <= 65535
                    &&& b@ == le16u((b@.len() - 2) as u16) + board_body(*self)
                },
                Err(_) => true,
            },
            board_fits(*self) ==> r is Ok,
    {
        let mut out: Vec<u8> = Vec::new();
        push_padding(&mut out, 2);
        let name_bytes = match crate::encoding::encode_oneline(&self.name) {
            Ok(b) => b,
            Err(_) => {
                return Err(());
            },
        };
        proof {
            assert(name_bytes@ =~= encoded_oneline(self.name@));
        }
        if out.len() > 100_000_000 || name_bytes.len() > 255 {
            return Err(());
        }
        match push_string(&mut out, 50, &name_bytes) {
            Ok(_) => {},
            Err(_) => {
                return Err(());
            },
        }
        // terrain, as runs of up to 255 equal tiles
        if self.terrain.len() != 1500 {
            return Err(());
        }
        let ghost t = self.terrain@;
        let ghost base1 = out@;
        let mut ti: usize = 0;
        while ti < self.terrain.len()
            invariant
                ti <= self.terrain@.len(),
                self.terrain@.len() == 1500,
                t == self.terrain@,
                out@.len() <= 53 + 3 * ti,
                base1 + rle_from(t, 0) == out@ + rle_from(t, ti as int),
            decreases self.terrain@.len() - ti,
        {
            let ghost t0 = ti as int;
            let (element, color) = self.terrain[ti];
            let mut count: u8 = 1;
            ti = ti + 1;
            while ti < self.terrain.len() && count < 255 && self.terrain[ti].0 == element
                && self.terrain[ti].1 == color
                invariant
                    t0 < ti <= self.terrain@.len(),
                    self.terrain@.len() == 1500,
                    t == self.terrain@,
                    1 <= count <= 255,
                    count as int == ti - t0,
                    element == t[t0].0,
                    color == t[t0].1,
                    run_end(t, t0, t0 + 1) == run_end(t, t0, ti as int),
                decreases self.terrain@.len() - ti,
            {
                count = count + 1;
                ti = ti + 1;
            }
            proof {
                assert(run_end(t, t0, ti as int) == ti as int);
                lemma_run_end(t, t0, t0 + 1);
                assert(rle_from(t, t0) =~= seq![count, element, color] + rle_from(t, ti as int));
            }
            let ghost row = out@;
            out.push(count);
            out.push(element);
            out.push(color);
            proof {
                assert(out@ =~= row + seq![count, element, color]);
                assert(base1 + rle_from(t, 0) =~= out@ + rle_from(t, ti as int));
            }
        }
        proof {
            assert(rle_from(t, 1500) =~= Seq::<u8>::empty());
            assert(out@ =~= base1 + rle_from(t, 0));
        }
        // board info
        out.push(self.max_shots);
        push_bool(&mut out, self.is_dark);
        out.push(self.board_n);
        out.push(self.board_s);
        out.push(self.board_w);
        out.push(self.board_e);
        push_bool(&mut out, self.reenter_when_zapped);
        if self.message.len() > 255 {
            return Err(());
        }
        match push_string(&mut out, 58, &self.message) {
            Ok(_) => {},
            Err(_) => {
                return Err(());
            },
        }
        out.push(self.enter_x);
        out.push(self.enter_y);
        push_i16(&mut out, self.time_limit);
        push_padding(&mut out, 16);
        // stats
        if self.stats.len() == 0 || self.stats.len() > 32767 {
            return Err(());
        }
        push_i16(&mut out, (self.stats.len() - 1) as i16);
        let ghost base2 = out@;
        proof {
            assert(base2 =~= zeros(2) + pascal_field(50, encoded_oneline(self.name@)) + rle_from(
                t,
                0,
            ) + seq![
                self.max_shots,
                bool_byte(self.is_dark),
                self.board_n,
                self.board_s,
                self.board_w,
                self.board_e,
                bool_byte(self.reenter_when_zapped),
            ] + pascal_field(58, self.message@) + seq![self.enter_x, self.enter_y] + le16(
                self.time_limit,
            ) + zeros(16) + le16((self.stats@.len() - 1) as i16));
        }
        let mut si: usize = 0;
        while si < self.stats.len()
            invariant
                si <= self.stats@.len(),
                out@.len() >= 2,
                out@.len() < usize::MAX - 40_000,
                board_fits(*self) ==> out@.len() <= 4641 + 133 * si,
                base2 + stats_bytes(self.stats@, 0) == out@ + stats_bytes(
                    self.stats@,
                    si as int,
                ),
            decreases self.stats@.len() - si,
        {
            if self.stats[si].code.len() >= 32_000 {
                return Err(());
            }
            let stat_bytes = match self.stats[si].to_bytes() {
                Ok(b) => b,
                Err(_) => {
                    proof {
                        if board_fits(*self) {
                            assert(stat_fits(self.stats@[si as int]));
                            assert(false);
                        }
                    }
                    return Err(());
                },
            };
            if out.len() > 100_000_000 {
                return Err(());
            }
            let ghost pre_len = out@.len();
            let ghost pre_out = out@;
            let mut bi: usize = 0;
            while bi < stat_bytes.len()
                invariant
                    bi <= stat_bytes@.len(),
                    stat_bytes@.len() <= 33_000,
                    out@.len() >= 2,
                    out@.len() == pre_len + bi,
                    out@ == pre_out + stat_bytes@.subrange(0, bi as int),
                decreases stat_bytes@.len() - bi,
            {
                out.push(stat_bytes[bi]);
                bi = bi + 1;
                proof {
                    assert(out@ =~= pre_out + stat_bytes@.subrange(0, bi as int));
                }
            }
            proof {
                assert(stat_bytes@.subrange(0, stat_bytes@.len() as int) =~= stat_bytes@);
                assert(base2 + stats_bytes(self.stats@, 0) =~= out@ + stats_bytes(
                    self.stats@,
                    si + 1,
                ));
                if board_fits(*self) {
                    assert(stat_fits(self.stats@[si as int]));
                    assert(stat_bytes@.len() <= 133);
                }
            }
            si = si + 1;
        }
        proof {
            assert(stats_bytes(self.stats@, self.stats@.len() as int) =~= Seq::<u8>::empty());
            assert(out@ =~= base2 + stats_bytes(self.stats@, 0));
            assert(out@ =~= zeros(2) + board_body(*self));
        }
        // fix up the size prefix
        if out.len() - 2 > 65535 {
            return Err(());
        }
        let size = (out.len() - 2) as u16;
        out.set(0, (size & 0xff) as u8);
        out.set(1, ((size >> 8) & 0xff) as u8);
        proof {
            assert(out@ =~= le16u(size) + board_body(*self));
        }
        Ok(out)
    }
}

/// A world whose file is certain to serialise: its counted fields at
/// their required sizes, its string fields within their capacities, and
/// every board within the bounds of `board_fits`.
pub open spec fn world_fits(w: World) -> bool {
    &&& 1 <= w.boards@.len() <= 30_000
    &&& w.keys@.len() == 7
    &&& w.flags@.len() == 10
    &&& w.world_name@.len() <= 20
    &&& (forall|i: int| 0 <= i < w.flags@.len() ==> (#[trigger] w.flags@[i])@.len() <= 20)
    &&& (forall|i: int| 0 <= i < w.boards@.len() ==> board_fits(#[trigger] w.boards@[i]))
}

/// The full record of one board: its size prefix, then its body.
pub open spec fn board_bytes(b: Board) -> Seq<u8> {
    le16u(board_body(b).len() as u16) + board_body(b)
}

/// The Pascal flag fields of capacity 20, from index `i` on.
pub open spec fn flags_bytes(flags: Seq<Vec<u8>>, i: int) -> Seq<u8>
    decreases (if i < flags.len() { flags.len() - i } else { 0 }),
{
    if 0 <= i < flags.len() {
        pascal_field(20, flags[i]@) + flags_bytes(flags, i + 1)
    } else {
        Seq::empty()
    }
}

/// The records of the boards `i..`, in order.
pub open spec fn world_boards(boards: Seq<Board>, i: int) -> Seq<u8>
    decreases (if i < boards.len() { boards.len() - i } else { 0 }),
{
    if 0 <= i < boards.len() {
        board_bytes(boards[i]) + world_boards(boards, i + 1)
    } else {
        Seq::empty()
    }
}

/// The byte layout of the 512-byte world header: the magic, the board
/// count less one, the counters, the key flags, the Pascal name and flag
/// fields, the clock, the lock byte, and zero fill to 512.
pub open spec fn world_header(w: World) -> Seq<u8> {
    le16((-1) as i16) + le16((w.boards@.len() - 1) as i16) + le16(w.ammo) + le16(w.gems) + Seq::new(
        w.keys@.len(),
        |i: int| bool_byte(w.keys@[i]),
    ) + le16(w.health) + le16(w.starting_board) + le16(w.torches) + le16(w.torch_cycles) + le16(
        w.energizer_cycles,
    ) + zeros(2) + le16(w.score) + pascal_field(20, w.world_name@) + flags_bytes(w.flags@, 0)
        + le16(w.time) + le16(w.time_ticks) + seq![bool_byte(w.locked)] + zeros((512 - 265) as nat)
}

impl World {
    /// Serialise the whole world: the 512-byte header, then each board,
    /// laid out exactly as `world_header` and `board_bytes` say. A world
    /// within the bounds of `world_fits` always serialises.
    #[verifier::rlimit(100)]
    pub fn to_bytes(&self) -> (r: Result<Vec<u8>, ()>)
        ensures
            match r {
                Ok(b) => b@.len() >= 512 && b@ == world_header(*self) + world_boards(
                    self.boards@,
                    0,
                ),
                Err(_) => true,
            },
            world_fits(*self) ==> r is Ok,
    {
        if self.boards.len() == 0 || self.boards.len() > 32767 {
            return Err(());
        }
        if self.keys.len() != 7 || self.flags.len() != 10 {
            return Err(());
        }
        let mut out: Vec<u8> = Vec::new();
        push_i16(&mut out, -1);
        push_i16(&mut out, (self.boards.len() - 1) as i16);
        push_i16(&mut out, self.ammo);
        push_i16(&mut out, self.gems);
        let ghost base_k = out@;
        let mut ki: usize = 0;
        while ki < self.keys.len()
            invariant
                ki <= self.keys@.len(),
                self.keys@.len() == 7,
                out@.len() == 8 + ki,
                out@ == base_k + Seq::new(ki as nat, |i: int| bool_byte(self.keys@[i])),
            decreases self.keys@.len() - ki,
        {
            push_bool(&mut out, self.keys[ki]);
            ki = ki + 1;
            proof {
                assert(out@ =~= base_k + Seq::new(
                    ki as nat,
                    |i: int| bool_byte(self.keys@[i]),
                ));
            }
        }
        push_i16(&mut out, self.health);
        push_i16(&mut out, self.starting_board);
        push_i16(&mut out, self.torches);
        push_i16(&mut out, self.torch_cycles);
        push_i16(&mut out, self.energizer_cycles);
        push_padding(&mut out, 2);
        push_i16(&mut out, self.score);
        if self.world_name.len() > 255 {
            return Err(());
        }
        match push_string(&mut out, 20, &self.world_name) {
            Ok(_) => {},
            Err(_) => {
                return Err(());
            },
        }
        let ghost base_f = out@;
        let mut fi: usize = 0;
        while fi < self.flags.len()
            invariant
                fi <= self.flags@.len(),
                self.flags@.len() == 10,
                out@.len() == 50 + 21 * fi,
                base_f + flags_bytes(self.flags@, 0) == out@ + flags_bytes(
                    self.flags@,
                    fi as int,
                ),
            decreases self.flags@.len() - fi,
        {
            if self.flags[fi].len() > 255 {
                return Err(());
            }
            match push_string(&mut out, 20, &self.flags[fi]) {
                Ok(_) => {},
                Err(_) => {
                    return Err(());
                },
            }
            fi = fi + 1;
            proof {
                assert(base_f + flags_bytes(self.flags@, 0) =~= out@ + flags_bytes(
                    self.flags@,
                    fi as int,
                ));
            }
        }
        proof {
            assert(flags_bytes(self.flags@, 10) =~= Seq::<u8>::empty());
            assert(out@ =~= base_f + flags_bytes(self.flags@, 0));
        }
        push_i16(&mut out, self.time);
        push_i16(&mut out, self.time_ticks);
        push_bool(&mut out, self.locked);
        push_padding(&mut out, 512 - 265);
        proof {
            assert(out@ =~= world_header(*self));
        }
        let ghost base_b = out@;
        let mut bi: usize = 0;
        while bi < self.boards.len()
            invariant
                bi <= self.boards@.len(),
                out@.len() >= 512,
                out@.len() < usize::MAX - 70_000,
                world_fits(*self) ==> out@.len() <= 512 + 65537 * bi,
                base_b + world_boards(self.boards@, 0) == out@ + world_boards(
                    self.boards@,
                    bi as int,
                ),
            decreases self.boards@.len() - bi,
        {
            let board_bytes = match self.boards[bi].to_bytes() {
                Ok(b) => b,
                Err(_) => {
                    proof {
                        if world_fits(*self) {
                            assert(board_fits(self.boards@[bi as int]));
                            assert(false);
                        }
                    }
                    return Err(());
                },
            };
            if out.len() > 2_000_000_000 {
                return Err(());
            }
            proof {
                assert(board_bytes@ =~= crate::world::board_bytes(self.boards@[bi as int]));
            }
            let ghost pre_len = out@.len();
            let ghost pre_out = out@;
            let mut bj: usize = 0;
            while bj < board_bytes.len()
                invariant
                    bj <= board_bytes@.len(),
                    board_bytes@.len() <= 65537,
                    out@.len() >= 512,
                    out@.len() == pre_len + bj,
                    out@ == pre_out + board_bytes@.subrange(0, bj as int),
                decreases board_bytes@.len() - bj,
            {
                out.push(board_bytes[bj]);
                bj = bj + 1;
                proof {
                    assert(out@ =~= pre_out + board_bytes@.subrange(0, bj as int));
                }
            }
            bi = bi + 1;
            proof {
                assert(board_bytes@.subrange(0, board_bytes@.len() as int) =~= board_bytes@);
                assert(base_b + world_boards(self.boards@, 0) =~= out@ + world_boards(
                    self.boards@,
                    bi as int,
                ));
            }
        }
        proof {
            assert(world_boards(self.boards@, self.boards@.len() as int) =~= Seq::<u8>::empty());
            assert(out@ =~= world_header(*self) + world_boards(self.boards@, 0));
        }
        Ok(out)
    }
}

} // verus!

// Reading the binary container.

verus! {

/// The 16-bit little-endian value stored at offset `i`.
pub open spec fn u16_at(b: Seq<u8>, i: int) -> u16 {
    (b[i] as u16) | ((b[i + 1] as u16) << 8)
}

/// The signed 16-bit little-endian value stored at offset `i`.
pub open spec fn i16_at(b: Seq<u8>, i: int) -> i16 {
    u16_at(b, i) as i16
}

fn rd_u8(b: &Vec<u8>, pos: &mut usize) -> (r: Result<u8, ()>)
    requires
        *old(pos) <= b@.len(),
    ensures
        *old(pos) <= *final(pos) <= b@.len(),
        r is Ok ==> *final(pos) == *old(pos) + 1 && r->Ok_0 == b@[*old(pos) as int],
        r is Ok <==> *old(pos) + 1 <= b@.len(),
        r is Err ==> *final(pos) == *old(pos),
{
    if *pos < b.len() {
        let v = b[*pos];
        *pos = *pos + 1;
        Ok(v)
    } else {
        Err(())
    }
}

fn rd_i16(b: &Vec<u8>, pos: &mut usize) -> (r: Result<i16, ()>)
    requires
        *old(pos) <= b@.len(),
    ensures
        *old(pos) <= *final(pos) <= b@.len(),
        r is Ok ==> *final(pos) == *old(pos) + 2 && r->Ok_0 == i16_at(b@, *old(pos) as int),
        r is Ok <==> *old(pos) + 2 <= b@.len(),
        r is Err ==> *final(pos) == *old(pos),
{
    let n = b.len();
    if *pos < n && *pos + 1 < n {
        let lo = b[*pos] as u16;
        let hi = b[*pos + 1] as u16;
        *pos = *pos + 2;
        Ok((lo | (hi << 8u16)) as i16)
    } else {
        Err(())
    }
}

fn rd_skip(b: &Vec<u8>, pos: &mut usize, n: usize) -> (r: Result<(), ()>)
    requires
        *old(pos) <= b@.len(),
    ensures
        *old(pos) <= *final(pos) <= b@.len(),
        r is Ok ==> *final(pos) == *old(pos) + n,
        r is Ok <==> *old(pos) + n <= b@.len(),
        r is Err ==> *final(pos) == *old(pos),
{
    if n <= b.len() - *pos {
        *pos = *pos + n;
        Ok(())
    } else {
        Err(())
    }
}

fn rd_bytes(b: &Vec<u8>, pos: &mut usize, n: usize) -> (r: Result<Vec<u8>, ()>)
    requires
        *old(pos) <= b@.len(),
    ensures
        *old(pos) <= *final(pos) <= b@.len(),
        r is Ok ==> *final(pos) == *old(pos) + n && r->Ok_0@ == b@.subrange(
            *old(pos) as int,
            *old(pos) + n,
        ),
        r is Ok <==> *old(pos) + n <= b@.len(),
        r is Err ==> *final(pos) == *old(pos),
{
    let bl = b.len();
    if n > bl - *pos {
        return Err(());
    }
    let mut out: Vec<u8> = Vec::new();
    let mut i: usize = 0;
    while i < n
        invariant
            i <= n,
            bl == b@.len(),
            *old(pos) + n <= bl,
            *pos == *old(pos) + i,
            out@ == b@.subrange(*old(pos) as int, *old(pos) + i),
        decreases n - i,
    {
        out.push(b[*pos]);
        *pos = *pos + 1;
        i = i + 1;
        proof {
            assert(out@ =~= b@.subrange(*old(pos) as int, *old(pos) + i));
        }
    }
    Ok(out)
}

/// Read a length-prefixed string field of the given capacity.
/// The value of the Pascal string field at `pos`: the bytes after the
/// length byte.
pub open spec fn pstring_at(b: Seq<u8>, pos: int) -> Seq<u8> {
    b.subrange(pos + 1, pos + 1 + b[pos] as int)
}

fn rd_pstring(b: &Vec<u8>, pos: &mut usize, cap: u8) -> (r: Result<Vec<u8>, ()>)
    requires
        *old(pos) <= b@.len(),
    ensures
        *old(pos) <= *final(pos) <= b@.len(),
        r is Ok <==> (*old(pos) + 1 + cap as int <= b@.len() && b@[*old(pos) as int] < cap),
        r matches Ok(v) ==> *final(pos) == *old(pos) + 1 + cap as int && v@ == pstring_at(
            b@,
            *old(pos) as int,
        ),
{
    let len = match rd_u8(b, pos) {
        Ok(v) => v,
        Err(_) => {
            return Err(());
        },
    };
    if len >= cap {
        return Err(());
    }
    let data = match rd_bytes(b, pos, len as usize) {
        Ok(v) => v,
        Err(_) => {
            return Err(());
        },
    };
    match rd_skip(b, pos, (cap - len) as usize) {
        Ok(_) => {},
        Err(_) => {
            return Err(());
        },
    }
    Ok(data)
}

fn load_error(msg: &str) -> (r: LoadError)
    ensures
        r.message@ == msg@,
{
    LoadError { message: crate::text::chars_of(msg) }
}

impl Stat {
    /// Read one stat record at `*pos`. A negative length field means the
    /// stat binds another stat's script and owns none.
    #[verifier::loop_isolation(false)]
    pub fn from_bytes(bytes: &Vec<u8>, pos: &mut usize) -> (r: Result<Stat, LoadError>)
        requires
            *old(pos) <= bytes@.len(),
        ensures
            *old(pos) <= *final(pos) <= bytes@.len(),
            r is Ok <==> stat_parses(bytes@, *old(pos) as int),
            r matches Ok(s) ==> stat_parsed(bytes@, *old(pos) as int, s) && *final(pos)
                == stat_end(bytes@, *old(pos) as int),
    {
        let x = match rd_u8(bytes, pos) {
            Ok(v) => v,
            Err(_) => {
                return Err(load_error("stat record ends early"));
            },
        };
        let y = match rd_u8(bytes, pos) {
            Ok(v) => v,
            Err(_) => {
                return Err(load_error("stat record ends early"));
            },
        };
        let mut fields: Vec<i16> = Vec::new();
        let mut k: usize = 0;
        while k < 3
            invariant
                *old(pos) <= *pos <= bytes@.len(),
                *pos == *old(pos) + 2 + 2 * k,
                fields@.len() == k,
                k <= 3,
                forall|j: int|
                    0 <= j < k ==> fields@[j] == i16_at(bytes@, *old(pos) + 2 + 2 * j),
            decreases 3 - k,
        {
            match rd_i16(bytes, pos) {
                Ok(v) => fields.push(v),
                Err(_) => {
                    return Err(load_error("stat record ends early"));
                },
            }
            k = k + 1;
        }
        let x_step = fields[0];
        let y_step = fields[1];
        let cycle = fields[2];
        let p1 = match rd_u8(bytes, pos) {
            Ok(v) => v,
            Err(_) => {
                return Err(load_error("stat record ends early"));
            },
        };
        let p2 = match rd_u8(bytes, pos) {
            Ok(v) => v,
            Err(_) => {
                return Err(load_error("stat record ends early"));
            },
        };
        let p3 = match rd_u8(bytes, pos) {
            Ok(v) => v,
            Err(_) => {
                return Err(load_error("stat record ends early"));
            },
        };
        let follower = match rd_i16(bytes, pos) {
            Ok(v) => v,
            Err(_) => {
                return Err(load_error("stat record ends early"));
            },
        };
        let leader = match rd_i16(bytes, pos) {
            Ok(v) => v,
            Err(_) => {
                return Err(load_error("stat record ends early"));
            },
        };
        let under_element = match rd_u8(bytes, pos) {
            Ok(v) => v,
            Err(_) => {
                return Err(load_error("stat record ends early"));
            },
        };
        let under_color = match rd_u8(bytes, pos) {
            Ok(v) => v,
            Err(_) => {
                return Err(load_error("stat record ends early"));
            },
        };
        match rd_skip(bytes, pos, 4) {
            Ok(_) => {},
            Err(_) => {
                return Err(load_error("stat record ends early"));
            },
        }
        let instruction_pointer = match rd_i16(bytes, pos) {
            Ok(v) => v,
            Err(_) => {
                return Err(load_error("stat record ends early"));
            },
        };
        let length = match rd_i16(bytes, pos) {
            Ok(v) => v,
            Err(_) => {
                return Err(load_error("stat record ends early"));
            },
        };
        match rd_skip(bytes, pos, 8) {
            Ok(_) => {},
            Err(_) => {
                return Err(load_error("stat record ends early"));
            },
        }
        let code_len: usize = if length > 0 {
            length as usize
        } else {
            0
        };
        let code_bytes = match rd_bytes(bytes, pos, code_len) {
            Ok(v) => v,
            Err(_) => {
                return Err(load_error("stat script ends early"));
            },
        };
        let code = crate::encoding::decode_multiline(&code_bytes);
        Ok(
            Stat {
                x,
                y,
                x_step,
                y_step,
                cycle,
                p1,
                p2,
                p3,
                follower,
                leader,
                under_element,
                under_color,
                instruction_pointer,
                bind_index: if length < 0 {
                    length
                } else {
                    0
                },
                code,
            },
        )
    }
}

/// The tile count of the terrain run read at `pos`: its count byte, with
/// zero standing for 256.
pub open spec fn run_count(b: Seq<u8>, pos: int) -> int {
    if b[pos] == 0 {
        256
    } else {
        b[pos] as int
    }
}

/// Where the run-length-encoded terrain read at `pos` ends, starting with
/// `have` tiles: `None` when the bytes run out or a run overshoots the
/// grid.
pub open spec fn rle_end(b: Seq<u8>, pos: int, have: int) -> Option<int>
    decreases (if have < 1500 { 1500 - have } else { 0 }),
{
    if have >= 1500 {
        Some(pos)
    } else if 0 <= pos && pos + 3 <= b.len() && have + run_count(b, pos) <= 1500 {
        rle_end(b, pos + 3, have + run_count(b, pos))
    } else {
        None
    }
}

/// The tiles the run-length-encoded terrain read at `pos` holds, starting
/// with `have` tiles.
pub open spec fn rle_tiles(b: Seq<u8>, pos: int, have: int) -> Seq<(u8, u8)>
    decreases (if have < 1500 { 1500 - have } else { 0 }),
{
    if have >= 1500 {
        Seq::empty()
    } else if 0 <= pos && pos + 3 <= b.len() && have + run_count(b, pos) <= 1500 {
        Seq::new(run_count(b, pos) as nat, |i: int| (b[pos + 1], b[pos + 2])) + rle_tiles(
            b,
            pos + 3,
            have + run_count(b, pos),
        )
    } else {
        Seq::empty()
    }
}

/// Records `pos..`, one stat after another, hold `n` whole stat records.
pub open spec fn stats_parse_ok(b: Seq<u8>, pos: int, n: int) -> bool
    decreases (if n > 0 { n } else { 0 }),
{
    if n <= 0 {
        true
    } else {
        stat_parses(b, pos) && stats_parse_ok(b, stat_end(b, pos), n - 1)
    }
}

/// Where the `k`-th stat record starting at `pos` begins.
pub open spec fn stat_pos_k(b: Seq<u8>, pos: int, k: int) -> int
    decreases (if k > 0 { k } else { 0 }),
{
    if k <= 0 {
        pos
    } else {
        stat_end(b, stat_pos_k(b, pos, k - 1))
    }
}

/// The bytes hold one whole board block: the size prefix, the name
/// field, a terrain that decodes to exactly the full grid, the info and
/// message fields, a non-negative stat count, and that many stat records
/// plus one.
pub open spec fn board_parses(b: Seq<u8>) -> bool {
    &&& 53 <= b.len()
    &&& b[2] < 50
    &&& rle_end(b, 53, 0) is Some
    &&& ({
        let te = rle_end(b, 53, 0)->Some_0;
        &&& te + 66 <= b.len()
        &&& b[te + 7] < 58
        &&& te + 88 <= b.len()
        &&& i16_at(b, te + 86) >= 0
        &&& stats_parse_ok(b, te + 88, i16_at(b, te + 86) + 1)
    })
}

/// The board `bd` is exactly what the block stores: the decoded name,
/// the decoded terrain, every info field at its place behind the terrain,
/// and one parsed stat per record.
pub open spec fn board_parsed(b: Seq<u8>, bd: Board) -> bool {
    let te = rle_end(b, 53, 0)->Some_0;
    &&& bd.name@.len() == b[2] as int
    &&& (forall|i: int|
        0 <= i < b[2] as int ==> bd.name@[i] == crate::encoding::cp437_char_of(
            #[trigger] b[3 + i],
        ))
    &&& bd.terrain@ == rle_tiles(b, 53, 0)
    &&& bd.max_shots == b[te]
    &&& bd.is_dark == (b[te + 1] != 0)
    &&& bd.board_n == b[te + 2]
    &&& bd.board_s == b[te + 3]
    &&& bd.board_w == b[te + 4]
    &&& bd.board_e == b[te + 5]
    &&& bd.reenter_when_zapped == (b[te + 6] != 0)
    &&& bd.message@ == pstring_at(b, te + 7)
    &&& bd.enter_x == b[te + 66]
    &&& bd.enter_y == b[te + 67]
    &&& bd.time_limit == i16_at(b, te + 68)
    &&& bd.stats@.len() == i16_at(b, te + 86) + 1
    &&& (forall|k: int|
        0 <= k < bd.stats@.len() ==> stat_parsed(
            b,
            stat_pos_k(b, te + 88, k),
            #[trigger] bd.stats@[k],
        ))
}

impl Board {
    /// Read one board from its byte block, the two-byte size prefix
    /// included, exactly as `board_parsed` says. The terrain must decode
    /// to exactly the 60-by-25 grid and the stat count must not be
    /// negative.
    #[verifier::loop_isolation(false)]
    #[verifier::rlimit(100)]
    pub fn from_bytes(bytes: &Vec<u8>) -> (r: Result<Board, LoadError>)
        ensures
            r is Ok ==> r->Ok_0.terrain@.len() == 1500,
            r is Ok <==> board_parses(bytes@),
            r matches Ok(bd) ==> board_parsed(bytes@, bd),
    {
        let ghost b = bytes@;
        let mut pos: usize = 0;
        match rd_i16(bytes, &mut pos) {
            Ok(_) => {},
            Err(_) => {
                return Err(load_error("board block ends early"));
            },
        }
        let name_bytes = match rd_pstring(bytes, &mut pos, 50) {
            Ok(v) => v,
            Err(_) => {
                proof {
                    assert(!board_parses(b));
                }
                return Err(load_error("malformed board name"));
            },
        };
        let name = crate::encoding::decode_oneline(&name_bytes);
        proof {
            assert(pos == 53);
            assert(name_bytes@ == pstring_at(b, 2));
            assert forall|i: int| 0 <= i < b[2] as int implies name@[i]
                == crate::encoding::cp437_char_of(#[trigger] b[3 + i]) by {
                assert(name_bytes@[i] == b[3 + i]);
            }
        }
        let mut terrain: Vec<(u8, u8)> = Vec::new();
        proof {
            assert(terrain@ + rle_tiles(b, 53, 0) =~= rle_tiles(b, 53, 0));
        }
        while terrain.len() < 1500
            invariant
                pos <= bytes@.len(),
                terrain@.len() <= 1500,
                rle_end(b, 53, 0) == rle_end(b, pos as int, terrain@.len() as int),
                rle_tiles(b, 53, 0) == terrain@ + rle_tiles(b, pos as int, terrain@.len() as int),
            decreases 1500 - terrain@.len(),
        {
            let ghost p = pos as int;
            let ghost t0 = terrain@.len() as int;
            let count = match rd_u8(bytes, &mut pos) {
                Ok(v) => v,
                Err(_) => {
                    proof {
                        assert(rle_end(b, p, t0) is None);
                        assert(!board_parses(b));
                    }
                    return Err(load_error("board terrain ends early"));
                },
            };
            let element = match rd_u8(bytes, &mut pos) {
                Ok(v) => v,
                Err(_) => {
                    proof {
                        assert(rle_end(b, p, t0) is None);
                        assert(!board_parses(b));
                    }
                    return Err(load_error("board terrain ends early"));
                },
            };
            let color = match rd_u8(bytes, &mut pos) {
                Ok(v) => v,
                Err(_) => {
                    proof {
                        assert(rle_end(b, p, t0) is None);
                        assert(!board_parses(b));
                    }
                    return Err(load_error("board terrain ends early"));
                },
            };
            let run: usize = if count == 0 {
                256
            } else {
                count as usize
            };
            proof {
                assert(run as int == run_count(b, p));
            }
            let ghost t_pre = terrain@;
            let mut k: usize = 0;
            while k < run
                invariant
                    k <= run,
                    run <= 256,
                    terrain@.len() == t0 + k,
                    terrain@.len() <= 1500,
                    terrain@ == t_pre + Seq::new(k as nat, |i: int| (element, color)),
                decreases run - k,
            {
                if terrain.len() >= 1500 {
                    proof {
                        assert(t0 + run as int > 1500);
                        assert(rle_end(b, p, t0) is None);
                        assert(!board_parses(b));
                    }
                    return Err(load_error("too many tiles of board terrain"));
                }
                terrain.push((element, color));
                k = k + 1;
                proof {
                    assert(terrain@ =~= t_pre + Seq::new(k as nat, |i: int| (element, color)));
                }
            }
            proof {
                assert(t0 + run as int <= 1500);
                assert(rle_end(b, p, t0) == rle_end(b, pos as int, terrain@.len() as int));
                assert(Seq::new(run as nat, |i: int| (element, color)) =~= Seq::new(
                    run_count(b, p) as nat,
                    |i: int| (b[p + 1], b[p + 2]),
                ));
                assert(rle_tiles(b, p, t0) =~= Seq::new(
                    run_count(b, p) as nat,
                    |i: int| (b[p + 1], b[p + 2]),
                ) + rle_tiles(b, pos as int, terrain@.len() as int));
                assert(rle_tiles(b, 53, 0) =~= terrain@ + rle_tiles(
                    b,
                    pos as int,
                    terrain@.len() as int,
                ));
            }
        }
        let ghost te = pos as int;
        proof {
            assert(rle_end(b, te, 1500) == Some(te));
            assert(rle_end(b, 53, 0) == Some(te));
            assert(rle_tiles(b, te, 1500) =~= Seq::<(u8, u8)>::empty());
            assert(terrain@ =~= rle_tiles(b, 53, 0));
        }
        let max_shots = match rd_u8(bytes, &mut pos) {
            Ok(v) => v,
            Err(_) => {
                proof {
                    assert(!board_parses(b));
                }
                return Err(load_error("board info ends early"));
            },
        };
        let is_dark_b = match rd_u8(bytes, &mut pos) {
            Ok(v) => v,
            Err(_) => {
                proof {
                    assert(!board_parses(b));
                }
                return Err(load_error("board info ends early"));
            },
        };
        let board_n = match rd_u8(bytes, &mut pos) {
            Ok(v) => v,
            Err(_) => {
                proof {
                    assert(!board_parses(b));
                }
                return Err(load_error("board info ends early"));
            },
        };
        let board_s = match rd_u8(bytes, &mut pos) {
            Ok(v) => v,
            Err(_) => {
                proof {
                    assert(!board_parses(b));
                }
                return Err(load_error("board info ends early"));
            },
        };
        let board_w = match rd_u8(bytes, &mut pos) {
            Ok(v) => v,
            Err(_) => {
                proof {
                    assert(!board_parses(b));
                }
                return Err(load_error("board info ends early"));
            },
        };
        let board_e = match rd_u8(bytes, &mut pos) {
            Ok(v) => v,
            Err(_) => {
                proof {
                    assert(!board_parses(b));
                }
                return Err(load_error("board info ends early"));
            },
        };
        let reenter_b = match rd_u8(bytes, &mut pos) {
            Ok(v) => v,
            Err(_) => {
                proof {
                    assert(!board_parses(b));
                }
                return Err(load_error("board info ends early"));
            },
        };
        let message = match rd_pstring(bytes, &mut pos, 58) {
            Ok(v) => v,
            Err(_) => {
                proof {
                    assert(!board_parses(b));
                }
                return Err(load_error("malformed board message"));
            },
        };
        let enter_x = match rd_u8(bytes, &mut pos) {
            Ok(v) => v,
            Err(_) => {
                proof {
                    assert(!board_parses(b));
                }
                return Err(load_error("board info ends early"));
            },
        };
        let enter_y = match rd_u8(bytes, &mut pos) {
            Ok(v) => v,
            Err(_) => {
                proof {
                    assert(!board_parses(b));
                }
                return Err(load_error("board info ends early"));
            },
        };
        let time_limit = match rd_i16(bytes, &mut pos) {
            Ok(v) => v,
            Err(_) => {
                proof {
                    assert(!board_parses(b));
                }
                return Err(load_error("board info ends early"));
            },
        };
        match rd_skip(bytes, &mut pos, 16) {
            Ok(_) => {},
            Err(_) => {
                proof {
                    assert(!board_parses(b));
                }
                return Err(load_error("board info ends early"));
            },
        }
        let num_stats_raw = match rd_i16(bytes, &mut pos) {
            Ok(v) => v,
            Err(_) => {
                proof {
                    assert(!board_parses(b));
                }
                return Err(load_error("board stats end early"));
            },
        };
        if num_stats_raw < 0 {
            proof {
                assert(!board_parses(b));
            }
            return Err(load_error("cannot have a negative number of stats"));
        }
        let num_stats = num_stats_raw as usize + 1;
        let ghost spos0 = pos as int;
        proof {
            assert(spos0 == te + 88);
            assert(i16_at(b, te + 86) == num_stats_raw);
        }
        let mut stats: Vec<Stat> = Vec::new();
        let mut k: usize = 0;
        while k < num_stats
            invariant
                pos <= bytes@.len(),
                k <= num_stats,
                stats@.len() == k,
                pos as int == stat_pos_k(b, spos0, k as int),
                stats_parse_ok(b, spos0, num_stats as int) <==> stats_parse_ok(
                    b,
                    pos as int,
                    num_stats - k,
                ),
                forall|j: int|
                    0 <= j < k ==> stat_parsed(b, stat_pos_k(b, spos0, j), #[trigger] stats@[j]),
            decreases num_stats - k,
        {
            let ghost p_st = pos as int;
            match Stat::from_bytes(bytes, &mut pos) {
                Ok(st) => stats.push(st),
                Err(e) => {
                    proof {
                        assert(!stats_parse_ok(b, p_st, num_stats - k));
                        assert(!board_parses(b));
                    }
                    return Err(e);
                },
            }
            k = k + 1;
            proof {
                assert(pos as int == stat_end(b, p_st));
                assert(stat_pos_k(b, spos0, k as int) == stat_end(
                    b,
                    stat_pos_k(b, spos0, k - 1),
                ));
                assert(stats_parse_ok(b, p_st, num_stats - (k - 1)) <==> (stat_parses(b, p_st)
                    && stats_parse_ok(b, pos as int, num_stats - k)));
            }
        }
        proof {
            assert(stats_parse_ok(b, pos as int, 0));
            assert(stats_parse_ok(b, spos0, num_stats as int));
            assert(board_parses(b));
        }
        Ok(
            Board {
                name,
                terrain,
                max_shots,
                is_dark: is_dark_b != 0,
                board_n,
                board_s,
                board_w,
                board_e,
                reenter_when_zapped: reenter_b != 0,
                message,
                enter_x,
                enter_y,
                time_limit,
                stats,
            },
        )
    }
}

/// Where the board block whose size prefix sits at `pos` ends.
pub open spec fn block_end(b: Seq<u8>, pos: int) -> int {
    pos + 2 + u16_at(b, pos) as int
}

/// Where the `k`-th board block begins, behind the 512-byte header.
pub open spec fn board_pos_k(b: Seq<u8>, k: int) -> int
    decreases (if k > 0 { k } else { 0 }),
{
    if k <= 0 {
        512
    } else {
        block_end(b, board_pos_k(b, k - 1))
    }
}

/// The bytes at `pos..` hold `n` whole board blocks, one after another.
pub open spec fn blocks_parse_ok(b: Seq<u8>, pos: int, n: int) -> bool
    decreases (if n > 0 { n } else { 0 }),
{
    if n <= 0 {
        true
    } else {
        &&& pos + 2 <= b.len()
        &&& block_end(b, pos) <= b.len()
        &&& board_parses(b.subrange(pos, block_end(b, pos)))
        &&& blocks_parse_ok(b, block_end(b, pos), n - 1)
    }
}

/// The bytes hold a whole world file: the 512-byte header with its magic
/// and its string fields within capacity, a non-negative board count,
/// and that many board blocks plus one.
pub open spec fn world_parses(b: Seq<u8>) -> bool {
    &&& 512 <= b.len()
    &&& b[0] == 0xff && b[1] == 0xff
    &&& b[29] < 20
    &&& (forall|f: int| 0 <= f < 10 ==> #[trigger] b[50 + 21 * f] < 20)
    &&& i16_at(b, 2) >= 0
    &&& blocks_parse_ok(b, 512, i16_at(b, 2) + 1)
}

/// The world `w` is exactly what the file stores: every header field at
/// its fixed offset, and one parsed board per block.
pub open spec fn world_parsed(b: Seq<u8>, w: World) -> bool {
    &&& w.ammo == i16_at(b, 4) && w.gems == i16_at(b, 6)
    &&& w.keys@.len() == 7
    &&& (forall|i: int| 0 <= i < 7 ==> w.keys@[i] == (b[8 + i] != 0))
    &&& w.health == i16_at(b, 15)
    &&& w.starting_board == i16_at(b, 17)
    &&& w.torches == i16_at(b, 19)
    &&& w.torch_cycles == i16_at(b, 21)
    &&& w.energizer_cycles == i16_at(b, 23)
    &&& w.score == i16_at(b, 27)
    &&& w.world_name@ == pstring_at(b, 29)
    &&& w.flags@.len() == 10
    &&& (forall|f: int| 0 <= f < 10 ==> (#[trigger] w.flags@[f])@ == pstring_at(b, 50 + 21 * f))
    &&& w.time == i16_at(b, 260) && w.time_ticks == i16_at(b, 262)
    &&& w.locked == (b[264] != 0)
    &&& w.boards@.len() == i16_at(b, 2) + 1
    &&& (forall|k: int|
        0 <= k < w.boards@.len() ==> board_parsed(
            b.subrange(board_pos_k(b, k), block_end(b, board_pos_k(b, k))),
            #[trigger] w.boards@[k],
        ))
}

impl World {
    /// Read a whole world file: the fixed 512-byte header, then each
    /// board behind its size prefix, exactly as `world_parsed` says.
    #[verifier::loop_isolation(false)]
    #[verifier::rlimit(100)]
    pub fn from_bytes(bytes: &Vec<u8>) -> (r: Result<World, LoadError>)
        ensures
            r is Ok ==> r->Ok_0.keys@.len() == 7 && r->Ok_0.flags@.len() == 10,
            r is Ok <==> world_parses(bytes@),
            r matches Ok(w) ==> world_parsed(bytes@, w),
    {
        let ghost b = bytes@;
        let mut pos: usize = 0;
        if bytes.len() < 512 {
            return Err(load_error("world header ends early"));
        }
        let magic0 = bytes[0];
        let magic1 = bytes[1];
        if magic0 != 0xff || magic1 != 0xff {
            return Err(load_error("not a world file"));
        }
        pos = 2;
        let num_boards_raw = match rd_i16(bytes, &mut pos) {
            Ok(v) => v,
            Err(_) => {
                return Err(load_error("world header ends early"));
            },
        };
        let ammo = match rd_i16(bytes, &mut pos) {
            Ok(v) => v,
            Err(_) => {
                return Err(load_error("world header ends early"));
            },
        };
        let gems = match rd_i16(bytes, &mut pos) {
            Ok(v) => v,
            Err(_) => {
                return Err(load_error("world header ends early"));
            },
        };
        let mut keys: Vec<bool> = Vec::new();
        let mut k: usize = 0;
        while k < 7
            invariant
                pos <= bytes@.len(),
                pos == 8 + k,
                keys@.len() == k,
                k <= 7,
                forall|j: int| 0 <= j < k ==> keys@[j] == (b[8 + j] != 0),
            decreases 7 - k,
        {
            match rd_u8(bytes, &mut pos) {
                Ok(v) => keys.push(v != 0),
                Err(_) => {
                    return Err(load_error("world header ends early"));
                },
            }
            k = k + 1;
        }
        let health = match rd_i16(bytes, &mut pos) {
            Ok(v) => v,
            Err(_) => {
                return Err(load_error("world header ends early"));
            },
        };
        let starting_board = match rd_i16(bytes, &mut pos) {
            Ok(v) => v,
            Err(_) => {
                return Err(load_error("world header ends early"));
            },
        };
        let torches = match rd_i16(bytes, &mut pos) {
            Ok(v) => v,
            Err(_) => {
                return Err(load_error("world header ends early"));
            },
        };
        let torch_cycles = match rd_i16(bytes, &mut pos) {
            Ok(v) => v,
            Err(_) => {
                return Err(load_error("world header ends early"));
            },
        };
        let energizer_cycles = match rd_i16(bytes, &mut pos) {
            Ok(v) => v,
            Err(_) => {
                return Err(load_error("world header ends early"));
            },
        };
        match rd_skip(bytes, &mut pos, 2) {
            Ok(_) => {},
            Err(_) => {
                return Err(load_error("world header ends early"));
            },
        }
        let score = match rd_i16(bytes, &mut pos) {
            Ok(v) => v,
            Err(_) => {
                return Err(load_error("world header ends early"));
            },
        };
        let world_name = match rd_pstring(bytes, &mut pos, 20) {
            Ok(v) => v,
            Err(_) => {
                proof {
                    assert(!world_parses(b));
                }
                return Err(load_error("malformed world name"));
            },
        };
        let mut flags: Vec<Vec<u8>> = Vec::new();
        let mut f: usize = 0;
        while f < 10
            invariant
                pos <= bytes@.len(),
                pos == 50 + 21 * f,
                flags@.len() == f,
                f <= 10,
                512 <= b.len(),
                forall|j: int| 0 <= j < f ==> (#[trigger] flags@[j])@ == pstring_at(b, 50 + 21 * j),
                forall|j: int| 0 <= j < f ==> #[trigger] b[50 + 21 * j] < 20,
            decreases 10 - f,
        {
            match rd_pstring(bytes, &mut pos, 20) {
                Ok(v) => flags.push(v),
                Err(_) => {
                    proof {
                        assert(b[50 + 21 * (f as int)] >= 20);
                        assert(!world_parses(b));
                    }
                    return Err(load_error("malformed world flag"));
                },
            }
            f = f + 1;
        }
        let time = match rd_i16(bytes, &mut pos) {
            Ok(v) => v,
            Err(_) => {
                return Err(load_error("world header ends early"));
            },
        };
        let time_ticks = match rd_i16(bytes, &mut pos) {
            Ok(v) => v,
            Err(_) => {
                return Err(load_error("world header ends early"));
            },
        };
        let locked_b = match rd_u8(bytes, &mut pos) {
            Ok(v) => v,
            Err(_) => {
                return Err(load_error("world header ends early"));
            },
        };
        // the rest of the header is padding
        pos = 512;
        if num_boards_raw < 0 {
            proof {
                assert(!world_parses(b));
            }
            return Err(load_error("cannot have a negative number of boards"));
        }
        let num_boards = num_boards_raw as usize + 1;
        proof {
            assert(i16_at(b, 2) == num_boards_raw);
        }
        let mut boards: Vec<Board> = Vec::new();
        let mut bi: usize = 0;
        while bi < num_boards
            invariant
                pos <= bytes@.len(),
                bi <= num_boards,
                boards@.len() == bi,
                pos as int == board_pos_k(b, bi as int),
                blocks_parse_ok(b, 512, num_boards as int) <==> blocks_parse_ok(
                    b,
                    pos as int,
                    num_boards - bi,
                ),
                forall|j: int|
                    0 <= j < bi ==> board_parsed(
                        b.subrange(board_pos_k(b, j), block_end(b, board_pos_k(b, j))),
                        #[trigger] boards@[j],
                    ),
            decreases num_boards - bi,
        {
            let ghost p_bd = pos as int;
            let size_lo = match rd_u8(bytes, &mut pos) {
                Ok(v) => v,
                Err(_) => {
                    proof {
                        assert(!blocks_parse_ok(b, p_bd, num_boards - bi));
                        assert(!world_parses(b));
                    }
                    return Err(load_error("board block ends early"));
                },
            };
            let size_hi = match rd_u8(bytes, &mut pos) {
                Ok(v) => v,
                Err(_) => {
                    proof {
                        assert(!blocks_parse_ok(b, p_bd, num_boards - bi));
                        assert(!world_parses(b));
                    }
                    return Err(load_error("board block ends early"));
                },
            };
            let size = (size_lo as usize) + 256 * (size_hi as usize);
            proof {
                assert((size_lo as u16 | ((size_hi as u16) << 8)) == size_lo as u16 + 256
                    * (size_hi as u16)) by (bit_vector);
                assert(size as int == u16_at(b, p_bd) as int);
                assert(p_bd + 2 + size as int == block_end(b, p_bd));
            }
            pos = pos - 2;
            let block = match rd_bytes(bytes, &mut pos, size + 2) {
                Ok(v) => v,
                Err(_) => {
                    proof {
                        assert(!blocks_parse_ok(b, p_bd, num_boards - bi));
                        assert(!world_parses(b));
                    }
                    return Err(load_error("board block ends early"));
                },
            };
            proof {
                assert(block@ == b.subrange(p_bd, block_end(b, p_bd)));
            }
            match Board::from_bytes(&block) {
                Ok(bd) => boards.push(bd),
                Err(e) => {
                    proof {
                        assert(!board_parses(b.subrange(p_bd, block_end(b, p_bd))));
                        assert(!blocks_parse_ok(b, p_bd, num_boards - bi));
                        assert(!world_parses(b));
                    }
                    return Err(e);
                },
            }
            bi = bi + 1;
            proof {
                assert(pos as int == block_end(b, p_bd));
                assert(board_pos_k(b, bi as int) == block_end(b, board_pos_k(b, bi - 1)));
            }
        }
        proof {
            assert(blocks_parse_ok(b, pos as int, 0));
            assert(blocks_parse_ok(b, 512, num_boards as int));
            assert(world_parses(b));
        }
        Ok(
            World {
                ammo,
                gems,
                keys,
                health,
                starting_board,
                torches,
                torch_cycles,
                energizer_cycles,
                score,
                world_name,
                flags,
                time,
                time_ticks,
                locked: locked_b != 0,
                boards,
            },
        )
    }
}

} // verus!
