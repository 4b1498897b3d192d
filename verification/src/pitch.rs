//! Pitches. A pitch counts the equal steps of the octave, `edo` of them to each; a note's
//! MIDI channel tells its octave.
use vstd::prelude::*;
use crate::table::KeySet;
use crate::wtn;
use crate::wtn::Wtn;

verus! {

/// The channel (from 0) of a cell with the channel `chan_1based` (from 1) that is moved by
/// `shift`, kept within the sixteen that there are.
pub open spec fn channel(chan_1based: u8, shift: int) -> int {
    let base = if chan_1based == 0 {
        0
    } else {
        chan_1based - 1
    };
    if base + shift < 0 {
        0
    } else if base + shift > 15 {
        15
    } else {
        base + shift
    }
}

/// The channel (from 0) of a cell that is moved by `shift`.
pub fn out_channel(chan_1based: u8, shift: i16) -> (r: u8)
    ensures
        r == channel(chan_1based, shift as int),
        r <= 15,
{
    let base: i32 = if chan_1based == 0 {
        0
    } else {
        (chan_1based - 1) as i32
    };
    let moved: i32 = base + (shift as i32);
    if moved < 0 {
        0
    } else if moved > 15 {
        15
    } else {
        moved as u8
    }
}

/// The pitch of a note.
pub open spec fn pitch(ch: int, edo: int, note: int, offset: int) -> int {
    ch * edo + note + offset
}

/// The pitch of a note.
pub fn pitch_of(ch: u8, edo: i32, note: u8, offset: i32) -> (r: i64)
    ensures
        r == pitch(ch as int, edo as int, note as int, offset as int),
{
    assert(-0x80_0000_0000 <= ch * edo <= 0x80_0000_0000) by (nonlinear_arith)
        requires
            0 <= ch <= 255,
            -0x8000_0000 <= edo <= 0x7fff_ffff,
    ;
    (ch as i64) * (edo as i64) + (note as i64) + (offset as i64)
}

/// Where a pitch is within its octave. With a negative `edo` the places of negative pitches
/// are counted down from `edo`.
pub open spec fn pitch_class(x: int, edo: int) -> int {
    if edo > 0 {
        x % edo
    } else if x >= 0 {
        x % (-edo)
    } else if (-x) % (-edo) == 0 {
        0
    } else {
        edo - (-x) % (-edo)
    }
}

/// Where a pitch is within its octave.
pub fn pitch_class_of(x: i64, edo: i32) -> (r: i64)
    requires
        edo != 0,
        x > i64::MIN,
    ensures
        r == pitch_class(x as int, edo as int),
        -0x1_0000_0000 <= r <= 0x1_0000_0000,
        edo > 0 ==> 0 <= r < edo,
{
    let size: i64 = if edo > 0 {
        edo as i64
    } else {
        -(edo as i64)
    };
    if x >= 0 {
        x % size
    } else {
        let back: i64 = (-x) % size;
        proof {
            lemma_negative_class(x as int, size as int);
        }
        if back == 0 {
            0
        } else if edo > 0 {
            size - back
        } else {
            (edo as i64) - back
        }
    }
}

proof fn lemma_negative_class(x: int, size: int)
    requires
        x < 0,
        size > 0,
    ensures
        0 <= (-x) % size < size,
        x % size == (if (-x) % size == 0 {
            0
        } else {
            size - (-x) % size
        }),
{
    let q = (-x) / size;
    let m = (-x) % size;
    vstd::arithmetic::div_mod::lemma_fundamental_div_mod(-x, size);
    vstd::arithmetic::div_mod::lemma_mod_bound(-x, size);
    assert(size * q == q * size) by (nonlinear_arith);
    if m == 0 {
        assert(x == (-q) * size + 0) by (nonlinear_arith)
            requires
                -x == q * size,
        ;
        vstd::arithmetic::div_mod::lemma_fundamental_div_mod_converse(x, size, -q, 0);
    } else {
        assert(x == (-q - 1) * size + (size - m)) by (nonlinear_arith)
            requires
                -x == q * size + m,
        ;
        vstd::arithmetic::div_mod::lemma_fundamental_div_mod_converse(x, size, -q - 1, size - m);
    }
}

/// A pitch and one a whole number of octaves away are in the same place of the octave.
pub proof fn octaves_keep_the_class(x: int, edo: int, n: int)
    requires
        edo > 0,
    ensures
        0 <= pitch_class(x, edo) < edo,
        pitch_class(x + n * edo, edo) == pitch_class(x, edo),
{
    vstd::arithmetic::div_mod::lemma_mod_bound(x, edo);
    vstd::arithmetic::div_mod::lemma_mod_multiples_vanish(n, x, edo);
    assert(edo * n + x == x + n * edo) by (nonlinear_arith);
}

/// Moving by one channel moves the pitch by an octave, as long as there is a channel.
pub proof fn a_channel_is_an_octave(chan_1based: u8, shift: int, edo: int, note: int, offset: int)
    requires
        0 <= channel(chan_1based, shift) < 15,
        channel(chan_1based, shift + 1) != channel(chan_1based, shift),
    ensures
        pitch(channel(chan_1based, shift + 1), edo, note, offset) == pitch(
            channel(chan_1based, shift),
            edo,
            note,
            offset,
        ) + edo,
{
    let c = channel(chan_1based, shift);
    assert((c + 1) * edo == c * edo + edo) by (nonlinear_arith);
}

/// The pitch of the cell `i` of a board, where it has one.
pub open spec fn cell_pitch(
    boards: Map<u8, Seq<wtn::WtnCell>>,
    board: u8,
    i: int,
    edo: i32,
    offset: i32,
    shift: i8,
) -> Option<int> {
    match wtn::cell_of(boards, board, i) {
        Some(c) => Some(
            pitch(channel(c.chan_1based, shift as int), edo as int, c.key as int, offset as int),
        ),
        None => None,
    }
}

/// A cell's pitch is its octave, counted from channel 1, and its note in steps, with the
/// layout's offset.
pub proof fn pitch_is_channel_and_note(
    boards: Map<u8, Seq<wtn::WtnCell>>,
    board: u8,
    i: int,
    edo: i32,
    offset: i32,
)
    requires
        wtn::cell_of(boards, board, i) matches Some(c) && 1 <= c.chan_1based <= 16,
    ensures
        cell_pitch(boards, board, i, edo, offset, 0) == Some(
            (wtn::cell_of(boards, board, i)->0.chan_1based - 1) * edo + wtn::cell_of(
                boards,
                board,
                i,
            )->0.key + offset,
        ),
{
}

/// The pitches of a layout.
#[derive(Debug, Clone)]
pub struct LayoutPitches {
    pub board0: Vec<Option<i64>>,
    pub board1: Vec<Option<i64>>,
}

/// Whether `v` holds the pitches of the cells of a board.
pub open spec fn holds_pitches(
    v: Seq<Option<i64>>,
    boards: Map<u8, Seq<wtn::WtnCell>>,
    board: u8,
    edo: i32,
    offset: i32,
    shift: i8,
) -> bool {
    v.len() == 56 && forall|i: int|
        0 <= i < 56 ==> match cell_pitch(boards, board, i, edo, offset, shift) {
            Some(p) => #[trigger] v[i] == Some(p as i64) && p == p as i64,
            None => v[i] is None,
        }
}

fn board_pitches(wtn: &Wtn, board: u8, edo: i32, pitch_offset: i32, octave_shift: i8) -> (r: Vec<
    Option<i64>,
>)
    ensures
        holds_pitches(r@, wtn@, board, edo, pitch_offset, octave_shift),
{
    let mut out: Vec<Option<i64>> = Vec::new();
    for idx in 0..56usize
        invariant
            out@.len() == idx,
            forall|i: int|
                0 <= i < idx ==> match cell_pitch(
                    wtn@,
                    board,
                    i,
                    edo,
                    pitch_offset,
                    octave_shift,
                ) {
                    Some(p) => #[trigger] out@[i] == Some(p as i64) && p == p as i64,
                    None => out@[i] is None,
                },
    {
        match wtn.cell(board, idx) {
            Some(cell) => {
                let ch: u8 = out_channel(cell.chan_1based, octave_shift as i16);
                out.push(Some(pitch_of(ch, edo, cell.key, pitch_offset)));
            },
            None => {
                out.push(None);
            },
        }
    }
    out
}

/// The pitches of a layout's cells, with every channel moved by `octave_shift`.
pub fn compute_layout_pitches(
    wtn: &Wtn,
    edo: i32,
    pitch_offset: i32,
    octave_shift: i8,
) -> (r: LayoutPitches)
    ensures
        holds_pitches(r.board0@, wtn@, 0, edo, pitch_offset, octave_shift),
        holds_pitches(r.board1@, wtn@, 1, edo, pitch_offset, octave_shift),
{
    LayoutPitches {
        board0: board_pitches(wtn, 0, edo, pitch_offset, octave_shift),
        board1: board_pitches(wtn, 1, edo, pitch_offset, octave_shift),
    }
}

/// The pitches of the notes 0 to 127 on a channel.
pub fn tuning_table(ch: u8, edo: i32, pitch_offset: i32) -> (r: Vec<i64>)
    ensures
        r@.len() == 128,
        forall|note: int|
            0 <= note < 128 ==> #[trigger] r@[note] == pitch(
                ch as int,
                edo as int,
                note,
                pitch_offset as int,
            ),
{
    let mut out: Vec<i64> = Vec::new();
    for note in 0..128u8
        invariant
            out@.len() == note,
            forall|i: int|
                0 <= i < note ==> #[trigger] out@[i] == pitch(
                    ch as int,
                    edo as int,
                    i,
                    pitch_offset as int,
                ),
    {
        out.push(pitch_of(ch, edo, note, pitch_offset));
    }
    out
}

/// The tuning tables of a layout: one for notes of no channel, the octave of the lowest,
/// and one for each channel.
#[derive(Debug, Clone)]
pub struct TuningTables {
    pub general: Vec<i64>,
    pub channels: Vec<Vec<i64>>,
}

/// The tuning tables of a layout.
pub fn tuning_tables(edo: i32, pitch_offset: i32) -> (r: TuningTables)
    ensures
        r.general@.len() == 128,
        forall|note: int| 0 <= note < 128 ==> #[trigger] r.general@[note] == note + pitch_offset,
        r.channels@.len() == 16,
        forall|ch: int| 0 <= ch < 16 ==> (#[trigger] r.channels@[ch])@.len() == 128,
        forall|ch: int, note: int|
            0 <= ch < 16 && 0 <= note < 128 ==> #[trigger] r.channels@[ch]@[note] == pitch(
                ch,
                edo as int,
                note,
                pitch_offset as int,
            ),
{
    let mut channels: Vec<Vec<i64>> = Vec::new();
    for ch in 0..16u8
        invariant
            channels@.len() == ch,
            forall|c: int| 0 <= c < ch ==> (#[trigger] channels@[c])@.len() == 128,
            forall|c: int, note: int|
                0 <= c < ch && 0 <= note < 128 ==> #[trigger] channels@[c]@[note] == pitch(
                    c,
                    edo as int,
                    note,
                    pitch_offset as int,
                ),
    {
        channels.push(tuning_table(ch, edo, pitch_offset));
    }
    let general: Vec<i64> = tuning_table(0, edo, pitch_offset);
    assert(0 * edo == 0);
    TuningTables { general, channels }
}

/// What the chord guide does.
#[derive(Debug, Clone, Copy, PartialEq, Eq, Structural)]
pub enum GuideMode {
    Off,
    /// It waits for a key that gives the root.
    WaitRoot,
    Active,
}

/// A colour with each of its channels looked up in `dims`.
pub open spec fn dimmed(rgb: (u8, u8, u8), dims: Seq<u8>) -> (u8, u8, u8) {
    (dims[rgb.0 as int], dims[rgb.1 as int], dims[rgb.2 as int])
}

/// A colour with each of its channels looked up in `dims`.
pub fn dim_with(rgb: (u8, u8, u8), dims: &Vec<u8>) -> (r: (u8, u8, u8))
    requires
        dims@.len() == 256,
    ensures
        r == dimmed(rgb, dims@),
{
    (dims[rgb.0 as usize], dims[rgb.1 as usize], dims[rgb.2 as usize])
}

/// The places of the octave that a chord has when its root is at `root`.
pub open spec fn chord_classes(pcs_root: Seq<i32>, root: int, edo: int) -> Set<i64> {
    pcs_root.map_values(|pc: i32| pitch_class(pc + root, edo) as i64).to_set()
}

/// The colour of a cell that is not pressed: its own where the guide is off or its note is
/// in the chord, dimmed elsewhere.
pub open spec fn idle_rgb(
    base: (u8, u8, u8),
    note: u8,
    edo: i32,
    pitch_offset: i32,
    mode: GuideMode,
    pcs_abs: Set<i64>,
    dims: Seq<u8>,
) -> (u8, u8, u8) {
    if mode == GuideMode::Off || (edo > 0 && mode == GuideMode::Active && pcs_abs.contains(
        pitch_class(note + pitch_offset, edo as int) as i64,
    )) {
        base
    } else {
        dimmed(base, dims)
    }
}

/// The colour of a cell that is not pressed. `dims` gives the dimmed form of each value
/// of a colour's channel.
pub fn guide_idle_rgb(
    base: (u8, u8, u8),
    note: u8,
    edo: i32,
    pitch_offset: i32,
    guide_mode: GuideMode,
    pcs_abs: &KeySet<i64>,
    dims: &Vec<u8>,
) -> (r: (u8, u8, u8))
    requires
        dims@.len() == 256,
    ensures
        r == idle_rgb(base, note, edo, pitch_offset, guide_mode, pcs_abs@, dims@),
{
    if guide_mode == GuideMode::Off {
        return base;
    }
    if edo <= 0 {
        return dim_with(base, dims);
    }
    let pc: i64 = pitch_class_of((note as i64) + (pitch_offset as i64), edo);
    if guide_mode == GuideMode::Active && pcs_abs.contains(pc) {
        base
    } else {
        dim_with(base, dims)
    }
}

/// The places of the octave that a chord has when its root is at `root`.
pub fn chord_classes_of(pcs_root: &Vec<i32>, root: i64, edo: i32) -> (r: KeySet<i64>)
    requires
        edo != 0,
        -0x1_0000_0000 <= root <= 0x1_0000_0000,
    ensures
        r@ == chord_classes(pcs_root@, root as int, edo as int),
{
    let mut out: KeySet<i64> = KeySet::new();
    let ghost all = pcs_root@.map_values(|pc: i32| pitch_class(pc + root, edo as int) as i64);
    assert(all.take(0).to_set() =~= Set::<i64>::empty());
    for i in 0..pcs_root.len()
        invariant
            edo != 0,
            -0x1_0000_0000 <= root <= 0x1_0000_0000,
            all == pcs_root@.map_values(|pc: i32| pitch_class(pc + root, edo as int) as i64),
            out@ == all.take(i as int).to_set(),
    {
        let pc: i64 = pitch_class_of((pcs_root[i] as i64) + root, edo);
        out.insert(pc);
        assert(all[i as int] == pc);
        assert(all.take(i + 1) =~= all.take(i as int).push(pc));
        assert(all.take(i as int).push(pc).to_set() =~= all.take(i as int).to_set().insert(pc)) by {
            let s = all.take(i as int);
            assert forall|x: i64| s.push(pc).contains(x) == (s.contains(x) || x == pc) by {
                if s.contains(x) {
                    let j = choose|j: int| 0 <= j < s.len() && s[j] == x;
                    assert(s.push(pc)[j] == x);
                }
                if x == pc {
                    assert(s.push(pc)[s.len() as int] == x);
                }
            }
        }
    }
    assert(all.take(pcs_root@.len() as int) =~= all);
    out
}

/// The channel of a cell is its own, counted from 0, moved by the shift; it stays within
/// the sixteen that there are, and a cell without a channel counts as one of the first.
pub proof fn channels_move_with_the_shift(chan_1based: u8, shift: int)
    ensures
        1 <= chan_1based && 0 <= chan_1based - 1 + shift <= 15 ==> channel(chan_1based, shift)
            == chan_1based - 1 + shift,
        1 <= chan_1based && chan_1based - 1 + shift < 0 ==> channel(chan_1based, shift) == 0,
        1 <= chan_1based && chan_1based - 1 + shift > 15 ==> channel(chan_1based, shift) == 15,
        channel(0, shift) == channel(1, shift),
{
}

/// A pitch grows by one with each note and with each step of the offset, and by an octave
/// of `edo` steps with each channel; the lowest note of the lowest channel is at the offset.
pub proof fn pitches_count_steps(ch: int, edo: int, note: int, offset: int)
    ensures
        pitch(0, edo, 0, offset) == offset,
        pitch(ch, edo, note + 1, offset) == pitch(ch, edo, note, offset) + 1,
        pitch(ch, edo, note, offset + 1) == pitch(ch, edo, note, offset) + 1,
        pitch(ch + 1, edo, note, offset) == pitch(ch, edo, note, offset) + edo,
        pitch(ch, edo, note, offset) == ch * edo + note + offset,
{
    assert((ch + 1) * edo == ch * edo + edo) by (nonlinear_arith);
    assert(0 * edo == 0);
}

/// A pitch within the first octave is its own place, and every pitch is a whole number of
/// octaves away from its place.
pub proof fn places_are_whole_octaves_away(x: int, edo: int)
    requires
        edo != 0,
    ensures
        edo > 0 ==> 0 <= pitch_class(x, edo) < edo,
        0 <= x < edo ==> pitch_class(x, edo) == x,
        edo < 0 && x >= 0 ==> 0 <= pitch_class(x, edo) < -edo,
        edo < 0 && x < 0 ==> pitch_class(x, edo) == 0 || 2 * edo < pitch_class(x, edo) < edo,
        exists|q: int| x == #[trigger] (q * edo) + pitch_class(x, edo),
{
    if edo > 0 {
        vstd::arithmetic::div_mod::lemma_fundamental_div_mod(x, edo);
        vstd::arithmetic::div_mod::lemma_mod_bound(x, edo);
        if 0 <= x < edo {
            vstd::arithmetic::div_mod::lemma_small_mod(x as nat, edo as nat);
        }
        let q = x / edo;
        assert(edo * q == q * edo) by (nonlinear_arith);
        assert(x == q * edo + pitch_class(x, edo));
    } else {
        let size = -edo;
        if x >= 0 {
            vstd::arithmetic::div_mod::lemma_fundamental_div_mod(x, size);
            vstd::arithmetic::div_mod::lemma_mod_bound(x, size);
            let q = -(x / size);
            assert(size * (x / size) == q * edo) by (nonlinear_arith)
                requires
                    size == -edo,
                    q == -(x / size),
            ;
            assert(x == q * edo + pitch_class(x, edo));
        } else {
            vstd::arithmetic::div_mod::lemma_fundamental_div_mod(-x, size);
            vstd::arithmetic::div_mod::lemma_mod_bound(-x, size);
            let back = (-x) / size;
            let m = (-x) % size;
            let q = if m == 0 {
                back
            } else {
                back - 1
            };
            assert(back * edo == -(size * back)) by (nonlinear_arith)
                requires
                    size == -edo,
            ;
            assert((back - 1) * edo == back * edo - edo) by (nonlinear_arith);
            assert(x == q * edo + pitch_class(x, edo));
        }
    }
}

/// A place of the octave is lit by a chord exactly if it is that of one of the chord's notes
/// above the root.
pub proof fn chords_light_their_notes(pcs_root: Seq<i32>, root: int, edo: i32, x: i64)
    requires
        edo > 0,
    ensures
        chord_classes(pcs_root, root, edo as int).contains(x) <==> exists|i: int|
            0 <= i < pcs_root.len() && x == (#[trigger] pcs_root[i] + root) % (edo as int),
{
    let all = pcs_root.map_values(|pc: i32| pitch_class(pc + root, edo as int) as i64);
    assert forall|i: int| 0 <= i < pcs_root.len() implies all[i] == (#[trigger] pcs_root[i] + root)
        % (edo as int) by {
        vstd::arithmetic::div_mod::lemma_mod_bound(pcs_root[i] + root, edo as int);
    }
    if all.to_set().contains(x) {
        let i = choose|i: int| 0 <= i < all.len() && all[i] == x;
        assert(x == (pcs_root[i] + root) % (edo as int));
    }
    if exists|i: int| 0 <= i < pcs_root.len() && x == (#[trigger] pcs_root[i] + root) % (edo as int) {
        let i = choose|i: int|
            0 <= i < pcs_root.len() && x == (#[trigger] pcs_root[i] + root) % (edo as int);
        assert(all[i] == x);
    }
}

/// A key that is not pressed has its own colour while the guide is off, and while the guide
/// is active where the place of its note in the octave, with the layout's offset, is lit;
/// else it is dimmed.
pub proof fn keys_at_rest_show_the_chord(
    base: (u8, u8, u8),
    note: u8,
    edo: i32,
    offset: i32,
    pcs_abs: Set<i64>,
    dims: Seq<u8>,
)
    ensures
        ({
            let dim = (dims[base.0 as int], dims[base.1 as int], dims[base.2 as int]);
            let place = (note + offset) % (edo as int);
            &&& idle_rgb(base, note, edo, offset, GuideMode::Off, pcs_abs, dims) == base
            &&& idle_rgb(base, note, edo, offset, GuideMode::WaitRoot, pcs_abs, dims) == dim
            &&& edo <= 0 ==> idle_rgb(base, note, edo, offset, GuideMode::Active, pcs_abs, dims)
                == dim
            &&& edo > 0 && pcs_abs.contains(place as i64) ==> idle_rgb(
                base,
                note,
                edo,
                offset,
                GuideMode::Active,
                pcs_abs,
                dims,
            ) == base
            &&& edo > 0 && !pcs_abs.contains(place as i64) ==> idle_rgb(
                base,
                note,
                edo,
                offset,
                GuideMode::Active,
                pcs_abs,
                dims,
            ) == dim
        }),
{
}

/// A cell's pitch is that of its note on its own channel, moved by the octave; a missing
/// cell has none.
pub proof fn cells_have_the_pitch_they_play(
    boards: Map<u8, Seq<wtn::WtnCell>>,
    board: u8,
    i: int,
    edo: i32,
    offset: i32,
    shift: i8,
)
    ensures
        cell_pitch(boards, board, i, edo, offset, shift) is Some <==> boards.contains_key(board)
            && 0 <= i < boards[board].len(),
        cell_pitch(boards, board, i, edo, offset, shift) matches Some(p) ==> {
            let cell = boards[board][i];
            let ch = if cell.chan_1based == 0 {
                shift as int
            } else {
                cell.chan_1based - 1 + shift
            };
            let kept = if ch < 0 {
                0
            } else if ch > 15 {
                15
            } else {
                ch
            };
            p == kept * edo + cell.key + offset
        },
{
}

/// A list of pitches holds the pitch of each of the fifty-six cells of a board: its channel
/// from 0 moved by the octave, within the sixteen, times the division of the octave, with its
/// note and the offset; and nothing where there is no cell.
pub proof fn lists_hold_the_pitch_of_each_cell(
    v: Seq<Option<i64>>,
    boards: Map<u8, Seq<wtn::WtnCell>>,
    board: u8,
    edo: i32,
    offset: i32,
    shift: i8,
    i: int,
)
    requires
        holds_pitches(v, boards, board, edo, offset, shift),
        0 <= i < 56,
    ensures
        v.len() == 56,
        v[i] is Some <==> boards.contains_key(board) && i < boards[board].len(),
        v[i] matches Some(p) ==> {
            let cell = boards[board][i];
            let ch = if cell.chan_1based == 0 {
                shift as int
            } else {
                cell.chan_1based - 1 + shift
            };
            p == (if ch < 0 {
                0
            } else if ch > 15 {
                15
            } else {
                ch
            }) * edo + cell.key + offset
        },
{
    cells_have_the_pitch_they_play(boards, board, i, edo, offset, shift);
    let p = cell_pitch(boards, board, i, edo, offset, shift);
    assert(v[i] is Some <==> p is Some);
}

} // verus!
