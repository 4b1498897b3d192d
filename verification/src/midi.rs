//! What is sent besides notes: controllers and pitch bends, each only when it changes.
use vstd::prelude::*;
use crate::pitch;
use crate::table::{Key, Table};
use crate::wtn;
use crate::wtn::{Wtn, WtnCell};

verus! {

/// A channel of a keyboard.
#[derive(Debug, Clone, Copy, PartialEq, Eq, Structural)]
pub struct DeviceChannel {
    pub device_id: u64,
    pub ch: u8,
}

impl Key for DeviceChannel {
    fn same(&self, other: &Self) -> (b: bool) {
        self.device_id == other.device_id && self.ch == other.ch
    }
}

/// A controller message.
#[derive(Debug, Clone, Copy, PartialEq, Eq, Structural)]
pub struct ControlChange {
    pub ch: u8,
    pub cc: u32,
    pub value: u8,
}

/// The messages that silence the channels below `n`: sustain off, all sound off, all notes
/// off.
pub open spec fn silencing(n: int) -> Seq<ControlChange>
    decreases n,
{
    if n <= 0 {
        Seq::empty()
    } else {
        silencing(n - 1) + seq![
            ControlChange { ch: (n - 1) as u8, cc: 64, value: 0 },
            ControlChange { ch: (n - 1) as u8, cc: 120, value: 0 },
            ControlChange { ch: (n - 1) as u8, cc: 123, value: 0 },
        ]
    }
}

/// The messages that silence everything.
pub fn panic_all() -> (r: Vec<ControlChange>)
    ensures
        r@ == silencing(16),
{
    let mut out: Vec<ControlChange> = Vec::new();
    for ch in 0..16u8
        invariant
            out@ == silencing(ch as int),
    {
        let ghost before = out@;
        out.push(ControlChange { ch, cc: 64, value: 0 });
        out.push(ControlChange { ch, cc: 120, value: 0 });
        out.push(ControlChange { ch, cc: 123, value: 0 });
        assert(out@ =~= before + seq![
            ControlChange { ch, cc: 64, value: 0 },
            ControlChange { ch, cc: 120, value: 0 },
            ControlChange { ch, cc: 123, value: 0 },
        ]);
    }
    out
}

/// A bend within what MIDI can send.
pub fn bend_value(bend: i32) -> (r: i32)
    ensures
        r == (if bend < -8192 {
            -8192
        } else if bend > 8191 {
            8191
        } else {
            bend as int
        }),
{
    if bend < -8192 {
        -8192
    } else if bend > 8191 {
        8191
    } else {
        bend
    }
}

/// Whether a board of the layout, moved by `shift`, uses a channel in its cells below `n`.
pub open spec fn uses_channel(
    cells: Map<u8, Seq<WtnCell>>,
    board: u8,
    shift: int,
    ch: int,
    n: int,
) -> bool {
    exists|i: int|
        0 <= i < n && (#[trigger] wtn::cell_of(cells, board, i) matches Some(c) && pitch::channel(
            c.chan_1based,
            shift,
        ) == ch)
}

/// The channels that a board of the layout uses when it is moved by `shift`, from the lowest
/// up.
pub fn board_channels(wtn: &Wtn, board: u8, shift: i16) -> (r: Vec<u8>)
    ensures
        forall|c: u8| #[trigger] r@.contains(c) <==> uses_channel(wtn@, board, shift as int, c as int, 56),
        forall|i: int, j: int| 0 <= i < j < r@.len() ==> r@[i] < r@[j],
{
    let mut used: Vec<bool> = vec![false; 16];
    for i in 0..56usize
        invariant
            used@.len() == 16,
            forall|c: int|
                0 <= c < 16 ==> #[trigger] used@[c] == uses_channel(
                    wtn@,
                    board,
                    shift as int,
                    c,
                    i as int,
                ),
    {
        let ghost before = used@;
        let ghost mut now: int = -1;
        match wtn.cell(board, i) {
            Some(cell) => {
                let ch: u8 = pitch::out_channel(cell.chan_1based, shift);
                used.set(ch as usize, true);
                proof {
                    now = ch as int;
                }
            },
            None => {},
        }
        proof {
            assert forall|c: int| 0 <= c < 16 implies #[trigger] used@[c] == uses_channel(
                wtn@,
                board,
                shift as int,
                c,
                i + 1,
            ) by {
                if before[c] {
                    let j = choose|j: int|
                        0 <= j < i && (#[trigger] wtn::cell_of(wtn@, board, j) matches Some(x)
                            && pitch::channel(x.chan_1based, shift as int) == c);
                    assert(wtn::cell_of(wtn@, board, j) is Some);
                }
                if now == c {
                    assert(wtn::cell_of(wtn@, board, i as int) is Some);
                }
                if uses_channel(wtn@, board, shift as int, c, i + 1) && !before[c] {
                    let j = choose|j: int|
                        0 <= j < i + 1 && (#[trigger] wtn::cell_of(wtn@, board, j) matches Some(x)
                            && pitch::channel(x.chan_1based, shift as int) == c);
                    assert(j == i) by {
                        if j < i {
                            assert(wtn::cell_of(wtn@, board, j) is Some);
                            assert(uses_channel(wtn@, board, shift as int, c, i as int));
                        }
                    }
                }
            }
        }
    }
    let mut out: Vec<u8> = Vec::new();
    for ch in 0..16u8
        invariant
            used@.len() == 16,
            forall|c: int|
                0 <= c < 16 ==> #[trigger] used@[c] == uses_channel(
                    wtn@,
                    board,
                    shift as int,
                    c,
                    56,
                ),
            forall|c: u8| #[trigger] out@.contains(c) <==> c < ch && used@[c as int],
            forall|i: int, j: int| 0 <= i < j < out@.len() ==> out@[i] < out@[j],
            forall|i: int| 0 <= i < out@.len() ==> #[trigger] out@[i] < ch,
    {
        if used[ch as usize] {
            let ghost before = out@;
            out.push(ch);
            proof {
                assert forall|c: u8| #[trigger] out@.contains(c) <==> c < ch + 1 && used@[c as int] by {
                    if before.contains(c) {
                        let i = choose|i: int| 0 <= i < before.len() && before[i] == c;
                        assert(out@[i] == c);
                    }
                    if c == ch {
                        assert(out@[before.len() as int] == c);
                    }
                    if out@.contains(c) {
                        let i = choose|i: int| 0 <= i < out@.len() && out@[i] == c;
                        if i < before.len() {
                            assert(before[i] == c);
                            assert(before.contains(c));
                        }
                    }
                }
            }
        }
    }
    proof {
        assert forall|c: u8| #[trigger] out@.contains(c) <==> uses_channel(
            wtn@,
            board,
            shift as int,
            c as int,
            56,
        ) by {
            if uses_channel(wtn@, board, shift as int, c as int, 56) {
                let j = choose|j: int|
                    0 <= j < 56 && (#[trigger] wtn::cell_of(wtn@, board, j) matches Some(x)
                        && pitch::channel(x.chan_1based, shift as int) == c);
                assert(c < 16);
            }
        }
    }
    out
}

/// What was last sent on each channel of each keyboard.
#[derive(Debug, Clone)]
pub struct LastSent {
    pub values: Table<DeviceChannel, i32>,
}

/// What was last sent on a channel; `never` where nothing was.
pub open spec fn last_on(m: Map<DeviceChannel, i32>, device_id: u64, ch: u8, never: i32) -> i32 {
    if m.contains_key(DeviceChannel { device_id, ch }) {
        m[DeviceChannel { device_id, ch }]
    } else {
        never
    }
}

/// What was last sent, after `value` went to those of `chans` where it differs, and those
/// channels.
pub open spec fn sent_to(
    m: Map<DeviceChannel, i32>,
    device_id: u64,
    chans: Seq<u8>,
    value: i32,
    never: i32,
) -> (Map<DeviceChannel, i32>, Seq<u8>)
    decreases chans.len(),
{
    if chans.len() == 0 {
        (m, Seq::empty())
    } else {
        let (m1, out) = sent_to(m, device_id, chans.drop_last(), value, never);
        let ch = chans.last();
        if last_on(m1, device_id, ch, never) != value {
            (m1.insert(DeviceChannel { device_id, ch }, value), out.push(ch))
        } else {
            (m1, out)
        }
    }
}

/// `m` without the channels below `n` of a keyboard.
pub open spec fn without_channels(m: Map<DeviceChannel, i32>, device_id: u64, n: int) -> Map<
    DeviceChannel,
    i32,
>
    decreases n,
{
    if n <= 0 {
        m
    } else {
        without_channels(m, device_id, n - 1).remove(DeviceChannel { device_id, ch: (n - 1) as u8 })
    }
}

impl LastSent {
    pub fn new() -> (r: Self)
        ensures
            r.values@ == Map::<DeviceChannel, i32>::empty(),
    {
        LastSent { values: Table::new() }
    }

    /// Notes that `value` is sent to those of `chans` where it differs from what was last
    /// sent, and returns those channels.
    pub fn send(&mut self, device_id: u64, chans: &Vec<u8>, value: i32, never: i32) -> (r: Vec<u8>)
        ensures
            (final(self).values@, r@) == sent_to(
                old(self).values@,
                device_id,
                chans@,
                value,
                never,
            ),
    {
        let mut out: Vec<u8> = Vec::new();
        assert(chans@.take(0) =~= Seq::empty());
        assert(out@ =~= Seq::empty());
        for i in 0..chans.len()
            invariant
                (self.values@, out@) == sent_to(
                    old(self).values@,
                    device_id,
                    chans@.take(i as int),
                    value,
                    never,
                ),
        {
            assert(chans@.take(i + 1).drop_last() =~= chans@.take(i as int));
            let k = DeviceChannel { device_id, ch: chans[i] };
            let last: i32 = match self.values.get(k) {
                Some(v) => *v,
                None => never,
            };
            if last != value {
                self.values.insert(k, value);
                out.push(chans[i]);
            }
        }
        assert(chans@.take(chans@.len() as int) =~= chans@);
        out
    }

    /// Forgets what was sent on the channels of a keyboard.
    pub fn forget(&mut self, device_id: u64)
        ensures
            final(self).values@ == without_channels(old(self).values@, device_id, 16),
    {
        for ch in 0..16u8
            invariant
                self.values@ == without_channels(old(self).values@, device_id, ch as int),
        {
            self.values.remove(DeviceChannel { device_id, ch });
        }
    }
}

/// After a value was sent to some channels, it is what was last sent on each of them, and
/// sending it again sends nothing.
pub proof fn nothing_is_sent_twice(
    m: Map<DeviceChannel, i32>,
    device_id: u64,
    chans: Seq<u8>,
    value: i32,
    never: i32,
)
    requires
        value != never,
    ensures
        forall|i: int|
            0 <= i < chans.len() ==> last_on(
                sent_to(m, device_id, chans, value, never).0,
                device_id,
                #[trigger] chans[i],
                never,
            ) == value,
        sent_to(
            sent_to(m, device_id, chans, value, never).0,
            device_id,
            chans,
            value,
            never,
        ).1.len() == 0,
{
    lemma_all_sent(m, device_id, chans, value, never);
    lemma_none_left(sent_to(m, device_id, chans, value, never).0, device_id, chans, value, never);
}

proof fn lemma_all_sent(
    m: Map<DeviceChannel, i32>,
    device_id: u64,
    chans: Seq<u8>,
    value: i32,
    never: i32,
)
    requires
        value != never,
    ensures
        forall|i: int|
            0 <= i < chans.len() ==> last_on(
                sent_to(m, device_id, chans, value, never).0,
                device_id,
                #[trigger] chans[i],
                never,
            ) == value,
    decreases chans.len(),
{
    if chans.len() > 0 {
        let front = chans.drop_last();
        lemma_all_sent(m, device_id, front, value, never);
        assert forall|i: int| 0 <= i < chans.len() implies last_on(
            sent_to(m, device_id, chans, value, never).0,
            device_id,
            #[trigger] chans[i],
            never,
        ) == value by {
            if i < front.len() {
                assert(front[i] == chans[i]);
            }
        }
    }
}

proof fn lemma_none_left(
    m: Map<DeviceChannel, i32>,
    device_id: u64,
    chans: Seq<u8>,
    value: i32,
    never: i32,
)
    requires
        forall|i: int|
            0 <= i < chans.len() ==> last_on(m, device_id, #[trigger] chans[i], never) == value,
    ensures
        sent_to(m, device_id, chans, value, never) == (m, Seq::<u8>::empty()),
    decreases chans.len(),
{
    if chans.len() > 0 {
        let front = chans.drop_last();
        assert forall|i: int| 0 <= i < front.len() implies last_on(
            m,
            device_id,
            #[trigger] front[i],
            never,
        ) == value by {
            assert(front[i] == chans[i]);
        }
        lemma_none_left(m, device_id, front, value, never);
        assert(last_on(m, device_id, chans[chans.len() - 1], never) == value);
    }
}

proof fn lemma_silencing(n: int, c: int)
    requires
        0 <= c < n <= 16,
    ensures
        silencing(n).len() == 3 * n,
        silencing(n)[3 * c] == (ControlChange { ch: c as u8, cc: 64, value: 0 }),
        silencing(n)[3 * c + 1] == (ControlChange { ch: c as u8, cc: 120, value: 0 }),
        silencing(n)[3 * c + 2] == (ControlChange { ch: c as u8, cc: 123, value: 0 }),
    decreases n,
{
    assert(silencing(0).len() == 0);
    if c < n - 1 {
        lemma_silencing(n - 1, c);
    } else if n > 1 {
        lemma_silencing(n - 1, 0);
    }
}

/// Silencing everything tells each of the sixteen channels, one after the other, to let go
/// of the sustain, to end all sound and to end all notes; and nothing else.
pub proof fn silence_goes_to_every_channel(ch: u8)
    requires
        ch < 16,
    ensures
        silencing(16).len() == 48,
        silencing(16)[3 * ch] == (ControlChange { ch, cc: 64, value: 0 }),
        silencing(16)[3 * ch + 1] == (ControlChange { ch, cc: 120, value: 0 }),
        silencing(16)[3 * ch + 2] == (ControlChange { ch, cc: 123, value: 0 }),
{
    lemma_silencing(16, ch as int);
}

/// A board uses a channel exactly if one of its cells plays on it: the cell's channel from
/// 0, moved by the shift, within the sixteen that there are.
pub proof fn channels_are_those_of_the_cells(
    cells: Map<u8, Seq<WtnCell>>,
    board: u8,
    shift: int,
    ch: int,
    n: int,
)
    ensures
        uses_channel(cells, board, shift, ch, n) <==> cells.contains_key(board) && exists|i: int|
            0 <= i < n && i < cells[board].len() && {
                let base = if (#[trigger] cells[board][i]).chan_1based == 0 {
                    0
                } else {
                    cells[board][i].chan_1based - 1
                };
                ch == (if base + shift < 0 {
                    0
                } else if base + shift > 15 {
                    15
                } else {
                    base + shift
                })
            },
{
    if uses_channel(cells, board, shift, ch, n) {
        let i = choose|i: int|
            0 <= i < n && (#[trigger] wtn::cell_of(cells, board, i) matches Some(c)
                && pitch::channel(c.chan_1based, shift) == ch);
        assert(cells[board][i].chan_1based == wtn::cell_of(cells, board, i)->0.chan_1based);
    }
    if cells.contains_key(board) && exists|i: int|
        0 <= i < n && i < cells[board].len() && pitch::channel(
            (#[trigger] cells[board][i]).chan_1based,
            shift,
        ) == ch {
        let i = choose|i: int|
            0 <= i < n && i < cells[board].len() && pitch::channel(
                (#[trigger] cells[board][i]).chan_1based,
                shift,
            ) == ch;
        assert(wtn::cell_of(cells, board, i) matches Some(c) && pitch::channel(
            c.chan_1based,
            shift,
        ) == ch);
    }
}

/// Whether the value that was last sent on a channel of a keyboard is another.
pub open spec fn differs(
    m: Map<DeviceChannel, i32>,
    device_id: u64,
    ch: u8,
    value: i32,
    never: i32,
) -> bool {
    if m.contains_key(DeviceChannel { device_id, ch }) {
        m[DeviceChannel { device_id, ch }] != value
    } else {
        value != never
    }
}

/// A value is sent on exactly those of the channels where another was sent last, in their
/// order; it is then what was last sent there, and nothing else changes.
pub proof fn changes_are_sent_where_they_are(
    m: Map<DeviceChannel, i32>,
    device_id: u64,
    chans: Seq<u8>,
    value: i32,
    never: i32,
    k: DeviceChannel,
)
    requires
        chans.no_duplicates(),
    ensures
        ({
            let (after, out) = sent_to(m, device_id, chans, value, never);
            &&& out == chans.filter(|ch: u8| differs(m, device_id, ch, value, never))
            &&& k.device_id == device_id && chans.contains(k.ch) && differs(
                m,
                device_id,
                k.ch,
                value,
                never,
            ) ==> after.contains_key(k) && after[k] == value
            &&& !(k.device_id == device_id && chans.contains(k.ch) && differs(
                m,
                device_id,
                k.ch,
                value,
                never,
            )) ==> (after.contains_key(k) <==> m.contains_key(k)) && (m.contains_key(k)
                ==> after[k] == m[k])
        }),
    decreases chans.len(),
{
    reveal(Seq::filter);
    let p = |ch: u8| differs(m, device_id, ch, value, never);
    if chans.len() > 0 {
        let front = chans.drop_last();
        let ch = chans.last();
        assert(front.no_duplicates());
        assert(!front.contains(ch)) by {
            if front.contains(ch) {
                let j = choose|j: int| 0 <= j < front.len() && front[j] == ch;
                assert(chans[j] == chans[chans.len() - 1]);
            }
        }
        changes_are_sent_where_they_are(m, device_id, front, value, never, k);
        changes_are_sent_where_they_are(
            m,
            device_id,
            front,
            value,
            never,
            DeviceChannel { device_id, ch },
        );
        assert(chans.contains(k.ch) <==> front.contains(k.ch) || k.ch == ch) by {
            if front.contains(k.ch) {
                let j = choose|j: int| 0 <= j < front.len() && front[j] == k.ch;
                assert(chans[j] == k.ch);
            }
            if k.ch == ch {
                assert(chans[chans.len() - 1] == k.ch);
            }
            if chans.contains(k.ch) {
                let j = choose|j: int| 0 <= j < chans.len() && chans[j] == k.ch;
                if j < front.len() {
                    assert(front[j] == k.ch);
                }
            }
        }
    }
}

/// Forgetting a keyboard forgets what was sent on each of its sixteen channels, and nothing
/// of the others.
pub proof fn forgetting_is_for_one_keyboard(
    m: Map<DeviceChannel, i32>,
    device_id: u64,
    k: DeviceChannel,
)
    ensures
        k.device_id == device_id && k.ch < 16 ==> !without_channels(m, device_id, 16).contains_key(k),
        k.device_id != device_id || k.ch >= 16 ==> (without_channels(
            m,
            device_id,
            16,
        ).contains_key(k) <==> m.contains_key(k)) && (m.contains_key(k) ==> without_channels(
            m,
            device_id,
            16,
        )[k] == m[k]),
{
    lemma_without(m, device_id, 16, k);
}

proof fn lemma_without(m: Map<DeviceChannel, i32>, device_id: u64, n: int, k: DeviceChannel)
    requires
        0 <= n <= 16,
    ensures
        k.device_id == device_id && k.ch < n ==> !without_channels(m, device_id, n).contains_key(k),
        k.device_id != device_id || k.ch >= n ==> (without_channels(
            m,
            device_id,
            n,
        ).contains_key(k) <==> m.contains_key(k)) && (m.contains_key(k) ==> without_channels(
            m,
            device_id,
            n,
        )[k] == m[k]),
    decreases n,
{
    if n > 0 {
        lemma_without(m, device_id, n - 1, k);
    }
}

} // verus!
