//! Which keyboard plays which board of a layout, and where its keys are found there.
use vstd::prelude::*;
use crate::config;
use crate::config::BoardConfig;
use crate::hidmap;
use crate::hidmap::{HidMap, KeyLoc};
use crate::table;
use crate::table::Table;

verus! {

/// A keyboard's part: its board of the layout, how it is mounted, and where its rows begin.
#[derive(Debug, Clone, Copy)]
pub struct Board {
    pub wtn_board: u8,
    pub rotation_deg: u16,
    pub mirror_cols: bool,
    pub offs: [u8; 4],
}

/// The boards that name a device, by it: of two that name one device the last counts.
pub open spec fn named_boards(boards: Seq<BoardConfig>) -> Map<u64, usize>
    decreases boards.len(),
{
    if boards.len() == 0 {
        Map::empty()
    } else {
        match config::device_number(boards.last()) {
            Ok(Some(id)) => named_boards(boards.drop_last()).insert(
                id as u64,
                (boards.len() - 1) as usize,
            ),
            _ => named_boards(boards.drop_last()),
        }
    }
}

/// The boards that name no device, in order.
pub open spec fn unnamed_boards(boards: Seq<BoardConfig>) -> Seq<usize>
    decreases boards.len(),
{
    if boards.len() == 0 {
        Seq::empty()
    } else {
        match config::device_number(boards.last()) {
            Ok(Some(_)) => unnamed_boards(boards.drop_last()),
            _ => unnamed_boards(boards.drop_last()).push((boards.len() - 1) as usize),
        }
    }
}

/// The boards by device, and how many of `unnamed` are given out: each of `devices` that has
/// none yet takes the next.
pub open spec fn handed_out(
    named: Map<u64, usize>,
    unnamed: Seq<usize>,
    devices: Seq<u64>,
) -> (Map<u64, usize>, int)
    decreases devices.len(),
{
    if devices.len() == 0 {
        (named, 0)
    } else {
        let (m, n) = handed_out(named, unnamed, devices.drop_last());
        if m.contains_key(devices.last()) || n >= unnamed.len() {
            (m, n)
        } else {
            (m.insert(devices.last(), unnamed[n]), n + 1)
        }
    }
}

/// Which board each device plays: the one that names it, else the next that names none.
pub open spec fn assignment(boards: Seq<BoardConfig>, devices: Seq<u64>) -> Map<u64, usize> {
    handed_out(named_boards(boards), unnamed_boards(boards), devices).0
}

/// Which board each device plays, as a place in `boards`.
pub fn assign_boards(boards: &Vec<BoardConfig>, devices: &Vec<u64>) -> (r: Table<u64, usize>)
    ensures
        r@ == assignment(boards@, devices@),
        table::distinct_keys(r.entries@),
{
    let mut out: Table<u64, usize> = Table::new();
    let mut unnamed: Vec<usize> = Vec::new();
    assert(boards@.take(0) =~= Seq::empty());
    for i in 0..boards.len()
        invariant
            out@ == named_boards(boards@.take(i as int)),
            unnamed@ == unnamed_boards(boards@.take(i as int)),
            table::distinct_keys(out.entries@),
    {
        assert(boards@.take(i + 1).drop_last() =~= boards@.take(i as int));
        assert(boards@.take(i + 1).last() == boards@[i as int]);
        match boards[i].device_id_u64() {
            Ok(Some(id)) => {
                out.insert(id, i);
            },
            _ => {
                unnamed.push(i);
            },
        }
    }
    assert(boards@.take(boards@.len() as int) =~= boards@);
    let ghost named = out@;
    let mut next: usize = 0;
    assert(devices@.take(0) =~= Seq::empty());
    for i in 0..devices.len()
        invariant
            unnamed@ == unnamed_boards(boards@),
            (out@, next as int) == handed_out(named, unnamed@, devices@.take(i as int)),
            next <= unnamed@.len(),
            table::distinct_keys(out.entries@),
    {
        assert(devices@.take(i + 1).drop_last() =~= devices@.take(i as int));
        if !out.contains(devices[i]) && next < unnamed.len() {
            out.insert(devices[i], unnamed[next]);
            next += 1;
        }
    }
    assert(devices@.take(devices@.len() as int) =~= devices@);
    out
}

proof fn lemma_named(boards: Seq<BoardConfig>)
    requires
        boards.len() <= usize::MAX,
    ensures
        forall|id: u64| #[trigger]
            named_boards(boards).contains_key(id) ==> named_boards(boards)[id] < boards.len()
                && config::device_number(boards[named_boards(boards)[id] as int]) == Ok::<
                Option<nat>,
                crate::text::IntError,
            >(Some(id as nat)),
        forall|j: int|
            0 <= j < unnamed_boards(boards).len() ==> (#[trigger] unnamed_boards(boards)[j])
                < boards.len() && !(config::device_number(
                boards[unnamed_boards(boards)[j] as int],
            ) matches Ok(Some(_))),
        forall|i: int, j: int|
            0 <= i < j < unnamed_boards(boards).len() ==> unnamed_boards(boards)[i]
                < unnamed_boards(boards)[j],
    decreases boards.len(),
{
    if boards.len() > 0 {
        let front = boards.drop_last();
        lemma_named(front);
        assert forall|id: u64| #[trigger] named_boards(boards).contains_key(id) implies named_boards(
            boards,
        )[id] < boards.len() && config::device_number(boards[named_boards(boards)[id] as int])
            == Ok::<Option<nat>, crate::text::IntError>(Some(id as nat)) by {
            if named_boards(front).contains_key(id) {
                assert(front[named_boards(front)[id] as int] == boards[named_boards(
                    front,
                )[id] as int]);
            }
        }
        assert forall|j: int| 0 <= j < unnamed_boards(boards).len() implies (
        #[trigger] unnamed_boards(boards)[j]) < boards.len() && !(config::device_number(
            boards[unnamed_boards(boards)[j] as int],
        ) matches Ok(Some(_))) by {
            if j < unnamed_boards(front).len() {
                assert(unnamed_boards(front)[j] < front.len());
                assert(unnamed_boards(boards)[j] == unnamed_boards(front)[j]);
                assert(front[unnamed_boards(front)[j] as int] == boards[unnamed_boards(
                    front,
                )[j] as int]);
            }
        }
        assert forall|i: int, j: int| 0 <= i < j < unnamed_boards(boards).len() implies
            unnamed_boards(boards)[i] < unnamed_boards(boards)[j] by {
            if j == unnamed_boards(front).len() {
                assert(unnamed_boards(front)[i] < front.len());
            }
        }
    }
}

proof fn lemma_handed_out(named: Map<u64, usize>, unnamed: Seq<usize>, devices: Seq<u64>)
    ensures
        ({
            let (m, n) = handed_out(named, unnamed, devices);
            &&& 0 <= n <= unnamed.len()
            &&& forall|id: u64| #[trigger]
                named.contains_key(id) ==> m.contains_key(id) && m[id] == named[id]
            &&& forall|id: u64| #[trigger]
                m.contains_key(id) && !named.contains_key(id) ==> devices.contains(id) && exists|
                    j: int,
                |
                    0 <= j < n && #[trigger] unnamed[j] == m[id]
            &&& n < unnamed.len() ==> forall|i: int|
                0 <= i < devices.len() ==> m.contains_key(#[trigger] devices[i])
        }),
    decreases devices.len(),
{
    if devices.len() > 0 {
        let front = devices.drop_last();
        lemma_handed_out(named, unnamed, front);
        let (m0, n0) = handed_out(named, unnamed, front);
        let (m, n) = handed_out(named, unnamed, devices);
        assert forall|id: u64| #[trigger]
            m.contains_key(id) && !named.contains_key(id) implies devices.contains(id) && exists|
            j: int,
        |
            0 <= j < n && #[trigger] unnamed[j] == m[id] by {
            if m0.contains_key(id) && m0[id] == m[id] {
                let i = choose|i: int| 0 <= i < front.len() && front[i] == id;
                assert(devices[i] == id);
                let j = choose|j: int| 0 <= j < n0 && #[trigger] unnamed[j] == m0[id];
                assert(unnamed[j] == m[id]);
            } else {
                assert(devices[devices.len() - 1] == id);
                assert(unnamed[n0] == m[id]);
            }
        }
        if n < unnamed.len() {
            assert forall|i: int| 0 <= i < devices.len() implies m.contains_key(
                #[trigger] devices[i],
            ) by {
                if i < front.len() {
                    assert(m0.contains_key(front[i]));
                }
            }
        }
    }
}

/// A board that names a device is played by no other; every connected device has a board as
/// long as one is left that names none.
pub proof fn named_boards_come_first(boards: Seq<BoardConfig>, devices: Seq<u64>, id: u64)
    requires
        boards.len() <= usize::MAX,
    ensures
        assignment(boards, devices).contains_key(id) ==> {
            let i = assignment(boards, devices)[id];
            &&& i < boards.len()
            &&& config::device_number(boards[i as int]) matches Ok(Some(n)) ==> n == id
        },
        named_boards(boards).contains_key(id) ==> assignment(boards, devices).contains_key(id)
            && assignment(boards, devices)[id] == named_boards(boards)[id],
        handed_out(named_boards(boards), unnamed_boards(boards), devices).1 < unnamed_boards(
            boards,
        ).len() && devices.contains(id) ==> assignment(boards, devices).contains_key(id),
{
    lemma_named(boards);
    lemma_handed_out(named_boards(boards), unnamed_boards(boards), devices);
    let m = assignment(boards, devices);
    if m.contains_key(id) && !named_boards(boards).contains_key(id) {
        let n = handed_out(named_boards(boards), unnamed_boards(boards), devices).1;
        let j = choose|j: int| 0 <= j < n && #[trigger] unnamed_boards(boards)[j] == m[id];
        assert(unnamed_boards(boards)[j] < boards.len());
    }
}

/// Whether `b` is the board `c` as it is mounted, with the keys of `m`.
pub open spec fn mounts(b: Board, c: BoardConfig, m: Map<u8, KeyLoc>) -> bool {
    &&& b.wtn_board == c.wtn_board
    &&& b.rotation_deg == c.rotation_deg
    &&& b.mirror_cols == c.mirror_cols
    &&& hidmap::rows_begin_at(m, c.rotation_deg, c.mirror_cols, b.offs@)
}

/// The boards of the devices, as they are mounted.
pub fn mount_boards(boards: &Vec<BoardConfig>, devices: &Vec<u64>, hid_map: &HidMap) -> (r: Table<
    u64,
    Board,
>)
    requires
        table::distinct_keys(hid_map.locs.entries@),
    ensures
        table::distinct_keys(r.entries@),
        forall|id: u64| #[trigger]
            r@.contains_key(id) <==> assignment(boards@, devices@).contains_key(id),
        forall|id: u64| #[trigger]
            r@.contains_key(id) ==> mounts(
                r@[id],
                boards@[assignment(boards@, devices@)[id] as int],
                hid_map@,
            ),
        forall|id: u64| #[trigger]
            r@.contains_key(id) ==> {
                let c = boards@[assignment(boards@, devices@)[id] as int];
                &&& r@[id].wtn_board == c.wtn_board
                &&& r@[id].rotation_deg == c.rotation_deg
                &&& r@[id].mirror_cols == c.mirror_cols
                &&& hidmap::rows_begin_at(hid_map@, c.rotation_deg, c.mirror_cols, r@[id].offs@)
            },
{
    let assigned: Table<u64, usize> = assign_boards(boards, devices);
    let ghost m = assigned@;
    let total: usize = boards.len();
    let mut out: Table<u64, Board> = Table::new();
    let n: usize = assigned.entries.len();
    proof {
        table::lemma_entries_are_the_map(assigned.entries@);
        lemma_named(boards@);
        lemma_handed_out(named_boards(boards@), unnamed_boards(boards@), devices@);
        assert forall|id: u64| #[trigger] m.contains_key(id) implies m[id] < boards@.len() by {
            named_boards_come_first(boards@, devices@, id);
        }
    }
    let mut i: usize = 0;
    while i < n
        invariant
            n == assigned.entries@.len(),
            i <= n,
            m == assignment(boards@, devices@),
            table::distinct_keys(hid_map.locs.entries@),
            table::distinct_keys(out.entries@),
            table::distinct_keys(assigned.entries@),
            forall|j: int|
                0 <= j < n ==> m.contains_key((#[trigger] assigned.entries@[j]).0)
                    && m[assigned.entries@[j].0] == assigned.entries@[j].1,
            forall|id: u64| #[trigger] m.contains_key(id) ==> m[id] < boards@.len(),
            forall|id: u64| #[trigger]
                out@.contains_key(id) <==> exists|j: int|
                    0 <= j < i && (#[trigger] assigned.entries@[j]).0 == id,
            forall|id: u64| #[trigger]
                out@.contains_key(id) ==> m.contains_key(id) && mounts(
                    out@[id],
                    boards@[m[id] as int],
                    hid_map@,
                ),
        decreases n - i,
    {
        let id: u64 = assigned.entries[i].0;
        let at: usize = assigned.entries[i].1;
        assert(m.contains_key(assigned.entries@[i as int].0));
        let c = &boards[at];
        let offs: [u8; 4] = hidmap::compute_compact_col_offsets(
            hid_map,
            c.rotation_deg,
            c.mirror_cols,
        );
        let b = Board {
            wtn_board: c.wtn_board,
            rotation_deg: c.rotation_deg,
            mirror_cols: c.mirror_cols,
            offs,
        };
        let ghost before = out@;
        out.insert(id, b);
        proof {
            assert forall|x: u64| #[trigger] out@.contains_key(x) <==> exists|j: int|
                0 <= j < i + 1 && (#[trigger] assigned.entries@[j]).0 == x by {
                if before.contains_key(x) {
                    let j = choose|j: int| 0 <= j < i && (#[trigger] assigned.entries@[j]).0 == x;
                    assert(assigned.entries@[j].0 == x);
                }
                if x == id {
                    assert(assigned.entries@[i as int].0 == x);
                }
            }
        }
        i += 1;
    }
    out
}

/// Where a key is: its cell in the layout, and its LED.
#[derive(Debug, Clone, Copy, PartialEq, Eq, Structural)]
pub struct Place {
    pub index: usize,
    pub led_row: u8,
    pub led_col: u8,
}

/// Where the place `loc` of a board is found in the layout.
pub open spec fn place_at(b: Board, loc: KeyLoc) -> Option<Place> {
    match hidmap::logical(loc, b.rotation_deg, b.mirror_cols) {
        Ok(l) => match hidmap::cell_index(l, b.offs@) {
            Some(i) => Some(Place { index: i as usize, led_row: l.led_row, led_col: l.led_col }),
            None => None,
        },
        Err(_) => None,
    }
}

/// Where a key of a board is found in the layout.
pub open spec fn place_of(m: Map<u8, KeyLoc>, b: Board, hid: u8) -> Option<Place> {
    if m.contains_key(hid) {
        place_at(b, m[hid])
    } else {
        None
    }
}

impl Board {
    /// Where the place `loc` of the board is found in the layout.
    pub fn place(&self, loc: KeyLoc) -> (r: Option<Place>)
        ensures
            r == place_at(*self, loc),
            r matches Some(p) ==> p.index < 56,
    {
        match hidmap::logical_loc(loc, self.rotation_deg, self.mirror_cols) {
            Ok(l) => match hidmap::wtn_index_for_loc(l, &self.offs) {
                Some(index) => Some(Place { index, led_row: l.led_row, led_col: l.led_col }),
                None => None,
            },
            Err(_) => None,
        }
    }

    /// Where a key of the board is found in the layout.
    pub fn key_place(&self, hid_map: &HidMap, hid: u8) -> (r: Option<Place>)
        ensures
            r == place_of(hid_map@, *self, hid),
            r matches Some(p) ==> p.index < 56,
    {
        match hid_map.loc_for(hid) {
            Some(loc) => self.place(loc),
            None => None,
        }
    }
}

/// The keys of a board with different places on the grid have different cells, and a key's
/// LED is the one that the key map gives it.
pub proof fn keys_have_cells_of_their_own(m: Map<u8, KeyLoc>, b: Board, k: u8, j: u8)
    requires
        place_of(m, b, k) is Some,
        place_of(m, b, j) is Some,
        place_of(m, b, k)->0.index == place_of(m, b, j)->0.index,
    ensures
        m[k].midi_row == m[j].midi_row,
        m[k].midi_col == m[j].midi_col,
        place_of(m, b, k)->0.led_row == m[k].led_row,
        place_of(m, b, k)->0.led_col == m[k].led_col,
{
}

/// Where a place of the grid is found: an upright board counts its row from its first
/// column, a turned or mirrored one from the other end; the LED stays the place's own.
pub proof fn places_follow_the_mounting(b: Board, loc: KeyLoc)
    requires
        loc.midi_row < 4,
        loc.midi_col < 14,
    ensures
        ({
            let row = if b.rotation_deg == 180 {
                3 - loc.midi_row
            } else {
                loc.midi_row as int
            };
            let col = if (b.rotation_deg == 180) != b.mirror_cols {
                13 - loc.midi_col
            } else {
                loc.midi_col as int
            };
            &&& place_at(b, loc) is Some <==> (b.rotation_deg == 0 || b.rotation_deg == 180)
                && b.offs@[row] <= col
            &&& place_at(b, loc) matches Some(p) ==> p.index == 14 * row + col - b.offs@[row]
                && p.led_row == loc.led_row && p.led_col == loc.led_col
        }),
{
}

/// How many of `devices` no board names.
pub open spec fn waiting(named: Map<u64, usize>, devices: Seq<u64>) -> int
    decreases devices.len(),
{
    if devices.len() == 0 {
        0
    } else {
        waiting(named, devices.drop_last()) + if named.contains_key(devices.last()) {
            0int
        } else {
            1
        }
    }
}

proof fn lemma_waiting(named: Map<u64, usize>, unnamed: Seq<usize>, devices: Seq<u64>, i: int)
    requires
        devices.no_duplicates(),
        0 <= i < devices.len(),
    ensures
        ({
            let (m, n) = handed_out(named, unnamed, devices);
            let all = waiting(named, devices);
            let k = waiting(named, devices.take(i));
            &&& n == (if all <= unnamed.len() {
                all
            } else {
                unnamed.len() as int
            })
            &&& 0 <= k <= all
            &&& forall|id: u64| #[trigger]
                m.contains_key(id) ==> named.contains_key(id) || devices.contains(id)
            &&& !named.contains_key(devices[i]) ==> {
                &&& m.contains_key(devices[i]) <==> k < unnamed.len()
                &&& k < unnamed.len() ==> m[devices[i]] == unnamed[k]
            }
        }),
    decreases devices.len(),
{
    let front = devices.drop_last();
    let last = devices.last();
    let (m0, n0) = handed_out(named, unnamed, front);
    assert(front.no_duplicates());
    assert(!front.contains(last)) by {
        if front.contains(last) {
            let j = choose|j: int| 0 <= j < front.len() && front[j] == last;
            assert(devices[j] == devices[devices.len() - 1]);
        }
    }
    if front.len() > 0 {
        lemma_waiting(named, unnamed, front, if i < front.len() { i } else { 0 });
    }
    assert forall|id: u64| #[trigger]
        handed_out(named, unnamed, devices).0.contains_key(id) implies named.contains_key(id)
        || devices.contains(id) by {
        if m0.contains_key(id) && !named.contains_key(id) {
            let j = choose|j: int| 0 <= j < front.len() && front[j] == id;
            assert(devices[j] == id);
        } else if !named.contains_key(id) {
            assert(devices[devices.len() - 1] == id);
        }
    }
    lemma_handed_out(named, unnamed, front);
    assert(!named.contains_key(last) ==> !m0.contains_key(last));
    if i < front.len() {
        assert(devices.take(i) =~= front.take(i));
        assert(devices[i] == front[i]);
        assert(devices[i] != last);
    } else {
        assert(devices.take(i) =~= front);
        lemma_waiting_is_not_negative(named, front);
    }
}

proof fn lemma_waiting_is_not_negative(named: Map<u64, usize>, devices: Seq<u64>)
    ensures
        0 <= waiting(named, devices),
    decreases devices.len(),
{
    if devices.len() > 0 {
        lemma_waiting_is_not_negative(named, devices.drop_last());
    }
}

/// The devices that no board names take the boards that name none, the first the first and
/// so on, as far as they go; a device that is not connected takes none.
pub proof fn boards_are_handed_out_in_order(
    boards: Seq<BoardConfig>,
    devices: Seq<u64>,
    i: int,
    id: u64,
)
    requires
        devices.no_duplicates(),
        0 <= i < devices.len(),
    ensures
        ({
            let k = waiting(named_boards(boards), devices.take(i));
            !named_boards(boards).contains_key(devices[i]) ==> {
                &&& assignment(boards, devices).contains_key(devices[i]) <==> k < unnamed_boards(
                    boards,
                ).len()
                &&& k < unnamed_boards(boards).len() ==> assignment(boards, devices)[devices[i]]
                    == unnamed_boards(boards)[k]
            }
        }),
        !named_boards(boards).contains_key(id) && !devices.contains(id) ==> !assignment(
            boards,
            devices,
        ).contains_key(id),
{
    lemma_waiting(named_boards(boards), unnamed_boards(boards), devices, i);
}

proof fn lemma_all_boards(boards: Seq<BoardConfig>, i: int)
    requires
        boards.len() <= usize::MAX,
        0 <= i < boards.len(),
    ensures
        match config::device_number(boards[i]) {
            Ok(Some(id)) => {
                &&& id <= u64::MAX ==> named_boards(boards).contains_key(id as u64)
                    && named_boards(boards)[id as u64] >= i
                &&& !unnamed_boards(boards).contains(i as usize)
            },
            _ => unnamed_boards(boards).contains(i as usize),
        },
    decreases boards.len(),
{
    let front = boards.drop_last();
    let n = boards.len() as int;
    lemma_named(boards);
    if i < n - 1 {
        lemma_all_boards(front, i);
        assert(front[i] == boards[i]);
        let u = unnamed_boards(front);
        if u.contains(i as usize) {
            let j = choose|j: int| 0 <= j < u.len() && u[j] == i as usize;
            assert(unnamed_boards(boards)[j] == i as usize);
        }
    } else if !(config::device_number(boards[i]) matches Ok(Some(_))) {
        let u = unnamed_boards(boards);
        assert(u[u.len() - 1] == i as usize);
    }
    if config::device_number(boards[i]) matches Ok(Some(_)) {
        let u = unnamed_boards(boards);
        if u.contains(i as usize) {
            let j = choose|j: int| 0 <= j < u.len() && u[j] == i as usize;
            assert(unnamed_boards(boards)[j] < boards.len());
        }
    }
}

/// Every board either names a device or waits for one, in the order of the configuration;
/// of two that name one device the later counts.
pub proof fn boards_are_named_or_wait(boards: Seq<BoardConfig>, i: int)
    requires
        boards.len() <= usize::MAX,
        0 <= i < boards.len(),
    ensures
        match config::device_number(boards[i]) {
            Ok(Some(id)) => {
                &&& id <= u64::MAX ==> named_boards(boards).contains_key(id as u64)
                    && named_boards(boards)[id as u64] >= i && config::device_number(
                    boards[named_boards(boards)[id as u64] as int],
                ) == Ok::<Option<nat>, crate::text::IntError>(Some(id))
                &&& !unnamed_boards(boards).contains(i as usize)
            },
            _ => unnamed_boards(boards).contains(i as usize),
        },
        forall|a: int, b: int|
            0 <= a < b < unnamed_boards(boards).len() ==> unnamed_boards(boards)[a]
                < unnamed_boards(boards)[b],
{
    lemma_all_boards(boards, i);
    lemma_named(boards);
}

} // verus!
