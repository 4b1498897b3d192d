//! Where each key sits: on the musical grid of four rows and fourteen columns, and on the
//! keyboard's LED matrix.
use vstd::prelude::*;
use crate::hid;
use crate::hid::{HidNames, UnknownHidName};
use crate::table;
use crate::table::Table;
use crate::text;

verus! {

#[derive(Debug, Clone, Copy, PartialEq, Eq, Structural)]
pub struct KeyLoc {
    /// Row on the musical grid, 0 to 3.
    pub midi_row: u8,
    /// Column on the musical grid, 0 to 13.
    pub midi_col: u8,
    /// Row on the LED matrix, 0 to 5.
    pub led_row: u8,
    /// Column on the LED matrix, 0 to 13.
    pub led_col: u8,
}

/// Why a place on the musical grid cannot be turned.
#[derive(Debug, Clone, Copy, PartialEq, Eq, Structural)]
pub enum GridError {
    OutOfBounds,
    UnsupportedRotation(u16),
}

impl GridError {
    pub open spec fn text(self) -> Seq<char> {
        match self {
            GridError::OutOfBounds => "KeyLoc out of 4x14 bounds"@,
            GridError::UnsupportedRotation(deg) => "Unsupported rotation_deg "@ + text::decimal(
                deg as nat,
            ) + "; use 0 or 180"@,
        }
    }

    /// The error in words.
    pub fn message(&self) -> (r: String)
        ensures
            r@ == self.text(),
    {
        match self {
            GridError::OutOfBounds => text::text_of("KeyLoc out of 4x14 bounds"),
            GridError::UnsupportedRotation(deg) => {
                let mut out = text::text_of("Unsupported rotation_deg ");
                text::push_decimal(&mut out, *deg as u64);
                text::push_text(&mut out, "; use 0 or 180");
                out
            },
        }
    }
}

/// Whether a place is on the musical grid.
pub open spec fn on_grid(loc: KeyLoc) -> bool {
    loc.midi_row < 4 && loc.midi_col < 14
}

/// The place `loc` on a board that is mounted turned by `rotation_deg` degrees.
pub open spec fn rotated(loc: KeyLoc, rotation_deg: u16) -> Result<KeyLoc, GridError> {
    if rotation_deg == 0 {
        Ok(loc)
    } else if rotation_deg == 180 {
        if on_grid(loc) {
            Ok(
                KeyLoc {
                    midi_row: (3 - loc.midi_row) as u8,
                    midi_col: (13 - loc.midi_col) as u8,
                    ..loc
                },
            )
        } else {
            Err(GridError::OutOfBounds)
        }
    } else {
        Err(GridError::UnsupportedRotation(rotation_deg))
    }
}

/// The place `loc` on a board whose columns are counted from the right.
pub open spec fn mirrored(loc: KeyLoc, mirror: bool) -> Result<KeyLoc, GridError> {
    if !mirror {
        Ok(loc)
    } else if on_grid(loc) {
        Ok(KeyLoc { midi_col: (13 - loc.midi_col) as u8, ..loc })
    } else {
        Err(GridError::OutOfBounds)
    }
}

/// The place `loc` as the layout of a board with this mounting sees it.
pub open spec fn logical(loc: KeyLoc, rotation_deg: u16, mirror: bool) -> Result<KeyLoc, GridError> {
    match rotated(loc, rotation_deg) {
        Ok(l) => mirrored(l, mirror),
        Err(e) => Err(e),
    }
}

/// The place `loc` on a board that is mounted turned by `rotation_deg` degrees.
pub fn rotate_4x14(loc: KeyLoc, rotation_deg: u16) -> (r: Result<KeyLoc, GridError>)
    ensures
        r == rotated(loc, rotation_deg),
{
    if rotation_deg == 0 {
        Ok(loc)
    } else if rotation_deg == 180 {
        if loc.midi_row >= 4 || loc.midi_col >= 14 {
            return Err(GridError::OutOfBounds);
        }
        Ok(KeyLoc { midi_row: 3 - loc.midi_row, midi_col: 13 - loc.midi_col, ..loc })
    } else {
        Err(GridError::UnsupportedRotation(rotation_deg))
    }
}

/// The place `loc` on a board whose columns are counted from the right.
pub fn mirror_cols_4x14(loc: KeyLoc, mirror: bool) -> (r: Result<KeyLoc, GridError>)
    ensures
        r == mirrored(loc, mirror),
{
    if !mirror {
        return Ok(loc);
    }
    if loc.midi_row >= 4 || loc.midi_col >= 14 {
        return Err(GridError::OutOfBounds);
    }
    Ok(KeyLoc { midi_col: 13 - loc.midi_col, ..loc })
}

/// The place `loc` as the layout of a board with this mounting sees it.
pub fn logical_loc(loc: KeyLoc, rotation_deg: u16, mirror: bool) -> (r: Result<KeyLoc, GridError>)
    ensures
        r == logical(loc, rotation_deg, mirror),
{
    match rotate_4x14(loc, rotation_deg) {
        Ok(l) => mirror_cols_4x14(l, mirror),
        Err(e) => Err(e),
    }
}

/// Turning a board by 180 degrees twice brings every key back.
pub proof fn half_turn_undoes_itself(loc: KeyLoc)
    requires
        on_grid(loc),
    ensures
        rotated(loc, 180) is Ok,
        rotated(rotated(loc, 180)->Ok_0, 180) == Ok::<KeyLoc, GridError>(loc),
{
}

/// Mirroring a board twice brings every key back.
pub proof fn mirroring_undoes_itself(loc: KeyLoc)
    requires
        on_grid(loc),
    ensures
        mirrored(loc, true) is Ok,
        mirrored(mirrored(loc, true)->Ok_0, true) == Ok::<KeyLoc, GridError>(loc),
{
}

/// A key's LED stays where it is however the board is mounted.
pub proof fn mounting_keeps_leds(loc: KeyLoc, rotation_deg: u16, mirror: bool)
    ensures
        logical(loc, rotation_deg, mirror) matches Ok(l) ==> l.led_row == loc.led_row && l.led_col
            == loc.led_col,
{
}

/// A mounting never puts two keys on one place, and keeps the grid's keys on the grid.
pub proof fn mounting_is_one_to_one(a: KeyLoc, b: KeyLoc, rotation_deg: u16, mirror: bool)
    requires
        logical(a, rotation_deg, mirror) is Ok,
        logical(b, rotation_deg, mirror) is Ok,
    ensures
        logical(a, rotation_deg, mirror)->Ok_0 == logical(b, rotation_deg, mirror)->Ok_0 <==> a == b,
        on_grid(a) <==> on_grid(logical(a, rotation_deg, mirror)->Ok_0),
{
}

/// The rows of a 60% ANSI keyboard, from the number row down.
pub open spec fn ansi_codes(row: int) -> Seq<u8> {
    if row == 0 {
        seq![
            hid::ESCAPE, hid::N1, hid::N2, hid::N3, hid::N4, hid::N5, hid::N6, hid::N7, hid::N8,
            hid::N9, hid::N0, hid::MINUS, hid::EQUAL, hid::BACKSPACE,
        ]
    } else if row == 1 {
        seq![
            hid::TAB, hid::Q, hid::W, hid::E, hid::R, hid::T, hid::Y, hid::U, hid::I, hid::O,
            hid::P, hid::BRACKET_LEFT, hid::BRACKET_RIGHT, hid::BACKSLASH,
        ]
    } else if row == 2 {
        seq![
            hid::CAPS_LOCK, hid::A, hid::S, hid::D, hid::F, hid::G, hid::H, hid::J, hid::K, hid::L,
            hid::SEMICOLON, hid::QUOTE, hid::ENTER,
        ]
    } else {
        seq![
            hid::LEFT_SHIFT, hid::Z, hid::X, hid::C, hid::V, hid::B, hid::N, hid::M, hid::COMMA,
            hid::PERIOD, hid::SLASH, hid::RIGHT_SHIFT,
        ]
    }
}

/// The LED columns of those rows. Wide keys leave holes: the LED of Enter is in the last
/// column, as is that of the right Shift.
pub open spec fn ansi_led_cols(row: int) -> Seq<u8> {
    if row == 0 || row == 1 {
        seq![0, 1, 2, 3, 4, 5, 6, 7, 8, 9, 10, 11, 12, 13]
    } else if row == 2 {
        seq![0, 1, 2, 3, 4, 5, 6, 7, 8, 9, 10, 11, 13]
    } else {
        seq![0, 2, 3, 4, 5, 6, 7, 8, 9, 10, 11, 13]
    }
}

/// `m` with the first `n` keys of `row` put in.
pub open spec fn with_ansi_row(m: Map<u8, KeyLoc>, row: int, n: int) -> Map<u8, KeyLoc>
    decreases n,
{
    if n <= 0 {
        m
    } else {
        with_ansi_row(m, row, n - 1).insert(
            ansi_codes(row)[n - 1],
            KeyLoc {
                midi_row: row as u8,
                midi_col: (n - 1) as u8,
                led_row: (row + 1) as u8,
                led_col: ansi_led_cols(row)[n - 1],
            },
        )
    }
}

/// The places of the keys of a 60% ANSI keyboard: row by row, each row counted from the
/// left.
pub open spec fn ansi_map() -> Map<u8, KeyLoc> {
    with_ansi_row(
        with_ansi_row(with_ansi_row(with_ansi_row(Map::empty(), 0, 14), 1, 14), 2, 13),
        3,
        12,
    )
}

/// The place of each key, by its usage code.
#[derive(Debug, Clone)]
pub struct HidMap {
    pub locs: Table<u8, KeyLoc>,
}

impl View for HidMap {
    type V = Map<u8, KeyLoc>;

    open spec fn view(&self) -> Map<u8, KeyLoc> {
        self.locs@
    }
}

/// An override as the configuration writes it: the key's name and its place.
pub open spec fn override_loc(o: (String, u8, u8, u8, u8)) -> KeyLoc {
    KeyLoc { midi_row: o.1, midi_col: o.2, led_row: o.3, led_col: o.4 }
}

/// `m` after the first `n` overrides, up to the first that names no key.
pub open spec fn overridden(
    names: Seq<Option<Seq<char>>>,
    m: Map<u8, KeyLoc>,
    overrides: Seq<(String, u8, u8, u8, u8)>,
    n: int,
) -> Map<u8, KeyLoc>
    decreases n,
{
    if n <= 0 {
        m
    } else {
        let before = overridden(names, m, overrides, n - 1);
        if first_unknown(names, overrides, n - 1) is Some {
            before
        } else {
            match hid::first_named(names, overrides[n - 1].0@) {
                Some(c) => before.insert(c, override_loc(overrides[n - 1])),
                None => before,
            }
        }
    }
}

/// The first of the first `n` overrides that names no key.
pub open spec fn first_unknown(
    names: Seq<Option<Seq<char>>>,
    overrides: Seq<(String, u8, u8, u8, u8)>,
    n: int,
) -> Option<int>
    decreases n,
{
    if n <= 0 {
        None
    } else {
        match first_unknown(names, overrides, n - 1) {
            Some(i) => Some(i),
            None => if hid::first_named(names, overrides[n - 1].0@) is None {
                Some(n - 1)
            } else {
                None
            },
        }
    }
}

proof fn lemma_first_unknown_stays(
    names: Seq<Option<Seq<char>>>,
    m: Map<u8, KeyLoc>,
    overrides: Seq<(String, u8, u8, u8, u8)>,
    n: int,
    k: int,
)
    requires
        0 <= n <= k,
        first_unknown(names, overrides, n) is Some,
    ensures
        first_unknown(names, overrides, k) == first_unknown(names, overrides, n),
        overridden(names, m, overrides, k) == overridden(names, m, overrides, n),
    decreases k,
{
    if n < k {
        lemma_first_unknown_stays(names, m, overrides, n, k - 1);
    }
}

fn put_ansi_row(locs: &mut Table<u8, KeyLoc>, codes: &Vec<u8>, led_cols: &Vec<u8>, row: u8)
    requires
        row < 4,
        codes@ == ansi_codes(row as int),
        led_cols@ == ansi_led_cols(row as int),
        codes@.len() == led_cols@.len(),
        codes@.len() <= 14,
        table::distinct_keys(old(locs).entries@),
    ensures
        final(locs)@ == with_ansi_row(old(locs)@, row as int, codes@.len() as int),
        table::distinct_keys(final(locs).entries@),
{
    let n: usize = codes.len();
    let mut i: usize = 0;
    while i < n
        invariant
            n == codes@.len() == led_cols@.len(),
            n <= 14,
            i <= n,
            row < 4,
            codes@ == ansi_codes(row as int),
            led_cols@ == ansi_led_cols(row as int),
            locs@ == with_ansi_row(old(locs)@, row as int, i as int),
            table::distinct_keys(locs.entries@),
        decreases n - i,
    {
        locs.insert(
            codes[i],
            KeyLoc { midi_row: row, midi_col: i as u8, led_row: row + 1, led_col: led_cols[i] },
        );
        i += 1;
    }
}

impl HidMap {
    /// The places of the keys of a 60% ANSI keyboard.
    pub fn default_60he_ansi_guess() -> (r: Self)
        ensures
            r@ == ansi_map(),
            table::distinct_keys(r.locs.entries@),
    {
        let mut locs: Table<u8, KeyLoc> = Table::new();
        let codes: Vec<u8> = vec![
            hid::ESCAPE, hid::N1, hid::N2, hid::N3, hid::N4, hid::N5, hid::N6, hid::N7, hid::N8,
            hid::N9, hid::N0, hid::MINUS, hid::EQUAL, hid::BACKSPACE,
        ];
        let leds: Vec<u8> = vec![0, 1, 2, 3, 4, 5, 6, 7, 8, 9, 10, 11, 12, 13];
        assert(codes@ =~= ansi_codes(0));
        assert(leds@ =~= ansi_led_cols(0));
        put_ansi_row(&mut locs, &codes, &leds, 0);
        let codes: Vec<u8> = vec![
            hid::TAB, hid::Q, hid::W, hid::E, hid::R, hid::T, hid::Y, hid::U, hid::I, hid::O,
            hid::P, hid::BRACKET_LEFT, hid::BRACKET_RIGHT, hid::BACKSLASH,
        ];
        let leds: Vec<u8> = vec![0, 1, 2, 3, 4, 5, 6, 7, 8, 9, 10, 11, 12, 13];
        assert(codes@ =~= ansi_codes(1));
        assert(leds@ =~= ansi_led_cols(1));
        put_ansi_row(&mut locs, &codes, &leds, 1);
        let codes: Vec<u8> = vec![
            hid::CAPS_LOCK, hid::A, hid::S, hid::D, hid::F, hid::G, hid::H, hid::J, hid::K, hid::L,
            hid::SEMICOLON, hid::QUOTE, hid::ENTER,
        ];
        let leds: Vec<u8> = vec![0, 1, 2, 3, 4, 5, 6, 7, 8, 9, 10, 11, 13];
        assert(codes@ =~= ansi_codes(2));
        assert(leds@ =~= ansi_led_cols(2));
        put_ansi_row(&mut locs, &codes, &leds, 2);
        let codes: Vec<u8> = vec![
            hid::LEFT_SHIFT, hid::Z, hid::X, hid::C, hid::V, hid::B, hid::N, hid::M, hid::COMMA,
            hid::PERIOD, hid::SLASH, hid::RIGHT_SHIFT,
        ];
        let leds: Vec<u8> = vec![0, 2, 3, 4, 5, 6, 7, 8, 9, 10, 11, 13];
        assert(codes@ =~= ansi_codes(3));
        assert(leds@ =~= ansi_led_cols(3));
        put_ansi_row(&mut locs, &codes, &leds, 3);
        HidMap { locs }
    }

    /// Puts the keys that `overrides` name where it says. The first name that no key
    /// bears ends the work: what was put before it stays.
    pub fn apply_overrides(&mut self, overrides: &[(String, u8, u8, u8, u8)]) -> (r: Result<
        (),
        UnknownHidName,
    >)
        ensures
            final(self)@ == overridden(
                hid::sdk_names(),
                old(self)@,
                overrides@,
                overrides@.len() as int,
            ),
            match first_unknown(hid::sdk_names(), overrides@, overrides@.len() as int) {
                Some(i) => r is Err && r->Err_0.name@ == overrides@[i].0@,
                None => r is Ok,
            },
            table::distinct_keys(old(self).locs.entries@) ==> table::distinct_keys(
                final(self).locs.entries@,
            ),
    {
        let names = HidNames::load();
        self.apply_overrides_named(&names, overrides)
    }

    /// As [`HidMap::apply_overrides`], with the names of the keys given.
    pub fn apply_overrides_named(
        &mut self,
        names: &HidNames,
        overrides: &[(String, u8, u8, u8, u8)],
    ) -> (r: Result<(), UnknownHidName>)
        requires
            names@.len() <= 256,
        ensures
            final(self)@ == overridden(names@, old(self)@, overrides@, overrides@.len() as int),
            match first_unknown(names@, overrides@, overrides@.len() as int) {
                Some(i) => r is Err && r->Err_0.name@ == overrides@[i].0@,
                None => r is Ok,
            },
            table::distinct_keys(old(self).locs.entries@) ==> table::distinct_keys(
                final(self).locs.entries@,
            ),
    {
        let n: usize = overrides.len();
        let mut i: usize = 0;
        while i < n
            invariant
                n == overrides@.len(),
                i <= n,
                names@.len() <= 256,
                self@ == overridden(names@, old(self)@, overrides@, i as int),
                first_unknown(names@, overrides@, i as int) is None,
                table::distinct_keys(old(self).locs.entries@) ==> table::distinct_keys(
                    self.locs.entries@,
                ),
            decreases n - i,
        {
            let o = &overrides[i];
            match names.find(o.0.as_str()) {
                Ok(c) => {
                    self.locs.insert(
                        c,
                        KeyLoc { midi_row: o.1, midi_col: o.2, led_row: o.3, led_col: o.4 },
                    );
                },
                Err(e) => {
                    proof {
                        lemma_first_unknown_stays(
                            names@,
                            old(self)@,
                            overrides@,
                            i + 1,
                            overrides@.len() as int,
                        );
                    }
                    return Err(e);
                },
            }
            i += 1;
        }
        Ok(())
    }

    /// The place of the key with the usage code `hid`.
    pub fn loc_for(&self, hid: u8) -> (r: Option<KeyLoc>)
        ensures
            match r {
                Some(loc) => self@.contains_key(hid) && self@[hid] == loc,
                None => !self@.contains_key(hid),
            },
    {
        match self.locs.get(hid) {
            Some(loc) => Some(*loc),
            None => None,
        }
    }

    /// Every key with its place.
    pub fn all_locs(&self) -> (r: &Vec<(u8, KeyLoc)>)
        ensures
            table::map_of(r@) == self@,
            r@ == self.locs.entries@,
    {
        &self.locs.entries
    }
}

/// Whether the key `k` of the board sits at `row` and `col` of the layout.
pub open spec fn sits_at(
    m: Map<u8, KeyLoc>,
    rotation_deg: u16,
    mirror: bool,
    k: u8,
    row: int,
    col: int,
) -> bool {
    m.contains_key(k) && (logical(m[k], rotation_deg, mirror) matches Ok(l) && l.midi_row == row
        && l.midi_col == col)
}

/// Whether `off` is the column at which the keys of `row` begin; 0 where the row has no
/// key left of column 255.
pub open spec fn row_begins_at(
    m: Map<u8, KeyLoc>,
    rotation_deg: u16,
    mirror: bool,
    row: int,
    off: u8,
) -> bool {
    &&& forall|k: u8, col: int| #[trigger]
        sits_at(m, rotation_deg, mirror, k, row, col) ==> off <= col
    &&& (off < 255 && exists|k: u8| sits_at(m, rotation_deg, mirror, k, row, off as int)) || (off
        == 0 && forall|k: u8, col: int| #[trigger]
        sits_at(m, rotation_deg, mirror, k, row, col) ==> col == 255)
}

/// Whether `offs` holds the first column of each of the four rows.
pub open spec fn rows_begin_at(
    m: Map<u8, KeyLoc>,
    rotation_deg: u16,
    mirror: bool,
    offs: Seq<u8>,
) -> bool {
    offs.len() == 4 && forall|row: int|
        0 <= row < 4 ==> row_begins_at(m, rotation_deg, mirror, row, #[trigger] offs[row])
}

/// The column at which each row of the layout begins on a board with this mounting.
pub fn compute_compact_col_offsets(hid_map: &HidMap, rotation_deg: u16, mirror_cols: bool) -> (r:
    [u8; 4])
    requires
        table::distinct_keys(hid_map.locs.entries@),
    ensures
        rows_begin_at(hid_map@, rotation_deg, mirror_cols, r@),
{
    let mut min_col: [u8; 4] = [255, 255, 255, 255];
    let locs = hid_map.all_locs();
    let n: usize = locs.len();
    let ghost m = hid_map@;
    proof {
        table::lemma_entries_are_the_map(locs@);
    }
    let mut i: usize = 0;
    while i < n
        invariant
            n == locs@.len(),
            i <= n,
            m == table::map_of(locs@),
            table::distinct_keys(locs@),
            min_col@.len() == 4,
            forall|j: int|
                0 <= j < n ==> m.contains_key((#[trigger] locs@[j]).0) && m[locs@[j].0]
                    == locs@[j].1,
            forall|row: int, j: int|
                0 <= row < 4 && 0 <= j < i ==> (logical(
                    (#[trigger] locs@[j]).1,
                    rotation_deg,
                    mirror_cols,
                ) matches Ok(l) ==> l.midi_row == row ==> #[trigger] min_col@[row] <= l.midi_col),
            forall|row: int|
                0 <= row < 4 && #[trigger] min_col@[row] != 255 ==> exists|k: u8|
                    sits_at(m, rotation_deg, mirror_cols, k, row, min_col@[row] as int),
        decreases n - i,
    {
        let ghost before = min_col@;
        match logical_loc(locs[i].1, rotation_deg, mirror_cols) {
            Ok(loc) => {
                if loc.midi_row < 4 {
                    let row: usize = loc.midi_row as usize;
                    if loc.midi_col < min_col[row] {
                        min_col[row] = loc.midi_col;
                        assert(sits_at(
                            m,
                            rotation_deg,
                            mirror_cols,
                            locs@[i as int].0,
                            row as int,
                            loc.midi_col as int,
                        ));
                    }
                }
            },
            Err(_) => {},
        }
        assert(forall|row: int| 0 <= row < 4 ==> #[trigger] min_col@[row] <= before[row]);
        i += 1;
    }
    let ghost low = min_col@;
    proof {
        assert forall|row: int, k: u8, col: int|
            0 <= row < 4 && #[trigger] sits_at(
                m,
                rotation_deg,
                mirror_cols,
                k,
                row,
                col,
            ) implies low[row] <= col by {
            let j = choose|j: int| 0 <= j < locs@.len() && (#[trigger] locs@[j]).0 == k;
            assert(m[k] == locs@[j].1);
            assert(min_col@[row] <= col);
        }
    }
    let mut r: usize = 0;
    while r < 4
        invariant
            r <= 4,
            min_col@.len() == 4,
            low.len() == 4,
            forall|row: int|
                0 <= row < 4 ==> #[trigger] min_col@[row] == (if row < r && low[row] == 255 {
                    0u8
                } else {
                    low[row]
                }),
        decreases 4 - r,
    {
        if min_col[r] == 255 {
            min_col[r] = 0;
        }
        r += 1;
    }
    proof {
        assert forall|row: int| 0 <= row < 4 implies row_begins_at(
            m,
            rotation_deg,
            mirror_cols,
            row,
            #[trigger] min_col@[row],
        ) by {
            assert(low[row] <= 255);
            if low[row] == 255 {
                assert forall|k: u8, col: int| #[trigger]
                    sits_at(m, rotation_deg, mirror_cols, k, row, col) implies col == 255 by {}
            }
        }
    }
    min_col
}

/// Where a place of the layout is found in a board's list of cells, when its rows begin
/// at `offs`.
pub open spec fn cell_index(loc: KeyLoc, offs: Seq<u8>) -> Option<int> {
    if on_grid(loc) && offs[loc.midi_row as int] <= loc.midi_col {
        Some(loc.midi_row * 14 + (loc.midi_col - offs[loc.midi_row as int]))
    } else {
        None
    }
}

/// Where the place `loc` of the layout is found in a board's list of cells.
pub fn wtn_index_for_loc(loc: KeyLoc, compact_min_col: &[u8; 4]) -> (r: Option<usize>)
    ensures
        match cell_index(loc, compact_min_col@) {
            Some(i) => r == Some(i as usize) && 0 <= i < 56,
            None => r is None,
        },
{
    if loc.midi_row >= 4 || loc.midi_col >= 14 {
        return None;
    }
    let off: u8 = compact_min_col[loc.midi_row as usize];
    if loc.midi_col < off {
        return None;
    }
    let col: u8 = loc.midi_col - off;
    Some((loc.midi_row as usize) * 14 + (col as usize))
}

/// Two places with one cell are one place.
pub proof fn cells_are_not_shared(a: KeyLoc, b: KeyLoc, offs: Seq<u8>)
    requires
        cell_index(a, offs) is Some,
        cell_index(a, offs) == cell_index(b, offs),
    ensures
        a.midi_row == b.midi_row,
        a.midi_col == b.midi_col,
{
}

/// Every key on the grid has a cell, and the first key of each row has the row's first
/// cell.
pub proof fn rows_are_left_justified(
    m: Map<u8, KeyLoc>,
    rotation_deg: u16,
    mirror: bool,
    offs: Seq<u8>,
    k: u8,
)
    requires
        rows_begin_at(m, rotation_deg, mirror, offs),
        m.contains_key(k),
        logical(m[k], rotation_deg, mirror) matches Ok(l) && on_grid(l),
    ensures
        cell_index(logical(m[k], rotation_deg, mirror)->Ok_0, offs) is Some,
        exists|f: u8| #[trigger]
            m.contains_key(f) && (logical(m[f], rotation_deg, mirror) matches Ok(l) && cell_index(
                l,
                offs,
            ) == Some(logical(m[k], rotation_deg, mirror)->Ok_0.midi_row * 14)),
{
    let l = logical(m[k], rotation_deg, mirror)->Ok_0;
    let row = l.midi_row as int;
    assert(sits_at(m, rotation_deg, mirror, k, row, l.midi_col as int));
    assert(row_begins_at(m, rotation_deg, mirror, row, offs[row]));
    let f = choose|f: u8| sits_at(m, rotation_deg, mirror, f, row, offs[row] as int);
    assert(sits_at(m, rotation_deg, mirror, f, row, offs[row] as int));
    assert(m.contains_key(f));
}

/// Whether some key sits at `row` and `col` of the upright board.
pub open spec fn has_key_at(m: Map<u8, KeyLoc>, row: int, col: int) -> bool {
    exists|k: u8| #[trigger] m.contains_key(k) && m[k].midi_row == row && m[k].midi_col == col
}

/// Whether between two keys of a row every place has a key.
pub open spec fn rows_have_no_gaps(m: Map<u8, KeyLoc>) -> bool {
    forall|row: int, lo: int, col: int, hi: int|
        lo <= col <= hi && #[trigger] has_key_at(m, row, lo) && #[trigger] has_key_at(m, row, hi)
            ==> #[trigger] has_key_at(m, row, col)
}

/// Holes at the ends of a row take no cells, however the board is mounted: before the cell
/// of a key, every cell of its row belongs to a key.
pub proof fn holes_take_no_cells(
    m: Map<u8, KeyLoc>,
    rotation_deg: u16,
    mirror: bool,
    offs: Seq<u8>,
    k: u8,
    c: int,
)
    requires
        rows_begin_at(m, rotation_deg, mirror, offs),
        rows_have_no_gaps(m),
        m.contains_key(k),
        logical(m[k], rotation_deg, mirror) matches Ok(l) && on_grid(l) && cell_index(l, offs) is Some
            && l.midi_row * 14 <= c <= cell_index(l, offs)->Some_0,
    ensures
        exists|f: u8| #[trigger]
            m.contains_key(f) && (logical(m[f], rotation_deg, mirror) matches Ok(l) && cell_index(
                l,
                offs,
            ) == Some(c)),
{
    let l = logical(m[k], rotation_deg, mirror)->Ok_0;
    let row = l.midi_row as int;
    let off = offs[row] as int;
    let col = c - row * 14 + off;
    assert(sits_at(m, rotation_deg, mirror, k, row, l.midi_col as int));
    assert(row_begins_at(m, rotation_deg, mirror, row, offs[row]));
    let first = choose|f: u8| sits_at(m, rotation_deg, mirror, f, row, off);
    assert(sits_at(m, rotation_deg, mirror, first, row, off));
    let turned = rotation_deg == 180;
    let row0 = if turned { 3 - row } else { row };
    let flip = turned != mirror;
    let col0 = if flip { 13 - col } else { col };
    assert(m[k].midi_row == row0 && m[first].midi_row == row0);
    assert(has_key_at(m, row0, m[k].midi_col as int));
    assert(has_key_at(m, row0, m[first].midi_col as int));
    assert(has_key_at(m, row0, col0));
    let f = choose|f: u8| #[trigger]
        m.contains_key(f) && m[f].midi_row == row0 && m[f].midi_col == col0;
    assert(m.contains_key(f));
}

/// How many keys a row of the ANSI keyboard has.
pub open spec fn ansi_len(row: int) -> int {
    if row == 0 || row == 1 {
        14
    } else if row == 2 {
        13
    } else {
        12
    }
}

proof fn lemma_ansi_codes_distinct()
    ensures
        forall|r: int, i: int, s: int, j: int|
            0 <= r < 4 && 0 <= s < 4 && 0 <= i < ansi_len(r) && 0 <= j < ansi_len(s) && (r != s || i
                != j) ==> #[trigger] ansi_codes(r)[i] != #[trigger] ansi_codes(s)[j],
{
}

/// The place of the key at column `i` of a row of the ANSI keyboard.
pub open spec fn ansi_loc(row: int, i: int) -> KeyLoc {
    KeyLoc {
        midi_row: row as u8,
        midi_col: i as u8,
        led_row: (row + 1) as u8,
        led_col: ansi_led_cols(row)[i],
    }
}

proof fn lemma_with_ansi_row(m: Map<u8, KeyLoc>, row: int, n: int)
    requires
        0 <= row < 4,
        0 <= n <= ansi_len(row),
    ensures
        forall|i: int|
            0 <= i < n ==> with_ansi_row(m, row, n).contains_key(#[trigger] ansi_codes(row)[i])
                && with_ansi_row(m, row, n)[ansi_codes(row)[i]] == ansi_loc(row, i),
        forall|k: u8| #[trigger]
            with_ansi_row(m, row, n).contains_key(k) ==> (m.contains_key(k) || exists|i: int|
                0 <= i < n && #[trigger] ansi_codes(row)[i] == k),
    decreases n,
{
    lemma_ansi_codes_distinct();
    if n > 0 {
        lemma_with_ansi_row(m, row, n - 1);
    }
}

proof fn lemma_ansi_row_keeps(m: Map<u8, KeyLoc>, next: int, n: int, row: int, i: int)
    requires
        0 <= row < next < 4,
        0 <= i < ansi_len(row),
        0 <= n <= ansi_len(next),
        m.contains_key(ansi_codes(row)[i]),
    ensures
        with_ansi_row(m, next, n).contains_key(ansi_codes(row)[i]),
        with_ansi_row(m, next, n)[ansi_codes(row)[i]] == m[ansi_codes(row)[i]],
    decreases n,
{
    if n > 0 {
        lemma_ansi_codes_distinct();
        lemma_ansi_row_keeps(m, next, n - 1, row, i);
        assert(ansi_codes(next)[n - 1] != ansi_codes(row)[i]);
    }
}

/// The keys of the ANSI keyboard are where its rows show them, and there are no others.
pub proof fn ansi_keys_by_row()
    ensures
        forall|row: int, i: int|
            0 <= row < 4 && 0 <= i < ansi_len(row) ==> ansi_map().contains_key(
                #[trigger] ansi_codes(row)[i],
            ) && ansi_map()[ansi_codes(row)[i]] == ansi_loc(row, i),
        forall|k: u8| #[trigger]
            ansi_map().contains_key(k) ==> exists|row: int, i: int|
                0 <= row < 4 && 0 <= i < ansi_len(row) && #[trigger] ansi_codes(row)[i] == k,
{
    lemma_ansi_codes_distinct();
    let m0 = with_ansi_row(Map::empty(), 0, 14);
    let m1 = with_ansi_row(m0, 1, 14);
    let m2 = with_ansi_row(m1, 2, 13);
    lemma_with_ansi_row(Map::empty(), 0, 14);
    lemma_with_ansi_row(m0, 1, 14);
    lemma_with_ansi_row(m1, 2, 13);
    lemma_with_ansi_row(m2, 3, 12);
    assert forall|row: int, i: int|
        0 <= row < 4 && 0 <= i < ansi_len(row) implies ansi_map().contains_key(
        #[trigger] ansi_codes(row)[i],
    ) && ansi_map()[ansi_codes(row)[i]] == ansi_loc(row, i) by {
        if row == 0 {
            lemma_ansi_row_keeps(m0, 1, 14, row, i);
        }
        if row <= 1 {
            lemma_ansi_row_keeps(m1, 2, 13, row, i);
        }
        if row <= 2 {
            lemma_ansi_row_keeps(m2, 3, 12, row, i);
        }
    }
    assert forall|k: u8| #[trigger] ansi_map().contains_key(k) implies exists|row: int, i: int|
        0 <= row < 4 && 0 <= i < ansi_len(row) && #[trigger] ansi_codes(row)[i] == k by {
        if m2.contains_key(k) {
            if m1.contains_key(k) {
                if m0.contains_key(k) {
                    let i = choose|i: int| 0 <= i < 14 && #[trigger] ansi_codes(0)[i] == k;
                    assert(ansi_len(0) == 14 && ansi_codes(0)[i] == k);
                } else {
                    let i = choose|i: int| 0 <= i < 14 && #[trigger] ansi_codes(1)[i] == k;
                    assert(ansi_len(1) == 14 && ansi_codes(1)[i] == k);
                }
            } else {
                let i = choose|i: int| 0 <= i < 13 && #[trigger] ansi_codes(2)[i] == k;
                assert(ansi_len(2) == 13 && ansi_codes(2)[i] == k);
            }
        } else {
            let i = choose|i: int| 0 <= i < 12 && #[trigger] ansi_codes(3)[i] == k;
            assert(ansi_len(3) == 12 && ansi_codes(3)[i] == k);
        }
    }
}

/// On the ANSI keyboard every key is on the grid, no two share a place or an LED, and the
/// rows have no gaps: with any mounting the cells of a row are its keys in order.
pub proof fn ansi_rows_have_no_gaps()
    ensures
        forall|k: u8| #[trigger] ansi_map().contains_key(k) ==> on_grid(ansi_map()[k]),
        forall|a: u8, b: u8|
            #![trigger ansi_map().contains_key(a), ansi_map().contains_key(b)]
            ansi_map().contains_key(a) && ansi_map().contains_key(b) && a != b ==> (
            ansi_map()[a].midi_row != ansi_map()[b].midi_row || (ansi_map()[a].midi_col
                != ansi_map()[b].midi_col && ansi_map()[a].led_col != ansi_map()[b].led_col)),
        rows_have_no_gaps(ansi_map()),
{
    ansi_keys_by_row();
    let m = ansi_map();
    assert forall|row: int, lo: int, col: int, hi: int|
        lo <= col <= hi && #[trigger] has_key_at(m, row, lo) && #[trigger] has_key_at(
            m,
            row,
            hi,
        ) implies #[trigger] has_key_at(m, row, col) by {
        let a = choose|k: u8| #[trigger]
            m.contains_key(k) && m[k].midi_row == row && m[k].midi_col == lo;
        let b = choose|k: u8| #[trigger]
            m.contains_key(k) && m[k].midi_row == row && m[k].midi_col == hi;
        assert(m.contains_key(a));
        assert(m.contains_key(b));
        let (ra, ia) = choose|r: int, i: int|
            0 <= r < 4 && 0 <= i < ansi_len(r) && #[trigger] ansi_codes(r)[i] == a;
        let (rb, ib) = choose|r: int, i: int|
            0 <= r < 4 && 0 <= i < ansi_len(r) && #[trigger] ansi_codes(r)[i] == b;
        assert(ra == row && ib == hi && rb == row && ia == lo);
        assert(m.contains_key(ansi_codes(row)[col]));
    }
    assert forall|a: u8, b: u8|
        #![trigger m.contains_key(a), m.contains_key(b)]
        m.contains_key(a) && m.contains_key(b) && a != b implies m[a].midi_row != m[b].midi_row || (
    m[a].midi_col != m[b].midi_col && m[a].led_col != m[b].led_col) by {
        let (ra, ia) = choose|r: int, i: int|
            0 <= r < 4 && 0 <= i < ansi_len(r) && #[trigger] ansi_codes(r)[i] == a;
        let (rb, ib) = choose|r: int, i: int|
            0 <= r < 4 && 0 <= i < ansi_len(r) && #[trigger] ansi_codes(r)[i] == b;
        assert(m[a] == ansi_loc(ra, ia));
        assert(m[b] == ansi_loc(rb, ib));
        if ra == rb {
            assert(ia != ib);
            assert(ansi_led_cols(ra)[ia] != ansi_led_cols(ra)[ib]);
        }
    }
}

/// An upright board is seen as it is; one that is turned is seen with its rows and columns
/// counted from the other end, and one that is mirrored with its columns. Only places on the
/// grid can be turned or mirrored, and only by half a turn.
pub proof fn mounting_counts_from_the_other_end(loc: KeyLoc, rotation_deg: u16)
    ensures
        logical(loc, 0, false) == Ok::<KeyLoc, GridError>(loc),
        loc.midi_row < 4 && loc.midi_col < 14 ==> {
            &&& logical(loc, 180, false) matches Ok(l) && l.midi_row + loc.midi_row == 3
                && l.midi_col + loc.midi_col == 13
            &&& logical(loc, 0, true) matches Ok(l) && l.midi_row == loc.midi_row && l.midi_col
                + loc.midi_col == 13
            &&& logical(loc, 180, true) matches Ok(l) && l.midi_row + loc.midi_row == 3
                && l.midi_col == loc.midi_col
        },
        loc.midi_row >= 4 || loc.midi_col >= 14 ==> {
            &&& logical(loc, 180, false) == Err::<KeyLoc, GridError>(GridError::OutOfBounds)
            &&& logical(loc, 180, true) == Err::<KeyLoc, GridError>(GridError::OutOfBounds)
            &&& logical(loc, 0, true) == Err::<KeyLoc, GridError>(GridError::OutOfBounds)
        },
        rotation_deg != 0 && rotation_deg != 180 ==> logical(loc, rotation_deg, false) == Err::<
            KeyLoc,
            GridError,
        >(GridError::UnsupportedRotation(rotation_deg)) && logical(loc, rotation_deg, true) == Err::<
            KeyLoc,
            GridError,
        >(GridError::UnsupportedRotation(rotation_deg)),
{
}

/// The cells of a row follow each other from its first column on, and each row has fourteen.
pub proof fn cells_follow_the_columns(loc: KeyLoc, next: KeyLoc, offs: Seq<u8>)
    requires
        offs.len() == 4,
        loc.midi_row < 4,
        next.midi_row == loc.midi_row,
        next.midi_col == loc.midi_col + 1,
    ensures
        cell_index(loc, offs) is Some <==> offs[loc.midi_row as int] <= loc.midi_col < 14,
        offs[loc.midi_row as int] == loc.midi_col && loc.midi_col < 14 ==> cell_index(loc, offs)
            == Some(14 * loc.midi_row),
        cell_index(loc, offs) is Some && next.midi_col < 14 ==> cell_index(next, offs) == Some(
            cell_index(loc, offs)->0 + 1,
        ),
{
}

/// The LED of each key of the ANSI keyboard is in the row below its own, and in its own
/// column but where a wide key comes before it: in the row of the left Shift the LEDs are one
/// to the right, and those of Enter and the right Shift are in the last column.
pub proof fn ansi_leds_are_under_their_keys(k: u8)
    requires
        ansi_map().contains_key(k),
    ensures
        ({
            let loc = ansi_map()[k];
            &&& loc.midi_row < 4 && loc.led_row == loc.midi_row + 1
            &&& loc.midi_row <= 1 ==> loc.midi_col < 14 && loc.led_col == loc.midi_col
            &&& loc.midi_row == 2 ==> loc.midi_col < 13 && loc.led_col == (if loc.midi_col == 12 {
                13
            } else {
                loc.midi_col
            })
            &&& loc.midi_row == 3 ==> loc.midi_col < 12 && loc.led_col == (if loc.midi_col == 0 {
                0
            } else if loc.midi_col == 11 {
                13
            } else {
                loc.midi_col + 1
            })
        }),
{
    ansi_keys_by_row();
    let (row, i) = choose|row: int, i: int|
        0 <= row < 4 && 0 <= i < ansi_len(row) && #[trigger] ansi_codes(row)[i] == k;
    assert(ansi_map()[k] == ansi_loc(row, i));
}

/// The rows of the ANSI keyboard by usage code: what each key is on such a keyboard.
pub proof fn ansi_rows_by_usage(row: int, i: int)
    requires
        0 <= row < 4,
        0 <= i,
        i < 14 - (if row == 2 {
            1int
        } else if row == 3 {
            2
        } else {
            0
        }),
    ensures
        ({
            let code = (if row == 0 {
                seq![41u8, 30, 31, 32, 33, 34, 35, 36, 37, 38, 39, 45, 46, 42]
            } else if row == 1 {
                seq![43u8, 20, 26, 8, 21, 23, 28, 24, 12, 18, 19, 47, 48, 49]
            } else if row == 2 {
                seq![57u8, 4, 22, 7, 9, 10, 11, 13, 14, 15, 51, 52, 40]
            } else {
                seq![225u8, 29, 27, 6, 25, 5, 17, 16, 54, 55, 56, 229]
            })[i];
            &&& ansi_map().contains_key(code)
            &&& ansi_map()[code].midi_row == row
            &&& ansi_map()[code].midi_col == i
        }),
{
    ansi_keys_by_row();
    assert(ansi_map().contains_key(ansi_codes(row)[i]));
}

proof fn lemma_overridden(
    names: Seq<Option<Seq<char>>>,
    m: Map<u8, KeyLoc>,
    overrides: Seq<(String, u8, u8, u8, u8)>,
    n: int,
    c: u8,
)
    requires
        0 <= n <= overrides.len(),
        forall|i: int|
            0 <= i < n ==> hid::first_named(names, (#[trigger] overrides[i]).0@) is Some,
    ensures
        first_unknown(names, overrides, n) is None,
        ({
            let after = overridden(names, m, overrides, n);
            &&& (forall|i: int|
                0 <= i < n ==> hid::first_named(names, (#[trigger] overrides[i]).0@) != Some(c)) ==> (
            after.contains_key(c) <==> m.contains_key(c)) && after[c] == m[c]
            &&& forall|i: int|
                0 <= i < n && hid::first_named(names, (#[trigger] overrides[i]).0@) == Some(c) && (
                forall|j: int|
                    i < j < n ==> hid::first_named(names, (#[trigger] overrides[j]).0@) != Some(c))
                    ==> after.contains_key(c) && after[c].midi_row == overrides[i].1
                    && after[c].midi_col == overrides[i].2 && after[c].led_row == overrides[i].3
                    && after[c].led_col == overrides[i].4
        }),
    decreases n,
{
    if n > 0 {
        lemma_overridden(names, m, overrides, n - 1, c);
        let o = overrides[n - 1];
        let code = hid::first_named(names, o.0@)->0;
        let before = overridden(names, m, overrides, n - 1);
        let after = overridden(names, m, overrides, n);
        assert(after == before.insert(code, override_loc(o)));
        assert forall|i: int|
            0 <= i < n && hid::first_named(names, (#[trigger] overrides[i]).0@) == Some(c) && (
            forall|j: int|
                i < j < n ==> hid::first_named(names, (#[trigger] overrides[j]).0@) != Some(
                    c,
                )) implies after.contains_key(c) && after[c].midi_row == overrides[i].1
            && after[c].midi_col == overrides[i].2 && after[c].led_row == overrides[i].3
            && after[c].led_col == overrides[i].4 by {
            if i < n - 1 {
                assert(hid::first_named(names, overrides[n - 1].0@) != Some(c));
                assert(code != c);
            }
        }
    }
}

/// An override puts the key that it names where it says, unless a later one names the same
/// key; keys that none names stay where they are.
pub proof fn the_last_override_counts(
    names: Seq<Option<Seq<char>>>,
    m: Map<u8, KeyLoc>,
    overrides: Seq<(String, u8, u8, u8, u8)>,
    c: u8,
)
    requires
        forall|i: int|
            0 <= i < overrides.len() ==> hid::first_named(
                names,
                (#[trigger] overrides[i]).0@,
            ) is Some,
    ensures
        first_unknown(names, overrides, overrides.len() as int) is None,
        ({
            let n = overrides.len() as int;
            let after = overridden(names, m, overrides, n);
            &&& (forall|i: int|
                0 <= i < n ==> hid::first_named(names, (#[trigger] overrides[i]).0@) != Some(c)) ==> (
            after.contains_key(c) <==> m.contains_key(c)) && after[c] == m[c]
            &&& forall|i: int|
                0 <= i < n && hid::first_named(names, (#[trigger] overrides[i]).0@) == Some(c) && (
                forall|j: int|
                    i < j < n ==> hid::first_named(names, (#[trigger] overrides[j]).0@) != Some(c))
                    ==> after.contains_key(c) && after[c].midi_row == overrides[i].1
                    && after[c].midi_col == overrides[i].2 && after[c].led_row == overrides[i].3
                    && after[c].led_col == overrides[i].4
        }),
{
    lemma_overridden(names, m, overrides, overrides.len() as int, c);
}

proof fn lemma_first_unknown(
    names: Seq<Option<Seq<char>>>,
    overrides: Seq<(String, u8, u8, u8, u8)>,
    n: int,
    k: int,
)
    requires
        0 <= k < n <= overrides.len(),
        hid::first_named(names, overrides[k].0@) is None,
        forall|i: int|
            0 <= i < k ==> hid::first_named(names, (#[trigger] overrides[i]).0@) is Some,
    ensures
        first_unknown(names, overrides, n) == Some(k),
    decreases n,
{
    if n == k + 1 {
        lemma_overridden(names, Map::empty(), overrides, k, 0);
    } else {
        lemma_first_unknown(names, overrides, n - 1, k);
    }
}

/// The first name that no key bears is the one that is told, and the overrides before it are
/// all that take effect.
pub proof fn unknown_names_end_the_overrides(
    names: Seq<Option<Seq<char>>>,
    m: Map<u8, KeyLoc>,
    overrides: Seq<(String, u8, u8, u8, u8)>,
    k: int,
)
    requires
        0 <= k < overrides.len(),
        hid::first_named(names, overrides[k].0@) is None,
        forall|i: int|
            0 <= i < k ==> hid::first_named(names, (#[trigger] overrides[i]).0@) is Some,
    ensures
        first_unknown(names, overrides, overrides.len() as int) == Some(k),
        overridden(names, m, overrides, overrides.len() as int) == overridden(
            names,
            m,
            overrides,
            k,
        ),
{
    lemma_first_unknown(names, overrides, overrides.len() as int, k);
    lemma_first_unknown(names, overrides, k + 1, k);
    lemma_overridden(names, m, overrides, k, 0);
    lemma_first_unknown_stays(names, m, overrides, k + 1, overrides.len() as int);
}

/// The first column of a row is that of its leftmost key: no key of the row sits further
/// left, and one sits there, unless the row has no keys.
pub proof fn rows_begin_with_their_first_key(
    m: Map<u8, KeyLoc>,
    rotation_deg: u16,
    mirror: bool,
    offs: Seq<u8>,
    k: u8,
)
    requires
        rows_begin_at(m, rotation_deg, mirror, offs),
        m.contains_key(k),
        logical(m[k], rotation_deg, mirror) matches Ok(l) && l.midi_row < 4 && l.midi_col < 14,
    ensures
        ({
            let l = logical(m[k], rotation_deg, mirror)->Ok_0;
            &&& offs.len() == 4
            &&& offs[l.midi_row as int] <= l.midi_col
            &&& exists|f: u8| #[trigger]
                m.contains_key(f) && (logical(m[f], rotation_deg, mirror) matches Ok(x)
                    && x.midi_row == l.midi_row && x.midi_col == offs[l.midi_row as int])
        }),
{
    let l = logical(m[k], rotation_deg, mirror)->Ok_0;
    let row = l.midi_row as int;
    assert(sits_at(m, rotation_deg, mirror, k, row, l.midi_col as int));
    assert(row_begins_at(m, rotation_deg, mirror, row, offs[row]));
    let f = choose|f: u8| sits_at(m, rotation_deg, mirror, f, row, offs[row] as int);
    assert(m.contains_key(f));
}

/// What is wrong with a place is told in words.
pub proof fn grid_errors_are_told(deg: u16)
    ensures
        GridError::OutOfBounds.text() == "KeyLoc out of 4x14 bounds"@,
        GridError::UnsupportedRotation(deg).text() == "Unsupported rotation_deg "@ + text::decimal(
            deg as nat,
        ) + "; use 0 or 180"@,
{
}

} // verus!
