//! The `.wtn` layout format: per board, 56 cells that give each playable key its MIDI
//! note, its MIDI channel and its colour.
use std::collections::HashMap;
use vstd::prelude::*;
use vstd::slice::slice_subrange;
use crate::rgb;
use crate::rgb::HexChannels;
use crate::text;

verus! {

/// The number of cells of a board: a grid of four rows and fourteen columns.
pub const CELLS: usize = 56;

#[derive(Debug, Clone, Copy, PartialEq, Eq)]
pub struct WtnCell {
    pub key: u8,
    /// The channel as it is written in the file, 1 to 16.
    pub chan_1based: u8,
    pub col_rgb: (u8, u8, u8),
}

/// The cell of which a file says nothing.
pub open spec fn blank_cell() -> WtnCell {
    WtnCell { key: 0, chan_1based: 0, col_rgb: (0, 0, 0) }
}

impl Default for WtnCell {
    fn default() -> (r: Self)
        ensures
            r == blank_cell(),
    {
        WtnCell { key: 0, chan_1based: 0, col_rgb: (0, 0, 0) }
    }
}

/// A layout: for each board that it speaks of, the cells of that board.
#[derive(Debug, Clone)]
pub struct Wtn {
    pub boards: HashMap<u8, Vec<WtnCell>>,
}

impl View for Wtn {
    type V = Map<u8, Seq<WtnCell>>;

    open spec fn view(&self) -> Map<u8, Seq<WtnCell>> {
        rows(self.boards@)
    }
}

/// The cells that each board of `m` holds.
pub open spec fn rows(m: Map<u8, Vec<WtnCell>>) -> Map<u8, Seq<WtnCell>> {
    m.map_values(|v: Vec<WtnCell>| v@)
}

/// The cell at `index` of `board`, where the layout has one.
pub open spec fn cell_of(boards: Map<u8, Seq<WtnCell>>, board: u8, index: int) -> Option<WtnCell> {
    if boards.contains_key(board) && 0 <= index < boards[board].len() {
        Some(boards[board][index])
    } else {
        None
    }
}

/// Whether every board of the layout has the full number of cells.
pub open spec fn full_boards(boards: Map<u8, Seq<WtnCell>>) -> bool {
    forall|b: u8| #[trigger] boards.contains_key(b) ==> boards[b].len() == CELLS
}

impl Wtn {
    /// The cell at `index_0_55` of `board`, where the layout has one.
    pub fn cell(&self, board: u8, index_0_55: usize) -> (r: Option<WtnCell>)
        ensures
            r == cell_of(self@, board, index_0_55 as int),
    {
        match self.boards.get(&board) {
            Some(v) => if index_0_55 < v.len() {
                Some(v[index_0_55])
            } else {
                None
            },
            None => None,
        }
    }
}

/// Why a text is no layout.
#[derive(Debug, Clone, Copy, PartialEq, Eq, Structural)]
pub enum WtnErrorKind {
    UnknownSection,
    BadBoardHeader,
    NoBoardYet,
    NotKeyValue,
    NotFieldIndex,
    BadIndex,
    BadKeyValue,
    BadChanValue,
    BadColor,
}

/// Why a text is no layout, with the part of it that is wrong.
#[derive(Debug, Clone)]
pub struct WtnError {
    pub kind: WtnErrorKind,
    pub context: String,
}

/// What the lines read so far come to: the boards with the section that is open, or
/// the first error, or a colour that would have to be cut inside a character.
pub enum WtnScan {
    Reading(Map<u8, Seq<WtnCell>>, Option<u8>),
    Failed(WtnErrorKind, Seq<char>),
    OffBoundary,
}

/// What a cell's colour field says.
pub enum ColorField {
    Color(u8, u8, u8),
    Bad,
    OffBoundary,
}

/// The colour that the last six bytes of `s` write.
pub open spec fn color_field(s: Seq<char>) -> ColorField {
    let t = text::trim(s);
    let u = if t.len() > 0 && t[0] == '#' {
        t.drop_first()
    } else {
        t
    };
    if text::utf8_len(u) < 6 {
        ColorField::Bad
    } else {
        match text::tail_chars(u, 6) {
            None => ColorField::OffBoundary,
            Some(k) => match rgb::hex_channels(u.skip(u.len() - k)) {
                HexChannels::Color(r, g, b) => ColorField::Color(r, g, b),
                HexChannels::OffBoundary => ColorField::OffBoundary,
                _ => ColorField::Bad,
            },
        }
    }
}

/// The boards with a full row of blank cells for `b`, unless `b` is there already.
pub open spec fn with_board(boards: Map<u8, Seq<WtnCell>>, b: u8) -> Map<u8, Seq<WtnCell>> {
    if boards.contains_key(b) {
        boards
    } else {
        boards.insert(b, Seq::new(CELLS as nat, |i: int| blank_cell()))
    }
}

/// The boards with `cell` put at `i` of board `b`.
pub open spec fn with_cell(
    boards: Map<u8, Seq<WtnCell>>,
    b: u8,
    i: int,
    cell: WtnCell,
) -> Map<u8, Seq<WtnCell>> {
    let full = with_board(boards, b);
    full.insert(b, full[b].update(i, cell))
}

/// What the field `field` of cell `i` of board `b` with the value `v` does to the
/// boards. `line` is the line that it stands on.
pub open spec fn scan_field(
    boards: Map<u8, Seq<WtnCell>>,
    b: u8,
    i: int,
    field: Seq<char>,
    v: Seq<char>,
    line: Seq<char>,
) -> WtnScan {
    let cell = with_board(boards, b)[b][i];
    if field == "Key"@ {
        match text::parse_unsigned(v, 10, 255) {
            Some(n) => WtnScan::Reading(
                with_cell(boards, b, i, WtnCell { key: n as u8, ..cell }),
                Some(b),
            ),
            None => WtnScan::Failed(WtnErrorKind::BadKeyValue, line),
        }
    } else if field == "Chan"@ {
        match text::parse_unsigned(v, 10, 255) {
            Some(n) => WtnScan::Reading(
                with_cell(boards, b, i, WtnCell { chan_1based: n as u8, ..cell }),
                Some(b),
            ),
            None => WtnScan::Failed(WtnErrorKind::BadChanValue, line),
        }
    } else if field == "Col"@ {
        match color_field(v) {
            ColorField::Color(r, g, bl) => WtnScan::Reading(
                with_cell(boards, b, i, WtnCell { col_rgb: (r, g, bl), ..cell }),
                Some(b),
            ),
            ColorField::Bad => WtnScan::Failed(WtnErrorKind::BadColor, line),
            ColorField::OffBoundary => WtnScan::OffBoundary,
        }
    } else {
        WtnScan::Reading(with_board(boards, b), Some(b))
    }
}

/// What a line `Field_N=value` inside the section of board `b` does to the boards.
pub open spec fn scan_entry(boards: Map<u8, Seq<WtnCell>>, b: u8, line: Seq<char>) -> WtnScan {
    match text::split_once(line, '=') {
        None => WtnScan::Failed(WtnErrorKind::NotKeyValue, line),
        Some((k0, v0)) => {
            let k = text::trim(k0);
            match text::split_once(k, '_') {
                None => WtnScan::Failed(WtnErrorKind::NotFieldIndex, k),
                Some((field, digits)) => match text::parse_unsigned(digits, 10, usize::MAX as nat) {
                    None => WtnScan::Failed(WtnErrorKind::BadIndex, k),
                    Some(i) => if i >= CELLS {
                        WtnScan::Reading(boards, Some(b))
                    } else {
                        scan_field(boards, b, i as int, field, text::trim(v0), line)
                    },
                },
            }
        },
    }
}

/// What a header `[name]` does. `line` is the line that it stands on.
pub open spec fn scan_header(
    boards: Map<u8, Seq<WtnCell>>,
    name: Seq<char>,
    line: Seq<char>,
) -> WtnScan {
    match text::strip_prefix(name, "Board"@) {
        None => WtnScan::Failed(WtnErrorKind::UnknownSection, line),
        Some(digits) => match text::parse_unsigned(digits, 10, 255) {
            Some(b) => WtnScan::Reading(boards, Some(b as u8)),
            None => WtnScan::Failed(WtnErrorKind::BadBoardHeader, line),
        },
    }
}

/// What one more line does. Blank lines and lines that begin with `#` or `;` are
/// left out.
pub open spec fn scan_line(
    boards: Map<u8, Seq<WtnCell>>,
    current: Option<u8>,
    raw: Seq<char>,
) -> WtnScan {
    let line = text::trim(raw);
    if line.len() == 0 || line[0] == '#' || line[0] == ';' {
        WtnScan::Reading(boards, current)
    } else if line[0] == '[' && line.last() == ']' {
        scan_header(boards, line.subrange(1, line.len() - 1), line)
    } else {
        match current {
            None => WtnScan::Failed(WtnErrorKind::NoBoardYet, Seq::empty()),
            Some(b) => scan_entry(boards, b, line),
        }
    }
}

/// What the lines `ls` come to, read in order.
pub open spec fn scan_lines(ls: Seq<Seq<char>>) -> WtnScan
    decreases ls.len(),
{
    if ls.len() == 0 {
        WtnScan::Reading(Map::empty(), None)
    } else {
        match scan_lines(ls.drop_last()) {
            WtnScan::Reading(boards, current) => scan_line(boards, current, ls.last()),
            other => other,
        }
    }
}

/// What the text of a layout file comes to.
pub open spec fn scan_text(s: Seq<char>) -> WtnScan {
    scan_lines(text::lines(s))
}

/// Whether reading `s` as a layout meets no colour that would have to be cut inside a
/// character.
pub open spec fn wtn_on_boundaries(s: Seq<char>) -> bool {
    !(scan_text(s) is OffBoundary)
}

/// The colour that the last six bytes of `s` write.
pub fn parse_hex_color_last6(s: &[char]) -> (c: ColorField)
    ensures
        c == color_field(s@),
{
    let t = text::trimmed(s);
    let u = if t.len() > 0 && t[0] == '#' {
        slice_subrange(t, 1, t.len())
    } else {
        t
    };
    proof {
        if t@.len() > 0 && t@[0] == '#' {
            assert(u@ =~= t@.drop_first());
        }
    }
    if text::utf8_len_up_to(u, 6) < 6 {
        return ColorField::Bad;
    }
    match text::tail_char_count(u, 6) {
        None => ColorField::OffBoundary,
        Some(k) => {
            let tail = slice_subrange(u, u.len() - k, u.len());
            assert(tail@ =~= u@.skip(u@.len() - k));
            match rgb::read_hex_channels(tail) {
                HexChannels::Color(r, g, b) => ColorField::Color(r, g, b),
                HexChannels::OffBoundary => ColorField::OffBoundary,
                _ => ColorField::Bad,
            }
        },
    }
}

fn blank_row() -> (v: Vec<WtnCell>)
    ensures
        v@ == Seq::new(CELLS as nat, |i: int| blank_cell()),
{
    let mut v: Vec<WtnCell> = Vec::new();
    for i in 0..CELLS
        invariant
            v@ == Seq::new(i as nat, |i: int| blank_cell()),
    {
        v.push(WtnCell { key: 0, chan_1based: 0, col_rgb: (0, 0, 0) });
    }
    v
}

fn open_board(boards: &mut HashMap<u8, Vec<WtnCell>>, b: u8)
    requires
        full_boards(rows(old(boards)@)),
    ensures
        rows(final(boards)@) == with_board(rows(old(boards)@), b),
        full_boards(rows(final(boards)@)),
        final(boards)@.contains_key(b),
{
    if !boards.contains_key(&b) {
        let row = blank_row();
        boards.insert(b, row);
        assert(rows(boards@) =~= with_board(rows(old(boards)@), b));
    }
}

fn put_cell(boards: &mut HashMap<u8, Vec<WtnCell>>, b: u8, i: usize, cell: WtnCell)
    requires
        full_boards(rows(old(boards)@)),
        old(boards)@.contains_key(b),
        i < CELLS,
    ensures
        rows(final(boards)@) == with_cell(rows(old(boards)@), b, i as int, cell),
        full_boards(rows(final(boards)@)),
{
    assert(rows(boards@).contains_key(b));
    match boards.remove(&b) {
        Some(row0) => {
            let mut row = row0;
            row.set(i, cell);
            boards.insert(b, row);
        },
        None => {},
    }
    assert(rows(boards@) =~= with_cell(rows(old(boards)@), b, i as int, cell));
}

fn error(kind: WtnErrorKind, context: &[char]) -> (e: WtnError)
    ensures
        e.kind == kind,
        e.context@ == context@,
{
    WtnError { kind, context: text::string_of(context) }
}

/// What reading a layout file gives.
pub enum WtnReading {
    Layout(Wtn),
    Failed(WtnError),
    OffBoundary,
}

/// Whether `r` reports what the scan `s` comes to.
pub open spec fn reports(r: WtnReading, s: WtnScan) -> bool {
    match s {
        WtnScan::Reading(boards, _) => r is Layout && r->Layout_0@ == boards && full_boards(boards),
        WtnScan::Failed(kind, context) => r is Failed && r->Failed_0.kind == kind
            && r->Failed_0.context@ == context,
        WtnScan::OffBoundary => r is OffBoundary,
    }
}

/// One line of the file: what is left to say of it once its white space is off.
enum Step {
    Go,
    Failed(WtnError),
    OffBoundary,
}

spec fn step_reports(st: Step, boards: Map<u8, Seq<WtnCell>>, current: Option<u8>, s: WtnScan) -> bool {
    match s {
        WtnScan::Reading(b2, c2) => st is Go && boards == b2 && current == c2 && full_boards(b2),
        WtnScan::Failed(kind, context) => st is Failed && st->Failed_0.kind == kind
            && st->Failed_0.context@ == context,
        WtnScan::OffBoundary => st is OffBoundary,
    }
}

fn read_field(
    boards: &mut HashMap<u8, Vec<WtnCell>>,
    b: u8,
    i: usize,
    field: &[char],
    v: &[char],
    line: &[char],
) -> (st: Step)
    requires
        full_boards(rows(old(boards)@)),
        i < CELLS,
    ensures
        step_reports(
            st,
            rows(final(boards)@),
            Some(b),
            scan_field(rows(old(boards)@), b, i as int, field@, v@, line@),
        ),
{
    open_board(boards, b);
    let ghost opened = rows(boards@);
    assert(with_board(opened, b) == opened);
    let cell: WtnCell = match boards.get(&b) {
        Some(row) => row[i],
        None => WtnCell { key: 0, chan_1based: 0, col_rgb: (0, 0, 0) },
    };
    if text::same_text(field, "Key") {
        match text::parse_u8(v) {
            Some(n) => {
                put_cell(boards, b, i, WtnCell { key: n, ..cell });
                Step::Go
            },
            None => Step::Failed(error(WtnErrorKind::BadKeyValue, line)),
        }
    } else if text::same_text(field, "Chan") {
        match text::parse_u8(v) {
            Some(n) => {
                put_cell(boards, b, i, WtnCell { chan_1based: n, ..cell });
                Step::Go
            },
            None => Step::Failed(error(WtnErrorKind::BadChanValue, line)),
        }
    } else if text::same_text(field, "Col") {
        match parse_hex_color_last6(v) {
            ColorField::Color(r, g, bl) => {
                put_cell(boards, b, i, WtnCell { col_rgb: (r, g, bl), ..cell });
                Step::Go
            },
            ColorField::Bad => Step::Failed(error(WtnErrorKind::BadColor, line)),
            ColorField::OffBoundary => Step::OffBoundary,
        }
    } else {
        Step::Go
    }
}

fn read_entry(boards: &mut HashMap<u8, Vec<WtnCell>>, b: u8, line: &[char]) -> (st: Step)
    requires
        full_boards(rows(old(boards)@)),
    ensures
        step_reports(
            st,
            rows(final(boards)@),
            Some(b),
            scan_entry(rows(old(boards)@), b, line@),
        ),
{
    let (k0, v0) = match text::split_at_char(line, '=') {
        Some(kv) => kv,
        None => return Step::Failed(error(WtnErrorKind::NotKeyValue, line)),
    };
    let k = text::trimmed(k0);
    let v = text::trimmed(v0);
    let (field, digits) = match text::split_at_char(k, '_') {
        Some(fd) => fd,
        None => return Step::Failed(error(WtnErrorKind::NotFieldIndex, k)),
    };
    let i: usize = match text::parse_usize(digits) {
        Some(i) => i,
        None => return Step::Failed(error(WtnErrorKind::BadIndex, k)),
    };
    if i >= CELLS {
        return Step::Go;
    }
    read_field(boards, b, i, field, v, line)
}

fn read_line(
    boards: &mut HashMap<u8, Vec<WtnCell>>,
    current: &mut Option<u8>,
    raw: &[char],
) -> (st: Step)
    requires
        full_boards(rows(old(boards)@)),
    ensures
        step_reports(
            st,
            rows(final(boards)@),
            *final(current),
            scan_line(rows(old(boards)@), *old(current), raw@),
        ),
{
    let line = text::trimmed(raw);
    if line.len() == 0 || line[0] == '#' || line[0] == ';' {
        return Step::Go;
    }
    if line[0] == '[' && line[line.len() - 1] == ']' {
        let name = slice_subrange(line, 1, line.len() - 1);
        return match text::after_prefix(name, "Board") {
            None => Step::Failed(error(WtnErrorKind::UnknownSection, line)),
            Some(digits) => match text::parse_u8(digits) {
                Some(b) => {
                    *current = Some(b);
                    Step::Go
                },
                None => Step::Failed(error(WtnErrorKind::BadBoardHeader, line)),
            },
        };
    }
    match *current {
        None => Step::Failed(WtnError { kind: WtnErrorKind::NoBoardYet, context: String::new() }),
        Some(b) => read_entry(boards, b, line),
    }
}

proof fn lemma_scan_stuck(ls: Seq<Seq<char>>, k: int)
    requires
        0 <= k <= ls.len(),
        !(scan_lines(ls.take(k)) is Reading),
    ensures
        scan_lines(ls) == scan_lines(ls.take(k)),
    decreases ls.len() - k,
{
    if k < ls.len() {
        assert(ls.take(k + 1).drop_last() == ls.take(k));
        lemma_scan_stuck(ls, k + 1);
    } else {
        assert(ls.take(k) == ls);
    }
}

/// Reads the text of a layout file.
pub fn read_wtn(text: &str) -> (r: WtnReading)
    ensures
        reports(r, scan_text(text@)),
{
    let cs = text::chars_of(text);
    let ls = text::split_lines(cs.as_slice());
    let ghost all = text::lines(text@);
    let mut boards: HashMap<u8, Vec<WtnCell>> = HashMap::new();
    let mut current: Option<u8> = None;
    let n: usize = ls.len();
    let mut i: usize = 0;
    assert(rows(boards@) =~= Map::empty());
    assert(all.take(0) =~= Seq::empty());
    while i < n
        invariant
            n == ls@.len() == all.len(),
            i <= n,
            all == text::views(ls@),
            full_boards(rows(boards@)),
            scan_lines(all.take(i as int)) == WtnScan::Reading(rows(boards@), current),
            all == text::lines(text@),
        decreases n - i,
    {
        assert(all.take(i + 1).drop_last() == all.take(i as int));
        assert(all[i as int] == ls@[i as int]@);
        match read_line(&mut boards, &mut current, ls[i]) {
            Step::Go => {},
            Step::Failed(e) => {
                proof {
                    lemma_scan_stuck(all, i + 1);
                }
                return WtnReading::Failed(e);
            },
            Step::OffBoundary => {
                proof {
                    lemma_scan_stuck(all, i + 1);
                }
                return WtnReading::OffBoundary;
            },
        }
        i += 1;
    }
    assert(all.take(n as int) == all);
    WtnReading::Layout(Wtn { boards })
}

/// Whether [`parse_wtn`] can be asked for the layout that `text` writes.
pub fn wtn_is_on_boundaries(text: &str) -> (b: bool)
    ensures
        b == wtn_on_boundaries(text@),
{
    match read_wtn(text) {
        WtnReading::OffBoundary => false,
        _ => true,
    }
}

/// The layout that `text` writes.
pub fn parse_wtn(text: &str) -> (r: Result<Wtn, WtnError>)
    requires
        wtn_on_boundaries(text@),
    ensures
        match scan_text(text@) {
            WtnScan::Failed(kind, context) => r is Err && r->Err_0.kind == kind
                && r->Err_0.context@ == context,
            WtnScan::Reading(boards, _) => r is Ok && r->Ok_0@ == boards && full_boards(boards),
            WtnScan::OffBoundary => false,
        },
{
    match read_wtn(text) {
        WtnReading::Layout(w) => Ok(w),
        WtnReading::Failed(e) => Err(e),
        WtnReading::OffBoundary => Err(
            WtnError { kind: WtnErrorKind::BadColor, context: String::new() },
        ),
    }
}

/// What stands before the context in an error's message.
pub open spec fn message_head(kind: WtnErrorKind) -> Seq<char> {
    match kind {
        WtnErrorKind::UnknownSection => "Unknown section header: "@,
        WtnErrorKind::BadBoardHeader => "Bad board header: "@,
        WtnErrorKind::NoBoardYet => "Key/value before any [BoardX] header"@,
        WtnErrorKind::NotKeyValue => "Bad line (expected key=value): "@,
        WtnErrorKind::NotFieldIndex => "Bad key (expected Field_N): "@,
        WtnErrorKind::BadIndex => "Bad index: "@,
        WtnErrorKind::BadKeyValue => "Bad Key value: "@,
        WtnErrorKind::BadChanValue => "Bad Chan value: "@,
        WtnErrorKind::BadColor => "Bad Col: "@,
    }
}

impl WtnError {
    /// The error in words.
    pub fn message(&self) -> (r: String)
        ensures
            r@ == message_head(self.kind) + self.context@,
    {
        let head = match self.kind {
            WtnErrorKind::UnknownSection => "Unknown section header: ",
            WtnErrorKind::BadBoardHeader => "Bad board header: ",
            WtnErrorKind::NoBoardYet => "Key/value before any [BoardX] header",
            WtnErrorKind::NotKeyValue => "Bad line (expected key=value): ",
            WtnErrorKind::NotFieldIndex => "Bad key (expected Field_N): ",
            WtnErrorKind::BadIndex => "Bad index: ",
            WtnErrorKind::BadKeyValue => "Bad Key value: ",
            WtnErrorKind::BadChanValue => "Bad Chan value: ",
            WtnErrorKind::BadColor => "Bad Col: ",
        };
        let mut out = text::text_of(head);
        text::push_text(&mut out, self.context.as_str());
        out
    }
}

/// The line that gives cell `i` the value `v` in the field `field`.
pub open spec fn entry_line(field: Seq<char>, i: nat, v: Seq<char>) -> Seq<char> {
    field + seq!['_'] + text::decimal(i) + seq!['='] + v
}

/// The lines of cell `i` of a fresh layout file whose first key is `start`.
pub open spec fn fresh_cell_lines(start: nat, i: nat) -> Seq<char> {
    let nl = seq!['\n'];
    let key = if start + i <= 255 {
        start + i
    } else {
        255
    };
    entry_line("Key"@, i, text::decimal(key)) + nl + entry_line("Chan"@, i, "1"@) + nl + entry_line(
        "Col"@,
        i,
        "303030"@,
    ) + nl
}

/// The lines of the first `n` cells of a fresh layout file whose first key is `start`.
pub open spec fn fresh_cells_text(start: nat, n: nat) -> Seq<char>
    decreases n,
{
    if n == 0 {
        Seq::empty()
    } else {
        fresh_cells_text(start, (n - 1) as nat) + fresh_cell_lines(start, (n - 1) as nat)
    }
}

/// The section of board `b` of a fresh layout file.
pub open spec fn fresh_board_text(b: nat, start: nat) -> Seq<char> {
    "[Board"@ + text::decimal(b) + "]\n"@ + fresh_cells_text(start, CELLS as nat) + "\n"@
}

/// A fresh layout file: two boards, on channel 1, whose keys go up by one from 12 and
/// from 68.
pub open spec fn fresh_wtn_text() -> Seq<char> {
    fresh_board_text(0, 12) + fresh_board_text(1, 68)
}

fn push_fresh_cell(out: &mut String, start: u8, i: u8)
    ensures
        final(out)@ == old(out)@ + fresh_cell_lines(start as nat, i as nat),
{
    text::push_text(out, "Key");
    out.push('_');
    text::push_decimal(out, i as u64);
    out.push('=');
    text::push_decimal(out, start.saturating_add(i) as u64);
    out.push('\n');
    text::push_text(out, "Chan");
    out.push('_');
    text::push_decimal(out, i as u64);
    out.push('=');
    text::push_text(out, "1");
    out.push('\n');
    text::push_text(out, "Col");
    out.push('_');
    text::push_decimal(out, i as u64);
    out.push('=');
    text::push_text(out, "303030");
    out.push('\n');
    assert(out@ =~= old(out)@ + fresh_cell_lines(start as nat, i as nat));
}

fn push_fresh_board(out: &mut String, b: u8, start: u8)
    ensures
        final(out)@ == old(out)@ + fresh_board_text(b as nat, start as nat),
{
    text::push_text(out, "[Board");
    text::push_decimal(out, b as u64);
    text::push_text(out, "]\n");
    let ghost head = out@;
    let mut i: u8 = 0;
    while i < 56
        invariant
            i <= 56,
            out@ =~= head + fresh_cells_text(start as nat, i as nat),
        decreases 56 - i,
    {
        push_fresh_cell(out, start, i);
        i += 1;
    }
    text::push_text(out, "\n");
    assert(out@ =~= old(out)@ + fresh_board_text(b as nat, start as nat));
}

/// The text of a fresh layout file.
pub fn fresh_wtn() -> (r: String)
    ensures
        r@ == fresh_wtn_text(),
{
    let mut out = String::new();
    push_fresh_board(&mut out, 0, 12);
    push_fresh_board(&mut out, 1, 68);
    assert(out@ =~= fresh_wtn_text());
    out
}

/// A line that [`entry_line`] writes is read as the field, the index and the value that
/// it was made from.
pub proof fn entry_is_taken_apart(
    boards: Map<u8, Seq<WtnCell>>,
    b: u8,
    field: Seq<char>,
    i: nat,
    v: Seq<char>,
)
    requires
        i < CELLS,
        field.len() > 0,
        !field.contains('='),
        !field.contains('_'),
        !text::is_space(field[0]),
        field[0] != '#',
        field[0] != ';',
        field[0] != '[',
        v.len() > 0,
        !text::is_space(v[0]),
        !text::is_space(v.last()),
    ensures
        scan_line(boards, Some(b), entry_line(field, i, v)) == scan_field(
            boards,
            b,
            i as int,
            field,
            v,
            entry_line(field, i, v),
        ),
{
    let ds = text::decimal(i);
    text::lemma_decimal_is_digits(i);
    let k = field + seq!['_'] + ds;
    let line = entry_line(field, i, v);
    assert(line =~= k + seq!['='] + v);
    assert(!k.contains('=')) by {
        if k.contains('=') {
            let j = choose|j: int| 0 <= j < k.len() && k[j] == '=';
            if j < field.len() {
                assert(field[j] == '=');
            } else if j > field.len() {
                assert(ds[j - field.len() - 1] == '=');
            }
        }
    }
    assert(line[0] == field[0]);
    assert(line.last() == v.last());
    text::lemma_trim_is_identity(line);
    text::lemma_split_behind(k, '=', v);
    assert(k[0] == field[0]);
    assert(k.last() == ds.last());
    assert(text::is_digit(ds[ds.len() - 1]));
    text::lemma_trim_is_identity(k);
    text::lemma_trim_is_identity(v);
    text::lemma_split_behind(field, '_', ds);
    text::decimal_reads_back(i, usize::MAX as nat);
}

/// A written note number is read back: the line sets that cell's note and nothing else.
pub proof fn key_entry_reads_back(boards: Map<u8, Seq<WtnCell>>, b: u8, i: nat, n: u8)
    requires
        i < CELLS,
    ensures
        scan_line(boards, Some(b), entry_line("Key"@, i, text::decimal(n as nat)))
            == WtnScan::Reading(
            with_cell(boards, b, i as int, WtnCell { key: n, ..with_board(boards, b)[b][i as int] }),
            Some(b),
        ),
{
    reveal_strlit("Key");
    let v = text::decimal(n as nat);
    text::lemma_decimal_is_digits(n as nat);
    assert(text::is_digit(v[0]) && text::is_digit(v[v.len() - 1]));
    text::decimal_reads_back(n as nat, 255);
    entry_is_taken_apart(boards, b, "Key"@, i, v);
}

/// A written channel is read back: the line sets that cell's channel and nothing else.
pub proof fn chan_entry_reads_back(boards: Map<u8, Seq<WtnCell>>, b: u8, i: nat, n: u8)
    requires
        i < CELLS,
    ensures
        scan_line(boards, Some(b), entry_line("Chan"@, i, text::decimal(n as nat)))
            == WtnScan::Reading(
            with_cell(
                boards,
                b,
                i as int,
                WtnCell { chan_1based: n, ..with_board(boards, b)[b][i as int] },
            ),
            Some(b),
        ),
{
    reveal_strlit("Key");
    reveal_strlit("Chan");
    let v = text::decimal(n as nat);
    text::lemma_decimal_is_digits(n as nat);
    assert(text::is_digit(v[0]) && text::is_digit(v[v.len() - 1]));
    text::decimal_reads_back(n as nat, 255);
    entry_is_taken_apart(boards, b, "Chan"@, i, v);
}

/// A section header is read back as the board that it names.
pub proof fn header_reads_back(boards: Map<u8, Seq<WtnCell>>, current: Option<u8>, b: u8)
    ensures
        scan_line(boards, current, "[Board"@ + text::decimal(b as nat) + "]"@) == WtnScan::Reading(
            boards,
            Some(b),
        ),
{
    reveal_strlit("[Board");
    reveal_strlit("Board");
    reveal_strlit("]");
    let ds = text::decimal(b as nat);
    let line = "[Board"@ + ds + "]"@;
    let name = line.subrange(1, line.len() - 1);
    assert(name =~= "Board"@ + ds);
    text::lemma_trim_is_identity(line);
    assert(name.take(5) =~= "Board"@);
    assert(name.skip(5) =~= ds);
    text::decimal_reads_back(b as nat, 255);
}

/// A written colour is read back: the line sets that cell's colour and nothing else.
pub proof fn col_entry_reads_back(boards: Map<u8, Seq<WtnCell>>, b: u8, i: nat, c: (u8, u8, u8))
    requires
        i < CELLS,
    ensures
        scan_line(boards, Some(b), entry_line("Col"@, i, rgb::hex_color(c))) == WtnScan::Reading(
            with_cell(
                boards,
                b,
                i as int,
                WtnCell { col_rgb: c, ..with_board(boards, b)[b][i as int] },
            ),
            Some(b),
        ),
{
    reveal_strlit("Key");
    reveal_strlit("Chan");
    reveal_strlit("Col");
    let v = rgb::hex_color(c);
    rgb::color_reads_back(c);
    assert(!text::is_space(v[0]) && !text::is_space(v[5]));
    entry_is_taken_apart(boards, b, "Col"@, i, v);
    text::lemma_trim_is_identity(v);
    assert(v.skip(0) =~= v);
}

/// What the lines `ls` come to, read in order behind those that came to `boards` and
/// `current`.
pub open spec fn scan_from(
    boards: Map<u8, Seq<WtnCell>>,
    current: Option<u8>,
    ls: Seq<Seq<char>>,
) -> WtnScan
    decreases ls.len(),
{
    if ls.len() == 0 {
        WtnScan::Reading(boards, current)
    } else {
        match scan_from(boards, current, ls.drop_last()) {
            WtnScan::Reading(m, c) => scan_line(m, c, ls.last()),
            other => other,
        }
    }
}

proof fn lemma_scan_from(ls: Seq<Seq<char>>)
    ensures
        scan_lines(ls) == scan_from(Map::empty(), None, ls),
    decreases ls.len(),
{
    if ls.len() > 0 {
        lemma_scan_from(ls.drop_last());
    }
}

proof fn lemma_scan_behind(
    boards: Map<u8, Seq<WtnCell>>,
    current: Option<u8>,
    a: Seq<Seq<char>>,
    b: Seq<Seq<char>>,
)
    ensures
        scan_from(boards, current, a + b) == match scan_from(boards, current, a) {
            WtnScan::Reading(m, c) => scan_from(m, c, b),
            other => other,
        },
    decreases b.len(),
{
    if b.len() == 0 {
        assert(a + b =~= a);
    } else {
        lemma_scan_behind(boards, current, a, b.drop_last());
        assert((a + b).drop_last() =~= a + b.drop_last());
    }
}

/// The lines that give cell `i` its note, its channel and its colour.
pub open spec fn cell_lines(i: nat, c: WtnCell) -> Seq<Seq<char>> {
    seq![
        entry_line("Key"@, i, text::decimal(c.key as nat)),
        entry_line("Chan"@, i, text::decimal(c.chan_1based as nat)),
        entry_line("Col"@, i, rgb::hex_color(c.col_rgb)),
    ]
}

/// The lines of the cells `order[0]` to `order[n - 1]` of a board, one after the other.
pub open spec fn board_lines(cells: Seq<WtnCell>, order: Seq<int>, n: int) -> Seq<Seq<char>>
    decreases n,
{
    if n <= 0 {
        Seq::empty()
    } else {
        board_lines(cells, order, n - 1) + cell_lines(order[n - 1] as nat, cells[order[n - 1]])
    }
}

/// Whether `order` goes through all cells of a board, in whatever order.
pub open spec fn covers(order: Seq<int>) -> bool {
    &&& forall|k: int| 0 <= k < order.len() ==> 0 <= #[trigger] order[k] < CELLS
    &&& forall|i: int| 0 <= i < CELLS ==> #[trigger] order.contains(i)
}

/// The cells of a board from the first to the last.
pub open spec fn in_index_order() -> Seq<int> {
    Seq::new(CELLS as nat, |i: int| i)
}

proof fn lemma_cell_lines(boards: Map<u8, Seq<WtnCell>>, b: u8, i: nat, c: WtnCell)
    requires
        i < CELLS,
        full_boards(boards),
    ensures
        scan_from(boards, Some(b), cell_lines(i, c)) == WtnScan::Reading(
            with_cell(boards, b, i as int, c),
            Some(b),
        ),
        full_boards(with_cell(boards, b, i as int, c)),
{
    let ls = cell_lines(i, c);
    assert(full_boards(with_board(boards, b)));
    let full = with_board(boards, b);
    key_entry_reads_back(boards, b, i, c.key);
    let c1 = WtnCell { key: c.key, ..full[b][i as int] };
    let m1 = with_cell(boards, b, i as int, c1);
    assert(m1.contains_key(b) && m1[b][i as int] == c1);
    chan_entry_reads_back(m1, b, i, c.chan_1based);
    let c2 = WtnCell { chan_1based: c.chan_1based, ..c1 };
    let m2 = with_cell(m1, b, i as int, c2);
    assert(m2.contains_key(b) && m2[b][i as int] == c2);
    col_entry_reads_back(m2, b, i, c.col_rgb);
    let m3 = with_cell(m2, b, i as int, c);
    reveal_with_fuel(scan_from, 4);
    assert(ls.drop_last().drop_last().drop_last() =~= Seq::empty());
    assert(ls.drop_last().drop_last().last() == ls[0]);
    assert(ls.drop_last().last() == ls[1]);
    assert(m3[b] =~= full[b].update(i as int, c));
    assert(m3 =~= with_cell(boards, b, i as int, c));
}

/// `row` with the cells `order[0]` to `order[n - 1]` taken from `cells`.
spec fn overlaid(
    row: Seq<WtnCell>,
    cells: Seq<WtnCell>,
    order: Seq<int>,
    n: int,
) -> Seq<WtnCell> {
    Seq::new(
        row.len(),
        |i: int|
            if order.take(n).contains(i) {
                cells[i]
            } else {
                row[i]
            },
    )
}

proof fn lemma_board_lines(
    boards: Map<u8, Seq<WtnCell>>,
    b: u8,
    cells: Seq<WtnCell>,
    order: Seq<int>,
    n: int,
)
    requires
        0 <= n <= order.len(),
        covers(order),
        cells.len() == CELLS,
        full_boards(boards),
    ensures
        scan_from(boards, Some(b), board_lines(cells, order, n)) == (if n == 0 {
            WtnScan::Reading(boards, Some(b))
        } else {
            WtnScan::Reading(
                boards.insert(b, overlaid(with_board(boards, b)[b], cells, order, n)),
                Some(b),
            )
        }),
    decreases n,
{
    if n > 0 {
        let at = order[n - 1];
        lemma_board_lines(boards, b, cells, order, n - 1);
        lemma_scan_behind(
            boards,
            Some(b),
            board_lines(cells, order, n - 1),
            cell_lines(at as nat, cells[at]),
        );
        let full = with_board(boards, b)[b];
        assert(full.len() == CELLS);
        let before = if n == 1 {
            boards
        } else {
            boards.insert(b, overlaid(full, cells, order, n - 1))
        };
        assert(full_boards(before));
        lemma_cell_lines(before, b, at as nat, cells[at]);
        let row = with_board(before, b)[b];
        let head = order.take(n - 1);
        let longer = order.take(n);
        assert forall|i: int| longer.contains(i) <==> (head.contains(i) || i == at) by {
            if head.contains(i) {
                let k = choose|k: int| 0 <= k < head.len() && head[k] == i;
                assert(longer[k] == i);
            }
            if i == at {
                assert(longer[n - 1] == i);
            }
            if longer.contains(i) {
                let k = choose|k: int| 0 <= k < longer.len() && longer[k] == i;
                if k < n - 1 {
                    assert(head[k] == i);
                }
            }
        }
        assert(n == 1 ==> head =~= Seq::empty());
        assert(row =~= overlaid(full, cells, order, n - 1));
        assert(row.update(at, cells[at]) =~= overlaid(full, cells, order, n));
        assert(with_cell(before, b, at, cells[at]) =~= boards.insert(
            b,
            overlaid(full, cells, order, n),
        ));
    }
}

/// The line that begins the section of a board.
pub open spec fn header_line(b: u8) -> Seq<char> {
    "[Board"@ + text::decimal(b as nat) + "]"@
}

/// A board as it is written: its header, and its cells in the order `order`.
pub open spec fn section(b: u8, cells: Seq<WtnCell>, order: Seq<int>) -> Seq<Seq<char>> {
    seq![header_line(b)] + board_lines(cells, order, order.len() as int)
}

/// A board that is written cell by cell behind its header, the cells in any order, is read
/// back, whatever was read before.
pub proof fn board_reads_back(
    boards: Map<u8, Seq<WtnCell>>,
    current: Option<u8>,
    b: u8,
    cells: Seq<WtnCell>,
    order: Seq<int>,
)
    requires
        cells.len() == CELLS,
        covers(order),
        full_boards(boards),
    ensures
        scan_from(boards, current, section(b, cells, order)) == WtnScan::Reading(
            boards.insert(b, cells),
            Some(b),
        ),
{
    let head = seq![header_line(b)];
    let n = order.len() as int;
    header_reads_back(boards, current, b);
    assert(head.drop_last() =~= Seq::empty());
    reveal_with_fuel(scan_from, 2);
    lemma_scan_behind(boards, current, head, board_lines(cells, order, n));
    lemma_board_lines(boards, b, cells, order, n);
    let full = with_board(boards, b)[b];
    assert(order.contains(0));
    assert(order.take(n) =~= order);
    assert(overlaid(full, cells, order, n) =~= cells);
}

/// The lines of the boards `bs`, one after the other, the cells of each in its order of
/// `orders`.
pub open spec fn layout_lines(
    w: Map<u8, Seq<WtnCell>>,
    bs: Seq<u8>,
    orders: Seq<Seq<int>>,
) -> Seq<Seq<char>>
    decreases bs.len(),
{
    if bs.len() == 0 {
        Seq::empty()
    } else {
        layout_lines(w, bs.drop_last(), orders) + section(
            bs.last(),
            w[bs.last()],
            orders[bs.len() - 1],
        )
    }
}

/// The boards `bs` of `w`.
spec fn those_of(w: Map<u8, Seq<WtnCell>>, bs: Seq<u8>) -> Map<u8, Seq<WtnCell>>
    decreases bs.len(),
{
    if bs.len() == 0 {
        Map::empty()
    } else {
        those_of(w, bs.drop_last()).insert(bs.last(), w[bs.last()])
    }
}

proof fn lemma_those_of(w: Map<u8, Seq<WtnCell>>, bs: Seq<u8>)
    ensures
        forall|b: u8| #[trigger] those_of(w, bs).contains_key(b) <==> bs.contains(b),
        forall|b: u8| #[trigger] those_of(w, bs).contains_key(b) ==> those_of(w, bs)[b] == w[b],
    decreases bs.len(),
{
    if bs.len() > 0 {
        let front = bs.drop_last();
        lemma_those_of(w, front);
        let before = those_of(w, front);
        assert(those_of(w, bs) == before.insert(bs.last(), w[bs.last()]));
        assert forall|b: u8| #[trigger]
            those_of(w, bs).contains_key(b) implies those_of(w, bs)[b] == w[b] by {
            assert(b != bs.last() ==> before.contains_key(b));
        }
        assert forall|b: u8| #[trigger] those_of(w, bs).contains_key(b) <==> bs.contains(b) by {
            assert(before.contains_key(b) <==> front.contains(b));
            if front.contains(b) {
                let k = choose|k: int| 0 <= k < front.len() && front[k] == b;
                assert(bs[k] == b);
            }
            if b == bs.last() {
                assert(bs[bs.len() - 1] == b);
            }
            if bs.contains(b) {
                let k = choose|k: int| 0 <= k < bs.len() && bs[k] == b;
                if k < front.len() {
                    assert(front[k] == b);
                }
            }
        }
    }
}

proof fn lemma_layout_lines(w: Map<u8, Seq<WtnCell>>, bs: Seq<u8>, orders: Seq<Seq<int>>)
    requires
        full_boards(w),
        forall|k: int| 0 <= k < bs.len() ==> w.contains_key(#[trigger] bs[k]),
        bs.len() <= orders.len(),
        forall|k: int| 0 <= k < orders.len() ==> covers(#[trigger] orders[k]),
    ensures
        scan_from(Map::empty(), None, layout_lines(w, bs, orders)) == WtnScan::Reading(
            those_of(w, bs),
            if bs.len() == 0 {
                None
            } else {
                Some(bs.last())
            },
        ),
        forall|j: int|
            0 <= j < layout_lines(w, bs, orders).len() ==> text::is_line(
                #[trigger] layout_lines(w, bs, orders)[j],
            ),
    decreases bs.len(),
{
    if bs.len() > 0 {
        let front = bs.drop_last();
        let b = bs.last();
        let order = orders[bs.len() - 1];
        assert forall|k: int| 0 <= k < front.len() implies w.contains_key(#[trigger] front[k]) by {
            assert(front[k] == bs[k]);
        }
        assert(w.contains_key(bs[bs.len() - 1]));
        lemma_layout_lines(w, front, orders);
        lemma_those_of(w, front);
        let before = layout_lines(w, front, orders);
        let sec = section(b, w[b], order);
        let m = those_of(w, front);
        assert(full_boards(m)) by {
            assert forall|x: u8| #[trigger] m.contains_key(x) implies m[x].len() == CELLS by {
                let k = choose|k: int| 0 <= k < front.len() && front[k] == x;
                assert(w.contains_key(front[k]));
            }
        }
        lemma_scan_behind(Map::empty(), None, before, sec);
        board_reads_back(
            m,
            if front.len() == 0 {
                None
            } else {
                Some(front.last())
            },
            b,
            w[b],
            order,
        );
        lemma_header_is_line(b);
        lemma_board_lines_are_lines(w[b], order, order.len() as int);
        let all = layout_lines(w, bs, orders);
        assert forall|j: int| 0 <= j < all.len() implies text::is_line(#[trigger] all[j]) by {
            let body = board_lines(w[b], order, order.len() as int);
            if j < before.len() {
                assert(all[j] == before[j]);
            } else if j > before.len() {
                assert(all[j] == body[j - before.len() - 1]);
            }
        }
    }
}

/// A layout that is written board by board, the boards in any order and the cells of each in
/// any order, is read back: the same boards, with the same note, channel and colour in every
/// cell.
pub proof fn layout_reads_back(w: Map<u8, Seq<WtnCell>>, bs: Seq<u8>, orders: Seq<Seq<int>>)
    requires
        full_boards(w),
        forall|b: u8| #[trigger] w.contains_key(b) <==> bs.contains(b),
        bs.len() <= orders.len(),
        forall|k: int| 0 <= k < orders.len() ==> covers(#[trigger] orders[k]),
    ensures
        scan_text(text::lines_text(layout_lines(w, bs, orders))) == WtnScan::Reading(
            w,
            if bs.len() == 0 {
                None
            } else {
                Some(bs.last())
            },
        ),
        wtn_on_boundaries(text::lines_text(layout_lines(w, bs, orders))),
{
    assert forall|k: int| 0 <= k < bs.len() implies w.contains_key(#[trigger] bs[k]) by {
        assert(bs.contains(bs[k]));
    }
    let ls = layout_lines(w, bs, orders);
    lemma_layout_lines(w, bs, orders);
    lemma_those_of(w, bs);
    assert(those_of(w, bs) =~= w);
    text::lines_read_back(ls);
    lemma_scan_from(ls);
}

/// The cells of a board of a fresh layout file whose first key is `start`.
pub open spec fn fresh_cells(start: nat) -> Seq<WtnCell> {
    Seq::new(
        CELLS as nat,
        |i: int|
            WtnCell {
                key: (start + i) as u8,
                chan_1based: 1,
                col_rgb: (0x30u8, 0x30u8, 0x30u8),
            },
    )
}

/// The lines of a fresh layout file.
pub open spec fn fresh_lines() -> Seq<Seq<char>> {
    section(0, fresh_cells(12), in_index_order()).push(Seq::empty()) + section(
        1,
        fresh_cells(68),
        in_index_order(),
    ).push(Seq::empty())
}

proof fn lemma_lines_text_behind(a: Seq<Seq<char>>, b: Seq<Seq<char>>)
    ensures
        text::lines_text(a + b) == text::lines_text(a) + text::lines_text(b),
    decreases b.len(),
{
    if b.len() == 0 {
        assert(a + b =~= a);
        assert(text::lines_text(a + b) =~= text::lines_text(a) + text::lines_text(b));
    } else {
        lemma_lines_text_behind(a, b.drop_last());
        assert((a + b).drop_last() =~= a + b.drop_last());
        assert(text::lines_text(a + b) =~= text::lines_text(a) + text::lines_text(b));
    }
}

proof fn lemma_fresh_cells_text(start: nat, n: int)
    requires
        0 <= n <= CELLS,
        start + CELLS <= 255,
    ensures
        fresh_cells_text(start, n as nat) == text::lines_text(
            board_lines(fresh_cells(start), in_index_order(), n),
        ),
    decreases n,
{
    if n > 0 {
        lemma_fresh_cells_text(start, n - 1);
        let i = (n - 1) as nat;
        let c = fresh_cells(start)[n - 1];
        let ls = cell_lines(i, c);
        lemma_lines_text_behind(board_lines(fresh_cells(start), in_index_order(), n - 1), ls);
        reveal_strlit("1");
        reveal_strlit("303030");
        assert(text::decimal(1) =~= "1"@);
        assert(rgb::hex_color(c.col_rgb) =~= "303030"@);
        reveal_with_fuel(text::lines_text, 4);
        assert(ls.drop_last().drop_last().drop_last() =~= Seq::empty());
        assert(text::lines_text(ls) =~= fresh_cell_lines(start, i));
    }
}

proof fn lemma_fresh_board_text(b: u8, start: nat)
    requires
        start + CELLS <= 255,
    ensures
        fresh_board_text(b as nat, start) == text::lines_text(
            section(b, fresh_cells(start), in_index_order()).push(Seq::empty()),
        ),
{
    let head = seq![header_line(b)];
    let body = board_lines(fresh_cells(start), in_index_order(), CELLS as int);
    let all = (head + body).push(Seq::empty());
    lemma_fresh_cells_text(start, CELLS as int);
    lemma_lines_text_behind(head, body);
    assert(all.drop_last() =~= head + body);
    assert(head.drop_last() =~= Seq::empty());
    reveal_with_fuel(text::lines_text, 2);
    reveal_strlit("]\n");
    reveal_strlit("]");
    reveal_strlit("\n");
    assert(text::lines_text(head) =~= "[Board"@ + text::decimal(b as nat) + "]\n"@);
    assert(text::lines_text(all) =~= fresh_board_text(b as nat, start));
}

proof fn lemma_entry_is_line(field: Seq<char>, i: nat, v: Seq<char>)
    requires
        !field.contains('\n'),
        v.len() > 0,
        forall|j: int| 0 <= j < v.len() ==> #[trigger] v[j] != '\n' && v[j] != '\r',
    ensures
        text::is_line(entry_line(field, i, v)),
{
    let l = entry_line(field, i, v);
    let ds = text::decimal(i);
    text::lemma_decimal_is_digits(i);
    if l.contains('\n') {
        let j = choose|j: int| 0 <= j < l.len() && l[j] == '\n';
        if j < field.len() {
            assert(field[j] == '\n');
        } else if field.len() < j < field.len() + 1 + ds.len() {
            assert(text::is_digit(ds[j - field.len() - 1]));
        } else if j > field.len() + 1 + ds.len() {
            assert(v[j - field.len() - 2 - ds.len()] == '\n');
        }
    }
    assert(l.last() == v[v.len() - 1]);
}

proof fn lemma_board_lines_are_lines(cells: Seq<WtnCell>, order: Seq<int>, n: int)
    requires
        0 <= n <= order.len(),
        covers(order),
    ensures
        forall|j: int|
            0 <= j < board_lines(cells, order, n).len() ==> text::is_line(
                #[trigger] board_lines(cells, order, n)[j],
            ),
    decreases n,
{
    if n > 0 {
        lemma_board_lines_are_lines(cells, order, n - 1);
        let i = order[n - 1] as nat;
        let c = cells[order[n - 1]];
        let before = board_lines(cells, order, n - 1);
        let ls = cell_lines(i, c);
        reveal_strlit("Key");
        reveal_strlit("Chan");
        reveal_strlit("Col");
        let key = text::decimal(c.key as nat);
        let chan = text::decimal(c.chan_1based as nat);
        text::lemma_decimal_is_digits(c.key as nat);
        text::lemma_decimal_is_digits(c.chan_1based as nat);
        rgb::color_reads_back(c.col_rgb);
        assert forall|j: int| 0 <= j < key.len() implies #[trigger] key[j] != '\n' && key[j]
            != '\r' by {
            assert(text::is_digit(key[j]));
        }
        assert forall|j: int| 0 <= j < chan.len() implies #[trigger] chan[j] != '\n' && chan[j]
            != '\r' by {
            assert(text::is_digit(chan[j]));
        }
        let col = rgb::hex_color(c.col_rgb);
        assert forall|j: int| 0 <= j < col.len() implies #[trigger] col[j] != '\n' && col[j]
            != '\r' by {
            assert(!text::is_space(col[j]));
        }
        lemma_entry_is_line("Key"@, i, key);
        lemma_entry_is_line("Chan"@, i, chan);
        lemma_entry_is_line("Col"@, i, col);
        assert forall|j: int| 0 <= j < board_lines(cells, order, n).len() implies text::is_line(
            #[trigger] board_lines(cells, order, n)[j],
        ) by {
            if j < before.len() {
                assert(board_lines(cells, order, n)[j] == before[j]);
            } else {
                assert(board_lines(cells, order, n)[j] == ls[j - before.len()]);
            }
        }
    }
}

proof fn lemma_header_is_line(b: u8)
    ensures
        text::is_line(header_line(b)),
{
    reveal_strlit("[Board");
    reveal_strlit("]");
    let ds = text::decimal(b as nat);
    text::lemma_decimal_is_digits(b as nat);
    let l = header_line(b);
    if l.contains('\n') {
        let j = choose|j: int| 0 <= j < l.len() && l[j] == '\n';
        if 6 <= j < 6 + ds.len() {
            assert(text::is_digit(ds[j - 6]));
        }
    }
}

/// A fresh layout file is read back: two boards of 56 cells each, on channel 1 and grey,
/// whose notes go up by one from 12 and from 68.
pub proof fn fresh_file_reads_back()
    ensures
        scan_text(fresh_wtn_text()) == WtnScan::Reading(
            Map::empty().insert(0u8, fresh_cells(12)).insert(1u8, fresh_cells(68)),
            Some(1u8),
        ),
        wtn_on_boundaries(fresh_wtn_text()),
{
    let order = in_index_order();
    assert(covers(order)) by {
        assert forall|i: int| 0 <= i < CELLS implies #[trigger] order.contains(i) by {
            assert(order[i] == i);
        }
    }
    let a0 = section(0, fresh_cells(12), order);
    let a1 = section(1, fresh_cells(68), order);
    let a = a0.push(Seq::empty());
    let b = a1.push(Seq::empty());
    let ls = fresh_lines();
    lemma_fresh_board_text(0, 12);
    lemma_fresh_board_text(1, 68);
    lemma_lines_text_behind(a, b);
    assert(fresh_wtn_text() == text::lines_text(ls));
    lemma_header_is_line(0);
    lemma_header_is_line(1);
    lemma_board_lines_are_lines(fresh_cells(12), order, CELLS as int);
    lemma_board_lines_are_lines(fresh_cells(68), order, CELLS as int);
    assert forall|j: int| 0 <= j < ls.len() implies text::is_line(#[trigger] ls[j]) by {
        let x = board_lines(fresh_cells(12), order, CELLS as int);
        let y = board_lines(fresh_cells(68), order, CELLS as int);
        if 0 < j < 1 + x.len() {
            assert(ls[j] == x[j - 1]);
        } else if j > a.len() && j < a.len() + 1 + y.len() {
            assert(ls[j] == y[j - a.len() - 1]);
        }
    }
    text::lines_read_back(ls);
    let empty = Map::<u8, Seq<WtnCell>>::empty();
    let m0 = empty.insert(0u8, fresh_cells(12));
    let m1 = m0.insert(1u8, fresh_cells(68));
    board_reads_back(empty, None, 0, fresh_cells(12), order);
    assert(a.drop_last() =~= a0);
    assert(text::trim(Seq::<char>::empty()).len() == 0);
    assert(scan_from(empty, None, a) == WtnScan::Reading(m0, Some(0u8)));
    assert(full_boards(m0));
    board_reads_back(m0, Some(0u8), 1, fresh_cells(68), order);
    assert(b.drop_last() =~= a1);
    assert(scan_from(m0, Some(0u8), b) == WtnScan::Reading(m1, Some(1u8)));
    lemma_scan_behind(empty, None, a, b);
    lemma_scan_from(ls);
}

/// Whether a line, once the space around it is gone, is neither blank nor a comment nor a
/// header.
pub open spec fn is_entry(line: Seq<char>) -> bool {
    line.len() > 0 && line[0] != '#' && line[0] != ';' && !(line[0] == '[' && line.last() == ']')
}

/// Whether a line is blank or a comment.
pub open spec fn says_nothing(raw: Seq<char>) -> bool {
    let line = text::trim(raw);
    line.len() == 0 || line[0] == '#' || line[0] == ';'
}

/// Whether a line is an entry for a cell beyond those that a board has, whatever its value.
pub open spec fn is_beyond(raw: Seq<char>) -> bool {
    let line = text::trim(raw);
    is_entry(line) && (text::split_once(line, '=') matches Some((k0, _)) && (text::split_once(
        text::trim(k0),
        '_',
    ) matches Some((_, digits)) && (text::parse_unsigned(digits, 10, usize::MAX as nat) matches Some(
        i,
    ) && i >= CELLS)))
}

/// Whether the line `b` is the line `a` but for space: around the line, or around the name
/// and the value of an entry.
pub open spec fn same_but_for_space(a: Seq<char>, b: Seq<char>) -> bool {
    let x = text::trim(a);
    let y = text::trim(b);
    x == y || (is_entry(x) && (text::split_once(x, '=') matches Some((k, v)) && (
    text::split_once(y, '=') matches Some((j, u)) && text::trim(k) == text::trim(j) && text::trim(v)
        == text::trim(u))))
}

/// Whether the lines `more` are the lines `ls`, with lines without effect put in and space
/// added or taken away. An entry beyond the cells stands behind some header.
pub open spec fn is_padded(more: Seq<Seq<char>>, ls: Seq<Seq<char>>) -> bool
    decreases more.len(),
{
    if more.len() == 0 {
        ls.len() == 0
    } else {
        let front = more.drop_last();
        ||| says_nothing(more.last()) && is_padded(front, ls)
        ||| is_beyond(more.last()) && (scan_lines(front) matches WtnScan::Reading(_, Some(_)))
            && is_padded(front, ls)
        ||| ls.len() > 0 && same_but_for_space(ls.last(), more.last()) && is_padded(
            front,
            ls.drop_last(),
        )
    }
}

/// A line that differs in space only does the same, as long as it can be read.
pub proof fn space_does_not_matter(
    boards: Map<u8, Seq<WtnCell>>,
    current: Option<u8>,
    a: Seq<char>,
    b: Seq<char>,
)
    requires
        same_but_for_space(a, b),
        scan_line(boards, current, a) is Reading,
    ensures
        scan_line(boards, current, b) == scan_line(boards, current, a),
{
    let x = text::trim(a);
    let y = text::trim(b);
    if x != y {
        let (k, v) = text::split_once(x, '=')->0;
        let (j, u) = text::split_once(y, '=')->0;
        lemma_entry_ends(a, k, v);
        lemma_entry_ends(b, j, u);
        assert(is_entry(y));
    }
}

proof fn lemma_entry_ends(raw: Seq<char>, k: Seq<char>, v: Seq<char>)
    requires
        text::split_once(text::trim(raw), '=') == Some((k, v)),
    ensures
        text::trim(k).len() > 0 ==> text::trim(raw)[0] == text::trim(k)[0],
        text::trim(k).len() == 0 ==> text::trim(raw)[0] == '=',
        text::trim(v).len() > 0 ==> text::trim(raw).last() == text::trim(v).last(),
        text::trim(v).len() == 0 ==> text::trim(raw).last() == '=',
{
    let x = text::trim(raw);
    text::trimmed_ends(raw);
    text::trimmed_ends(k);
    text::trimmed_ends(v);
    text::lemma_find(x, '=');
    let i = text::find(x, '=') as int;
    assert(k == x.take(i) && v == x.skip(i + 1));
    if k.len() > 0 {
        assert(k[0] == x[0]);
    } else {
        assert(text::trim(k).len() == 0);
        assert(x[0] == x[i]);
    }
    if v.len() > 0 {
        assert(v.last() == x.last());
    } else {
        assert(text::trim(v).len() == 0);
        assert(x.last() == x[i]);
    }
}

/// Blank lines, comments and entries beyond the cells of a board can be put into a layout
/// that can be read, and space round its lines, names and values, without effect.
pub proof fn padding_has_no_effect(more: Seq<Seq<char>>, ls: Seq<Seq<char>>)
    requires
        is_padded(more, ls),
        scan_lines(ls) is Reading,
    ensures
        scan_lines(more) == scan_lines(ls),
    decreases more.len(),
{
    if more.len() == 0 {
        assert(more =~= ls);
    } else {
        let front = more.drop_last();
        if says_nothing(more.last()) && is_padded(front, ls) {
            padding_has_no_effect(front, ls);
        } else if is_beyond(more.last()) && (scan_lines(front) matches WtnScan::Reading(_, Some(_)))
            && is_padded(front, ls) {
            padding_has_no_effect(front, ls);
        } else {
            padding_has_no_effect(front, ls.drop_last());
            match scan_lines(ls.drop_last()) {
                WtnScan::Reading(m, c) => {
                    space_does_not_matter(m, c, ls.last(), more.last());
                },
                _ => {},
            }
        }
    }
}

/// The same of whole texts: a text whose lines are padded reads as the one without the
/// padding.
pub proof fn padded_text_reads_the_same(more: Seq<char>, s: Seq<char>)
    requires
        is_padded(text::lines(more), text::lines(s)),
        scan_text(s) is Reading,
    ensures
        scan_text(more) == scan_text(s),
        wtn_on_boundaries(more),
{
    padding_has_no_effect(text::lines(more), text::lines(s));
}

/// An entry changes one cell and no other: a board that is new has blank cells but for it.
pub proof fn entries_change_one_cell(
    boards: Map<u8, Seq<WtnCell>>,
    b: u8,
    i: int,
    cell: WtnCell,
    c: u8,
    j: int,
)
    requires
        full_boards(boards),
        0 <= i < 56,
        0 <= j < 56,
    ensures
        ({
            let after = with_cell(boards, b, i, cell);
            &&& full_boards(after)
            &&& after.contains_key(b) && after[b].len() == 56 && after[b][i] == cell
            &&& after.contains_key(c) <==> boards.contains_key(c) || c == b
            &&& boards.contains_key(c) && (c != b || j != i) ==> after[c][j] == boards[c][j]
            &&& !boards.contains_key(b) && j != i ==> after[b][j].key == 0
                && after[b][j].chan_1based == 0 && after[b][j].col_rgb == (0u8, 0u8, 0u8)
            &&& boards.contains_key(b) ==> with_board(boards, b) == boards
            &&& !boards.contains_key(b) ==> with_board(boards, b)[b].len() == 56 && with_board(
                boards,
                b,
            )[b][j] == blank_cell()
        }),
{
}

/// What is wrong with a line is told, with the line or the part of it that is wrong: an
/// entry before any header, one without an equals sign, one whose name has no number behind
/// an underscore, and a header that names no board.
pub proof fn wrong_lines_are_told(boards: Map<u8, Seq<WtnCell>>, current: Option<u8>, raw: Seq<char>)
    requires
        !says_nothing(raw),
    ensures
        ({
            let line = text::trim(raw);
            let header = line[0] == '[' && line.last() == ']';
            let name = line.subrange(1, line.len() - 1);
            let parts = text::split_once(line, '=');
            let key = text::trim((parts->0).0);
            let field = text::split_once(key, '_');
            let r = scan_line(boards, current, raw);
            &&& !header && current is None ==> r == WtnScan::Failed(
                WtnErrorKind::NoBoardYet,
                Seq::empty(),
            )
            &&& header && !text::starts_with(name, "Board"@) ==> r == WtnScan::Failed(
                WtnErrorKind::UnknownSection,
                line,
            )
            &&& header && text::starts_with(name, "Board"@) && text::parse_unsigned(
                name.skip(5),
                10,
                255,
            ) is None ==> r == WtnScan::Failed(WtnErrorKind::BadBoardHeader, line)
            &&& header && text::starts_with(name, "Board"@) && text::parse_unsigned(
                name.skip(5),
                10,
                255,
            ) is Some ==> r == WtnScan::Reading(
                boards,
                Some(text::parse_unsigned(name.skip(5), 10, 255)->0 as u8),
            )
            &&& !header && current is Some ==> {
                &&& parts is None ==> r == WtnScan::Failed(WtnErrorKind::NotKeyValue, line)
                &&& parts is Some && field is None ==> r == WtnScan::Failed(
                    WtnErrorKind::NotFieldIndex,
                    key,
                )
                &&& parts is Some && field is Some && text::parse_unsigned(
                    (field->0).1,
                    10,
                    usize::MAX as nat,
                ) is None ==> r == WtnScan::Failed(WtnErrorKind::BadIndex, key)
                &&& parts is Some && field is Some && (text::parse_unsigned(
                    (field->0).1,
                    10,
                    usize::MAX as nat,
                ) matches Some(i) && i >= 56) ==> r == WtnScan::Reading(boards, current)
            }
        }),
{
    reveal_strlit("Board");
}

/// The value of an entry: a note and a channel are numbers up to 255, a colour is one, and
/// what is none is told. An entry with another name only makes its board known.
pub proof fn wrong_values_are_told(
    boards: Map<u8, Seq<WtnCell>>,
    b: u8,
    i: int,
    field: Seq<char>,
    v: Seq<char>,
    line: Seq<char>,
)
    ensures
        ({
            let old_cell = with_board(boards, b)[b][i];
            let n = text::parse_unsigned(v, 10, 255);
            let r = scan_field(boards, b, i, field, v, line);
            &&& field == "Key"@ && n is None ==> r == WtnScan::Failed(
                WtnErrorKind::BadKeyValue,
                line,
            )
            &&& field == "Chan"@ && n is None ==> r == WtnScan::Failed(
                WtnErrorKind::BadChanValue,
                line,
            )
            &&& field == "Key"@ && n is Some ==> r == WtnScan::Reading(
                with_cell(
                    boards,
                    b,
                    i,
                    WtnCell {
                        key: n->0 as u8,
                        chan_1based: old_cell.chan_1based,
                        col_rgb: old_cell.col_rgb,
                    },
                ),
                Some(b),
            )
            &&& field == "Chan"@ && n is Some ==> r == WtnScan::Reading(
                with_cell(
                    boards,
                    b,
                    i,
                    WtnCell {
                        key: old_cell.key,
                        chan_1based: n->0 as u8,
                        col_rgb: old_cell.col_rgb,
                    },
                ),
                Some(b),
            )
            &&& field == "Col"@ && color_field(v) is Bad ==> r == WtnScan::Failed(
                WtnErrorKind::BadColor,
                line,
            )
            &&& field == "Col"@ ==> (color_field(v) matches ColorField::Color(x, y, z) ==> r
                == WtnScan::Reading(
                with_cell(
                    boards,
                    b,
                    i,
                    WtnCell {
                        key: old_cell.key,
                        chan_1based: old_cell.chan_1based,
                        col_rgb: (x, y, z),
                    },
                ),
                Some(b),
            ))
            &&& field != "Key"@ && field != "Chan"@ && field != "Col"@ ==> r == WtnScan::Reading(
                with_board(boards, b),
                Some(b),
            )
        }),
{
    reveal_strlit("Key");
    reveal_strlit("Chan");
    reveal_strlit("Col");
    assert("Key"@.len() == 3 && "Col"@.len() == 3 && "Chan"@.len() == 4);
    assert("Key"@[0] == 'K' && "Col"@[0] == 'C');
}

/// The last six characters of a colour count, whatever stands before them, and a `#` before
/// it makes no difference.
pub proof fn the_last_six_digits_are_the_colour(more: Seq<char>, c: (u8, u8, u8))
    requires
        more.len() > 0 ==> !text::is_space(more[0]),
    ensures
        color_field(more + rgb::hex_color(c)) == ColorField::Color(c.0, c.1, c.2),
{
    let tail = rgb::hex_color(c);
    let s = more + tail;
    rgb::color_reads_back(c);
    assert(!text::is_space(tail[0]) && !text::is_space(tail[5]));
    assert(s[0] == (if more.len() > 0 { more[0] } else { tail[0] }));
    assert(s.last() == tail[5]);
    text::lemma_trim_is_identity(s);
    let hash = s[0] == '#';
    let u = if hash {
        s.drop_first()
    } else {
        s
    };
    assert(tail[0] != '#');
    let head = if hash {
        more.drop_first()
    } else {
        more
    };
    assert(u =~= head + tail);
    text::lengths_add_up(head, tail);
    assert(u.skip(u.len() - 6) =~= tail);
    text::lengths_are_those_of_utf8(u, 6);
    lemma_tail_of(u, 6, 6);
}

proof fn lemma_tail_of(u: Seq<char>, n: nat, k: nat)
    requires
        k <= u.len(),
        text::utf8_len(u.skip(u.len() - k)) == n,
    ensures
        text::tail_chars(u, n) == Some(k),
    decreases u.len(),
{
    let t = u.skip(u.len() - k);
    if k == 0 {
        assert(t =~= Seq::<char>::empty());
    } else {
        let front = u.drop_last();
        assert(t.drop_last() =~= front.skip(front.len() - (k - 1)));
        assert(t.last() == u.last());
        assert(text::utf8_len(t) == text::utf8_len(t.drop_last()) + text::utf8_width(u.last()));
        lemma_tail_of(front, (n - text::utf8_width(u.last())) as nat, (k - 1) as nat);
    }
}

/// The first line that is wrong decides: what stands behind it is not read.
pub proof fn the_first_error_counts(ls: Seq<Seq<char>>, more: Seq<Seq<char>>)
    requires
        !(scan_lines(ls) is Reading),
    ensures
        scan_lines(ls + more) == scan_lines(ls),
    decreases more.len(),
{
    if more.len() == 0 {
        assert(ls + more =~= ls);
    } else {
        the_first_error_counts(ls, more.drop_last());
        assert((ls + more).drop_last() =~= ls + more.drop_last());
    }
}

/// What is wrong with a layout file is told in words, with the part of it that is wrong.
pub proof fn layout_errors_are_told(kind: WtnErrorKind)
    ensures
        message_head(kind) == (match kind {
            WtnErrorKind::UnknownSection => "Unknown section header: "@,
            WtnErrorKind::BadBoardHeader => "Bad board header: "@,
            WtnErrorKind::NoBoardYet => "Key/value before any [BoardX] header"@,
            WtnErrorKind::NotKeyValue => "Bad line (expected key=value): "@,
            WtnErrorKind::NotFieldIndex => "Bad key (expected Field_N): "@,
            WtnErrorKind::BadIndex => "Bad index: "@,
            WtnErrorKind::BadKeyValue => "Bad Key value: "@,
            WtnErrorKind::BadChanValue => "Bad Chan value: "@,
            WtnErrorKind::BadColor => "Bad Col: "@,
        }),
{
}

/// A reading reports what the lines came to: the boards, or what was wrong.
pub proof fn readings_report_the_lines(r: WtnReading, s: Seq<char>)
    requires
        reports(r, scan_text(s)),
    ensures
        r matches WtnReading::Layout(w) ==> (scan_lines(text::lines(s)) matches WtnScan::Reading(
            boards,
            _,
        ) && w@ == boards && forall|b: u8| #[trigger] boards.contains_key(b) ==> boards[b].len()
            == 56),
        r matches WtnReading::Failed(e) ==> scan_lines(text::lines(s)) == WtnScan::Failed(
            e.kind,
            e.context@,
        ),
        r is OffBoundary <==> scan_lines(text::lines(s)) is OffBoundary,
{
}

/// The cells of a fresh layout file: notes that go up by one, on the first channel, in grey.
pub proof fn fresh_cells_go_up_by_one(start: nat, i: int)
    requires
        0 <= i < 56,
        start + i <= 255,
    ensures
        fresh_cells(start).len() == 56,
        fresh_cells(start)[i].key == start + i,
        fresh_cells(start)[i].chan_1based == 1,
        fresh_cells(start)[i].col_rgb == (48u8, 48u8, 48u8),
{
}

/// A colour of fewer than six bytes is none, the space around it and a `#` before it aside.
pub proof fn short_colours_are_none(s: Seq<char>)
    ensures
        text::utf8_len(text::trim(s)) < 6 && !(text::trim(s).len() > 0 && text::trim(s)[0] == '#')
            ==> color_field(s) is Bad,
        text::trim(s).len() > 0 && text::trim(s)[0] == '#' && text::utf8_len(
            text::trim(s).drop_first(),
        ) < 6 ==> color_field(s) is Bad,
{
}

} // verus!
