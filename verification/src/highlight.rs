//! A key that is lit from outside, by a small text file.
use vstd::prelude::*;
use crate::board;
use crate::board::Board;
use crate::hidmap::KeyLoc;
use crate::paint::Stage;
use crate::rgb_worker::RgbKey;
use crate::text;
use crate::tracking::LedState;
use crate::wtn;
use crate::wtn::{Wtn, WtnCell};

verus! {

/// What the file asks for.
#[derive(Debug, Clone, Copy, PartialEq, Eq)]
pub struct Highlight {
    pub board: Option<u8>,
    pub index: Option<usize>,
    pub down: Option<bool>,
}

/// The number up to `max` that the text `v` writes, space around it aside.
pub open spec fn number(v: Seq<char>, max: nat) -> Option<nat> {
    text::parse_unsigned(text::trim(v), 10, max)
}

/// What is asked for after one more line.
pub open spec fn after_line(h: Highlight, line: Seq<char>) -> Highlight {
    match text::strip_prefix(line, "board="@) {
        Some(v) => Highlight {
            board: match number(v, u8::MAX as nat) {
                Some(n) => Some(n as u8),
                None => None,
            },
            ..h
        },
        None => match text::strip_prefix(line, "idx="@) {
            Some(v) => Highlight {
                index: match number(v, usize::MAX as nat) {
                    Some(n) => Some(n as usize),
                    None => None,
                },
                ..h
            },
            None => match text::strip_prefix(line, "down="@) {
                Some(v) => Highlight {
                    down: Some(
                        text::trim(v) == "1"@ || text::lowered(text::trim(v)) == text::lowered(
                            "true"@,
                        ),
                    ),
                    ..h
                },
                None => h,
            },
        },
    }
}

/// What the lines ask for, one after the other.
pub open spec fn after_lines(ls: Seq<Seq<char>>) -> Highlight
    decreases ls.len(),
{
    if ls.len() == 0 {
        Highlight { board: None, index: None, down: None }
    } else {
        after_line(after_lines(ls.drop_last()), ls.last())
    }
}

fn take_line(h: &Highlight, line: &[char]) -> (r: Highlight)
    ensures
        r == after_line(*h, line@),
{
    match text::after_prefix(line, "board=") {
        Some(v) => {
            return Highlight { board: text::parse_u8(text::trimmed(v)), ..*h };
        },
        None => {},
    }
    match text::after_prefix(line, "idx=") {
        Some(v) => {
            return Highlight { index: text::parse_usize(text::trimmed(v)), ..*h };
        },
        None => {},
    }
    match text::after_prefix(line, "down=") {
        Some(v) => {
            let t: &[char] = text::trimmed(v);
            let yes: Vec<char> = text::chars_of("true");
            let on: bool = text::same_text(t, "1") || text::same_ignoring_case(t, yes.as_slice());
            return Highlight { down: Some(on), ..*h };
        },
        None => {},
    }
    *h
}

/// What the file asks for.
pub fn parse_highlight(file: &str) -> (r: Highlight)
    ensures
        r == after_lines(text::lines(file@)),
{
    let cs: Vec<char> = text::chars_of(file);
    let ls: Vec<&[char]> = text::split_lines(cs.as_slice());
    let ghost all = text::views(ls@);
    let mut h = Highlight { board: None, index: None, down: None };
    assert(all.take(0) =~= Seq::empty());
    for i in 0..ls.len()
        invariant
            all == text::views(ls@),
            h == after_lines(all.take(i as int)),
    {
        assert(all.take(i + 1).drop_last() =~= all.take(i as int));
        assert(all.take(i + 1).last() == ls@[i as int]@);
        h = take_line(&h, ls[i]);
    }
    assert(all.take(ls@.len() as int) =~= all);
    h
}

/// The first of the keyboards that plays the board `b`.
pub open spec fn first_playing(boards: Seq<(u64, Board)>, b: u8) -> Option<(u64, Board)>
    decreases boards.len(),
{
    if boards.len() == 0 {
        None
    } else if boards[0].1.wtn_board == b {
        Some(boards[0])
    } else {
        first_playing(boards.drop_first(), b)
    }
}

/// The LED of the first of the keys that has the cell `index`.
pub open spec fn first_led(locs: Seq<(u8, KeyLoc)>, b: Board, index: usize) -> Option<(u8, u8)>
    decreases locs.len(),
{
    if locs.len() == 0 {
        None
    } else {
        match board::place_at(b, locs[0].1) {
            Some(p) => if p.index == index {
                Some((p.led_row, p.led_col))
            } else {
                first_led(locs.drop_first(), b, index)
            },
            None => first_led(locs.drop_first(), b, index),
        }
    }
}

/// The LED that is lit, with the colour that it goes back to.
pub open spec fn lit(stage: Stage, cells: Map<u8, Seq<WtnCell>>, h: Highlight) -> Option<LedState> {
    match (h.down, h.board, h.index) {
        (Some(true), Some(b), Some(i)) => match first_playing(stage.boards.entries@, b) {
            Some((id, bd)) => match (
                stage.light(id),
                first_led(stage.hid_map.locs.entries@, bd, i),
            ) {
                (Some(dev_idx), Some((row, col))) => Some(
                    LedState {
                        dev_idx,
                        row,
                        col,
                        base_rgb: match wtn::cell_of(cells, b, i as int) {
                            Some(c) => c.col_rgb,
                            None => (0, 0, 0),
                        },
                    },
                ),
                _ => None,
            },
            None => None,
        },
        _ => None,
    }
}

fn find_playing(stage: &Stage, b: u8) -> (r: Option<usize>)
    ensures
        match first_playing(stage.boards.entries@, b) {
            Some(e) => r matches Some(i) && i < stage.boards.entries@.len()
                && stage.boards.entries@[i as int] == e,
            None => r is None,
        },
{
    let v = &stage.boards.entries;
    let n: usize = v.len();
    assert(v@.skip(0) =~= v@);
    let mut i: usize = 0;
    while i < n
        invariant
            n == v@.len(),
            v@ == stage.boards.entries@,
            i <= n,
            first_playing(v@, b) == first_playing(v@.skip(i as int), b),
        decreases n - i,
    {
        assert(v@.skip(i as int)[0] == v@[i as int]);
        assert(v@.skip(i as int).drop_first() =~= v@.skip(i + 1));
        if v[i].1.wtn_board == b {
            return Some(i);
        }
        i += 1;
    }
    None
}

fn find_led(locs: &Vec<(u8, KeyLoc)>, b: &Board, index: usize) -> (r: Option<(u8, u8)>)
    ensures
        r == first_led(locs@, *b, index),
{
    let n: usize = locs.len();
    assert(locs@.skip(0) =~= locs@);
    let mut i: usize = 0;
    while i < n
        invariant
            n == locs@.len(),
            i <= n,
            first_led(locs@, *b, index) == first_led(locs@.skip(i as int), *b, index),
        decreases n - i,
    {
        assert(locs@.skip(i as int)[0] == locs@[i as int]);
        assert(locs@.skip(i as int).drop_first() =~= locs@.skip(i + 1));
        match b.place(locs[i].1) {
            Some(p) => {
                if p.index == index {
                    return Some((p.led_row, p.led_col));
                }
            },
            None => {},
        }
        i += 1;
    }
    None
}

/// Takes in what the file asks for: the LED that was lit before goes back to its colour, and
/// the one that is asked for is lit in `rgb`.
pub fn apply_highlight(
    stage: &Stage,
    wtn: &Wtn,
    h: &Highlight,
    before: Option<LedState>,
    rgb: (u8, u8, u8),
) -> (r: (Vec<RgbKey>, Option<LedState>))
    ensures
        r.1 == lit(*stage, wtn@, *h),
        r.0@ == (match before {
            Some(l) => seq![
                RgbKey { device_index: l.dev_idx, row: l.row, col: l.col, rgb: l.base_rgb },
            ],
            None => Seq::empty(),
        }) + (match r.1 {
            Some(l) => seq![RgbKey { device_index: l.dev_idx, row: l.row, col: l.col, rgb }],
            None => Seq::empty(),
        }),
{
    let mut out: Vec<RgbKey> = Vec::new();
    match before {
        Some(l) => {
            out.push(
                RgbKey { device_index: l.dev_idx, row: l.row, col: l.col, rgb: l.base_rgb },
            );
        },
        None => {},
    }
    let ghost head = out@;
    assert(head =~= head + Seq::<RgbKey>::empty());
    match (h.down, h.board, h.index) {
        (Some(true), Some(b), Some(i)) => {
            match find_playing(stage, b) {
                Some(at) => {
                    let id: u64 = stage.boards.entries[at].0;
                    let bd: Board = stage.boards.entries[at].1;
                    match (
                        stage.light_of(id),
                        find_led(stage.hid_map.all_locs(), &bd, i),
                    ) {
                        (Some(dev_idx), Some((row, col))) => {
                            let base_rgb: (u8, u8, u8) = match wtn.cell(b, i) {
                                Some(c) => c.col_rgb,
                                None => (0, 0, 0),
                            };
                            out.push(RgbKey { device_index: dev_idx, row, col, rgb });
                            let led = LedState { dev_idx, row, col, base_rgb };
                            assert(out@ =~= head + seq![
                                RgbKey { device_index: dev_idx, row, col, rgb },
                            ]);
                            return (out, Some(led));
                        },
                        _ => {},
                    }
                },
                None => {},
            }
        },
        _ => {},
    }
    (out, None)
}

/// Each kind of line sets its own part of what is asked for, and leaves the others: the
/// board and the cell are numbers, none where they are not, and the key is down for `1` or
/// `true`, whatever its case. Other lines change nothing.
pub proof fn lines_set_their_part(h: Highlight, v: Seq<char>, line: Seq<char>)
    ensures
        ({
            let r = after_line(h, "board="@ + v);
            let n = text::parse_unsigned(text::trim(v), 10, 255);
            &&& r.index == h.index && r.down == h.down
            &&& n is Some ==> r.board == Some(n->0 as u8)
            &&& n is None ==> r.board is None
        }),
        ({
            let r = after_line(h, "idx="@ + v);
            let n = text::parse_unsigned(text::trim(v), 10, usize::MAX as nat);
            &&& r.board == h.board && r.down == h.down
            &&& n is Some ==> r.index == Some(n->0 as usize)
            &&& n is None ==> r.index is None
        }),
        ({
            let r = after_line(h, "down="@ + v);
            &&& r.board == h.board && r.index == h.index
            &&& text::trim(v) == "1"@ ==> r.down == Some(true)
            &&& text::lowered(text::trim(v)) == "true"@ ==> r.down == Some(true)
            &&& text::trim(v) != "1"@ && text::lowered(text::trim(v)) != "true"@ ==> r.down == Some(
                false,
            )
        }),
        !text::starts_with(line, "board="@) && !text::starts_with(line, "idx="@)
            && !text::starts_with(line, "down="@) ==> after_line(h, line) == h,
{
    reveal_strlit("board=");
    reveal_strlit("idx=");
    reveal_strlit("down=");
    reveal_strlit("true");
    let (b, i, d) = ("board="@ + v, "idx="@ + v, "down="@ + v);
    text::what_follows_a_beginning(b, "board="@, v);
    text::what_follows_a_beginning(i, "idx="@, v);
    text::what_follows_a_beginning(d, "down="@, v);
    assert("board="@[0] == 'b' && "idx="@[0] == 'i' && "down="@[0] == 'd');
    assert(b[0] == 'b' && i[0] == 'i' && d[0] == 'd');
    assert("board="@.len() == 6 && "idx="@.len() == 4 && "down="@.len() == 5);
    assert(!text::starts_with(i, "board="@)) by {
        if text::starts_with(i, "board="@) {
            assert(i.take(6)[0] == 'i');
        }
    }
    assert(!text::starts_with(d, "board="@)) by {
        if text::starts_with(d, "board="@) {
            assert(d.take(6)[0] == 'd');
        }
    }
    assert(!text::starts_with(d, "idx="@)) by {
        if text::starts_with(d, "idx="@) {
            assert(d.take(4)[0] == 'd');
        }
    }
    assert(text::lowered("true"@) =~= "true"@);
}

/// A line behind the others has the last word on its part.
pub proof fn the_last_line_counts(ls: Seq<Seq<char>>, line: Seq<char>)
    ensures
        after_lines(ls.push(line)) == after_line(after_lines(ls), line),
        after_lines(Seq::empty()) == (Highlight { board: None, index: None, down: None }),
{
    assert(ls.push(line).drop_last() =~= ls);
}

/// The keyboard that is lit is the first that plays the board.
pub proof fn the_first_keyboard_of_the_board(boards: Seq<(u64, Board)>, b: u8, i: int)
    requires
        0 <= i < boards.len(),
    ensures
        boards[i].1.wtn_board == b && (forall|j: int|
            0 <= j < i ==> (#[trigger] boards[j]).1.wtn_board != b) ==> first_playing(boards, b)
            == Some(boards[i]),
        (forall|j: int| 0 <= j < boards.len() ==> (#[trigger] boards[j]).1.wtn_board != b)
            ==> first_playing(boards, b) is None,
    decreases boards.len(),
{
    let t = boards.drop_first();
    if i > 0 {
        the_first_keyboard_of_the_board(t, b, i - 1);
        assert(t[i - 1] == boards[i]);
    } else if t.len() > 0 {
        the_first_keyboard_of_the_board(t, b, 0);
    }
    if forall|j: int| 0 <= j < i ==> (#[trigger] boards[j]).1.wtn_board != b {
        assert forall|j: int| 0 <= j < i - 1 implies (#[trigger] t[j]).1.wtn_board != b by {
            assert(t[j] == boards[j + 1]);
        }
        if i > 0 {
            assert(boards[0].1.wtn_board != b);
        }
    }
    if forall|j: int| 0 <= j < boards.len() ==> (#[trigger] boards[j]).1.wtn_board != b {
        assert(boards[0].1.wtn_board != b);
        assert forall|j: int| 0 <= j < t.len() implies (#[trigger] t[j]).1.wtn_board != b by {
            assert(t[j] == boards[j + 1]);
        }
    }
}

/// The LED that is lit is that of the first key that has the cell.
pub proof fn the_first_key_of_the_cell(
    locs: Seq<(u8, KeyLoc)>,
    b: Board,
    index: usize,
    i: int,
)
    requires
        0 <= i < locs.len(),
        board::place_at(b, locs[i].1) matches Some(p) && p.index == index,
        forall|j: int|
            0 <= j < i ==> !(board::place_at(b, (#[trigger] locs[j]).1) matches Some(p) && p.index
                == index),
    ensures
        first_led(locs, b, index) == Some((locs[i].1.led_row, locs[i].1.led_col)),
    decreases locs.len(),
{
    if i > 0 {
        let t = locs.drop_first();
        assert(t[i - 1] == locs[i]);
        assert forall|j: int| 0 <= j < i - 1 implies !(board::place_at(
            b,
            (#[trigger] t[j]).1,
        ) matches Some(p) && p.index == index) by {
            assert(t[j] == locs[j + 1]);
        }
        the_first_key_of_the_cell(t, b, index, i - 1);
        assert(!(board::place_at(b, locs[0].1) matches Some(p) && p.index == index));
    }
}

/// What is asked for is lit where a keyboard with lights plays the board and has the cell;
/// the LED goes back to the cell's own colour, or out where the layout has no such cell.
/// Nothing is lit unless the key is down and both its board and its cell are told.
pub proof fn what_is_asked_for_is_lit(stage: Stage, cells: Map<u8, Seq<WtnCell>>, h: Highlight)
    ensures
        h.down != Some(true) || h.board is None || h.index is None ==> lit(stage, cells, h) is None,
        h.down == Some(true) && h.board is Some && h.index is Some ==> {
            let (b, i) = (h.board->0, h.index->0);
            let on = first_playing(stage.boards.entries@, b);
            &&& on is None ==> lit(stage, cells, h) is None
            &&& on matches Some((id, bd)) ==> {
                let led = first_led(stage.hid_map.locs.entries@, bd, i);
                &&& stage.light(id) is None || led is None ==> lit(stage, cells, h) is None
                &&& stage.light(id) is Some && led is Some ==> {
                    &&& lit(stage, cells, h) is Some
                    &&& lit(stage, cells, h)->0.dev_idx == stage.light(id)->0
                    &&& lit(stage, cells, h)->0.row == (led->0).0
                    &&& lit(stage, cells, h)->0.col == (led->0).1
                    &&& cells.contains_key(b) && i < cells[b].len() ==> lit(
                        stage,
                        cells,
                        h,
                    )->0.base_rgb == cells[b][i as int].col_rgb
                    &&& !(cells.contains_key(b) && i < cells[b].len()) ==> lit(
                        stage,
                        cells,
                        h,
                    )->0.base_rgb == (0u8, 0u8, 0u8)
                }
            }
        },
{
}

} // verus!
