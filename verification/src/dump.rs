//! The trail of recent events, and the files that it is written to on demand.
use vstd::prelude::*;
use vstd::slice::slice_subrange;
use std::collections::VecDeque;
use crate::capture::TextFile;
use crate::csv;
use crate::text;

verus! {

/// How many events the trail keeps.
pub const DEBUG_EVENTS: usize = 200;

/// Something that happened, and when: milliseconds since the program began.
#[derive(Debug, Clone)]
pub struct DebugEvent {
    pub t_ms: u64,
    pub msg: String,
}

/// The trail `s` after the event `e`.
pub open spec fn pushed<T>(s: Seq<T>, e: T) -> Seq<T> {
    if s.len() >= 200 {
        s.drop_first().push(e)
    } else {
        s.push(e)
    }
}

/// The last 200 of `s`.
pub open spec fn latest<T>(s: Seq<T>) -> Seq<T> {
    if s.len() > 200 {
        s.skip(s.len() - 200)
    } else {
        s
    }
}

/// Adds an event to the trail; the oldest goes where there is no room.
pub fn dbg_push(dbg_ring: &mut VecDeque<DebugEvent>, t_ms: u64, msg: String)
    ensures
        final(dbg_ring)@ == pushed(old(dbg_ring)@, DebugEvent { t_ms, msg }),
{
    if dbg_ring.len() >= DEBUG_EVENTS {
        let _ = dbg_ring.pop_front();
        assert(dbg_ring@ =~= old(dbg_ring)@.drop_first());
    }
    dbg_ring.push_back(DebugEvent { t_ms, msg });
}

/// A trail holds the last 200 of all events that were added to it.
pub proof fn trail_holds_the_latest<T>(all: Seq<T>, e: T)
    ensures
        pushed(latest(all), e) == latest(all.push(e)),
        latest(Seq::<T>::empty()) == Seq::<T>::empty(),
{
    assert(pushed(latest(all), e) =~= latest(all.push(e)));
}

/// What an event's message tells of.
#[derive(Debug, Clone, Copy, PartialEq, Eq, Structural)]
pub enum EventKind {
    Edge,
    NoteOnTick,
    TapNote,
    Midi,
    RapidRelease,
    Suppress,
    Raw,
}

/// What a message tells of, by the words it begins with.
pub open spec fn event_kind(msg: Seq<char>) -> EventKind {
    if text::starts_with(msg, "EDGE "@) {
        EventKind::Edge
    } else if text::starts_with(msg, "NOTEON_TICK "@) {
        EventKind::NoteOnTick
    } else if text::starts_with(msg, "TAP_NOTE "@) {
        EventKind::TapNote
    } else if text::starts_with(msg, "MIDI "@) {
        EventKind::Midi
    } else if text::starts_with(msg, "POLL rapid_release "@) {
        EventKind::RapidRelease
    } else if text::starts_with(msg, "SUPPRESS "@) {
        EventKind::Suppress
    } else {
        EventKind::Raw
    }
}

/// How many characters those words take.
pub open spec fn head_len(kind: EventKind) -> int {
    match kind {
        EventKind::Edge => 5,
        EventKind::NoteOnTick => 12,
        EventKind::TapNote => 9,
        EventKind::Midi => 5,
        EventKind::RapidRelease => 19,
        EventKind::Suppress => 9,
        EventKind::Raw => 0,
    }
}

/// What the column `event` shows.
pub open spec fn event_name(kind: EventKind) -> Seq<char> {
    match kind {
        EventKind::Edge => "EDGE"@,
        EventKind::NoteOnTick => "NOTEON_TICK"@,
        EventKind::TapNote => "TAP_NOTE"@,
        EventKind::Midi => "MIDI"@,
        EventKind::RapidRelease => "POLL"@,
        EventKind::Suppress => "SUPPRESS"@,
        EventKind::Raw => "RAW"@,
    }
}

/// The first of `ws`, or nothing.
pub open spec fn first_word(ws: Seq<Seq<char>>) -> Seq<char> {
    if ws.len() > 0 {
        ws[0]
    } else {
        Seq::empty()
    }
}

/// What the column `kind` shows; `rest` is the message behind its first words.
pub open spec fn detail(kind: EventKind, rest: Seq<char>) -> Seq<char> {
    match kind {
        EventKind::Edge | EventKind::Suppress => first_word(text::words(rest)),
        EventKind::Midi => if text::starts_with(rest, "noteon"@) {
            "noteon"@
        } else if text::starts_with(rest, "noteoff"@) {
            "noteoff"@
        } else {
            Seq::empty()
        },
        EventKind::RapidRelease => "rapid_release"@,
        _ => Seq::empty(),
    }
}

/// The column for the value that a message gives under `key`.
pub open spec fn column_of(kind: EventKind, key: Seq<char>) -> Option<int> {
    let dev_key = if kind == EventKind::RapidRelease {
        "device_id"@
    } else {
        "dev"@
    };
    let tick = kind == EventKind::NoteOnTick;
    let tap = kind == EventKind::TapNote;
    let midi = kind == EventKind::Midi;
    let rapid = kind == EventKind::RapidRelease;
    if kind == EventKind::Raw {
        None
    } else if key == dev_key {
        Some(4)
    } else if key == "hid"@ {
        Some(5)
    } else if key == "analog"@ && (kind == EventKind::Edge || rapid) {
        Some(6)
    } else if key == "age_ms"@ && (tick || tap) {
        Some(7)
    } else if key == "peak"@ && (tick || tap || rapid) {
        Some(8)
    } else if key == "last"@ && tick {
        Some(9)
    } else if key == "peak_speed"@ && (tick || tap) {
        Some(10)
    } else if key == "pressed"@ && tick {
        Some(11)
    } else if key == "playing"@ && tick {
        Some(12)
    } else if key == "ch"@ && (tap || midi) {
        Some(13)
    } else if key == "note"@ && (tap || midi) {
        Some(14)
    } else if key == "vel"@ && (tap || midi) {
        Some(15)
    } else if key == "delta"@ && rapid {
        Some(17)
    } else if key == "thr_down"@ && rapid {
        Some(18)
    } else if key == "thr_up"@ && rapid {
        Some(19)
    } else {
        None
    }
}

/// `row` with the values that the words `ws` of a message give: each word `key=value`
/// fills the column for its key, the last one for a key counting.
pub open spec fn with_values(kind: EventKind, row: Seq<Seq<char>>, ws: Seq<Seq<char>>) -> Seq<
    Seq<char>,
>
    decreases ws.len(),
{
    if ws.len() == 0 {
        row
    } else {
        let before = with_values(kind, row, ws.drop_last());
        match text::split_once(ws.last(), '=') {
            Some((k, v)) => match column_of(kind, k) {
                Some(c) => before.update(c, v),
                None => before,
            },
            None => before,
        }
    }
}

/// The columns of the table of events.
pub open spec fn columns() -> Seq<char> {
    "t_ms,t_cap_ms,event,kind,device_id,hid,analog,age_ms,peak,last,peak_speed,pressed,playing,ch,note,vel,pressure,delta,thr_down,thr_up,msg"@
}

/// The row of an event: what its message gives, column by column, and the message itself.
pub open spec fn event_row(t_ms: u64, msg: Seq<char>) -> Seq<Seq<char>> {
    let kind = event_kind(msg);
    let rest = msg.skip(head_len(kind));
    let ws = text::words(rest);
    let given = if kind == EventKind::Edge && ws.len() > 0 {
        ws.drop_first()
    } else {
        ws
    };
    let blank = csv::blank_row(21);
    with_values(
        kind,
        blank.update(0, text::decimal(t_ms as nat)).update(2, event_name(kind)).update(
            3,
            detail(kind, rest),
        ).update(20, msg),
        given,
    )
}

fn kind_of(msg: &[char]) -> (r: EventKind)
    ensures
        r == event_kind(msg@),
{
    if text::after_prefix(msg, "EDGE ").is_some() {
        EventKind::Edge
    } else if text::after_prefix(msg, "NOTEON_TICK ").is_some() {
        EventKind::NoteOnTick
    } else if text::after_prefix(msg, "TAP_NOTE ").is_some() {
        EventKind::TapNote
    } else if text::after_prefix(msg, "MIDI ").is_some() {
        EventKind::Midi
    } else if text::after_prefix(msg, "POLL rapid_release ").is_some() {
        EventKind::RapidRelease
    } else if text::after_prefix(msg, "SUPPRESS ").is_some() {
        EventKind::Suppress
    } else {
        EventKind::Raw
    }
}

fn name_of(kind: EventKind) -> (r: &'static str)
    ensures
        r@ == event_name(kind),
{
    match kind {
        EventKind::Edge => "EDGE",
        EventKind::NoteOnTick => "NOTEON_TICK",
        EventKind::TapNote => "TAP_NOTE",
        EventKind::Midi => "MIDI",
        EventKind::RapidRelease => "POLL",
        EventKind::Suppress => "SUPPRESS",
        EventKind::Raw => "RAW",
    }
}

fn head_len_of(kind: EventKind) -> (r: usize)
    ensures
        r == head_len(kind),
{
    match kind {
        EventKind::Edge => 5,
        EventKind::NoteOnTick => 12,
        EventKind::TapNote => 9,
        EventKind::Midi => 5,
        EventKind::RapidRelease => 19,
        EventKind::Suppress => 9,
        EventKind::Raw => 0,
    }
}

fn column_for(kind: EventKind, key: &[char]) -> (r: Option<usize>)
    ensures
        match column_of(kind, key@) {
            Some(c) => r == Some(c as usize) && 4 <= c < 20,
            None => r is None,
        },
{
    let tick: bool = kind == EventKind::NoteOnTick;
    let tap: bool = kind == EventKind::TapNote;
    let midi: bool = kind == EventKind::Midi;
    let rapid: bool = kind == EventKind::RapidRelease;
    let dev_key: &str = if rapid {
        "device_id"
    } else {
        "dev"
    };
    if kind == EventKind::Raw {
        None
    } else if text::same_text(key, dev_key) {
        Some(4)
    } else if text::same_text(key, "hid") {
        Some(5)
    } else if text::same_text(key, "analog") && (kind == EventKind::Edge || rapid) {
        Some(6)
    } else if text::same_text(key, "age_ms") && (tick || tap) {
        Some(7)
    } else if text::same_text(key, "peak") && (tick || tap || rapid) {
        Some(8)
    } else if text::same_text(key, "last") && tick {
        Some(9)
    } else if text::same_text(key, "peak_speed") && (tick || tap) {
        Some(10)
    } else if text::same_text(key, "pressed") && tick {
        Some(11)
    } else if text::same_text(key, "playing") && tick {
        Some(12)
    } else if text::same_text(key, "ch") && (tap || midi) {
        Some(13)
    } else if text::same_text(key, "note") && (tap || midi) {
        Some(14)
    } else if text::same_text(key, "vel") && (tap || midi) {
        Some(15)
    } else if text::same_text(key, "delta") && rapid {
        Some(17)
    } else if text::same_text(key, "thr_down") && rapid {
        Some(18)
    } else if text::same_text(key, "thr_up") && rapid {
        Some(19)
    } else {
        None
    }
}

/// Fills the columns of `row` with the values that the words `ws` give.
fn parse_kv_tokens(kind: EventKind, row: &mut Vec<String>, ws: &[&[char]])
    requires
        old(row)@.len() == 21,
    ensures
        final(row)@.len() == 21,
        text::strings(final(row)@) == with_values(
            kind,
            text::strings(old(row)@),
            text::views(ws@),
        ),
{
    let ghost row0 = text::strings(row@);
    let ghost all = text::views(ws@);
    assert(all.take(0) =~= Seq::empty());
    for i in 0..ws.len()
        invariant
            all == text::views(ws@),
            row@.len() == 21,
            text::strings(row@) == with_values(kind, row0, all.take(i as int)),
    {
        let ghost before = text::strings(row@);
        assert(all.take(i + 1).drop_last() =~= all.take(i as int));
        assert(all.take(i + 1).last() == ws@[i as int]@);
        match text::split_at_char(ws[i], '=') {
            Some((k, v)) => {
                match column_for(kind, k) {
                    Some(c) => {
                        row.set(c, text::string_of(v));
                        assert(text::strings(row@) =~= before.update(c as int, v@));
                    },
                    None => {},
                }
            },
            None => {},
        }
    }
    assert(all.take(ws@.len() as int) =~= all);
}

fn detail_of(kind: EventKind, rest: &[char], ws: &Vec<&[char]>) -> (r: String)
    requires
        text::views(ws@) == text::words(rest@),
    ensures
        r@ == detail(kind, rest@),
{
    match kind {
        EventKind::Edge | EventKind::Suppress => if ws.len() > 0 {
            assert(text::words(rest@)[0] == ws@[0]@);
            text::string_of(ws[0])
        } else {
            let r = String::new();
            assert(r@ =~= detail(kind, rest@));
            r
        },
        EventKind::Midi => if text::after_prefix(rest, "noteon").is_some() {
            text::text_of("noteon")
        } else if text::after_prefix(rest, "noteoff").is_some() {
            text::text_of("noteoff")
        } else {
            let r = String::new();
            assert(r@ =~= detail(kind, rest@));
            r
        },
        EventKind::RapidRelease => text::text_of("rapid_release"),
        _ => {
            let r = String::new();
            assert(r@ =~= detail(kind, rest@));
            r
        },
    }
}

proof fn lemma_head_fits(msg: Seq<char>)
    ensures
        head_len(event_kind(msg)) <= msg.len(),
{
    reveal_strlit("EDGE ");
    reveal_strlit("NOTEON_TICK ");
    reveal_strlit("TAP_NOTE ");
    reveal_strlit("MIDI ");
    reveal_strlit("POLL rapid_release ");
    reveal_strlit("SUPPRESS ");
}

/// The row of an event.
pub fn event_row_of(e: &DebugEvent) -> (r: Vec<String>)
    ensures
        text::strings(r@) == event_row(e.t_ms, e.msg@),
{
    let msg: Vec<char> = text::chars_of(e.msg.as_str());
    let kind: EventKind = kind_of(msg.as_slice());
    proof {
        lemma_head_fits(msg@);
    }
    let rest: &[char] = slice_subrange(msg.as_slice(), head_len_of(kind), msg.len());
    assert(rest@ =~= msg@.skip(head_len(kind)));
    let ws: Vec<&[char]> = text::split_words(rest);
    let mut row: Vec<String> = csv::blank_row_of(21);
    csv::put(&mut row, 0, text::decimal_of(e.t_ms));
    csv::put(&mut row, 2, text::text_of(name_of(kind)));
    csv::put(&mut row, 3, detail_of(kind, rest, &ws));
    csv::put(&mut row, 20, text::text_of(e.msg.as_str()));
    let from: usize = if kind == EventKind::Edge && ws.len() > 0 {
        1
    } else {
        0
    };
    let given: &[&[char]] = slice_subrange(ws.as_slice(), from, ws.len());
    assert(text::views(given@) =~= text::views(ws@).skip(from as int));
    assert(text::views(ws@).skip(0) =~= text::views(ws@));
    assert(from == 1 ==> text::views(ws@).skip(1) =~= text::views(ws@).drop_first());
    parse_kv_tokens(kind, &mut row, given);
    row
}

/// `s` with spaces before it, to a width of `width`.
pub open spec fn padded(s: Seq<char>, width: nat) -> Seq<char> {
    Seq::new(
        if s.len() < width {
            (width - s.len()) as nat
        } else {
            0
        },
        |i: int| ' ',
    ) + s
}

fn padded_of(s: &str, width: usize) -> (r: String)
    ensures
        r@ == padded(s@, width as nat),
{
    let cs: Vec<char> = text::chars_of(s);
    let mut out = String::new();
    let n: usize = if cs.len() < width {
        width - cs.len()
    } else {
        0
    };
    for i in 0..n
        invariant
            out@ =~= Seq::new(i as nat, |j: int| ' '),
    {
        out.push(' ');
    }
    text::push_text(&mut out, s);
    assert(out@ =~= padded(s@, width as nat));
    out
}

/// The line of an event in the text file.
pub open spec fn event_line(t_ms: u64, msg: Seq<char>) -> Seq<char> {
    "DBG "@ + padded(text::decimal(t_ms as nat), 7) + "ms "@ + msg
}

/// The lines of the text file.
pub open spec fn dump_txt_lines(
    ts_ms: u64,
    reason: Seq<char>,
    cfg_line: Seq<char>,
    trail: Seq<DebugEvent>,
    rgb_drop_critical: u64,
) -> Seq<Seq<char>> {
    seq![
        text::setting("timestamp_ms"@, text::decimal(ts_ms as nat)),
        text::setting("reason"@, reason),
        text::setting("len"@, text::decimal(trail.len())),
        text::setting("rgb_drop_critical"@, text::decimal(rgb_drop_critical as nat)),
        cfg_line,
    ] + trail.map_values(|e: DebugEvent| event_line(e.t_ms, e.msg@))
}

/// The lines of the table.
pub open spec fn dump_csv_lines(trail: Seq<DebugEvent>) -> Seq<Seq<char>> {
    seq![columns()] + trail.map_values(
        |e: DebugEvent| csv::line(event_row(e.t_ms, e.msg@)),
    )
}

fn push_line(lines: &mut Vec<String>, line: String)
    ensures
        text::strings(final(lines)@) == text::strings(old(lines)@).push(line@),
{
    lines.push(line);
    assert(text::strings(lines@) =~= text::strings(old(lines)@).push(line@));
}

fn dump_txt(
    ts_ms: u64,
    reason: &str,
    cfg_line: &str,
    trail: &VecDeque<DebugEvent>,
    rgb_drop_critical: u64,
) -> (r: String)
    ensures
        r@ == text::lines_text(
            dump_txt_lines(ts_ms, reason@, cfg_line@, trail@, rgb_drop_critical),
        ),
{
    let n: usize = trail.len();
    let mut lines: Vec<String> = vec![
        text::number_setting("timestamp_ms", ts_ms),
        text::setting_of("reason", reason),
        text::number_setting("len", n as u64),
        text::number_setting("rgb_drop_critical", rgb_drop_critical),
        text::text_of(cfg_line),
    ];
    let ghost want = dump_txt_lines(ts_ms, reason@, cfg_line@, trail@, rgb_drop_critical);
    assert(text::strings(lines@) =~= want.take(5));
    for i in 0..n
        invariant
            n == trail@.len(),
            want == dump_txt_lines(ts_ms, reason@, cfg_line@, trail@, rgb_drop_critical),
            text::strings(lines@) == want.take(i + 5),
    {
        let e = &trail[i];
        let mut line = text::text_of("DBG ");
        text::push_text(&mut line, padded_of(text::decimal_of(e.t_ms).as_str(), 7).as_str());
        text::push_text(&mut line, "ms ");
        text::push_text(&mut line, e.msg.as_str());
        assert(want[i + 5] == line@);
        push_line(&mut lines, line);
        assert(want.take(i + 6) =~= want.take(i + 5).push(want[i + 5]));
    }
    assert(want.take(n + 5) =~= want);
    text::lines_text_of(&lines)
}

fn dump_csv(trail: &VecDeque<DebugEvent>) -> (r: String)
    ensures
        r@ == text::lines_text(dump_csv_lines(trail@)),
{
    let n: usize = trail.len();
    let mut lines: Vec<String> = vec![
        text::text_of(
            "t_ms,t_cap_ms,event,kind,device_id,hid,analog,age_ms,peak,last,peak_speed,pressed,playing,ch,note,vel,pressure,delta,thr_down,thr_up,msg",
        ),
    ];
    let ghost want = dump_csv_lines(trail@);
    assert(text::strings(lines@) =~= want.take(1));
    for i in 0..n
        invariant
            n == trail@.len(),
            want == dump_csv_lines(trail@),
            text::strings(lines@) == want.take(i + 1),
    {
        let row = event_row_of(&trail[i]);
        let line = csv::csv_line(row.as_slice());
        assert(want[i + 1] == line@);
        push_line(&mut lines, line);
        assert(want.take(i + 2) =~= want.take(i + 1).push(want[i + 1]));
    }
    assert(want.take(n + 1) =~= want);
    text::lines_text_of(&lines)
}

/// The two files that the trail is written to: a text and a table.
pub fn manual_dump_files(
    ts_ms: u64,
    reason: &str,
    cfg_line: &str,
    dbg_ring: &VecDeque<DebugEvent>,
    rgb_drop_critical: u64,
) -> (r: (TextFile, TextFile))
    ensures
        r.0.name@ == text::decimal(ts_ms as nat) + "_"@ + reason@ + ".csv"@,
        r.1.name@ == text::decimal(ts_ms as nat) + "_"@ + reason@ + ".txt"@,
        r.0.text@ == text::lines_text(dump_csv_lines(dbg_ring@)),
        r.1.text@ == text::lines_text(
            dump_txt_lines(ts_ms, reason@, cfg_line@, dbg_ring@, rgb_drop_critical),
        ),
{
    let mut stem = text::decimal_of(ts_ms);
    text::push_text(&mut stem, "_");
    text::push_text(&mut stem, reason);
    (
        TextFile { name: text::two_texts(stem.as_str(), ".csv"), text: dump_csv(dbg_ring) },
        TextFile {
            name: text::two_texts(stem.as_str(), ".txt"),
            text: dump_txt(ts_ms, reason, cfg_line, dbg_ring, rgb_drop_critical),
        },
    )
}

proof fn lemma_heads()
    ensures
        "EDGE "@.len() == 5,
        "NOTEON_TICK "@.len() == 12,
        "TAP_NOTE "@.len() == 9,
        "MIDI "@.len() == 5,
        "POLL rapid_release "@.len() == 19,
        "SUPPRESS "@.len() == 9,
        "EDGE "@[0] == 'E',
        "NOTEON_TICK "@[0] == 'N',
        "TAP_NOTE "@[0] == 'T',
        "MIDI "@[0] == 'M',
        "POLL rapid_release "@[0] == 'P',
        "SUPPRESS "@[0] == 'S',
{
    reveal_strlit("EDGE ");
    reveal_strlit("NOTEON_TICK ");
    reveal_strlit("TAP_NOTE ");
    reveal_strlit("MIDI ");
    reveal_strlit("POLL rapid_release ");
    reveal_strlit("SUPPRESS ");
}

proof fn lemma_begins(s: Seq<char>, prefix: Seq<char>)
    requires
        text::starts_with(s, prefix),
        prefix.len() > 0,
    ensures
        s[0] == prefix[0],
{
    assert(s.take(prefix.len() as int)[0] == s[0]);
}

/// What a message tells of is told by the words it begins with, and the column `event` shows
/// them.
pub proof fn messages_go_by_their_first_words(rest: Seq<char>)
    ensures
        event_kind("EDGE "@ + rest) == EventKind::Edge,
        event_kind("NOTEON_TICK "@ + rest) == EventKind::NoteOnTick,
        event_kind("TAP_NOTE "@ + rest) == EventKind::TapNote,
        event_kind("MIDI "@ + rest) == EventKind::Midi,
        event_kind("POLL rapid_release "@ + rest) == EventKind::RapidRelease,
        event_kind("SUPPRESS "@ + rest) == EventKind::Suppress,
        ("EDGE "@ + rest).skip(head_len(EventKind::Edge)) == rest,
        ("NOTEON_TICK "@ + rest).skip(head_len(EventKind::NoteOnTick)) == rest,
        ("TAP_NOTE "@ + rest).skip(head_len(EventKind::TapNote)) == rest,
        ("MIDI "@ + rest).skip(head_len(EventKind::Midi)) == rest,
        ("POLL rapid_release "@ + rest).skip(head_len(EventKind::RapidRelease)) == rest,
        ("SUPPRESS "@ + rest).skip(head_len(EventKind::Suppress)) == rest,
        event_name(EventKind::Edge) == "EDGE"@,
        event_name(EventKind::NoteOnTick) == "NOTEON_TICK"@,
        event_name(EventKind::TapNote) == "TAP_NOTE"@,
        event_name(EventKind::Midi) == "MIDI"@,
        event_name(EventKind::RapidRelease) == "POLL"@,
        event_name(EventKind::Suppress) == "SUPPRESS"@,
        event_name(EventKind::Raw) == "RAW"@,
{
    lemma_heads();
    lemma_kind("EDGE "@, rest);
    lemma_kind("NOTEON_TICK "@, rest);
    lemma_kind("TAP_NOTE "@, rest);
    lemma_kind("MIDI "@, rest);
    lemma_kind("POLL rapid_release "@, rest);
    lemma_kind("SUPPRESS "@, rest);
}

proof fn lemma_kind(head: Seq<char>, rest: Seq<char>)
    requires
        head.len() > 0,
    ensures
        text::starts_with(head + rest, head),
        (head + rest).skip(head.len() as int) == rest,
        (head + rest)[0] == head[0],
        text::starts_with(head + rest, "EDGE "@) ==> head[0] == 'E',
        text::starts_with(head + rest, "NOTEON_TICK "@) ==> head[0] == 'N',
        text::starts_with(head + rest, "TAP_NOTE "@) ==> head[0] == 'T',
        text::starts_with(head + rest, "MIDI "@) ==> head[0] == 'M',
        text::starts_with(head + rest, "POLL rapid_release "@) ==> head[0] == 'P',
        text::starts_with(head + rest, "SUPPRESS "@) ==> head[0] == 'S',
{
    lemma_heads();
    let s = head + rest;
    assert(s.take(head.len() as int) =~= head);
    assert(s.skip(head.len() as int) =~= rest);
    if text::starts_with(s, "EDGE "@) {
        lemma_begins(s, "EDGE "@);
    }
    if text::starts_with(s, "NOTEON_TICK "@) {
        lemma_begins(s, "NOTEON_TICK "@);
    }
    if text::starts_with(s, "TAP_NOTE "@) {
        lemma_begins(s, "TAP_NOTE "@);
    }
    if text::starts_with(s, "MIDI "@) {
        lemma_begins(s, "MIDI "@);
    }
    if text::starts_with(s, "POLL rapid_release "@) {
        lemma_begins(s, "POLL rapid_release "@);
    }
    if text::starts_with(s, "SUPPRESS "@) {
        lemma_begins(s, "SUPPRESS "@);
    }
}

/// The value that a word gives for a column, if it gives one.
pub open spec fn gives(kind: EventKind, w: Seq<char>, c: int) -> Option<Seq<char>> {
    match text::split_once(w, '=') {
        Some((k, v)) => if column_of(kind, k) == Some(c) {
            Some(v)
        } else {
            None
        },
        None => None,
    }
}

/// A column shows the value that the last of the words for it gives, and what it showed
/// before where none does.
pub proof fn the_last_word_for_a_column_counts(
    kind: EventKind,
    row: Seq<Seq<char>>,
    ws: Seq<Seq<char>>,
    c: int,
    i: int,
)
    requires
        row.len() == 21,
        0 <= c < 21,
    ensures
        with_values(kind, row, ws).len() == 21,
        0 <= i < ws.len() && gives(kind, ws[i], c) is Some && (forall|j: int|
            i < j < ws.len() ==> gives(kind, #[trigger] ws[j], c) is None) ==> with_values(
            kind,
            row,
            ws,
        )[c] == gives(kind, ws[i], c)->0,
        (forall|j: int| 0 <= j < ws.len() ==> gives(kind, #[trigger] ws[j], c) is None)
            ==> with_values(kind, row, ws)[c] == row[c],
    decreases ws.len(),
{
    if ws.len() > 0 {
        let front = ws.drop_last();
        the_last_word_for_a_column_counts(kind, row, front, c, i);
        if 0 <= i < ws.len() && gives(kind, ws[i], c) is Some && (forall|j: int|
            i < j < ws.len() ==> gives(kind, #[trigger] ws[j], c) is None) {
            if i < front.len() {
                assert(front[i] == ws[i]);
                assert forall|j: int| i < j < front.len() implies gives(
                    kind,
                    #[trigger] front[j],
                    c,
                ) is None by {
                    assert(front[j] == ws[j]);
                }
                assert(gives(kind, ws[ws.len() - 1], c) is None);
            }
        }
        if forall|j: int| 0 <= j < ws.len() ==> gives(kind, #[trigger] ws[j], c) is None {
            assert forall|j: int| 0 <= j < front.len() implies gives(
                kind,
                #[trigger] front[j],
                c,
            ) is None by {
                assert(front[j] == ws[j]);
            }
            assert(gives(kind, ws[ws.len() - 1], c) is None);
        }
    }
}

/// The row of an event: its time, what it tells of, the rest of its first words and the
/// whole message are in their columns whatever the message gives, and the second is blank.
pub proof fn rows_show_the_message(t_ms: u64, msg: Seq<char>)
    ensures
        ({
            let r = event_row(t_ms, msg);
            let kind = event_kind(msg);
            &&& r.len() == 21
            &&& r[0] == text::decimal(t_ms as nat)
            &&& r[1].len() == 0
            &&& r[2] == event_name(kind)
            &&& r[3] == detail(kind, msg.skip(head_len(kind)))
            &&& r[16].len() == 0
            &&& r[20] == msg
        }),
{
    let kind = event_kind(msg);
    let rest = msg.skip(head_len(kind));
    let ws = text::words(rest);
    let given = if kind == EventKind::Edge && ws.len() > 0 {
        ws.drop_first()
    } else {
        ws
    };
    let row = csv::blank_row(21).update(0, text::decimal(t_ms as nat)).update(
        2,
        event_name(kind),
    ).update(3, detail(kind, rest)).update(20, msg);
    the_last_word_for_a_column_counts(kind, row, given, 0, -1);
    the_last_word_for_a_column_counts(kind, row, given, 1, -1);
    the_last_word_for_a_column_counts(kind, row, given, 2, -1);
    the_last_word_for_a_column_counts(kind, row, given, 3, -1);
    the_last_word_for_a_column_counts(kind, row, given, 16, -1);
    the_last_word_for_a_column_counts(kind, row, given, 20, -1);
}

proof fn lemma_keys()
    ensures
        "dev"@.len() == 3 && "hid"@.len() == 3 && "vel"@.len() == 3,
        "dev"@[0] == 'd' && "hid"@[0] == 'h' && "vel"@[0] == 'v',
        "peak"@.len() == 4 && "last"@.len() == 4 && "note"@.len() == 4,
        "peak"@[0] == 'p' && "last"@[0] == 'l' && "note"@[0] == 'n',
        "analog"@.len() == 6 && "age_ms"@.len() == 6 && "thr_up"@.len() == 6,
        "analog"@[1] == 'n' && "age_ms"@[1] == 'g' && "thr_up"@[1] == 'h',
        "pressed"@.len() == 7 && "playing"@.len() == 7,
        "pressed"@[1] == 'r' && "playing"@[1] == 'l',
        "device_id"@.len() == 9 && "peak_speed"@.len() == 10 && "ch"@.len() == 2,
        "delta"@.len() == 5 && "thr_down"@.len() == 8,
{
    reveal_strlit("dev");
    reveal_strlit("hid");
    reveal_strlit("vel");
    reveal_strlit("peak");
    reveal_strlit("last");
    reveal_strlit("note");
    reveal_strlit("analog");
    reveal_strlit("age_ms");
    reveal_strlit("thr_up");
    reveal_strlit("pressed");
    reveal_strlit("playing");
    reveal_strlit("device_id");
    reveal_strlit("peak_speed");
    reveal_strlit("ch");
    reveal_strlit("delta");
    reveal_strlit("thr_down");
}

/// The values of a message stand under the names of their columns: the keyboard and the key
/// for every kind of message that gives values, and the others for the kinds that give them.
/// A message of no known kind gives none.
pub proof fn values_stand_under_their_names(kind: EventKind, key: Seq<char>)
    ensures
        ({
            let known = kind != EventKind::Raw;
            let rapid = kind == EventKind::RapidRelease;
            let tick = kind == EventKind::NoteOnTick;
            let tap = kind == EventKind::TapNote;
            let midi = kind == EventKind::Midi;
            let edge = kind == EventKind::Edge;
            &&& !known ==> column_of(kind, key) is None
            &&& known && !rapid ==> column_of(kind, "dev"@) == Some(4int)
            &&& rapid ==> column_of(kind, "device_id"@) == Some(4int)
            &&& known ==> column_of(kind, "hid"@) == Some(5int)
            &&& edge || rapid <==> column_of(kind, "analog"@) == Some(6int)
            &&& tick || tap <==> column_of(kind, "age_ms"@) == Some(7int)
            &&& tick || tap || rapid <==> column_of(kind, "peak"@) == Some(8int)
            &&& tick <==> column_of(kind, "last"@) == Some(9int)
            &&& tick || tap <==> column_of(kind, "peak_speed"@) == Some(10int)
            &&& tick <==> column_of(kind, "pressed"@) == Some(11int)
            &&& tick <==> column_of(kind, "playing"@) == Some(12int)
            &&& tap || midi <==> column_of(kind, "ch"@) == Some(13int)
            &&& tap || midi <==> column_of(kind, "note"@) == Some(14int)
            &&& tap || midi <==> column_of(kind, "vel"@) == Some(15int)
            &&& rapid <==> column_of(kind, "delta"@) == Some(17int)
            &&& rapid <==> column_of(kind, "thr_down"@) == Some(18int)
            &&& rapid <==> column_of(kind, "thr_up"@) == Some(19int)
        }),
{
    lemma_keys();
}

/// What the column `kind` shows: the first word behind an edge or a suppression, which way a
/// note goes, and the release by movement.
pub proof fn details_are_the_next_words(rest: Seq<char>)
    ensures
        detail(EventKind::Midi, "noteon"@ + rest) == "noteon"@,
        detail(EventKind::Midi, "noteoff"@ + rest) == "noteoff"@,
        detail(EventKind::RapidRelease, rest) == "rapid_release"@,
        detail(EventKind::NoteOnTick, rest).len() == 0,
        detail(EventKind::TapNote, rest).len() == 0,
        detail(EventKind::Raw, rest).len() == 0,
        text::words(rest).len() > 0 ==> detail(EventKind::Edge, rest) == text::words(rest)[0]
            && detail(EventKind::Suppress, rest) == text::words(rest)[0],
{
    reveal_strlit("noteon");
    reveal_strlit("noteoff");
    let (on, off) = ("noteon"@ + rest, "noteoff"@ + rest);
    assert(on.take(6) =~= "noteon"@);
    assert(off.take(7) =~= "noteoff"@);
    assert(off[5] == 'f' && "noteon"@[5] == 'n');
    assert(!text::starts_with(off, "noteon"@)) by {
        if text::starts_with(off, "noteon"@) {
            assert(off.take(6)[5] == 'f');
        }
    }
}

/// The files of a trail: the text tells when and why it was written, how long the trail is
/// and what was lost, and then each event on a line of its own; the table has a row for each.
pub proof fn trails_are_written_in_order(
    ts_ms: u64,
    reason: Seq<char>,
    cfg_line: Seq<char>,
    trail: Seq<DebugEvent>,
    rgb_drop_critical: u64,
    i: int,
)
    ensures
        ({
            let ls = dump_txt_lines(ts_ms, reason, cfg_line, trail, rgb_drop_critical);
            let rows = dump_csv_lines(trail);
            let eq = seq!['='];
            &&& ls.len() == trail.len() + 5
            &&& ls[0] == "timestamp_ms"@ + eq + text::decimal(ts_ms as nat)
            &&& ls[1] == "reason"@ + eq + reason
            &&& ls[2] == "len"@ + eq + text::decimal(trail.len())
            &&& ls[3] == "rgb_drop_critical"@ + eq + text::decimal(rgb_drop_critical as nat)
            &&& ls[4] == cfg_line
            &&& 0 <= i < trail.len() ==> ls[i + 5] == "DBG "@ + padded(
                text::decimal(trail[i].t_ms as nat),
                7,
            ) + "ms "@ + trail[i].msg@
            &&& rows.len() == trail.len() + 1
            &&& rows[0] == columns()
            &&& 0 <= i < trail.len() ==> csv::read_line(rows[i + 1]) == event_row(
                trail[i].t_ms,
                trail[i].msg@,
            )
        }),
{
    if 0 <= i < trail.len() {
        let row = event_row(trail[i].t_ms, trail[i].msg@);
        rows_show_the_message(trail[i].t_ms, trail[i].msg@);
        assert(dump_csv_lines(trail)[i + 1] == csv::line(row));
        csv::line_reads_back(row);
    }
}

/// A text is put to the right: it ends what is shown, with nothing but spaces before it, and
/// that is as wide as asked for, or as the text.
pub proof fn padding_is_space_before(s: Seq<char>, width: nat, i: int)
    ensures
        padded(s, width).len() == (if s.len() < width {
            width
        } else {
            s.len()
        }),
        padded(s, width).skip(padded(s, width).len() - s.len()) == s,
        0 <= i < padded(s, width).len() - s.len() ==> padded(s, width)[i] == ' ',
{
    assert(padded(s, width).skip(padded(s, width).len() - s.len()) =~= s);
}

/// A trail keeps up to two hundred events: a further one goes behind them, and the oldest
/// goes where there are that many.
pub proof fn trails_keep_two_hundred<T>(s: Seq<T>, e: T)
    requires
        s.len() <= 200,
    ensures
        pushed(s, e).len() == (if s.len() < 200 {
            s.len() + 1
        } else {
            200
        }),
        pushed(s, e).last() == e,
        s.len() < 200 ==> pushed(s, e).drop_last() == s,
        s.len() == 200 ==> pushed(s, e).drop_last() == s.drop_first(),
{
    assert(s.push(e).drop_last() =~= s);
    if s.len() == 200 {
        assert(s.drop_first().push(e).drop_last() =~= s.drop_first());
    }
}

} // verus!
