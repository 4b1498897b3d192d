//! The state that is published while playing, and when it is.
//!
//! Times are nanoseconds since the program began.
use vstd::prelude::*;
use vstd::std_specs::hash::DefaultHasherAdditionalSpecFns;
use std::collections::hash_map::DefaultHasher;
use std::hash::Hasher;
use crate::byte_order::ByteOrder;
use crate::config::LayoutConfig;
use crate::modes::AftertouchMode;
use crate::pitch;
use crate::pitch::{GuideMode, LayoutPitches};
use crate::sorted;
use crate::sorted::Rank;
use crate::table::KeySet;
use crate::text;
use crate::wtn::{Wtn, WtnCell};

verus! {

/// How long after a change of what is pressed the next is published at the earliest.
pub const PRESSED_EVERY_NS: u64 = 33_000_000;

/// How long after a change of anything else the next is published at the earliest.
pub const MODE_EVERY_NS: u64 = 15_000_000;

/// What the instrument is set to.
#[derive(Debug, Clone)]
pub struct LiveMode {
    /// The bits of the press threshold.
    pub press_threshold_bits: u32,
    pub aftertouch: AftertouchMode,
    /// The bits of the speed at which the pressure is greatest.
    pub speed_max_bits: u32,
    pub velocity_profile: String,
    pub octave_shift: i8,
    pub screensaver_active: bool,
    pub preview_enabled: bool,
    pub guide_mode: GuideMode,
    pub guide_chord_key: Option<String>,
    pub guide_root_pc: Option<i64>,
}

/// What tells one list of pitches from another: the layout and the octave.
pub open spec fn live_key(l: LayoutConfig, octave_shift: i8) -> Seq<char> {
    l.id@ + seq![':'] + text::decimal_int(l.edo_divisions as int) + seq![':'] + text::decimal_int(
        l.pitch_offset as int,
    ) + seq![':'] + text::decimal_int(octave_shift as int)
}

fn live_key_of(l: &LayoutConfig, octave_shift: i8) -> (r: String)
    ensures
        r@ == live_key(*l, octave_shift),
{
    let mut out = text::text_of(l.id.as_str());
    out.push(':');
    text::push_decimal_int(&mut out, l.edo_divisions as i64);
    out.push(':');
    text::push_decimal_int(&mut out, l.pitch_offset as i64);
    out.push(':');
    text::push_decimal_int(&mut out, octave_shift as i64);
    assert(out@ =~= live_key(*l, octave_shift));
    out
}

/// The bytes that stand for numbers, one after the other. Each takes four bytes; a number
/// that needs more counts by its low four.
pub open spec fn number_writes(order: ByteOrder, v: Seq<i64>) -> Seq<Seq<u8>> {
    v.map_values(|x: i64| order.signed(x as int))
}

/// The number that stands for one that may be missing: a missing one counts as the least
/// number of four bytes.
pub open spec fn or_least(x: Option<i64>) -> int {
    match x {
        Some(n) => n as int,
        None => -0x8000_0000,
    }
}

/// The bytes that stand for pitches.
pub open spec fn pitch_writes(order: ByteOrder, v: Seq<Option<i64>>) -> Seq<Seq<u8>> {
    v.map_values(|x: Option<i64>| order.signed(or_least(x)))
}

/// The pitches of a board.
pub open spec fn board_pitches(
    cells: Map<u8, Seq<WtnCell>>,
    board: u8,
    l: LayoutConfig,
    octave_shift: i8,
) -> Seq<Option<i64>> {
    Seq::new(
        56,
        |i: int|
            match pitch::cell_pitch(
                cells,
                board,
                i,
                l.edo_divisions,
                l.pitch_offset,
                octave_shift,
            ) {
                Some(p) => Some(p as i64),
                None => None,
            },
    )
}

/// The bytes that stand for the pitches of a layout.
pub open spec fn layout_writes(
    order: ByteOrder,
    cells: Map<u8, Seq<WtnCell>>,
    l: LayoutConfig,
    octave_shift: i8,
) -> Seq<Seq<u8>> {
    seq![vstd::utf8::encode_utf8("Board0"@)] + pitch_writes(
        order,
        board_pitches(cells, 0, l, octave_shift),
    ) + seq![vstd::utf8::encode_utf8("Board1"@)] + pitch_writes(
        order,
        board_pitches(cells, 1, l, octave_shift),
    )
}

/// What the pitches of a layout are told from others by.
pub open spec fn pitches_hash(
    order: ByteOrder,
    cells: Map<u8, Seq<WtnCell>>,
    l: LayoutConfig,
    octave_shift: i8,
) -> u64 {
    DefaultHasher::spec_finish(layout_writes(order, cells, l, octave_shift))
}

/// The byte that stands for the guide's mode.
pub open spec fn guide_byte(m: GuideMode) -> u8 {
    match m {
        GuideMode::Off => 0,
        GuideMode::WaitRoot => 1,
        GuideMode::Active => 2,
    }
}

/// The byte that stands for a truth.
pub open spec fn truth_byte(b: bool) -> u8 {
    if b {
        1
    } else {
        0
    }
}

/// The byte that stands for the octave.
pub open spec fn octave_byte(shift: i8) -> u8 {
    if shift < 0 {
        (shift + 256) as u8
    } else {
        shift as u8
    }
}

/// The bytes that stand for the settings.
pub open spec fn mode_writes(order: ByteOrder, m: LiveMode) -> Seq<Seq<u8>> {
    seq![
        order.four(m.press_threshold_bits),
        vstd::utf8::encode_utf8(m.aftertouch.text()),
        order.four(m.speed_max_bits),
        vstd::utf8::encode_utf8(m.velocity_profile@),
        seq![octave_byte(m.octave_shift)],
        seq![truth_byte(m.screensaver_active)],
        seq![truth_byte(m.preview_enabled)],
        seq![guide_byte(m.guide_mode)],
    ] + (match m.guide_chord_key {
        Some(k) => seq![vstd::utf8::encode_utf8(k@)],
        None => Seq::empty(),
    }) + seq![order.signed(or_least(m.guide_root_pc))]
}

/// What a state is told from others by.
pub open spec fn state_writes(
    order: ByteOrder,
    key: Seq<char>,
    pitches: u64,
    m: LiveMode,
    pressed0: Seq<i64>,
    pressed1: Seq<i64>,
) -> Seq<Seq<u8>> {
    seq![vstd::utf8::encode_utf8(key), order.eight(pitches)] + mode_writes(order, m)
        + number_writes(order, pressed0) + seq![seq![0u8]] + number_writes(order, pressed1)
}

fn write_number(order: ByteOrder, h: &mut DefaultHasher, x: Option<i64>)
    ensures
        final(h)@ == old(h)@.push(order.signed(or_least(x))),
{
    let n: i64 = match x {
        Some(n) => n,
        None => -0x8000_0000,
    };
    let b: Vec<u8> = order.signed_bytes(n);
    h.write(b.as_slice());
}

fn write_byte(h: &mut DefaultHasher, x: u8)
    ensures
        final(h)@ == old(h)@.push(seq![x]),
{
    let b: [u8; 1] = [x];
    assert(b@ =~= seq![x]);
    h.write(b.as_slice());
}

fn write_numbers(order: ByteOrder, h: &mut DefaultHasher, v: &Vec<i64>)
    ensures
        final(h)@ == old(h)@ + number_writes(order, v@),
{
    let ghost all = number_writes(order, v@);
    for i in 0..v.len()
        invariant
            all == number_writes(order, v@),
            h@ =~= old(h)@ + all.take(i as int),
    {
        write_number(order, h, Some(v[i]));
    }
    assert(all.take(v@.len() as int) =~= all);
}

fn write_pitches(order: ByteOrder, h: &mut DefaultHasher, v: &Vec<Option<i64>>)
    ensures
        final(h)@ == old(h)@ + pitch_writes(order, v@),
{
    let ghost all = pitch_writes(order, v@);
    for i in 0..v.len()
        invariant
            all == pitch_writes(order, v@),
            h@ =~= old(h)@ + all.take(i as int),
    {
        write_number(order, h, v[i]);
    }
    assert(all.take(v@.len() as int) =~= all);
}

fn hash_pitches(
    order: ByteOrder,
    p: &LayoutPitches,
    cells: Ghost<Map<u8, Seq<WtnCell>>>,
    l: &LayoutConfig,
    octave_shift: i8,
) -> (r: u64)
    requires
        p.board0@ == board_pitches(cells@, 0, *l, octave_shift),
        p.board1@ == board_pitches(cells@, 1, *l, octave_shift),
    ensures
        r == pitches_hash(order, cells@, *l, octave_shift),
{
    let mut h: DefaultHasher = DefaultHasher::new();
    h.write("Board0".as_bytes());
    write_pitches(order, &mut h, &p.board0);
    h.write("Board1".as_bytes());
    write_pitches(order, &mut h, &p.board1);
    assert(h@ =~= seq![vstd::utf8::encode_utf8("Board0"@)] + pitch_writes(order, p.board0@) + seq![
        vstd::utf8::encode_utf8("Board1"@),
    ] + pitch_writes(order, p.board1@));
    h.finish()
}

fn write_mode(order: ByteOrder, h: &mut DefaultHasher, m: &LiveMode)
    ensures
        final(h)@ == old(h)@ + mode_writes(order, *m),
{
    let b: Vec<u8> = order.four_bytes(m.press_threshold_bits);
    h.write(b.as_slice());
    h.write(m.aftertouch.name().as_bytes());
    let b: Vec<u8> = order.four_bytes(m.speed_max_bits);
    h.write(b.as_slice());
    h.write(m.velocity_profile.as_str().as_bytes());
    let octave: u8 = if m.octave_shift < 0 {
        ((m.octave_shift as i16) + 256) as u8
    } else {
        m.octave_shift as u8
    };
    write_byte(h, octave);
    let dark: u8 = if m.screensaver_active {
        1
    } else {
        0
    };
    write_byte(h, dark);
    let preview: u8 = if m.preview_enabled {
        1
    } else {
        0
    };
    write_byte(h, preview);
    let guide: u8 = match m.guide_mode {
        GuideMode::Off => 0,
        GuideMode::WaitRoot => 1,
        GuideMode::Active => 2,
    };
    write_byte(h, guide);
    match &m.guide_chord_key {
        Some(k) => {
            h.write(k.as_str().as_bytes());
        },
        None => {},
    }
    write_number(order, h, m.guide_root_pc);
    assert(h@ =~= old(h)@ + mode_writes(order, *m));
}

fn hash_state(
    order: ByteOrder,
    key: &str,
    pitches: u64,
    m: &LiveMode,
    pressed0: &Vec<i64>,
    pressed1: &Vec<i64>,
) -> (r: u64)
    ensures
        r == DefaultHasher::spec_finish(state_writes(order, key@, pitches, *m, pressed0@, pressed1@)),
{
    let mut h: DefaultHasher = DefaultHasher::new();
    h.write(key.as_bytes());
    let b: Vec<u8> = order.eight_bytes(pitches);
    h.write(b.as_slice());
    write_mode(order, &mut h, m);
    write_numbers(order, &mut h, pressed0);
    write_byte(&mut h, 0);
    write_numbers(order, &mut h, pressed1);
    assert(h@ =~= state_writes(order, key@, pitches, *m, pressed0@, pressed1@));
    h.finish()
}

/// Publishes the state when it has changed, and not too often.
#[derive(Debug, Clone)]
pub struct LivePublisher {
    /// The order in which the machine keeps the bytes of a number.
    pub order: ByteOrder,
    pub seq: u64,
    pub last_hash: u64,
    /// When a change of what is pressed was last published, and of anything else.
    pub last_pressed_ns: Option<u64>,
    pub last_mode_ns: Option<u64>,
    pub dirty_mode: bool,
    pub dirty_pressed: bool,
    pub layout_key: String,
    pub layout_pitches: LayoutPitches,
    pub layout_pitches_hash: u64,
}

/// The version of what is published.
pub const LIVE_VERSION: u8 = 1;

/// The layout that is published.
#[derive(Debug, Clone)]
pub struct LiveLayout {
    pub id: String,
    pub name: String,
    pub edo: i32,
    pub pitch_offset: i32,
}

impl LiveLayout {
    /// Whether this is the layout `l`.
    pub open spec fn shows(self, l: LayoutConfig) -> bool {
        &&& self.id@ == l.id@
        &&& self.name@ == l.name@
        &&& self.edo == l.edo_divisions
        &&& self.pitch_offset == l.pitch_offset
    }

    /// The layout as it is published.
    pub fn of(l: &LayoutConfig) -> (r: LiveLayout)
        ensures
            r.shows(*l),
    {
        LiveLayout {
            id: text::text_of(l.id.as_str()),
            name: text::text_of(l.name.as_str()),
            edo: l.edo_divisions,
            pitch_offset: l.pitch_offset,
        }
    }
}

/// What the instrument is set to, as it is published: modes go by their names.
#[derive(Debug, Clone)]
pub struct LiveSettings {
    pub press_threshold_bits: u32,
    pub aftertouch: String,
    pub speed_max_bits: u32,
    pub velocity_profile: String,
    pub octave_shift: i8,
    pub screensaver_active: bool,
    pub preview_enabled: bool,
    pub guide_mode: String,
    pub guide_chord_key: Option<String>,
    pub guide_root_pc: Option<i64>,
}

impl LiveSettings {
    /// Whether these are the settings `m`.
    pub open spec fn shows(self, m: LiveMode) -> bool {
        &&& self.press_threshold_bits == m.press_threshold_bits
        &&& self.aftertouch@ == m.aftertouch.text()
        &&& self.speed_max_bits == m.speed_max_bits
        &&& self.velocity_profile@ == m.velocity_profile@
        &&& self.octave_shift == m.octave_shift
        &&& self.screensaver_active == m.screensaver_active
        &&& self.preview_enabled == m.preview_enabled
        &&& self.guide_mode@ == m.guide_mode.text()
        &&& match m.guide_chord_key {
            Some(k) => self.guide_chord_key matches Some(s) && s@ == k@,
            None => self.guide_chord_key is None,
        }
        &&& self.guide_root_pc == m.guide_root_pc
    }

    /// The settings as they are published.
    pub fn of(m: &LiveMode) -> (r: LiveSettings)
        ensures
            r.shows(*m),
    {
        LiveSettings {
            press_threshold_bits: m.press_threshold_bits,
            aftertouch: text::text_of(m.aftertouch.name()),
            speed_max_bits: m.speed_max_bits,
            velocity_profile: text::text_of(m.velocity_profile.as_str()),
            octave_shift: m.octave_shift,
            screensaver_active: m.screensaver_active,
            preview_enabled: m.preview_enabled,
            guide_mode: text::text_of(m.guide_mode.name()),
            guide_chord_key: match &m.guide_chord_key {
                Some(k) => Some(text::text_of(k.as_str())),
                None => None,
            },
            guide_root_pc: m.guide_root_pc,
        }
    }
}

/// What is published: the version, the number of the state, the layout and the settings,
/// the pitches that are pressed on each board, from the lowest up, and the pitches of the
/// layout.
#[derive(Debug, Clone)]
pub struct Publication {
    pub version: u8,
    pub seq: u64,
    pub layout: LiveLayout,
    pub mode: LiveSettings,
    pub pressed0: Vec<i64>,
    pub pressed1: Vec<i64>,
    pub layout_pitches: LayoutPitches,
}

fn copied(v: &Vec<Option<i64>>) -> (r: Vec<Option<i64>>)
    ensures
        r@ == v@,
{
    let mut out: Vec<Option<i64>> = Vec::new();
    for i in 0..v.len()
        invariant
            out@ == v@.take(i as int),
    {
        out.push(v[i]);
    }
    assert(out@ =~= v@);
    out
}

/// Whether less than `every` has passed since `last`.
pub open spec fn too_soon(last: Option<u64>, every: u64, now_ns: u64) -> bool {
    last matches Some(t) && now_ns - t < every
}

fn is_too_soon(last: Option<u64>, every: u64, now_ns: u64) -> (r: bool)
    requires
        every > 0,
    ensures
        r == too_soon(last, every, now_ns),
{
    match last {
        Some(t) => now_ns < t || now_ns - t < every,
        None => false,
    }
}

/// What a call for publishing comes to.
#[derive(Debug, Clone, Copy, PartialEq, Eq, Structural)]
pub enum Verdict {
    /// There is nothing to look at: no change, a change too soon, or no layout.
    Wait,
    /// Nothing has changed after all.
    Unchanged,
    /// There is a change, but it comes too soon.
    Later,
    Publish,
}

impl LivePublisher {
    /// Whether there is something to look at.
    pub open spec fn looks(self, has_layout: bool, now_ns: u64) -> bool {
        (self.dirty_mode || self.dirty_pressed) && !(self.dirty_pressed && too_soon(
            self.last_pressed_ns,
            PRESSED_EVERY_NS,
            now_ns,
        )) && has_layout
    }

    /// What the pitches are told from others by, once the layout has been looked at.
    pub open spec fn pitches_after(
        self,
        cells: Map<u8, Seq<WtnCell>>,
        l: LayoutConfig,
        octave_shift: i8,
    ) -> u64 {
        if live_key(l, octave_shift) == self.layout_key@ {
            self.layout_pitches_hash
        } else {
            pitches_hash(self.order, cells, l, octave_shift)
        }
    }

    /// What the state is told from others by.
    pub open spec fn hash_after(
        self,
        cells: Map<u8, Seq<WtnCell>>,
        l: LayoutConfig,
        m: LiveMode,
        pressed0: Seq<i64>,
        pressed1: Seq<i64>,
    ) -> u64 {
        DefaultHasher::spec_finish(
            state_writes(
                self.order,
                live_key(l, m.octave_shift),
                self.pitches_after(cells, l, m.octave_shift),
                m,
                pressed0,
                pressed1,
            ),
        )
    }

    /// What a call for publishing comes to.
    pub open spec fn verdict(
        self,
        cells: Map<u8, Seq<WtnCell>>,
        l: LayoutConfig,
        m: LiveMode,
        pressed0: Seq<i64>,
        pressed1: Seq<i64>,
        now_ns: u64,
    ) -> Verdict {
        let mode = self.dirty_mode || live_key(l, m.octave_shift) != self.layout_key@;
        if !self.looks(true, now_ns) {
            Verdict::Wait
        } else if self.hash_after(cells, l, m, pressed0, pressed1) == self.last_hash {
            Verdict::Unchanged
        } else if mode && too_soon(self.last_mode_ns, MODE_EVERY_NS, now_ns) {
            Verdict::Later
        } else {
            Verdict::Publish
        }
    }

    /// Whether `after` is the publisher after a call for publishing: one that waits is as it
    /// was; else the layout has been looked at, and its pitches are those of its cells where
    /// they were computed anew. A change that comes too soon stays marked, and a state that
    /// is published is remembered.
    pub open spec fn comes_to(
        self,
        after: LivePublisher,
        cells: Map<u8, Seq<WtnCell>>,
        l: LayoutConfig,
        m: LiveMode,
        pressed0: Seq<i64>,
        pressed1: Seq<i64>,
        now_ns: u64,
    ) -> bool {
        let v = self.verdict(cells, l, m, pressed0, pressed1, now_ns);
        let key = live_key(l, m.octave_shift);
        &&& after.order == self.order
        &&& v is Wait ==> after == self
        &&& !(v is Wait) ==> {
            &&& after.layout_key@ == key
            &&& after.layout_pitches_hash == self.pitches_after(cells, l, m.octave_shift)
            &&& key == self.layout_key@ ==> after.layout_pitches == self.layout_pitches
            &&& key != self.layout_key@ ==> after.layout_pitches.board0@ == board_pitches(
                cells,
                0,
                l,
                m.octave_shift,
            ) && after.layout_pitches.board1@ == board_pitches(cells, 1, l, m.octave_shift)
        }
        &&& v is Unchanged || v is Later ==> {
            &&& after.seq == self.seq
            &&& after.last_hash == self.last_hash
            &&& after.last_pressed_ns == self.last_pressed_ns
            &&& after.last_mode_ns == self.last_mode_ns
        }
        &&& v is Unchanged || v is Publish ==> !after.dirty_mode && !after.dirty_pressed
        &&& v is Later ==> after.dirty_mode && after.dirty_pressed == self.dirty_pressed
        &&& v is Publish ==> {
            &&& after.seq == (if self.seq == u64::MAX {
                0
            } else {
                self.seq + 1
            })
            &&& after.last_hash == self.hash_after(cells, l, m, pressed0, pressed1)
            &&& after.last_pressed_ns == (if self.dirty_pressed {
                Some(now_ns)
            } else {
                self.last_pressed_ns
            })
            &&& after.last_mode_ns == (if self.dirty_mode || key != self.layout_key@ {
                Some(now_ns)
            } else {
                self.last_mode_ns
            })
        }
    }

    pub fn new(order: ByteOrder) -> (r: Self)
        ensures
            r.order == order,
            r.seq == 0,
            r.last_hash == 0,
            r.last_pressed_ns is None,
            r.last_mode_ns is None,
            r.dirty_mode,
            r.dirty_pressed,
            r.layout_key@ == Seq::<char>::empty(),
            r.layout_pitches.board0@.len() == 0,
            r.layout_pitches.board1@.len() == 0,
            r.layout_pitches_hash == 0,
    {
        let layout_key = String::new();
        assert(layout_key@ =~= Seq::<char>::empty());
        LivePublisher {
            order,
            seq: 0,
            last_hash: 0,
            last_pressed_ns: None,
            last_mode_ns: None,
            dirty_mode: true,
            dirty_pressed: true,
            layout_key,
            layout_pitches: LayoutPitches { board0: Vec::new(), board1: Vec::new() },
            layout_pitches_hash: 0,
        }
    }

    /// Something other than what is pressed may have changed.
    pub fn mark_mode_dirty(&mut self)
        ensures
            *final(self) == (LivePublisher { dirty_mode: true, ..*old(self) }),
    {
        self.dirty_mode = true;
    }

    /// The cells of the layout may have changed: its pitches are computed anew.
    pub fn mark_layout_dirty(&mut self)
        ensures
            final(self).layout_key@ == Seq::<char>::empty(),
            *final(self) == (LivePublisher {
                dirty_mode: true,
                layout_key: final(self).layout_key,
                ..*old(self)
            }),
    {
        self.dirty_mode = true;
        self.layout_key = String::new();
        assert(self.layout_key@ =~= Seq::<char>::empty());
    }

    /// What is pressed may have changed.
    pub fn mark_pressed_dirty(&mut self)
        ensures
            *final(self) == (LivePublisher { dirty_pressed: true, ..*old(self) }),
    {
        self.dirty_pressed = true;
    }

    /// Decides on publishing a state, given the layout and the pressed pitches.
    pub fn decide(
        &mut self,
        wtn: &Wtn,
        layout: &LayoutConfig,
        m: &LiveMode,
        pressed0: &Vec<i64>,
        pressed1: &Vec<i64>,
        now_ns: u64,
    ) -> (r: Verdict)
        ensures
            r == old(self).verdict(wtn@, *layout, *m, pressed0@, pressed1@, now_ns),
            old(self).comes_to(
                *final(self),
                wtn@,
                *layout,
                *m,
                pressed0@,
                pressed1@,
                now_ns,
            ),
    {
        if !self.dirty_mode && !self.dirty_pressed {
            return Verdict::Wait;
        }
        if self.dirty_pressed && is_too_soon(self.last_pressed_ns, PRESSED_EVERY_NS, now_ns) {
            return Verdict::Wait;
        }
        let key: String = live_key_of(layout, m.octave_shift);
        let kc: Vec<char> = text::chars_of(key.as_str());
        if !text::same_text(kc.as_slice(), self.layout_key.as_str()) {
            self.layout_key = key;
            self.layout_pitches = pitch::compute_layout_pitches(
                wtn,
                layout.edo_divisions,
                layout.pitch_offset,
                m.octave_shift,
            );
            assert(self.layout_pitches.board0@ =~= board_pitches(wtn@, 0, *layout, m.octave_shift));
            assert(self.layout_pitches.board1@ =~= board_pitches(wtn@, 1, *layout, m.octave_shift));
            self.layout_pitches_hash = hash_pitches(
                self.order,
                &self.layout_pitches,
                Ghost(wtn@),
                layout,
                m.octave_shift,
            );
            self.dirty_mode = true;
        }
        let h: u64 = hash_state(
            self.order,
            self.layout_key.as_str(),
            self.layout_pitches_hash,
            m,
            pressed0,
            pressed1,
        );
        if h == self.last_hash {
            self.dirty_mode = false;
            self.dirty_pressed = false;
            return Verdict::Unchanged;
        }
        if self.dirty_mode && is_too_soon(self.last_mode_ns, MODE_EVERY_NS, now_ns) {
            return Verdict::Later;
        }
        if self.dirty_pressed {
            self.last_pressed_ns = Some(now_ns);
        }
        if self.dirty_mode {
            self.last_mode_ns = Some(now_ns);
        }
        self.last_hash = h;
        self.seq = self.seq.wrapping_add(1);
        self.dirty_mode = false;
        self.dirty_pressed = false;
        Verdict::Publish
    }

    /// Publishes the state of the layout at `layout_index`, if there is one, when it has
    /// changed and it is time.
    pub fn maybe_publish(
        &mut self,
        wtn: &Wtn,
        layouts: &Vec<LayoutConfig>,
        layout_index: usize,
        m: &LiveMode,
        pressed0: &KeySet<i64>,
        pressed1: &KeySet<i64>,
        now_ns: u64,
    ) -> (r: Option<Publication>)
        requires
            pressed0.wf(),
            pressed1.wf(),
        ensures
            layout_index >= layouts@.len() ==> r is None && *final(self) == *old(self),
            layout_index < layouts@.len() ==> {
                let l = layouts@[layout_index as int];
                let a = listed(pressed0@);
                let b = listed(pressed1@);
                &&& r is Some <==> old(self).verdict(wtn@, l, *m, a, b, now_ns) is Publish
                &&& old(self).comes_to(*final(self), wtn@, l, *m, a, b, now_ns)
            },
            r matches Some(p) ==> {
                &&& p.version == 1
                &&& p.seq == final(self).seq
                &&& p.layout.shows(layouts@[layout_index as int])
                &&& p.mode.shows(*m)
                &&& p.layout.id@ == layouts@[layout_index as int].id@
                &&& p.layout.name@ == layouts@[layout_index as int].name@
                &&& p.layout.edo == layouts@[layout_index as int].edo_divisions
                &&& p.layout.pitch_offset == layouts@[layout_index as int].pitch_offset
                &&& p.mode.press_threshold_bits == m.press_threshold_bits
                &&& p.mode.aftertouch@ == m.aftertouch.text()
                &&& p.mode.speed_max_bits == m.speed_max_bits
                &&& p.mode.velocity_profile@ == m.velocity_profile@
                &&& p.mode.octave_shift == m.octave_shift
                &&& p.mode.screensaver_active == m.screensaver_active
                &&& p.mode.preview_enabled == m.preview_enabled
                &&& p.mode.guide_mode@ == m.guide_mode.text()
                &&& p.mode.guide_chord_key is Some <==> m.guide_chord_key is Some
                &&& m.guide_chord_key matches Some(k) ==> p.mode.guide_chord_key->0@ == k@
                &&& p.mode.guide_root_pc == m.guide_root_pc
                &&& !final(self).dirty_mode && !final(self).dirty_pressed
                &&& forall|x: i64| #[trigger] p.pressed0@.contains(x) <==> pressed0@.contains(x)
                &&& forall|x: i64| #[trigger] p.pressed1@.contains(x) <==> pressed1@.contains(x)
                &&& forall|i: int, j: int|
                    0 <= i < j < p.pressed0@.len() ==> p.pressed0@[i] < p.pressed0@[j]
                &&& forall|i: int, j: int|
                    0 <= i < j < p.pressed1@.len() ==> p.pressed1@[i] < p.pressed1@[j]
                &&& p.pressed0@ == listed(pressed0@)
                &&& p.pressed1@ == listed(pressed1@)
                &&& p.layout_pitches.board0@ == final(self).layout_pitches.board0@
                &&& p.layout_pitches.board1@ == final(self).layout_pitches.board1@
            },
    {
        if layout_index >= layouts.len() {
            return None;
        }
        let v0: Vec<i64> = sorted::sort(&pressed0.items);
        let v1: Vec<i64> = sorted::sort(&pressed1.items);
        proof {
            lemma_listed(v0@, pressed0.items@);
            lemma_listed(v1@, pressed1.items@);
            listing_is_unique(v0@, listed(pressed0@), pressed0@);
            listing_is_unique(v1@, listed(pressed1@), pressed1@);
            assert forall|x: i64| #[trigger] v0@.contains(x) <==> pressed0@.contains(x) by {
                assert(v0@.to_set().contains(x) <==> v0@.contains(x));
            }
            assert forall|x: i64| #[trigger] v1@.contains(x) <==> pressed1@.contains(x) by {
                assert(v1@.to_set().contains(x) <==> v1@.contains(x));
            }
        }
        match self.decide(wtn, &layouts[layout_index], m, &v0, &v1, now_ns) {
            Verdict::Publish => Some(
                Publication {
                    version: LIVE_VERSION,
                    seq: self.seq,
                    layout: LiveLayout::of(&layouts[layout_index]),
                    mode: LiveSettings::of(m),
                    pressed0: v0,
                    pressed1: v1,
                    layout_pitches: LayoutPitches {
                        board0: copied(&self.layout_pitches.board0),
                        board1: copied(&self.layout_pitches.board1),
                    },
                },
            ),
            _ => None,
        }
    }
}

/// Whether `v` lists the numbers of `s` from the lowest up, each once.
pub open spec fn lists_from_lowest(v: Seq<i64>, s: Set<i64>) -> bool {
    v.to_set() == s && forall|i: int, j: int| 0 <= i < j < v.len() ==> v[i] < v[j]
}

/// The numbers of `s` from the lowest up.
pub open spec fn listed(s: Set<i64>) -> Seq<i64> {
    choose|v: Seq<i64>| lists_from_lowest(v, s)
}

proof fn lemma_listed(v: Seq<i64>, items: Seq<i64>)
    requires
        items.no_duplicates(),
        sorted::ascending(v),
        v.to_multiset() == items.to_multiset(),
    ensures
        lists_from_lowest(v, items.to_set()),
{
    v.to_multiset_ensures();
    items.to_multiset_ensures();
    items.lemma_multiset_has_no_duplicates();
    assert forall|x: i64| v.contains(x) <==> items.contains(x) by {
        assert(v.contains(x) <==> v.to_multiset().count(x) > 0);
        assert(items.contains(x) <==> items.to_multiset().count(x) > 0);
    }
    assert(v.to_set() =~= items.to_set());
    assert forall|x: i64| v.to_multiset().contains(x) implies v.to_multiset().count(x) == 1 by {}
    v.lemma_multiset_has_no_duplicates_conv();
    assert forall|i: int, j: int| 0 <= i < j < v.len() implies v[i] < v[j] by {
        assert(v[i].rank() <= v[j].rank());
        assert(v[i] != v[j]);
    }
}

/// A set of numbers is listed in one way only.
pub proof fn listing_is_unique(v: Seq<i64>, w: Seq<i64>, s: Set<i64>)
    requires
        lists_from_lowest(v, s),
        lists_from_lowest(w, s),
    ensures
        v == w,
    decreases v.len(),
{
    if v.len() == 0 {
        if w.len() > 0 {
            assert(w.to_set().contains(w[0]));
            assert(v.contains(w[0]));
        }
        assert(v =~= w);
    } else {
        assert(v.to_set().contains(v.last()));
        assert(w.contains(v.last()));
        assert(w.to_set().contains(w.last()));
        assert(v.contains(w.last()));
        let i = choose|i: int| 0 <= i < w.len() && w[i] == v.last();
        let j = choose|j: int| 0 <= j < v.len() && v[j] == w.last();
        assert(v.last() <= w.last());
        assert(w.last() <= v.last());
        let a = v.drop_last();
        let b = w.drop_last();
        lemma_without_last(v, s);
        lemma_without_last(w, s);
        listing_is_unique(a, b, s.remove(v.last()));
        assert(v =~= a.push(v.last()));
        assert(w =~= b.push(w.last()));
    }
}

proof fn lemma_without_last(v: Seq<i64>, s: Set<i64>)
    requires
        v.len() > 0,
        lists_from_lowest(v, s),
    ensures
        lists_from_lowest(v.drop_last(), s.remove(v.last())),
{
    let a = v.drop_last();
    assert forall|x: i64| a.contains(x) <==> s.remove(v.last()).contains(x) by {
        if a.contains(x) {
            let i = choose|i: int| 0 <= i < a.len() && a[i] == x;
            assert(v[i] == x);
            assert(v.to_set().contains(x));
        }
        if s.remove(v.last()).contains(x) {
            assert(v.to_set().contains(x));
            let i = choose|i: int| 0 <= i < v.len() && v[i] == x;
            assert(a[i] == x);
        }
    }
    assert(a.to_set() =~= s.remove(v.last()));
    assert forall|i: int, j: int| 0 <= i < j < a.len() implies a[i] < a[j] by {
        assert(v[i] < v[j]);
    }
}

/// A change of what is pressed is published a while after the one before at the earliest,
/// and a change of anything else likewise; nothing is published that has not changed.
pub proof fn publications_keep_their_distance(
    p: LivePublisher,
    cells: Map<u8, Seq<WtnCell>>,
    l: LayoutConfig,
    m: LiveMode,
    pressed0: Seq<i64>,
    pressed1: Seq<i64>,
    now_ns: u64,
)
    requires
        p.verdict(cells, l, m, pressed0, pressed1, now_ns) is Publish,
    ensures
        p.dirty_mode || p.dirty_pressed,
        p.dirty_pressed && p.last_pressed_ns is Some ==> now_ns >= p.last_pressed_ns->0
            + PRESSED_EVERY_NS,
        p.dirty_mode && p.last_mode_ns is Some ==> now_ns >= p.last_mode_ns->0 + MODE_EVERY_NS,
        p.hash_after(cells, l, m, pressed0, pressed1) != p.last_hash,
{
}

/// A publisher that remembers a state never publishes it, whatever was marked and however
/// much time has passed: it finds nothing new as soon as it looks.
pub proof fn known_states_are_not_published(
    p: LivePublisher,
    cells: Map<u8, Seq<WtnCell>>,
    l: LayoutConfig,
    m: LiveMode,
    pressed0: Seq<i64>,
    pressed1: Seq<i64>,
    now_ns: u64,
)
    requires
        p.layout_key@ == live_key(l, m.octave_shift),
        p.last_hash == p.hash_after(cells, l, m, pressed0, pressed1),
    ensures
        !(p.verdict(cells, l, m, pressed0, pressed1, now_ns) is Publish),
        p.looks(true, now_ns) ==> p.verdict(cells, l, m, pressed0, pressed1, now_ns) is Unchanged,
        p.dirty_mode && !p.dirty_pressed ==> p.verdict(
            cells,
            l,
            m,
            pressed0,
            pressed1,
            now_ns,
        ) is Unchanged,
{
}

/// A state that was published is not sent again: `p` published it and became `q`, and `next`
/// is `q` with anything marked. A mark of the mode alone is taken back at once.
pub proof fn a_state_is_sent_once(
    p: LivePublisher,
    q: LivePublisher,
    next: LivePublisher,
    cells: Map<u8, Seq<WtnCell>>,
    l: LayoutConfig,
    m: LiveMode,
    pressed0: Seq<i64>,
    pressed1: Seq<i64>,
    first_ns: u64,
    now_ns: u64,
)
    requires
        p.verdict(cells, l, m, pressed0, pressed1, first_ns) is Publish,
        p.comes_to(q, cells, l, m, pressed0, pressed1, first_ns),
        next == (LivePublisher {
            dirty_mode: next.dirty_mode,
            dirty_pressed: next.dirty_pressed,
            ..q
        }),
    ensures
        !(next.verdict(cells, l, m, pressed0, pressed1, now_ns) is Publish),
        next.dirty_mode && !next.dirty_pressed ==> next.verdict(
            cells,
            l,
            m,
            pressed0,
            pressed1,
            now_ns,
        ) is Unchanged,
        forall|after: LivePublisher| #[trigger]
            next.comes_to(after, cells, l, m, pressed0, pressed1, now_ns) ==> after.seq == q.seq
                && after.last_hash == q.last_hash && (next.dirty_mode && !next.dirty_pressed
                ==> !after.dirty_mode && !after.dirty_pressed),
{
    known_states_are_not_published(next, cells, l, m, pressed0, pressed1, now_ns);
}

/// Once the layout was marked, what is published next has the pitches of the cells as they
/// are then; without the mark the pitches are kept as long as the layout and the octave are
/// the same.
pub proof fn marked_layouts_are_computed_anew(
    p: LivePublisher,
    after: LivePublisher,
    cells: Map<u8, Seq<WtnCell>>,
    l: LayoutConfig,
    m: LiveMode,
    pressed0: Seq<i64>,
    pressed1: Seq<i64>,
    now_ns: u64,
)
    requires
        p.comes_to(after, cells, l, m, pressed0, pressed1, now_ns),
    ensures
        p.layout_key@.len() == 0 && !(p.verdict(cells, l, m, pressed0, pressed1, now_ns) is Wait)
            ==> after.layout_pitches.board0@ == board_pitches(cells, 0, l, m.octave_shift)
            && after.layout_pitches.board1@ == board_pitches(cells, 1, l, m.octave_shift),
        p.layout_key@ == live_key(l, m.octave_shift) ==> after.layout_pitches == p.layout_pitches,
{
    assert(live_key(l, m.octave_shift).len() > 0);
}

/// The number of four bytes is told by its bytes, and takes four.
proof fn lemma_four(order: ByteOrder, x: int)
    ensures
        order.signed(x).len() == 4,
{
    vstd::bytes::lemma_auto_spec_u32_to_from_le_bytes();
    assert(vstd::bytes::spec_u32_to_le_bytes(crate::byte_order::low32(x)).len() == 4);
}

proof fn lemma_numbers_told(order: ByteOrder, a: Seq<i64>, b: Seq<i64>)
    requires
        number_writes(order, a) == number_writes(order, b),
        forall|i: int| 0 <= i < a.len() ==> -0x8000_0000 <= #[trigger] a[i] <= 0x7fff_ffff,
        forall|i: int| 0 <= i < b.len() ==> -0x8000_0000 <= #[trigger] b[i] <= 0x7fff_ffff,
    ensures
        a == b,
{
    let wa = number_writes(order, a);
    let wb = number_writes(order, b);
    assert(wa.len() == a.len() && wb.len() == b.len());
    assert forall|i: int| 0 <= i < a.len() implies a[i] == b[i] by {
        assert(wa[i] == order.signed(a[i] as int));
        assert(wb[i] == order.signed(b[i] as int));
        crate::byte_order::signed_bytes_tell_the_number(order, a[i] as i32, b[i] as i32);
    }
    assert(a =~= b);
}

/// Whether every pitch of a list fits four bytes.
pub open spec fn fits(v: Seq<i64>) -> bool {
    forall|i: int| 0 <= i < v.len() ==> -0x8000_0000 <= #[trigger] v[i] <= 0x7fff_ffff
}

/// Two lists of numbers that are told one behind the other, with a single zero byte between
/// them, are told apart.
proof fn lemma_two_lists(
    order: ByteOrder,
    a0: Seq<i64>,
    a1: Seq<i64>,
    b0: Seq<i64>,
    b1: Seq<i64>,
)
    requires
        fits(a0) && fits(a1) && fits(b0) && fits(b1),
        number_writes(order, a0) + seq![seq![0u8]] + number_writes(order, a1) == number_writes(
            order,
            b0,
        ) + seq![seq![0u8]] + number_writes(order, b1),
    ensures
        a0 == b0,
        a1 == b1,
{
    let wa = number_writes(order, a0) + seq![seq![0u8]] + number_writes(order, a1);
    let wb = number_writes(order, b0) + seq![seq![0u8]] + number_writes(order, b1);
    let n = a0.len() as int;
    let m = b0.len() as int;
    assert(n == m) by {
        if n < m {
            assert(wa[n] == seq![0u8]);
            assert(wb[n] == order.signed(b0[n] as int));
            lemma_four(order, b0[n] as int);
        }
        if m < n {
            assert(wb[m] == seq![0u8]);
            assert(wa[m] == order.signed(a0[m] as int));
            lemma_four(order, a0[m] as int);
        }
    }
    assert(number_writes(order, a0) =~= wa.take(n));
    assert(number_writes(order, b0) =~= wb.take(n));
    assert(number_writes(order, a1) =~= wa.skip(n + 1));
    assert(number_writes(order, b1) =~= wb.skip(n + 1));
    lemma_numbers_told(order, a0, b0);
    lemma_numbers_told(order, a1, b1);
}

/// What a state is told from others by tells what is pressed: two states that differ in the
/// pitches that are pressed, on Board0 or on Board1, are told apart.
pub proof fn pressed_pitches_are_told(
    order: ByteOrder,
    key: Seq<char>,
    pitches: u64,
    m: LiveMode,
    a0: Seq<i64>,
    a1: Seq<i64>,
    b0: Seq<i64>,
    b1: Seq<i64>,
)
    requires
        fits(a0) && fits(a1) && fits(b0) && fits(b1),
        a0 != b0 || a1 != b1,
    ensures
        state_writes(order, key, pitches, m, a0, a1) != state_writes(
            order,
            key,
            pitches,
            m,
            b0,
            b1,
        ),
{
    let sa = state_writes(order, key, pitches, m, a0, a1);
    let sb = state_writes(order, key, pitches, m, b0, b1);
    if sa == sb {
        let head = seq![vstd::utf8::encode_utf8(key), order.eight(pitches)] + mode_writes(order, m);
        let ta = number_writes(order, a0) + seq![seq![0u8]] + number_writes(order, a1);
        let tb = number_writes(order, b0) + seq![seq![0u8]] + number_writes(order, b1);
        assert(ta =~= sa.skip(head.len() as int));
        assert(tb =~= sb.skip(head.len() as int));
        lemma_two_lists(order, a0, a1, b0, b1);
    }
}

proof fn lemma_text_told(a: Seq<char>, b: Seq<char>)
    requires
        vstd::utf8::encode_utf8(a) == vstd::utf8::encode_utf8(b),
    ensures
        a == b,
{
    vstd::utf8::encode_utf8_decode_utf8(a);
    vstd::utf8::encode_utf8_decode_utf8(b);
}

proof fn lemma_arranged(order: ByteOrder, a: Seq<u8>, b: Seq<u8>)
    requires
        order.arranged(a) == order.arranged(b),
    ensures
        a == b,
{
    if order == ByteOrder::Big {
        assert(a.len() == a.reverse().len() && b.len() == b.reverse().len());
        assert forall|i: int| 0 <= i < a.len() implies a[i] == b[i] by {
            assert(a.reverse()[a.len() - 1 - i] == b.reverse()[a.len() - 1 - i]);
        }
        assert(a =~= b);
    }
}

/// What a state is told from others by tells every part of it: the layout and its octave,
/// the pitches of the layout, and each of the settings.
pub proof fn every_setting_is_told(
    order: ByteOrder,
    key_a: Seq<char>,
    key_b: Seq<char>,
    pitches_a: u64,
    pitches_b: u64,
    a: LiveMode,
    b: LiveMode,
    a0: Seq<i64>,
    a1: Seq<i64>,
    b0: Seq<i64>,
    b1: Seq<i64>,
)
    requires
        state_writes(order, key_a, pitches_a, a, a0, a1) == state_writes(
            order,
            key_b,
            pitches_b,
            b,
            b0,
            b1,
        ),
        fits(a0) && fits(a1) && fits(b0) && fits(b1),
        a.guide_chord_key is Some <==> b.guide_chord_key is Some,
        a.guide_root_pc matches Some(r) ==> -0x8000_0000 < r <= 0x7fff_ffff,
        b.guide_root_pc matches Some(r) ==> -0x8000_0000 < r <= 0x7fff_ffff,
    ensures
        key_a == key_b,
        pitches_a == pitches_b,
        a.press_threshold_bits == b.press_threshold_bits,
        a.aftertouch == b.aftertouch,
        a.speed_max_bits == b.speed_max_bits,
        a.velocity_profile@ == b.velocity_profile@,
        a.octave_shift == b.octave_shift,
        a.screensaver_active == b.screensaver_active,
        a.preview_enabled == b.preview_enabled,
        a.guide_mode == b.guide_mode,
        a.guide_chord_key is Some ==> a.guide_chord_key->0@ == b.guide_chord_key->0@,
        a.guide_root_pc == b.guide_root_pc,
        a0 == b0,
        a1 == b1,
{
    let sa = state_writes(order, key_a, pitches_a, a, a0, a1);
    let sb = state_writes(order, key_b, pitches_b, b, b0, b1);
    vstd::bytes::lemma_auto_spec_u32_to_from_le_bytes();
    vstd::bytes::lemma_auto_spec_u64_to_from_le_bytes();
    let ma = mode_writes(order, a);
    let mb = mode_writes(order, b);
    assert(ma.len() == mb.len());
    let la = seq![vstd::utf8::encode_utf8(key_a), order.eight(pitches_a)];
    let lb = seq![vstd::utf8::encode_utf8(key_b), order.eight(pitches_b)];
    assert(sa[0] == la[0] && sb[0] == lb[0]);
    assert(sa[1] == la[1] && sb[1] == lb[1]);
    lemma_text_told(key_a, key_b);
    lemma_arranged(
        order,
        vstd::bytes::spec_u64_to_le_bytes(pitches_a),
        vstd::bytes::spec_u64_to_le_bytes(pitches_b),
    );
    assert(vstd::bytes::spec_u64_to_le_bytes(pitches_a).len() == 8);
    assert(vstd::bytes::spec_u64_to_le_bytes(pitches_b).len() == 8);
    assert forall|i: int| 0 <= i < ma.len() implies ma[i] == mb[i] by {
        assert(sa[i + 2] == ma[i]);
        assert(sb[i + 2] == mb[i]);
    }
    lemma_modes_told(order, a, b);
    let head = la + ma;
    let other = lb + mb;
    assert(head.len() == other.len());
    let ta = number_writes(order, a0) + seq![seq![0u8]] + number_writes(order, a1);
    let tb = number_writes(order, b0) + seq![seq![0u8]] + number_writes(order, b1);
    assert(ta =~= sa.skip(head.len() as int));
    assert(tb =~= sb.skip(head.len() as int));
    lemma_two_lists(order, a0, a1, b0, b1);
}

proof fn lemma_modes_told(order: ByteOrder, a: LiveMode, b: LiveMode)
    requires
        mode_writes(order, a).len() == mode_writes(order, b).len(),
        forall|i: int|
            0 <= i < mode_writes(order, a).len() ==> #[trigger] mode_writes(order, a)[i]
                == mode_writes(order, b)[i],
        a.guide_chord_key is Some <==> b.guide_chord_key is Some,
        a.guide_root_pc matches Some(r) ==> -0x8000_0000 < r <= 0x7fff_ffff,
        b.guide_root_pc matches Some(r) ==> -0x8000_0000 < r <= 0x7fff_ffff,
    ensures
        a.press_threshold_bits == b.press_threshold_bits,
        a.aftertouch == b.aftertouch,
        a.speed_max_bits == b.speed_max_bits,
        a.velocity_profile@ == b.velocity_profile@,
        a.octave_shift == b.octave_shift,
        a.screensaver_active == b.screensaver_active,
        a.preview_enabled == b.preview_enabled,
        a.guide_mode == b.guide_mode,
        a.guide_chord_key is Some ==> a.guide_chord_key->0@ == b.guide_chord_key->0@,
        a.guide_root_pc == b.guide_root_pc,
{
    let ma = mode_writes(order, a);
    let mb = mode_writes(order, b);
    vstd::bytes::lemma_auto_spec_u32_to_from_le_bytes();
    assert(ma[0] == mb[0] && ma[1] == mb[1] && ma[2] == mb[2] && ma[3] == mb[3]);
    assert(ma[4] == mb[4] && ma[5] == mb[5] && ma[6] == mb[6] && ma[7] == mb[7]);
    assert(ma[0] == order.four(a.press_threshold_bits));
    assert(ma[2] == order.four(a.speed_max_bits));
    let x = vstd::bytes::spec_u32_to_le_bytes(a.press_threshold_bits);
    let y = vstd::bytes::spec_u32_to_le_bytes(b.press_threshold_bits);
    lemma_arranged(order, x, y);
    assert(x.len() == 4 && y.len() == 4);
    let x = vstd::bytes::spec_u32_to_le_bytes(a.speed_max_bits);
    let y = vstd::bytes::spec_u32_to_le_bytes(b.speed_max_bits);
    lemma_arranged(order, x, y);
    assert(x.len() == 4 && y.len() == 4);
    lemma_text_told(a.aftertouch.text(), b.aftertouch.text());
    reveal_strlit("off");
    reveal_strlit("peak-mapped");
    reveal_strlit("speed-mapped");
    lemma_text_told(a.velocity_profile@, b.velocity_profile@);
    assert(seq![octave_byte(a.octave_shift)][0] == seq![octave_byte(b.octave_shift)][0]);
    assert(seq![truth_byte(a.screensaver_active)][0] == seq![truth_byte(b.screensaver_active)][0]);
    assert(seq![truth_byte(a.preview_enabled)][0] == seq![truth_byte(b.preview_enabled)][0]);
    assert(seq![guide_byte(a.guide_mode)][0] == seq![guide_byte(b.guide_mode)][0]);
    let n = ma.len() - 1;
    if a.guide_chord_key is Some {
        assert(ma[8] == mb[8]);
        lemma_text_told(a.guide_chord_key->0@, b.guide_chord_key->0@);
    }
    assert(ma[n] == mb[n]);
    assert(ma[n] == order.signed(or_least(a.guide_root_pc)));
    assert(mb[n] == order.signed(or_least(b.guide_root_pc)));
    crate::byte_order::signed_bytes_tell_the_number(
        order,
        or_least(a.guide_root_pc) as i32,
        or_least(b.guide_root_pc) as i32,
    );
}

/// Whether every pitch of a board fits four bytes, the least number aside.
pub open spec fn pitches_fit(v: Seq<Option<i64>>) -> bool {
    forall|i: int|
        0 <= i < v.len() ==> ((#[trigger] v[i]) matches Some(n) ==> -0x8000_0000 < n <= 0x7fff_ffff)
}

proof fn lemma_pitches_told(order: ByteOrder, a: Seq<Option<i64>>, b: Seq<Option<i64>>)
    requires
        pitch_writes(order, a) == pitch_writes(order, b),
        pitches_fit(a),
        pitches_fit(b),
    ensures
        a == b,
{
    let wa = pitch_writes(order, a);
    let wb = pitch_writes(order, b);
    assert(wa.len() == a.len() && wb.len() == b.len());
    assert forall|i: int| 0 <= i < a.len() implies a[i] == b[i] by {
        assert(wa[i] == order.signed(or_least(a[i])));
        assert(wb[i] == order.signed(or_least(b[i])));
        crate::byte_order::signed_bytes_tell_the_number(
            order,
            or_least(a[i]) as i32,
            or_least(b[i]) as i32,
        );
    }
    assert(a =~= b);
}

/// What the pitches of a layout are told from others by tells the pitch of every cell of
/// both boards, and where one is missing.
pub proof fn layout_pitches_are_told(
    order: ByteOrder,
    cells: Map<u8, Seq<WtnCell>>,
    l: LayoutConfig,
    octave_shift: i8,
    other_cells: Map<u8, Seq<WtnCell>>,
    other: LayoutConfig,
    other_shift: i8,
)
    requires
        layout_writes(order, cells, l, octave_shift) == layout_writes(
            order,
            other_cells,
            other,
            other_shift,
        ),
        pitches_fit(board_pitches(cells, 0, l, octave_shift)),
        pitches_fit(board_pitches(cells, 1, l, octave_shift)),
        pitches_fit(board_pitches(other_cells, 0, other, other_shift)),
        pitches_fit(board_pitches(other_cells, 1, other, other_shift)),
    ensures
        board_pitches(cells, 0, l, octave_shift) == board_pitches(
            other_cells,
            0,
            other,
            other_shift,
        ),
        board_pitches(cells, 1, l, octave_shift) == board_pitches(
            other_cells,
            1,
            other,
            other_shift,
        ),
{
    let wa = layout_writes(order, cells, l, octave_shift);
    let wb = layout_writes(order, other_cells, other, other_shift);
    let a0 = board_pitches(cells, 0, l, octave_shift);
    let a1 = board_pitches(cells, 1, l, octave_shift);
    let b0 = board_pitches(other_cells, 0, other, other_shift);
    let b1 = board_pitches(other_cells, 1, other, other_shift);
    assert(pitch_writes(order, a0) =~= wa.subrange(1, 57));
    assert(pitch_writes(order, b0) =~= wb.subrange(1, 57));
    assert(pitch_writes(order, a1) =~= wa.skip(58));
    assert(pitch_writes(order, b1) =~= wb.skip(58));
    lemma_pitches_told(order, a0, b0);
    lemma_pitches_told(order, a1, b1);
}

/// The published pitches of a layout are those that its keys play at the octave of the
/// instrument: of each of the fifty-six cells of a board, none where there is no cell.
pub proof fn layout_pitches_are_those_played(
    cells: Map<u8, Seq<WtnCell>>,
    board: u8,
    l: LayoutConfig,
    octave_shift: i8,
    i: int,
)
    requires
        0 <= i < 56,
    ensures
        ({
            let v = board_pitches(cells, board, l, octave_shift);
            &&& v.len() == 56
            &&& !(cells.contains_key(board) && i < cells[board].len()) ==> v[i] is None
            &&& cells.contains_key(board) && i < cells[board].len() && 1
                <= cells[board][i].chan_1based && 0 <= cells[board][i].chan_1based - 1
                + octave_shift <= 15 ==> v[i] == Some(
                ((cells[board][i].chan_1based - 1 + octave_shift) * l.edo_divisions
                    + cells[board][i].key + l.pitch_offset) as i64,
            )
        }),
{
}

/// A change that is marked is published as soon as 33 ms have passed since the last change
/// of what is pressed that was, if it is one, and 15 ms since the last of anything else.
pub proof fn changes_are_published(
    p: LivePublisher,
    cells: Map<u8, Seq<WtnCell>>,
    l: LayoutConfig,
    m: LiveMode,
    pressed0: Seq<i64>,
    pressed1: Seq<i64>,
    now_ns: u64,
)
    requires
        p.hash_after(cells, l, m, pressed0, pressed1) != p.last_hash,
    ensures
        ({
            let v = p.verdict(cells, l, m, pressed0, pressed1, now_ns);
            let press_waits = p.last_pressed_ns is Some && now_ns - p.last_pressed_ns->0
                < 33_000_000;
            let mode_waits = p.last_mode_ns is Some && now_ns - p.last_mode_ns->0 < 15_000_000;
            &&& !p.dirty_mode && !p.dirty_pressed ==> v is Wait
            &&& p.dirty_pressed && press_waits ==> v is Wait
            &&& p.dirty_pressed && !press_waits && !mode_waits ==> v is Publish
            &&& p.dirty_mode && !p.dirty_pressed && !mode_waits ==> v is Publish
            &&& p.dirty_mode && !(p.dirty_pressed && press_waits) && mode_waits ==> v is Later
            &&& p.dirty_pressed && !press_waits && !p.dirty_mode && live_key(l, m.octave_shift)
                == p.layout_key@ ==> v is Publish
        }),
{
}

/// What a publisher remembers of a state that it published: its number is the next, what it
/// is told by is kept, nothing is marked any more, and the time counts for what was marked.
pub proof fn published_states_are_remembered(
    p: LivePublisher,
    after: LivePublisher,
    cells: Map<u8, Seq<WtnCell>>,
    l: LayoutConfig,
    m: LiveMode,
    pressed0: Seq<i64>,
    pressed1: Seq<i64>,
    now_ns: u64,
)
    requires
        p.comes_to(after, cells, l, m, pressed0, pressed1, now_ns),
    ensures
        p.verdict(cells, l, m, pressed0, pressed1, now_ns) is Publish ==> {
            &&& p.seq < u64::MAX ==> after.seq == p.seq + 1
            &&& !after.dirty_mode && !after.dirty_pressed
            &&& after.last_hash == DefaultHasher::spec_finish(
                state_writes(
                    p.order,
                    live_key(l, m.octave_shift),
                    after.layout_pitches_hash,
                    m,
                    pressed0,
                    pressed1,
                ),
            )
            &&& p.dirty_pressed ==> after.last_pressed_ns == Some(now_ns)
            &&& !p.dirty_pressed ==> after.last_pressed_ns == p.last_pressed_ns
            &&& p.dirty_mode ==> after.last_mode_ns == Some(now_ns)
            &&& !p.dirty_mode && p.layout_key@ == live_key(l, m.octave_shift)
                ==> after.last_mode_ns == p.last_mode_ns
            &&& after.layout_key@ == live_key(l, m.octave_shift)
        },
        p.verdict(cells, l, m, pressed0, pressed1, now_ns) is Unchanged ==> !after.dirty_mode
            && !after.dirty_pressed && after.seq == p.seq && after.last_hash == p.last_hash,
        p.verdict(cells, l, m, pressed0, pressed1, now_ns) is Later ==> after.dirty_mode
            && after.dirty_pressed == p.dirty_pressed && after.seq == p.seq,
        p.verdict(cells, l, m, pressed0, pressed1, now_ns) is Wait ==> after == p,
        p.layout_key@ == live_key(l, m.octave_shift) ==> after.layout_pitches_hash
            == p.layout_pitches_hash && after.layout_pitches == p.layout_pitches,
        p.layout_key@ != live_key(l, m.octave_shift) && !(p.verdict(
            cells,
            l,
            m,
            pressed0,
            pressed1,
            now_ns,
        ) is Wait) ==> after.layout_pitches_hash == DefaultHasher::spec_finish(
            layout_writes(p.order, cells, l, m.octave_shift),
        ),
{
}

proof fn lemma_last_part(x: Seq<char>, a: Seq<char>, y: Seq<char>, b: Seq<char>)
    requires
        x + seq![':'] + a == y + seq![':'] + b,
        !a.contains(':'),
        !b.contains(':'),
    ensures
        x == y,
        a == b,
{
    let s = x + seq![':'] + a;
    let t = y + seq![':'] + b;
    assert(s == t);
    assert(s.len() == x.len() + 1 + a.len());
    assert(t.len() == y.len() + 1 + b.len());
    assert(s[x.len() as int] == ':');
    assert(t[y.len() as int] == ':');
    if x.len() < y.len() {
        let i = y.len() - x.len() - 1;
        assert(s[y.len() as int] == a[i]);
        assert(a.contains(a[i]));
    }
    if y.len() < x.len() {
        let i = x.len() - y.len() - 1;
        assert(t[x.len() as int] == b[i]);
        assert(b.contains(b[i]));
    }
    assert(x.len() == y.len());
    assert(x =~= s.take(x.len() as int));
    assert(y =~= t.take(y.len() as int));
    assert(a =~= s.skip(x.len() as int + 1));
    assert(b =~= t.skip(y.len() as int + 1));
}

proof fn lemma_number_text(n: int)
    requires
        -0x8000_0000 <= n <= 0x7fff_ffff,
    ensures
        !text::decimal_int(n).contains(':'),
{
    let s = text::decimal_int(n);
    let digits = text::decimal(if n < 0 { (-n) as nat } else { n as nat });
    text::lemma_decimal_is_digits(if n < 0 { (-n) as nat } else { n as nat });
    assert forall|i: int| 0 <= i < s.len() implies s[i] != ':' by {
        if n < 0 {
            if i > 0 {
                assert(s[i] == digits[i - 1]);
            }
        } else {
            assert(s[i] == digits[i]);
        }
    }
}

/// A list of pitches is kept only for the layout and the octave that it was computed for:
/// the id, the division of the octave, the offset and the octave are all told by the key.
pub proof fn keys_tell_layout_and_octave(a: LayoutConfig, b: LayoutConfig, s: i8, t: i8)
    requires
        live_key(a, s) == live_key(b, t),
    ensures
        a.id@ == b.id@,
        a.edo_divisions == b.edo_divisions,
        a.pitch_offset == b.pitch_offset,
        s == t,
{
    let (ea, eb) = (
        text::decimal_int(a.edo_divisions as int),
        text::decimal_int(b.edo_divisions as int),
    );
    let (oa, ob) = (
        text::decimal_int(a.pitch_offset as int),
        text::decimal_int(b.pitch_offset as int),
    );
    let (sa, sb) = (text::decimal_int(s as int), text::decimal_int(t as int));
    lemma_number_text(a.edo_divisions as int);
    lemma_number_text(b.edo_divisions as int);
    lemma_number_text(a.pitch_offset as int);
    lemma_number_text(b.pitch_offset as int);
    lemma_number_text(s as int);
    lemma_number_text(t as int);
    lemma_last_part(
        a.id@ + seq![':'] + ea + seq![':'] + oa,
        sa,
        b.id@ + seq![':'] + eb + seq![':'] + ob,
        sb,
    );
    lemma_last_part(a.id@ + seq![':'] + ea, oa, b.id@ + seq![':'] + eb, ob);
    lemma_last_part(a.id@, ea, b.id@, eb);
    text::decimals_tell_the_number(a.edo_divisions as int, b.edo_divisions as int);
    text::decimals_tell_the_number(a.pitch_offset as int, b.pitch_offset as int);
    text::decimals_tell_the_number(s as int, t as int);
}

} // verus!
