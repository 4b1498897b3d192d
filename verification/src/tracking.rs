//! The keys that are held: how far and how fast each has moved, and what it plays.
//!
//! Levels and speeds are numbers that grow with what they stand for. Times are nanoseconds
//! since the program began.
use vstd::prelude::*;
use crate::board;
use crate::notes::{KeyId, Voice};
use crate::paint::Stage;
use crate::pitch;
use crate::pitch::GuideMode;
use crate::table;
use crate::table::{KeySet, Table};
use crate::wtn;
use crate::wtn::{Wtn, WtnCell};

verus! {

/// The LED of a held key, and the colour that it has when the key is let go.
#[derive(Debug, Clone, Copy, PartialEq, Eq)]
pub struct LedState {
    pub dev_idx: u8,
    pub row: u8,
    pub col: u8,
    pub base_rgb: (u8, u8, u8),
}

/// A key that is held.
#[derive(Debug, Clone, Copy)]
pub struct VelState {
    /// Since when its peak is followed.
    pub started_ns: u64,
    pub peak: u32,
    pub last_level: u32,
    pub last_level_ns: u64,
    pub peak_speed: u32,
    /// The pressure reached so far.
    pub at_level: u32,
    pub voice: Voice,
    /// Whether its note has begun.
    pub playing: bool,
    pub led: Option<LedState>,
}

/// The greater of two numbers.
pub open spec fn greater(a: u32, b: u32) -> u32 {
    if b > a {
        b
    } else {
        a
    }
}

/// A key that was just pressed.
pub open spec fn pressed_state(
    now_ns: u64,
    level: u32,
    voice: Voice,
    playing: bool,
    led: Option<LedState>,
) -> VelState {
    VelState {
        started_ns: now_ns,
        peak: level,
        last_level: level,
        last_level_ns: now_ns,
        peak_speed: 0,
        at_level: 0,
        voice,
        playing,
        led,
    }
}

/// A held key after it has moved; `speed` is the speed it moved down with, if it did.
pub open spec fn moved(st: VelState, now_ns: u64, level: u32, speed: Option<u32>) -> VelState {
    VelState {
        peak: greater(st.peak, level),
        peak_speed: match speed {
            Some(s) => greater(st.peak_speed, s),
            None => st.peak_speed,
        },
        last_level: level,
        last_level_ns: now_ns,
        ..st
    }
}

/// A held key after its peak has been used: the peak is followed anew, and the pressure is
/// at least `strength`.
pub open spec fn restarted(st: VelState, now_ns: u64, strength: u32, playing: bool) -> VelState {
    VelState {
        started_ns: now_ns,
        peak: st.last_level,
        peak_speed: 0,
        at_level: greater(st.at_level, strength),
        playing,
        ..st
    }
}

/// The pressure of a key never falls while it is held.
pub proof fn pressure_never_falls(
    st: VelState,
    now_ns: u64,
    level: u32,
    speed: Option<u32>,
    strength: u32,
    playing: bool,
)
    ensures
        moved(st, now_ns, level, speed).at_level == st.at_level,
        restarted(st, now_ns, strength, playing).at_level >= st.at_level,
        restarted(st, now_ns, strength, playing).at_level >= strength,
{
}

/// What a held key's turn comes to.
#[derive(Debug, Clone, Copy)]
pub enum Tick {
    /// Its peak is still being followed.
    NotYet,
    /// It was let go before its note began; it is no longer tracked.
    TooLate,
    /// Its peak is to be used.
    Fire(VelState),
}

/// What the turn of a held key comes to; `pressed` says whether the key is down.
pub open spec fn tick_of(st: VelState, now_ns: u64, peak_track_ns: u64, pressed: bool) -> Tick {
    if now_ns - st.started_ns < peak_track_ns {
        Tick::NotYet
    } else if !st.playing && !pressed {
        Tick::TooLate
    } else {
        Tick::Fire(st)
    }
}

/// How long the peak of a press is followed, in nanoseconds: at least a millisecond.
pub fn peak_track_ns(velocity_peak_track_ms: u32) -> (r: u64)
    ensures
        r == (if velocity_peak_track_ms == 0 {
            1_000_000
        } else {
            velocity_peak_track_ms * 1_000_000
        }),
{
    let ms: u64 = if velocity_peak_track_ms == 0 {
        1
    } else {
        velocity_peak_track_ms as u64
    };
    ms * 1_000_000
}

/// The keys that are held.
#[derive(Debug, Clone)]
pub struct Tracks {
    pub keys: Table<KeyId, VelState>,
}

/// The colour that a held key's LED goes back to, where the key has a cell.
pub open spec fn idle_colour(
    stage: Stage,
    cells: Map<u8, Seq<WtnCell>>,
    key: KeyId,
    edo: i32,
    pitch_offset: i32,
    mode: GuideMode,
    pcs_abs: Set<i64>,
    dims: Seq<u8>,
) -> Option<(u8, u8, u8)> {
    if !stage.boards@.contains_key(key.device_id) {
        None
    } else {
        let b = stage.boards@[key.device_id];
        match board::place_of(stage.hid_map@, b, key.hid) {
            None => None,
            Some(p) => match wtn::cell_of(cells, b.wtn_board, p.index as int) {
                None => None,
                Some(c) => Some(
                    pitch::idle_rgb(c.col_rgb, c.key, edo, pitch_offset, mode, pcs_abs, dims),
                ),
            },
        }
    }
}

/// A held key whose LED goes back to `idle`, where there is such a colour.
pub open spec fn recoloured(st: VelState, idle: Option<(u8, u8, u8)>) -> VelState {
    match (st.led, idle) {
        (Some(led), Some(rgb)) => VelState { led: Some(LedState { base_rgb: rgb, ..led }), ..st },
        _ => st,
    }
}

/// The held keys of `m`, with the colours that their LEDs go back to.
pub open spec fn all_recoloured(
    m: Map<KeyId, VelState>,
    stage: Stage,
    cells: Map<u8, Seq<WtnCell>>,
    edo: i32,
    pitch_offset: i32,
    mode: GuideMode,
    pcs_abs: Set<i64>,
    dims: Seq<u8>,
) -> Map<KeyId, VelState> {
    m.map_entries(
        |k: KeyId, st: VelState|
            recoloured(st, idle_colour(stage, cells, k, edo, pitch_offset, mode, pcs_abs, dims)),
    )
}

impl Tracks {
    pub open spec fn wf(self) -> bool {
        table::distinct_keys(self.keys.entries@)
    }

    pub fn new() -> (r: Self)
        ensures
            r.wf(),
            r.keys@ == Map::<KeyId, VelState>::empty(),
    {
        Tracks { keys: Table::new() }
    }

    /// A key was pressed.
    pub fn press(
        &mut self,
        key: KeyId,
        now_ns: u64,
        level: u32,
        voice: Voice,
        playing: bool,
        led: Option<LedState>,
    )
        requires
            old(self).wf(),
        ensures
            final(self).wf(),
            final(self).keys@ == old(self).keys@.insert(
                key,
                pressed_state(now_ns, level, voice, playing, led),
            ),
    {
        self.keys.insert(
            key,
            VelState {
                started_ns: now_ns,
                peak: level,
                last_level: level,
                last_level_ns: now_ns,
                peak_speed: 0,
                at_level: 0,
                voice,
                playing,
                led,
            },
        );
    }

    /// What is known of a held key.
    pub fn get(&self, key: KeyId) -> (r: Option<VelState>)
        ensures
            match r {
                Some(st) => self.keys@.contains_key(key) && self.keys@[key] == st,
                None => !self.keys@.contains_key(key),
            },
    {
        match self.keys.get(key) {
            Some(st) => Some(*st),
            None => None,
        }
    }

    /// A held key has moved; `speed` is the speed it moved down with, if it did.
    pub fn update(&mut self, key: KeyId, now_ns: u64, level: u32, speed: Option<u32>)
        requires
            old(self).wf(),
        ensures
            final(self).wf(),
            final(self).keys@ == (if old(self).keys@.contains_key(key) {
                old(self).keys@.insert(key, moved(old(self).keys@[key], now_ns, level, speed))
            } else {
                old(self).keys@
            }),
    {
        let st: VelState = match self.get(key) {
            Some(st) => st,
            None => {
                return;
            },
        };
        let peak: u32 = if level > st.peak {
            level
        } else {
            st.peak
        };
        let peak_speed: u32 = match speed {
            Some(s) => if s > st.peak_speed {
                s
            } else {
                st.peak_speed
            },
            None => st.peak_speed,
        };
        self.keys.insert(
            key,
            VelState { peak, peak_speed, last_level: level, last_level_ns: now_ns, ..st },
        );
    }

    /// A key was let go.
    pub fn release(&mut self, key: KeyId) -> (r: Option<VelState>)
        requires
            old(self).wf(),
        ensures
            final(self).wf(),
            final(self).keys@ == old(self).keys@.remove(key),
            r == (if old(self).keys@.contains_key(key) {
                Some(old(self).keys@[key])
            } else {
                None
            }),
    {
        self.keys.take(key)
    }

    /// The turn of a held key; `pressed` says whether the key is down.
    pub fn tick(&mut self, key: KeyId, now_ns: u64, peak_track_ns: u64, pressed: bool) -> (r: Tick)
        requires
            old(self).wf(),
        ensures
            final(self).wf(),
            if old(self).keys@.contains_key(key) {
                &&& r == tick_of(old(self).keys@[key], now_ns, peak_track_ns, pressed)
                &&& final(self).keys@ == (if r is TooLate {
                    old(self).keys@.remove(key)
                } else {
                    old(self).keys@
                })
            } else {
                r is NotYet && final(self).keys@ == old(self).keys@
            },
    {
        let st: VelState = match self.get(key) {
            Some(st) => st,
            None => {
                return Tick::NotYet;
            },
        };
        if now_ns < st.started_ns || now_ns - st.started_ns < peak_track_ns {
            return Tick::NotYet;
        }
        if !st.playing && !pressed {
            self.keys.remove(key);
            return Tick::TooLate;
        }
        Tick::Fire(st)
    }

    /// The peak of a held key has been used, with a strength of `strength`.
    pub fn restart(&mut self, key: KeyId, now_ns: u64, strength: u32, playing: bool)
        requires
            old(self).wf(),
        ensures
            final(self).wf(),
            final(self).keys@ == (if old(self).keys@.contains_key(key) {
                old(self).keys@.insert(
                    key,
                    restarted(old(self).keys@[key], now_ns, strength, playing),
                )
            } else {
                old(self).keys@
            }),
    {
        let st: VelState = match self.get(key) {
            Some(st) => st,
            None => {
                return;
            },
        };
        let at_level: u32 = if strength > st.at_level {
            strength
        } else {
            st.at_level
        };
        self.keys.insert(
            key,
            VelState {
                started_ns: now_ns,
                peak: st.last_level,
                peak_speed: 0,
                at_level,
                playing,
                ..st
            },
        );
    }

    /// Gives each held key's LED the colour that it goes back to.
    pub fn refresh_vel_led_bases(
        &mut self,
        stage: &Stage,
        wtn: &Wtn,
        edo: i32,
        pitch_offset: i32,
        guide_mode: GuideMode,
        pcs_abs: &KeySet<i64>,
        dims: &Vec<u8>,
    )
        requires
            old(self).wf(),
            dims@.len() == 256,
        ensures
            final(self).wf(),
            final(self).keys@ == all_recoloured(
                old(self).keys@,
                *stage,
                wtn@,
                edo,
                pitch_offset,
                guide_mode,
                pcs_abs@,
                dims@,
            ),
    {
        let ghost before = self.keys.entries@;
        let n: usize = self.keys.entries.len();
        let mut i: usize = 0;
        while i < n
            invariant
                n == before.len(),
                self.keys.entries@.len() == n,
                i <= n,
                dims@.len() == 256,
                forall|j: int|
                    0 <= j < n ==> #[trigger] self.keys.entries@[j] == (if j < i {
                        (
                            before[j].0,
                            recoloured(
                                before[j].1,
                                idle_colour(
                                    *stage,
                                    wtn@,
                                    before[j].0,
                                    edo,
                                    pitch_offset,
                                    guide_mode,
                                    pcs_abs@,
                                    dims@,
                                ),
                            ),
                        )
                    } else {
                        before[j]
                    }),
            decreases n - i,
        {
            let key: KeyId = self.keys.entries[i].0;
            let st: VelState = self.keys.entries[i].1;
            let idle: Option<(u8, u8, u8)> = idle_colour_of(
                stage,
                wtn,
                key,
                edo,
                pitch_offset,
                guide_mode,
                pcs_abs,
                dims,
            );
            match (st.led, idle) {
                (Some(led), Some(rgb)) => {
                    self.keys.entries.set(
                        i,
                        (key, VelState { led: Some(LedState { base_rgb: rgb, ..led }), ..st }),
                    );
                },
                _ => {},
            }
            i += 1;
        }
        proof {
            assert forall|a: int, b: int| 0 <= a < b < self.keys.entries@.len() implies (
            #[trigger] self.keys.entries@[a]).0 != (#[trigger] self.keys.entries@[b]).0 by {
                assert(before[a].0 != before[b].0);
            }
            let f = |k: KeyId, st: VelState|
                recoloured(
                    st,
                    idle_colour(
                        *stage,
                        wtn@,
                        k,
                        edo,
                        pitch_offset,
                        guide_mode,
                        pcs_abs@,
                        dims@,
                    ),
                );
            assert(self.keys.entries@ =~= before.map_values(
                |e: (KeyId, VelState)| (e.0, f(e.0, e.1)),
            ));
            table::lemma_map_of_mapped(before, f);
        }
    }
}

/// The colour that a held key's LED goes back to, where the key has a cell.
pub fn idle_colour_of(
    stage: &Stage,
    wtn: &Wtn,
    key: KeyId,
    edo: i32,
    pitch_offset: i32,
    guide_mode: GuideMode,
    pcs_abs: &KeySet<i64>,
    dims: &Vec<u8>,
) -> (r: Option<(u8, u8, u8)>)
    requires
        dims@.len() == 256,
    ensures
        r == idle_colour(
            *stage,
            wtn@,
            key,
            edo,
            pitch_offset,
            guide_mode,
            pcs_abs@,
            dims@,
        ),
{
    let b = match stage.boards.get(key.device_id) {
        Some(b) => b,
        None => {
            return None;
        },
    };
    let p = match b.key_place(&stage.hid_map, key.hid) {
        Some(p) => p,
        None => {
            return None;
        },
    };
    match wtn.cell(b.wtn_board, p.index) {
        Some(c) => Some(
            pitch::guide_idle_rgb(
                c.col_rgb,
                c.key,
                edo,
                pitch_offset,
                guide_mode,
                pcs_abs,
                dims,
            ),
        ),
        None => None,
    }
}

/// While a key is held its peak and its greatest speed are the greatest so far, and its
/// level is the last; what it plays stays as it is.
pub proof fn peaks_are_the_greatest(st: VelState, now_ns: u64, level: u32, speed: Option<u32>)
    ensures
        ({
            let after = moved(st, now_ns, level, speed);
            &&& after.peak >= st.peak && after.peak >= level
            &&& after.peak == st.peak || after.peak == level
            &&& after.peak_speed >= st.peak_speed
            &&& speed matches Some(s) ==> after.peak_speed >= s && (after.peak_speed == s
                || after.peak_speed == st.peak_speed)
            &&& speed is None ==> after.peak_speed == st.peak_speed
            &&& after.last_level == level && after.last_level_ns == now_ns
            &&& after.started_ns == st.started_ns
            &&& after.voice == st.voice && after.playing == st.playing && after.led == st.led
        }),
{
}

/// A press is followed from its own level on, without speed or pressure.
pub proof fn presses_begin_at_their_level(
    now_ns: u64,
    level: u32,
    voice: Voice,
    playing: bool,
    led: Option<LedState>,
)
    ensures
        ({
            let st = pressed_state(now_ns, level, voice, playing, led);
            &&& st.started_ns == now_ns && st.last_level_ns == now_ns
            &&& st.peak == level && st.last_level == level
            &&& st.peak_speed == 0 && st.at_level == 0
            &&& st.voice == voice && st.playing == playing && st.led == led
        }),
{
}

/// After its peak was used a key is followed anew from where it is, without speed; its
/// pressure is the greater of what it was and what the peak came to.
pub proof fn used_peaks_begin_anew(st: VelState, now_ns: u64, strength: u32, playing: bool)
    ensures
        ({
            let after = restarted(st, now_ns, strength, playing);
            &&& after.started_ns == now_ns
            &&& after.peak == st.last_level && after.peak_speed == 0
            &&& after.last_level == st.last_level && after.last_level_ns == st.last_level_ns
            &&& after.at_level >= st.at_level && after.at_level >= strength
            &&& after.at_level == st.at_level || after.at_level == strength
            &&& after.playing == playing
            &&& after.voice == st.voice && after.led == st.led
        }),
{
}

/// A held key's turn comes once its peak was followed for as long as it is to be; a key that
/// was let go before its note began has none.
pub proof fn turns_come_after_the_peak(st: VelState, now_ns: u64, peak_track_ns: u64, pressed: bool)
    ensures
        ({
            let t = tick_of(st, now_ns, peak_track_ns, pressed);
            let time = now_ns >= st.started_ns + peak_track_ns;
            &&& !time ==> t is NotYet
            &&& time && !st.playing && !pressed ==> t is TooLate
            &&& time && (st.playing || pressed) ==> t == Tick::Fire(st)
        }),
{
}

/// The LED of a held key whose cell is known goes back to the colour that the cell has at
/// rest; nothing else about the key changes, nor about keys without a cell or an LED.
pub proof fn held_keys_go_back_to_their_cell(
    m: Map<KeyId, VelState>,
    stage: Stage,
    cells: Map<u8, Seq<WtnCell>>,
    edo: i32,
    pitch_offset: i32,
    mode: GuideMode,
    pcs_abs: Set<i64>,
    dims: Seq<u8>,
    key: KeyId,
)
    requires
        m.contains_key(key),
    ensures
        ({
            let after = all_recoloured(
                m,
                stage,
                cells,
                edo,
                pitch_offset,
                mode,
                pcs_abs,
                dims,
            );
            let b = stage.boards@[key.device_id];
            let place = board::place_of(stage.hid_map@, b, key.hid);
            let has_cell = stage.boards@.contains_key(key.device_id) && place is Some
                && cells.contains_key(b.wtn_board) && place->0.index < cells[b.wtn_board].len();
            &&& after.dom() == m.dom()
            &&& !has_cell || m[key].led is None ==> after[key] == m[key]
            &&& has_cell && m[key].led is Some ==> {
                let cell = cells[b.wtn_board][place->0.index as int];
                &&& after[key] == (VelState { led: after[key].led, ..m[key] })
                &&& after[key].led matches Some(led) && led.dev_idx == m[key].led->0.dev_idx
                    && led.row == m[key].led->0.row && led.col == m[key].led->0.col && led.base_rgb
                    == pitch::idle_rgb(
                    cell.col_rgb,
                    cell.key,
                    edo,
                    pitch_offset,
                    mode,
                    pcs_abs,
                    dims,
                )
            }
        }),
{
    let after = all_recoloured(m, stage, cells, edo, pitch_offset, mode, pcs_abs, dims);
    assert(after.dom() =~= m.dom());
}

} // verus!
