//! The instrument: what each key does, from the keyboard's edge to notes and lights.
//!
//! Levels are numbers that grow with how far a key is down. Times are nanoseconds since the
//! program began.
use vstd::prelude::*;
use crate::board;
use crate::board::{Board, Place};
use crate::byte_order::ByteOrder;
use crate::config::LayoutConfig;
use crate::control;
use crate::control::{Action, BarKey, Controls, Setting};
use crate::gate;
use crate::gate::{EdgeKind, Gate, GateState, Passage};
use crate::guide;
use crate::guide::{Guide, GuideCfg, GuideStep};
use crate::hid;
use crate::hidmap;
use crate::hidmap::GridError;
use crate::layouts;
use crate::layouts::Preview;
use crate::modes;
use crate::modes::{AftertouchMode, TrainerMode};
use crate::notes;
use crate::notes::{KeyId, Notes, Release, Voice};
use crate::paint;
use crate::paint::{Marks, MarkSet, Shading, Stage};
use crate::pitch;
use crate::pitch::GuideMode;
use crate::rgb_worker::RgbKey;
use crate::table;
use crate::table::{KeySet, Table};
use crate::tracking;
use crate::tracking::{LedState, Tick, Tracks, VelState};
use crate::wtn;
use crate::wtn::{Wtn, WtnCell};

verus! {

/// The instrument.
#[derive(Debug)]
pub struct Player {
    pub stage: Stage,
    pub gate: Gate,
    pub controls: Controls,
    /// The keyboards that show a capture.
    pub armed: KeySet<u64>,
    pub guide: Guide,
    pub preview: Preview,
    pub notes: Notes,
    pub tracks: Tracks,
    pub actions: Table<u8, Action>,
    /// The colour of a pressed key.
    pub highlight_rgb: (u8, u8, u8),
    pub layouts: Vec<LayoutConfig>,
    pub layout_index: usize,
    pub wtn: Wtn,
    /// The dimmed form of each value of a colour's channel.
    pub dims: Vec<u8>,
}

/// How far an edge gets.
#[derive(Debug, Clone, Copy, PartialEq, Eq, Structural)]
pub enum Reach {
    /// It wakes the lights.
    Wake,
    /// It completes the Ctrl chord on a keyboard that plays this board.
    Chord { board: u8 },
    /// Its key is ignored; with `ends` from now on no longer.
    Blocked { ends: bool },
    /// Its keyboard plays no board.
    NoBoard,
    /// It sets something, and does nothing else.
    Setting,
    /// It is only looked at.
    Dumped,
    /// It is on a control bar without lights.
    Unlit,
    /// It does what its key is bound to.
    Action { action: Action },
    /// It is on the control bar, and plays nothing.
    Bar,
    /// It is left to play a note.
    Note,
}

/// What comes of an edge.
#[derive(Debug, Clone)]
pub struct EdgeResult {
    pub reach: Reach,
    pub setting: Setting,
    pub lights: Vec<RgbKey>,
}

/// Whether a setting is all that a press does.
pub open spec fn is_final(s: Setting) -> bool {
    s is Bounced || s is Aftertouch || s is Hold
}

impl Player {
    pub open spec fn wf(self) -> bool {
        &&& self.controls.wf()
        &&& self.guide.wf()
        &&& self.notes.wf()
        &&& self.tracks.wf()
        &&& self.dims@.len() == 256
    }

    /// Every note that sounds is accounted for, and a held key whose note has not begun plays
    /// none.
    pub open spec fn sound(self) -> bool {
        &&& self.notes.accounted()
        &&& forall|k: KeyId| #[trigger]
            self.tracks.keys@.contains_key(k) && !self.tracks.keys@[k].playing
                ==> !self.notes.by_key@.contains_key(k)
    }

    /// What the control bars show besides their colour.
    pub open spec fn mark_set(self) -> MarkSet {
        (self.controls.hold@, self.armed@, self.controls.aftertouch)
    }

    /// What the trainer shows.
    pub open spec fn trainer(self) -> TrainerMode {
        modes::trainer_for(self.guide.mode)
    }

    /// The colour of the control bars.
    pub open spec fn base_rgb(self) -> (u8, u8, u8) {
        modes::bar_rgb(self.trainer())
    }

    /// The division of the octave of the layout that is played.
    pub open spec fn edo(self) -> i32 {
        if self.layout_index < self.layouts@.len() {
            self.layouts@[self.layout_index as int].edo_divisions
        } else {
            12
        }
    }

    /// The offset of the pitches of the layout that is played.
    pub open spec fn pitch_offset(self) -> i32 {
        if self.layout_index < self.layouts@.len() {
            self.layouts@[self.layout_index as int].pitch_offset
        } else {
            0
        }
    }

    /// The part of a key in the control bar.
    pub open spec fn bar(self, code: u8) -> Option<BarKey> {
        control::bar_key(self.stage.bar_cols@.contains_key(code), code)
    }

    /// What a press sets, if the edge is one.
    pub open spec fn edge_setting(self, kind: EdgeKind, key: KeyId, now_ns: u64) -> Setting {
        if kind == EdgeKind::Down {
            self.controls.setting(key.device_id, key.hid, now_ns)
        } else {
            Setting::Nothing
        }
    }

    /// How far an edge gets, and what it sets.
    pub open spec fn reached(self, kind: EdgeKind, key: KeyId, now_ns: u64, dump_only: bool) -> (
        Reach,
        Setting,
    ) {
        let setting = self.edge_setting(kind, key, now_ns);
        let lit = self.stage.light(key.device_id) is Some;
        let is_bar = self.bar(key.hid) is Some;
        match gate::passed(self.gate@, kind, key, now_ns).1 {
            Passage::Wake => (Reach::Wake, Setting::Nothing),
            Passage::Chord => (
                Reach::Chord {
                    board: if self.stage.boards@.contains_key(key.device_id) {
                        self.stage.boards@[key.device_id].wtn_board
                    } else {
                        1
                    },
                },
                Setting::Nothing,
            ),
            Passage::Blocked { ends } => (Reach::Blocked { ends }, Setting::Nothing),
            Passage::Through => if !self.stage.boards@.contains_key(key.device_id) {
                (Reach::NoBoard, Setting::Nothing)
            } else if is_final(setting) {
                (Reach::Setting, setting)
            } else if dump_only {
                (Reach::Dumped, setting)
            } else if self.stage.enabled && is_bar && !lit {
                (Reach::Unlit, setting)
            } else if kind == EdgeKind::Down && self.actions@.contains_key(key.hid) {
                (Reach::Action { action: self.actions@[key.hid] }, setting)
            } else if is_bar {
                (Reach::Bar, setting)
            } else {
                (Reach::Note, setting)
            },
        }
    }

    /// The aftertouch marks of the first `n` keyboards but `device_id`.
    pub open spec fn other_marks(self, device_id: u64, mode: AftertouchMode, n: int) -> Seq<RgbKey>
        decreases n,
    {
        if n <= 0 {
            Seq::empty()
        } else {
            let id = self.stage.boards.entries@[n - 1].0;
            let before = self.other_marks(device_id, mode, n - 1);
            if id == device_id {
                before
            } else {
                before + self.stage.mark(
                    id,
                    hid::RIGHT_ALT,
                    paint::aftertouch_rgb(self.base_rgb(), mode),
                )
            }
        }
    }

    /// The lights of a press that only sets something: the aftertouch key flashes, and the
    /// other keyboards show the new mode; the space bar shows the octave.
    pub open spec fn setting_lights(self, key: KeyId, setting: Setting) -> Seq<RgbKey> {
        match setting {
            Setting::Aftertouch => self.stage.mark(
                key.device_id,
                hid::RIGHT_ALT,
                self.highlight_rgb,
            ) + self.other_marks(
                key.device_id,
                self.controls.aftertouch.turned(),
                self.stage.boards.entries@.len() as int,
            ),
            Setting::Hold { on } => self.stage.mark(
                key.device_id,
                hid::SPACE,
                paint::space_rgb(self.base_rgb(), on),
            ),
            _ => Seq::empty(),
        }
    }

    /// The lights of a key of the control bar: it flashes when it is pressed, and goes back
    /// when it is let go.
    pub open spec fn bar_lights(self, kind: EdgeKind, key: KeyId) -> Seq<RgbKey> {
        match self.bar(key.hid) {
            None => Seq::empty(),
            Some(b) => if self.stage.light(key.device_id) is None
                || !self.stage.bar_cols@.contains_key(b.led_hid) {
                Seq::empty()
            } else {
                match kind {
                    EdgeKind::Down => self.stage.mark(
                        key.device_id,
                        b.led_hid,
                        match b.flash {
                            Some(rgb) => rgb,
                            None => self.highlight_rgb,
                        },
                    ) + (if (key.hid == hid::LEFT_CTRL || key.hid == hid::RIGHT_CTRL)
                        && self.armed@.contains(key.device_id) {
                        self.stage.ctrl_mark(key.device_id, self.base_rgb(), true)
                    } else {
                        Seq::empty()
                    }),
                    EdgeKind::Up => self.stage.released(
                        key.device_id,
                        b.led_hid,
                        self.base_rgb(),
                        self.mark_set(),
                    ),
                    EdgeKind::Update => Seq::empty(),
                }
            },
        }
    }

    /// The lights of an edge.
    pub open spec fn edge_lights(
        self,
        kind: EdgeKind,
        key: KeyId,
        reach: Reach,
        setting: Setting,
    ) -> Seq<RgbKey> {
        match reach {
            Reach::Wake => self.stage.base_paint(
                self.wtn@,
                true,
                self.trainer(),
                self.mark_set(),
            ),
            Reach::Setting => self.setting_lights(key, setting),
            Reach::Action { .. } | Reach::Bar => self.bar_lights(kind, key),
            _ => Seq::empty(),
        }
    }

    /// What the control bars show besides their colour.
    pub fn marks(&self) -> (r: Marks)
        ensures
            r@ == self.mark_set(),
    {
        Marks {
            hold: self.controls.hold.copied(),
            armed: self.armed.copied(),
            aftertouch: self.controls.aftertouch,
        }
    }

    fn base_colour(&self) -> (r: (u8, u8, u8))
        ensures
            r == self.base_rgb(),
    {
        modes::control_bar_rgb_for_tm(self.guide.mode.trainer())
    }

    fn push_other_marks(&self, out: Vec<RgbKey>, device_id: u64, mode: AftertouchMode) -> (r: Vec<
        RgbKey,
    >)
        ensures
            r@ == out@ + self.other_marks(
                device_id,
                mode,
                self.stage.boards.entries@.len() as int,
            ),
    {
        let ghost head = out@;
        let mut out = out;
        let base: (u8, u8, u8) = self.base_colour();
        assert(out@ =~= head + self.other_marks(device_id, mode, 0));
        for i in 0..self.stage.boards.entries.len()
            invariant
                base == self.base_rgb(),
                out@ == head + self.other_marks(device_id, mode, i as int),
        {
            let id: u64 = self.stage.boards.entries[i].0;
            if id != device_id {
                let mut m: Vec<RgbKey> = self.stage.paint_aftertouch_mode_indicator(id, base, mode);
                out.append(&mut m);
                assert(out@ =~= head + self.other_marks(device_id, mode, i + 1));
            }
        }
        out
    }

    fn bar_feedback(&self, kind: EdgeKind, key: KeyId, b: BarKey) -> (r: Vec<RgbKey>)
        requires
            self.bar(key.hid) == Some(b),
        ensures
            r@ == self.bar_lights(kind, key),
    {
        let mut out: Vec<RgbKey> = Vec::new();
        if self.stage.light_of(key.device_id).is_none() || !self.stage.bar_cols.contains(b.led_hid) {
            assert(out@ =~= self.bar_lights(kind, key));
            return out;
        }
        match kind {
            EdgeKind::Down => {
                let rgb: (u8, u8, u8) = match b.flash {
                    Some(rgb) => rgb,
                    None => self.highlight_rgb,
                };
                out = self.stage.paint_mark(key.device_id, b.led_hid, rgb);
                if (key.hid == hid::LEFT_CTRL || key.hid == hid::RIGHT_CTRL)
                    && self.armed.contains(key.device_id) {
                    let mut m: Vec<RgbKey> = self.stage.paint_ctrl_indicator(
                        key.device_id,
                        self.base_colour(),
                        true,
                    );
                    out.append(&mut m);
                }
                assert(out@ =~= self.bar_lights(kind, key));
                out
            },
            EdgeKind::Up => self.stage.paint_released(
                key.device_id,
                b.led_hid,
                self.base_colour(),
                &self.marks(),
            ),
            EdgeKind::Update => {
                assert(out@ =~= self.bar_lights(kind, key));
                out
            },
        }
    }

    /// Takes in an edge of a key, up to where it plays a note: how far it gets, what it sets
    /// and what it lights. With `dump_only` it is only looked at.
    pub fn edge(&mut self, kind: EdgeKind, key: KeyId, now_ns: u64, dump_only: bool) -> (r:
        EdgeResult)
        requires
            old(self).wf(),
        ensures
            final(self).wf(),
            (r.reach, r.setting) == old(self).reached(kind, key, now_ns, dump_only),
            r.lights@ == old(self).edge_lights(kind, key, r.reach, r.setting),
            final(self).gate@ == gate::passed(old(self).gate@, kind, key, now_ns).0,
            final(self).controls.octave_shift == old(self).controls.octave_shift,
            final(self).controls.profile == (if r.setting is Profile {
                (old(self).controls.profile + 1) % 5
            } else {
                old(self).controls.profile as int
            }),
            final(self).controls.aftertouch == (if r.setting is Aftertouch {
                old(self).controls.aftertouch.turned()
            } else {
                old(self).controls.aftertouch
            }),
            final(self).controls.toggled_ns@ == (if r.setting is Aftertouch {
                old(self).controls.toggled_ns@.insert(key.device_id, now_ns)
            } else {
                old(self).controls.toggled_ns@
            }),
            final(self).controls.hold@ == (match r.setting {
                Setting::Hold { on: true } => old(self).controls.hold@.insert(key.device_id),
                Setting::Hold { on: false } => old(self).controls.hold@.remove(key.device_id),
                _ => old(self).controls.hold@,
            }),
            *final(self) == (Player {
                gate: final(self).gate,
                controls: final(self).controls,
                ..*old(self)
            }),
    {
        match self.gate.pass(kind, key, now_ns) {
            Passage::Wake => {
                let lights: Vec<RgbKey> = self.stage.paint_base(
                    &self.wtn,
                    true,
                    self.guide.mode.trainer(),
                    &self.marks(),
                );
                return EdgeResult { reach: Reach::Wake, setting: Setting::Nothing, lights };
            },
            Passage::Chord => {
                let board: u8 = match self.stage.boards.get(key.device_id) {
                    Some(b) => b.wtn_board,
                    None => 1,
                };
                return no_lights(Reach::Chord { board }, Setting::Nothing);
            },
            Passage::Blocked { ends } => {
                return no_lights(Reach::Blocked { ends }, Setting::Nothing);
            },
            Passage::Through => {},
        }
        if !self.stage.boards.contains(key.device_id) {
            return no_lights(Reach::NoBoard, Setting::Nothing);
        }
        let bar: Option<BarKey> = control::bar_key_of(&self.stage.bar_cols, key.hid);
        let setting: Setting = if kind == EdgeKind::Down {
            self.controls.key_down(key.device_id, key.hid, now_ns)
        } else {
            Setting::Nothing
        };
        match setting {
            Setting::Bounced { .. } => {
                return no_lights(Reach::Setting, setting);
            },
            Setting::Aftertouch => {
                let flash: Vec<RgbKey> = self.stage.paint_mark(
                    key.device_id,
                    hid::RIGHT_ALT,
                    self.highlight_rgb,
                );
                let lights: Vec<RgbKey> = self.push_other_marks(
                    flash,
                    key.device_id,
                    self.controls.aftertouch,
                );
                proof {
                    self.lemma_same_marks(
                        *old(self),
                        key.device_id,
                        self.controls.aftertouch,
                        self.stage.boards.entries@.len() as int,
                    );
                }
                return EdgeResult { reach: Reach::Setting, setting, lights };
            },
            Setting::Hold { on } => {
                let lights: Vec<RgbKey> = self.stage.paint_spacebar_indicator(
                    key.device_id,
                    self.base_colour(),
                    on,
                );
                return EdgeResult { reach: Reach::Setting, setting, lights };
            },
            _ => {},
        }
        if dump_only {
            return no_lights(Reach::Dumped, setting);
        }
        let lights: Vec<RgbKey> = match bar {
            Some(b) => {
                if self.stage.enabled && self.stage.light_of(key.device_id).is_none() {
                    return no_lights(Reach::Unlit, setting);
                }
                self.bar_feedback(kind, key, b)
            },
            None => {
                let none: Vec<RgbKey> = Vec::new();
                assert(none@ =~= self.bar_lights(kind, key));
                none
            },
        };
        if kind == EdgeKind::Down {
            match self.actions.get(key.hid) {
                Some(a) => {
                    return EdgeResult { reach: Reach::Action { action: *a }, setting, lights };
                },
                None => {},
            }
        }
        if bar.is_some() {
            return EdgeResult { reach: Reach::Bar, setting, lights };
        }
        EdgeResult { reach: Reach::Note, setting, lights }
    }

    proof fn lemma_same_marks(self, before: Player, device_id: u64, mode: AftertouchMode, n: int)
        requires
            self.stage == before.stage,
            self.guide == before.guide,
        ensures
            self.other_marks(device_id, mode, n) == before.other_marks(device_id, mode, n),
        decreases n,
    {
        if n > 0 {
            self.lemma_same_marks(before, device_id, mode, n - 1);
        }
    }
}

fn no_lights(reach: Reach, setting: Setting) -> (r: EdgeResult)
    ensures
        r.reach == reach,
        r.setting == setting,
        r.lights@ == Seq::<RgbKey>::empty(),
{
    let lights: Vec<RgbKey> = Vec::new();
    assert(lights@ =~= Seq::<RgbKey>::empty());
    EdgeResult { reach, setting, lights }
}

/// What a key plays: its note, its place, its cell and its board.
#[derive(Debug, Clone, Copy)]
pub struct Target {
    pub voice: Voice,
    pub place: Place,
    pub cell: WtnCell,
    pub board: u8,
}

/// What comes of a press that plays a note.
#[derive(Debug, Clone)]
pub struct PressResult {
    /// Whether the key gave the guide its root.
    pub root_chosen: bool,
    /// The lights of the guide.
    pub lights: Vec<RgbKey>,
    /// The light of the key.
    pub highlight: Option<RgbKey>,
}

/// What becomes of the note of a key that was let go.
#[derive(Debug, Clone, Copy, PartialEq, Eq, Structural)]
pub enum Lift {
    /// Others still play it, as many as `count` with this one.
    Shared { voice: Voice, count: u32 },
    /// It ends.
    Off { voice: Voice },
    /// It was lost from sight, and ends.
    Fallback { voice: Voice },
    /// It had not begun yet: the key was tapped.
    Tap { voice: Voice },
    /// There was none.
    Untracked,
}

/// What comes of letting go of a key that plays a note.
#[derive(Debug)]
pub struct LiftResult {
    /// What was known of the key.
    pub removed: Option<VelState>,
    /// The light of the key, back in its colour.
    pub restore: Option<RgbKey>,
    /// Whether a pitch is no longer shown.
    pub unshown: bool,
    pub lift: Lift,
}

/// What becomes of the note of a key, from what its release came to and what was known of
/// it.
pub open spec fn lifted(release: Release, removed: Option<VelState>) -> Lift {
    match release {
        Release::Shared { voice, count } => Lift::Shared { voice, count },
        Release::Off { voice } => Lift::Off { voice },
        Release::Unmapped => match removed {
            Some(st) => if st.playing {
                Lift::Fallback { voice: st.voice }
            } else {
                Lift::Tap { voice: st.voice }
            },
            None => Lift::Untracked,
        },
    }
}

/// What comes of a key that switches layouts.
#[derive(Debug)]
pub struct LayoutKeyResult {
    /// Whether a preview was left.
    pub preview_left: bool,
    /// Whether the guide was left, and no layout switched.
    pub guide_left: bool,
    pub lights: Vec<RgbKey>,
}

impl Player {
    /// How far the channels of a keyboard are moved.
    pub open spec fn shift(self, device_id: u64) -> int {
        self.controls.octave_shift + if self.controls.hold@.contains(device_id) {
            1int
        } else {
            0
        }
    }

    /// What a key of a board plays.
    pub open spec fn target(self, key: KeyId) -> Result<Option<Target>, GridError> {
        if !self.stage.boards@.contains_key(key.device_id) || !self.stage.hid_map@.contains_key(
            key.hid,
        ) {
            Ok(None)
        } else {
            let b = self.stage.boards@[key.device_id];
            match hidmap::logical(self.stage.hid_map@[key.hid], b.rotation_deg, b.mirror_cols) {
                Err(e) => Err(e),
                Ok(_) => match board::place_of(self.stage.hid_map@, b, key.hid) {
                    None => Ok(None),
                    Some(place) => match wtn::cell_of(self.wtn@, b.wtn_board, place.index as int) {
                        None => Ok(None),
                        Some(cell) => Ok(
                            Some(
                                Target {
                                    voice: Voice {
                                        ch: pitch::channel(
                                            cell.chan_1based,
                                            self.shift(key.device_id),
                                        ) as u8,
                                        note: cell.key,
                                    },
                                    place,
                                    cell,
                                    board: b.wtn_board,
                                },
                            ),
                        ),
                    },
                },
            }
        }
    }

    /// The colour that the LED of a cell has when its key is not pressed.
    pub open spec fn idle(self, cell: WtnCell) -> (u8, u8, u8) {
        pitch::idle_rgb(
            cell.col_rgb,
            cell.key,
            self.edo(),
            self.pitch_offset(),
            self.guide.mode,
            self.guide.pcs_abs@,
            self.dims@,
        )
    }

    /// The LED of a key that is pressed, with the colour it goes back to.
    pub open spec fn key_led(self, device_id: u64, t: Target) -> Option<LedState> {
        match self.stage.light(device_id) {
            Some(dev_idx) => Some(
                LedState {
                    dev_idx,
                    row: t.place.led_row,
                    col: t.place.led_col,
                    base_rgb: self.idle(t.cell),
                },
            ),
            None => None,
        }
    }

    /// How the guide shows the layout.
    pub open spec fn shade(self) -> paint::Shade {
        (self.guide.mode, self.edo(), self.pitch_offset(), self.guide.pcs_abs@, self.dims@)
    }

    fn edo_of(&self) -> (r: i32)
        ensures
            r == self.edo(),
    {
        if self.layout_index < self.layouts.len() {
            self.layouts[self.layout_index].edo_divisions
        } else {
            12
        }
    }

    fn pitch_offset_of(&self) -> (r: i32)
        ensures
            r == self.pitch_offset(),
    {
        if self.layout_index < self.layouts.len() {
            self.layouts[self.layout_index].pitch_offset
        } else {
            0
        }
    }

    /// Whether the layout that is played divides the octave.
    pub fn has_octave(&self) -> (r: bool)
        ensures
            r == (self.edo() != 0),
    {
        self.edo_of() != 0
    }

    /// What a key plays.
    pub fn target_of(&self, key: KeyId) -> (r: Result<Option<Target>, GridError>)
        requires
            self.wf(),
        ensures
            r == self.target(key),
            r matches Ok(Some(t)) ==> {
                let octave = self.controls.octave_shift + if self.controls.hold@.contains(
                    key.device_id,
                ) {
                    1int
                } else {
                    0
                };
                let moved = octave + if t.cell.chan_1based == 0 {
                    0
                } else {
                    t.cell.chan_1based - 1
                };
                &&& t.voice.note == t.cell.key
                &&& t.voice.ch == (if moved < 0 {
                    0
                } else if moved > 15 {
                    15
                } else {
                    moved
                })
            },
    {
        let b: Board = match self.stage.boards.get(key.device_id) {
            Some(b) => *b,
            None => {
                return Ok(None);
            },
        };
        let loc = match self.stage.hid_map.loc_for(key.hid) {
            Some(loc) => loc,
            None => {
                return Ok(None);
            },
        };
        match hidmap::logical_loc(loc, b.rotation_deg, b.mirror_cols) {
            Err(e) => {
                return Err(e);
            },
            Ok(_) => {},
        }
        let place: Place = match b.place(loc) {
            Some(p) => p,
            None => {
                return Ok(None);
            },
        };
        match self.wtn.cell(b.wtn_board, place.index) {
            None => Ok(None),
            Some(cell) => {
                let ch: u8 = pitch::out_channel(
                    cell.chan_1based,
                    self.controls.shift_of(key.device_id),
                );
                Ok(
                    Some(
                        Target {
                            voice: Voice { ch, note: cell.key },
                            place,
                            cell,
                            board: b.wtn_board,
                        },
                    ),
                )
            },
        }
    }

    /// The pitch of a note in the layout that is played.
    pub fn pitch_shown(&self, voice: Voice) -> (r: i64)
        ensures
            r == pitch::pitch(
                voice.ch as int,
                self.edo() as int,
                voice.note as int,
                self.pitch_offset() as int,
            ),
    {
        pitch::pitch_of(voice.ch, self.edo_of(), voice.note, self.pitch_offset_of())
    }

    /// Every keyboard as the guide shows it.
    pub fn guide_lights(&self) -> (r: Vec<RgbKey>)
        requires
            self.wf(),
            self.stage.enabled ==> self.edo() != 0,
        ensures
            r@ == self.stage.guide_paint(self.wtn@, self.shade(), self.mark_set()),
    {
        let mut dims: Vec<u8> = Vec::new();
        for i in 0..self.dims.len()
            invariant
                dims@ == self.dims@.take(i as int),
        {
            dims.push(self.dims[i]);
        }
        assert(dims@ =~= self.dims@);
        let sh = Shading {
            mode: self.guide.mode,
            edo: self.edo_of(),
            pitch_offset: self.pitch_offset_of(),
            pcs: self.guide.pcs_abs.copied(),
            dims,
        };
        self.stage.paint_guide(&self.wtn, &sh, &self.marks())
    }

    /// Every keyboard in the colours of the layout.
    pub fn base_lights(&self, with_bar: bool) -> (r: Vec<RgbKey>)
        ensures
            r@ == self.stage.base_paint(self.wtn@, with_bar, self.trainer(), self.mark_set()),
    {
        self.stage.paint_base(&self.wtn, with_bar, self.guide.mode.trainer(), &self.marks())
    }

    fn idle_of(&self, cell: &WtnCell) -> (r: (u8, u8, u8))
        requires
            self.wf(),
        ensures
            r == self.idle(*cell),
    {
        pitch::guide_idle_rgb(
            cell.col_rgb,
            cell.key,
            self.edo_of(),
            self.pitch_offset_of(),
            self.guide.mode,
            &self.guide.pcs_abs,
            &self.dims,
        )
    }

    /// The held keys of `m`, with the colours that this player's layout and guide give their
    /// LEDs at rest.
    pub open spec fn recoloured(self, m: Map<KeyId, VelState>) -> Map<KeyId, VelState> {
        tracking::all_recoloured(
            m,
            self.stage,
            self.wtn@,
            self.edo(),
            self.pitch_offset(),
            self.guide.mode,
            self.guide.pcs_abs@,
            self.dims@,
        )
    }

    fn refresh_leds(&mut self)
        requires
            old(self).wf(),
        ensures
            final(self).wf(),
            final(self).tracks.keys@ == final(self).recoloured(old(self).tracks.keys@),
            *final(self) == (Player { tracks: final(self).tracks, ..*old(self) }),
    {
        let edo: i32 = self.edo_of();
        let offset: i32 = self.pitch_offset_of();
        self.tracks.refresh_vel_led_bases(
            &self.stage,
            &self.wtn,
            edo,
            offset,
            self.guide.mode,
            &self.guide.pcs_abs,
            &self.dims,
        );
    }

    /// Takes in a press of a key that plays `t`. A guide that waits for a root takes it from
    /// there, and lights its chord, which counts as activity at `now_ns`. The key is lit, and
    /// its peak is followed from `ts_ns` on, when it was pressed.
    pub fn press(&mut self, key: KeyId, t: &Target, ts_ns: u64, now_ns: u64, level: u32) -> (r:
        PressResult)
        requires
            old(self).wf(),
            old(self).guide.mode == GuideMode::WaitRoot ==> old(self).edo() != 0,
        ensures
            final(self).wf(),
            r.root_chosen == (old(self).guide.mode == GuideMode::WaitRoot),
            r.root_chosen ==> {
                let root = pitch::pitch_class(
                    t.cell.key + old(self).pitch_offset(),
                    old(self).edo() as int,
                );
                &&& final(self).guide.mode == GuideMode::Active
                &&& final(self).guide.root_pc == Some(root as i64)
                &&& final(self).guide.pcs_abs@ == pitch::chord_classes(
                    old(self).guide.pcs_root@,
                    root,
                    old(self).edo() as int,
                )
                &&& final(self).guide.layout_id == old(self).guide.layout_id
                &&& final(self).guide.chord_key == old(self).guide.chord_key
                &&& final(self).guide.pcs_root == old(self).guide.pcs_root
                &&& final(self).guide.last_sig == old(self).guide.last_sig
                &&& final(self).gate@ == (GateState {
                    active_ns: now_ns,
                    ..old(self).gate@
                })
                &&& r.lights@ == final(self).stage.guide_paint(
                    final(self).wtn@,
                    final(self).shade(),
                    final(self).mark_set(),
                )
            },
            !r.root_chosen ==> {
                &&& final(self).guide == old(self).guide
                &&& final(self).gate == old(self).gate
                &&& r.lights@.len() == 0
            },
            final(self).tracks.keys@ == (if r.root_chosen {
                final(self).recoloured(old(self).tracks.keys@)
            } else {
                old(self).tracks.keys@
            }).insert(
                key,
                tracking::pressed_state(
                    ts_ns,
                    level,
                    t.voice,
                    old(self).notes.by_key@.contains_key(key),
                    final(self).key_led(key.device_id, *t),
                ),
            ),
            r.highlight == (match final(self).stage.light(key.device_id) {
                Some(dev) => Some(
                    RgbKey {
                        device_index: dev,
                        row: t.place.led_row,
                        col: t.place.led_col,
                        rgb: old(self).highlight_rgb,
                    },
                ),
                None => None,
            }),
            old(self).sound() ==> final(self).sound(),
            *final(self) == (Player {
                guide: final(self).guide,
                gate: final(self).gate,
                tracks: final(self).tracks,
                ..*old(self)
            }),
    {
        let edo: i32 = self.edo_of();
        let offset: i32 = self.pitch_offset_of();
        let root_chosen: bool = self.guide.choose_root(t.cell.key, offset, edo);
        let mut lights: Vec<RgbKey> = Vec::new();
        if root_chosen {
            self.gate.last_activity_ns = now_ns;
            lights = self.guide_lights();
            self.refresh_leds();
        }
        let playing: bool = self.notes.is_playing(key);
        let mut highlight: Option<RgbKey> = None;
        let mut led: Option<LedState> = None;
        match self.stage.light_of(key.device_id) {
            Some(dev) => {
                highlight =
                Some(
                    RgbKey {
                        device_index: dev,
                        row: t.place.led_row,
                        col: t.place.led_col,
                        rgb: self.highlight_rgb,
                    },
                );
                led =
                Some(
                    LedState {
                        dev_idx: dev,
                        row: t.place.led_row,
                        col: t.place.led_col,
                        base_rgb: self.idle_of(&t.cell),
                    },
                );
            },
            None => {},
        }
        self.tracks.press(key, ts_ns, level, t.voice, playing, led);
        PressResult { root_chosen, lights, highlight }
    }

    /// Takes in that a key that plays `t` was let go: its light goes back to its colour, and
    /// its note ends, unless others play it too or it has not begun.
    pub fn lift(&mut self, key: KeyId, t: &Target) -> (r: LiftResult)
        requires
            old(self).wf(),
        ensures
            final(self).wf(),
            r.removed == (if old(self).tracks.keys@.contains_key(key) {
                Some(old(self).tracks.keys@[key])
            } else {
                None
            }),
            final(self).tracks.keys@ == old(self).tracks.keys@.remove(key),
            r.unshown == old(self).notes.hud@.contains_key(key),
            r.restore == (match (r.removed, old(self).stage.light(key.device_id)) {
                (Some(VelState { led: Some(led), .. }), _) => Some(
                    RgbKey {
                        device_index: led.dev_idx,
                        row: led.row,
                        col: led.col,
                        rgb: led.base_rgb,
                    },
                ),
                (_, Some(dev)) => Some(
                    RgbKey {
                        device_index: dev,
                        row: t.place.led_row,
                        col: t.place.led_col,
                        rgb: old(self).idle(t.cell),
                    },
                ),
                _ => None,
            }),
            r.lift == lifted(
                if old(self).notes.by_key@.contains_key(key) {
                    let v = old(self).notes.by_key@[key];
                    if old(self).notes.count@.contains_key(v) && old(self).notes.count@[v] > 1 {
                        Release::Shared { voice: v, count: old(self).notes.count@[v] }
                    } else {
                        Release::Off { voice: v }
                    }
                } else {
                    Release::Unmapped
                },
                r.removed,
            ),
            final(self).notes.by_key@ == old(self).notes.by_key@.remove(key),
            final(self).notes.count@ == (if old(self).notes.by_key@.contains_key(key) {
                notes::lowered(old(self).notes.count@, old(self).notes.by_key@[key])
            } else {
                old(self).notes.count@
            }),
            final(self).notes.aftertouch@ == old(self).notes.aftertouch@.remove(key),
            final(self).notes.hud@ == old(self).notes.hud@.remove(key),
            final(self).notes.pressed0@ == (if r.unshown && t.board == 0 {
                old(self).notes.pressed0@.remove(old(self).notes.hud@[key])
            } else {
                old(self).notes.pressed0@
            }),
            final(self).notes.pressed1@ == (if r.unshown && t.board == 1 {
                old(self).notes.pressed1@.remove(old(self).notes.hud@[key])
            } else {
                old(self).notes.pressed1@
            }),
            final(self).notes.pending == old(self).notes.pending,
            old(self).notes.accounted() ==> final(self).notes.accounted(),
            old(self).sound() ==> final(self).sound(),
            *final(self) == (Player {
                tracks: final(self).tracks,
                notes: final(self).notes,
                ..*old(self)
            }),
    {
        let removed: Option<VelState> = self.tracks.release(key);
        self.notes.forget_pressure(key);
        let ghost mid = self.notes;
        assert(old(self).notes.accounted() ==> mid.accounted()) by {
            if old(self).notes.accounted() {
                assert forall|v: Voice| #[trigger] mid.count@.contains_key(v) implies 1
                    <= mid.count@[v] <= notes::holders(mid.by_key.entries@, v) + notes::waiting(
                    mid.pending@,
                    v,
                ) by {
                    assert(old(self).notes.count@.contains_key(v));
                }
            }
        }
        let unshown: bool = self.notes.unshow(key, t.board);
        let led: Option<LedState> = match removed {
            Some(st) => st.led,
            None => None,
        };
        let restore: Option<RgbKey> = match led {
            Some(led) => Some(
                RgbKey {
                    device_index: led.dev_idx,
                    row: led.row,
                    col: led.col,
                    rgb: led.base_rgb,
                },
            ),
            None => match self.stage.light_of(key.device_id) {
                Some(dev) => Some(
                    RgbKey {
                        device_index: dev,
                        row: t.place.led_row,
                        col: t.place.led_col,
                        rgb: self.idle_of(&t.cell),
                    },
                ),
                None => None,
            },
        };
        let lift: Lift = match self.notes.release(key) {
            Release::Shared { voice, count } => Lift::Shared { voice, count },
            Release::Off { voice } => Lift::Off { voice },
            Release::Unmapped => match removed {
                Some(st) => if st.playing {
                    Lift::Fallback { voice: st.voice }
                } else {
                    Lift::Tap { voice: st.voice }
                },
                None => Lift::Untracked,
            },
        };
        LiftResult { removed, restore, unshown, lift }
    }

    /// Takes in a key that switches layouts. A preview is left. While the guide is on, the
    /// key only leaves the guide, and the control bars go back to red; else the next layout
    /// is played, or the one before.
    pub fn layout_key(&mut self, next: bool) -> (r: LayoutKeyResult)
        requires
            old(self).wf(),
            old(self).layout_index < old(self).layouts@.len(),
        ensures
            final(self).wf(),
            r.preview_left == old(self).preview.enabled,
            r.guide_left == (old(self).guide.mode != GuideMode::Off),
            !final(self).preview.enabled,
            r.preview_left ==> final(self).preview.layout_id is None,
            !r.preview_left ==> final(self).preview.layout_id == old(self).preview.layout_id,
            if r.guide_left {
                &&& final(self).guide.is_off()
                &&& final(self).guide.pcs_abs == old(self).guide.pcs_abs
                &&& final(self).guide.last_sig == old(self).guide.last_sig
                &&& final(self).layout_index == old(self).layout_index
                &&& r.lights@ == old(self).stage.bars_paint(
                    old(self).stage.boards.entries@.len() as int,
                    (255, 0, 0),
                    old(self).mark_set(),
                )
            } else {
                &&& final(self).guide == old(self).guide
                &&& final(self).layout_index == (if next {
                    control::after_layout(
                        old(self).layout_index as int,
                        old(self).layouts@.len() as int,
                    )
                } else {
                    control::before_layout(
                        old(self).layout_index as int,
                        old(self).layouts@.len() as int,
                    )
                })
                &&& final(self).layout_index < final(self).layouts@.len()
                &&& r.lights@.len() == 0
            },
            *final(self) == (Player {
                preview: final(self).preview,
                guide: final(self).guide,
                layout_index: final(self).layout_index,
                ..*old(self)
            }),
    {
        let preview_left: bool = self.preview.leave();
        let lights: Vec<RgbKey> = Vec::new();
        if self.guide.mode != GuideMode::Off {
            let _ = self.guide.leave();
            let lights: Vec<RgbKey> = self.stage.paint_control_bar((255, 0, 0), &self.marks());
            return LayoutKeyResult { preview_left, guide_left: true, lights };
        }
        self.layout_index = if next {
            control::layout_next(self.layout_index, self.layouts.len())
        } else {
            control::layout_prev(self.layout_index, self.layouts.len())
        };
        LayoutKeyResult { preview_left, guide_left: false, lights }
    }

    /// Takes in that nothing happened. Once that has gone on for `timeout_sec` seconds the
    /// lights go out, and the preview and the guide are left.
    pub fn rest(&mut self, timeout_sec: u32, now_ns: u64) -> (r: Option<Vec<RgbKey>>)
        requires
            old(self).wf(),
        ensures
            final(self).wf(),
            r is Some <==> gate::goes_dark(
                old(self).gate@,
                old(self).stage.enabled,
                timeout_sec,
                now_ns,
            ),
            r is None ==> final(self).gate@ == old(self).gate@ && final(self).guide == old(
                self).guide && final(self).preview == old(self).preview,
            r matches Some(lights) ==> {
                &&& lights@ == old(self).stage.all_dark(
                    old(self).stage.boards.entries@.len() as int,
                )
                &&& final(self).gate@ == (GateState { dark: true, ..old(self).gate@ })
                &&& !final(self).preview.enabled
                &&& final(self).preview.layout_id is None
                &&& final(self).guide.is_off()
                &&& final(self).guide.pcs_abs == old(self).guide.pcs_abs
                &&& final(self).guide.last_sig == old(self).guide.last_sig
            },
            *final(self) == (Player {
                gate: final(self).gate,
                preview: final(self).preview,
                guide: final(self).guide,
                ..*old(self)
            }),
    {
        if !self.gate.idle(self.stage.enabled, timeout_sec, now_ns) {
            return None;
        }
        self.preview.enabled = false;
        self.preview.layout_id = None;
        let _ = self.guide.leave();
        Some(self.stage.paint_off())
    }

    /// Plays the cells of `cells`: the held keys get the colours that they go back to.
    pub fn set_wtn(&mut self, cells: Wtn)
        requires
            old(self).wf(),
        ensures
            final(self).wf(),
            final(self).wtn == cells,
            final(self).tracks.keys@ == final(self).recoloured(old(self).tracks.keys@),
            old(self).sound() ==> final(self).sound(),
            *final(self) == (Player {
                wtn: final(self).wtn,
                tracks: final(self).tracks,
                ..*old(self)
            }),
    {
        self.wtn = cells;
        self.refresh_leds();
    }
}

impl Player {
    /// The turn of a held key.
    pub fn key_tick(&mut self, key: KeyId, now_ns: u64, peak_track_ns: u64) -> (r: Tick)
        requires
            old(self).wf(),
        ensures
            final(self).wf(),
            if old(self).tracks.keys@.contains_key(key) {
                &&& r == tracking::tick_of(
                    old(self).tracks.keys@[key],
                    now_ns,
                    peak_track_ns,
                    old(self).gate@.pressed.contains(key),
                )
                &&& final(self).tracks.keys@ == (if r is TooLate {
                    old(self).tracks.keys@.remove(key)
                } else {
                    old(self).tracks.keys@
                })
            } else {
                r is NotYet && final(self).tracks.keys@ == old(self).tracks.keys@
            },
            old(self).sound() ==> final(self).sound(),
            *final(self) == (Player { tracks: final(self).tracks, ..*old(self) }),
    {
        let pressed: bool = self.gate.is_pressed(key);
        self.tracks.tick(key, now_ns, peak_track_ns, pressed)
    }

    /// Whether `after` is the player once the note of a held key has begun, with a strength of
    /// `strength`: the key plays it, and shows its pitch on its board.
    pub open spec fn plays_on(self, after: Player, key: KeyId, now_ns: u64, strength: u32) -> bool {
        let st = self.tracks.keys@[key];
        let board = if self.stage.boards@.contains_key(key.device_id) {
            self.stage.boards@[key.device_id].wtn_board
        } else {
            0
        };
        let p = pitch::pitch(
            st.voice.ch as int,
            self.edo() as int,
            st.voice.note as int,
            self.pitch_offset() as int,
        ) as i64;
        let shown = self.layout_index < self.layouts@.len();
        &&& after.notes.by_key@ == self.notes.by_key@.insert(key, st.voice)
        &&& after.notes.count@ == notes::raised(self.notes.count@, st.voice)
        &&& after.notes.hud@ == (if shown {
            self.notes.hud@.insert(key, p)
        } else {
            self.notes.hud@
        })
        &&& after.notes.pressed0@ == (if shown && board == 0 {
            self.notes.pressed0@.insert(p)
        } else {
            self.notes.pressed0@
        })
        &&& after.notes.pressed1@ == (if shown && board == 1 {
            self.notes.pressed1@.insert(p)
        } else {
            self.notes.pressed1@
        })
        &&& after.notes.pending == self.notes.pending
        &&& after.notes.aftertouch == self.notes.aftertouch
        &&& after.tracks.keys@ == self.tracks.keys@.insert(
            key,
            tracking::restarted(st, now_ns, strength, true),
        )
        &&& after == (Player { tracks: after.tracks, notes: after.notes, ..self })
    }

    /// Whether `after` is the player once the peak of a held key has been used, with a
    /// strength of `strength`, and no note has begun: one that plays goes on, and one that
    /// does not waits on.
    pub open spec fn goes_on(self, after: Player, key: KeyId, now_ns: u64, strength: u32) -> bool {
        &&& after.tracks.keys@ == (if self.tracks.keys@.contains_key(key) {
            self.tracks.keys@.insert(
                key,
                tracking::restarted(
                    self.tracks.keys@[key],
                    now_ns,
                    strength,
                    self.tracks.keys@[key].playing,
                ),
            )
        } else {
            self.tracks.keys@
        })
        &&& after == (Player { tracks: after.tracks, ..self })
    }

    /// Whether a turn of a held key sends `pressure`: its note sounds, from before or because
    /// its beginning was just `sent`; pressures are wanted; and it differs from the last one
    /// that was sent for the key. None counts as 255.
    pub fn touches(&self, key: KeyId, sent: bool, pressure: u8, no_aftertouch: bool) -> (r: bool)
        requires
            self.wf(),
        ensures
            r == {
                &&& self.tracks.keys@.contains_key(key)
                &&& self.tracks.keys@[key].playing || sent
                &&& !no_aftertouch
                &&& self.controls.aftertouch != AftertouchMode::Off
                &&& pressure != (if self.notes.aftertouch@.contains_key(key) {
                    self.notes.aftertouch@[key]
                } else {
                    255
                })
            },
    {
        match self.tracks.get(key) {
            Some(st) => {
                if no_aftertouch || !(st.playing || sent) {
                    return false;
                }
            },
            None => {
                return false;
            },
        }
        match self.controls.aftertouch {
            AftertouchMode::Off => false,
            _ => self.notes.pressure_differs(key, pressure),
        }
    }

    /// Ends a turn of a held key, whose peak has been used with a strength of `strength`; a
    /// note that did not play has begun if it was `sent`. Says whether that changed what is
    /// shown as pressed.
    pub fn end_turn(&mut self, key: KeyId, now_ns: u64, strength: u32, sent: bool) -> (r: bool)
        requires
            old(self).wf(),
            sent && old(self).tracks.keys@.contains_key(key) && !old(
                self).tracks.keys@[key].playing ==> old(self).notes.can_count(
                old(self).tracks.keys@[key].voice,
            ),
        ensures
            final(self).wf(),
            ({
                let begins = sent && old(self).tracks.keys@.contains_key(key) && !old(
                    self).tracks.keys@[key].playing;
                &&& begins ==> old(self).plays_on(*final(self), key, now_ns, strength)
                &&& !begins ==> old(self).goes_on(*final(self), key, now_ns, strength)
                &&& r == (begins && old(self).layout_index < old(self).layouts@.len())
            }),
            old(self).sound() ==> final(self).sound(),
    {
        let waits: bool = match self.tracks.get(key) {
            Some(st) => !st.playing,
            None => false,
        };
        if sent && waits {
            self.note_begun(key, now_ns, strength);
            self.layout_index < self.layouts.len()
        } else {
            self.key_used(key, now_ns, strength);
            false
        }
    }

    /// Takes in that the note of a held key has begun, with a strength of `strength`: the
    /// key plays it, and shows its pitch on its board.
    pub fn note_begun(&mut self, key: KeyId, now_ns: u64, strength: u32)
        requires
            old(self).wf(),
            old(self).tracks.keys@.contains_key(key),
            old(self).notes.can_count(old(self).tracks.keys@[key].voice),
        ensures
            final(self).wf(),
            old(self).plays_on(*final(self), key, now_ns, strength),
            old(self).sound() && !old(self).tracks.keys@[key].playing ==> final(self).sound(),
    {
        let voice: Voice = match self.tracks.get(key) {
            Some(st) => st.voice,
            None => {
                return;
            },
        };
        let board: u8 = match self.stage.boards.get(key.device_id) {
            Some(b) => b.wtn_board,
            None => 0,
        };
        let shown: Option<i64> = if self.layout_index < self.layouts.len() {
            Some(self.pitch_shown(voice))
        } else {
            None
        };
        self.notes.note_on(key, voice, board, shown);
        self.tracks.restart(key, now_ns, strength, true);
    }

    /// Takes in that the peak of a held key has been used, with a strength of `strength`, and
    /// no note has begun: one that plays goes on, and one that does not waits on.
    pub fn key_used(&mut self, key: KeyId, now_ns: u64, strength: u32)
        requires
            old(self).wf(),
        ensures
            final(self).wf(),
            old(self).goes_on(*final(self), key, now_ns, strength),
            old(self).sound() ==> final(self).sound(),
    {
        let playing: bool = match self.tracks.get(key) {
            Some(st) => st.playing,
            None => {
                return;
            },
        };
        self.tracks.restart(key, now_ns, strength, playing);
    }

    /// Takes in that a held key has moved; `speed` is the speed it moved down with, if it
    /// did.
    pub fn key_moved(&mut self, key: KeyId, now_ns: u64, level: u32, speed: Option<u32>)
        requires
            old(self).wf(),
        ensures
            final(self).wf(),
            final(self).tracks.keys@ == (if old(self).tracks.keys@.contains_key(key) {
                old(self).tracks.keys@.insert(
                    key,
                    tracking::moved(old(self).tracks.keys@[key], now_ns, level, speed),
                )
            } else {
                old(self).tracks.keys@
            }),
            old(self).sound() ==> final(self).sound(),
            *final(self) == (Player { tracks: final(self).tracks, ..*old(self) }),
    {
        self.tracks.update(key, now_ns, level, speed);
    }
}

/// What leaves the held keys alone, accounts for every note and gives no key a note, leaves
/// the instrument sound: so do taps, pings, the ends of notes and silence.
pub proof fn soundness_is_kept(p: Player, q: Player)
    requires
        p.sound(),
        q.tracks.keys@ == p.tracks.keys@,
        q.notes.accounted(),
        forall|k: KeyId| #[trigger]
            q.notes.by_key@.contains_key(k) ==> p.notes.by_key@.contains_key(k),
    ensures
        q.sound(),
{
}

/// No note of a sound instrument is stuck: one that no held key plays and whose end is not to
/// come does not sound. When every key is let go and every end has come, nothing sounds.
pub proof fn sound_player_has_no_stuck_notes(p: Player, v: Voice)
    requires
        p.wf(),
        p.sound(),
        forall|k: KeyId| #[trigger] p.notes.by_key@.contains_key(k) ==> p.notes.by_key@[k] != v,
        forall|i: int| 0 <= i < p.notes.pending@.len() ==> (#[trigger] p.notes.pending@[i]).voice
            != v,
    ensures
        !p.notes.count@.contains_key(v),
{
    notes::no_note_is_stuck(p.notes, v);
}

/// What the Ctrl chord does.
#[derive(Debug, Clone, Copy, PartialEq, Eq, Structural)]
pub enum ChordStep {
    /// The capture is thrown away.
    Disarm,
    /// A capture begins.
    Start,
    /// The capture is written; with `restart` another begins.
    Flush { restart: bool },
    /// The trail of events is written.
    Dump,
}

/// What the Ctrl chord does: on board 0 it begins a capture or throws it away, on the others
/// it writes what there is.
pub open spec fn chord(board: u8, capturing: bool, always_on: bool) -> ChordStep {
    if board == 0 {
        if capturing {
            ChordStep::Disarm
        } else {
            ChordStep::Start
        }
    } else if capturing {
        ChordStep::Flush { restart: always_on }
    } else {
        ChordStep::Dump
    }
}

/// What the Ctrl chord does.
pub fn chord_step(board: u8, capturing: bool, always_on: bool) -> (r: ChordStep)
    ensures
        r == chord(board, capturing, always_on),
{
    if board == 0 {
        if capturing {
            ChordStep::Disarm
        } else {
            ChordStep::Start
        }
    } else if capturing {
        ChordStep::Flush { restart: always_on }
    } else {
        ChordStep::Dump
    }
}

/// The first `n` keyboards that play board 0.
pub open spec fn first_boards(boards: Seq<(u64, Board)>, n: int) -> Seq<u64>
    decreases n,
{
    if n <= 0 {
        Seq::empty()
    } else if boards[n - 1].1.wtn_board == 0 {
        first_boards(boards, n - 1).push(boards[n - 1].0)
    } else {
        first_boards(boards, n - 1)
    }
}

/// The keyboards `ids` put in a set, or taken out of it.
pub open spec fn with_all(s: Set<u64>, ids: Seq<u64>, on: bool) -> Set<u64>
    decreases ids.len(),
{
    if ids.len() == 0 {
        s
    } else if on {
        with_all(s, ids.drop_last(), on).insert(ids.last())
    } else {
        with_all(s, ids.drop_last(), on).remove(ids.last())
    }
}

/// The Ctrl marks of the keyboards `ids`.
pub open spec fn ctrl_marks(stage: Stage, ids: Seq<u64>, base: (u8, u8, u8), on: bool) -> Seq<RgbKey>
    decreases ids.len(),
{
    if ids.len() == 0 {
        Seq::empty()
    } else {
        ctrl_marks(stage, ids.drop_last(), base, on) + stage.ctrl_mark(ids.last(), base, on)
    }
}

/// What comes of a reading of the guide's file.
#[derive(Debug)]
pub struct GuideResult {
    pub step: GuideStep,
    /// Whether a preview was left.
    pub preview_left: bool,
    /// The layout that the guide asks for, where another is played.
    pub switch: Option<usize>,
    pub lights: Vec<RgbKey>,
}

impl Player {
    /// The keyboards that play board 0.
    pub fn board0_devices(&self) -> (r: Vec<u64>)
        ensures
            r@ == first_boards(
                self.stage.boards.entries@,
                self.stage.boards.entries@.len() as int,
            ),
    {
        let mut out: Vec<u64> = Vec::new();
        for i in 0..self.stage.boards.entries.len()
            invariant
                out@ == first_boards(self.stage.boards.entries@, i as int),
        {
            if self.stage.boards.entries[i].1.wtn_board == 0 {
                out.push(self.stage.boards.entries[i].0);
            }
        }
        out
    }

    /// The keyboard that a capture which is always on begins with: of those that play board 0
    /// the one with the lowest number.
    pub fn capture_trigger(&self) -> (r: Option<u64>)
        ensures
            ({
                let ids = first_boards(
                    self.stage.boards.entries@,
                    self.stage.boards.entries@.len() as int,
                );
                match r {
                    Some(id) => ids.contains(id) && forall|i: int|
                        0 <= i < ids.len() ==> id <= #[trigger] ids[i],
                    None => ids.len() == 0,
                }
            }),
    {
        let ids: Vec<u64> = self.board0_devices();
        if ids.len() == 0 {
            return None;
        }
        let mut low: u64 = ids[0];
        for i in 1..ids.len()
            invariant
                ids@.contains(low),
                forall|j: int| 0 <= j < i ==> low <= #[trigger] ids@[j],
        {
            if ids[i] < low {
                low = ids[i];
            }
        }
        Some(low)
    }

    /// Shows on the keyboards `ids` that a capture is on, or no longer.
    pub fn show_capture(&mut self, ids: &Vec<u64>, on: bool) -> (r: Vec<RgbKey>)
        ensures
            final(self).armed@ == with_all(old(self).armed@, ids@, on),
            r@ == ctrl_marks(old(self).stage, ids@, old(self).base_rgb(), on),
            *final(self) == (Player { armed: final(self).armed, ..*old(self) }),
    {
        let mut out: Vec<RgbKey> = Vec::new();
        let base: (u8, u8, u8) = self.base_colour();
        assert(ids@.take(0) =~= Seq::empty());
        for i in 0..ids.len()
            invariant
                base == old(self).base_rgb(),
                *self == (Player { armed: self.armed, ..*old(self) }),
                self.armed@ == with_all(old(self).armed@, ids@.take(i as int), on),
                out@ == ctrl_marks(old(self).stage, ids@.take(i as int), base, on),
        {
            assert(ids@.take(i + 1).drop_last() =~= ids@.take(i as int));
            if on {
                self.armed.insert(ids[i]);
            } else {
                self.armed.remove(ids[i]);
            }
            let mut m: Vec<RgbKey> = self.stage.paint_ctrl_indicator(ids[i], base, on);
            out.append(&mut m);
        }
        assert(ids@.take(ids@.len() as int) =~= ids@);
        out
    }

    /// Takes in what the guide's file asks for. A guide that begins leaves the preview, and
    /// may ask for a layout; one that ends gives the layout its colours back, unless the
    /// lights are out.
    pub fn read_guide(&mut self, order: ByteOrder, cfg: Option<GuideCfg>) -> (r: GuideResult)
        requires
            old(self).wf(),
        ensures
            final(self).wf(),
            r.step == (if guide::signature(order, cfg) == old(self).guide.last_sig {
                GuideStep::Same
            } else {
                match cfg {
                    Some(g) => if g.enabled {
                        GuideStep::Enabled
                    } else {
                        GuideStep::Disabled
                    },
                    None => if old(self).guide.mode != GuideMode::Off {
                        GuideStep::Removed
                    } else {
                        GuideStep::StillOff
                    },
                }
            }),
            r.step is Same ==> final(self).guide == old(self).guide,
            !(r.step is Same) ==> final(self).guide.last_sig == guide::signature(order, cfg),
            r.step is StillOff ==> final(self).guide == (Guide {
                last_sig: final(self).guide.last_sig,
                ..old(self).guide
            }),
            r.step is Disabled || r.step is Removed ==> final(self).guide.is_off()
                && final(self).guide.pcs_abs@ == Set::<i64>::empty(),
            r.step is Enabled ==> {
                &&& final(self).guide.mode == GuideMode::WaitRoot
                &&& final(self).guide.layout_id == cfg->Some_0.layout_id
                &&& final(self).guide.chord_key == cfg->Some_0.chord_key
                &&& final(self).guide.pcs_root@ == (match cfg->Some_0.pcs_root {
                    Some(p) => p@,
                    None => Seq::empty(),
                })
                &&& final(self).guide.pcs_abs@ == Set::<i64>::empty()
                &&& final(self).guide.root_pc is None
            },
            r.preview_left == (r.step is Enabled && old(self).preview.enabled),
            r.preview_left ==> !final(self).preview.enabled && final(
                self).preview.layout_id is None,
            !r.preview_left ==> final(self).preview == old(self).preview,
            r.switch == (match (r.step, final(self).guide.layout_id) {
                (GuideStep::Enabled, Some(s)) => match layouts::find_id(old(self).layouts@, s@) {
                    Some(i) => if i == old(self).layout_index {
                        None
                    } else {
                        Some(i as usize)
                    },
                    None => None,
                },
                _ => None,
            }),
            r.switch matches Some(i) ==> i < old(self).layouts@.len(),
            r.lights@ == (if (r.step is Disabled || r.step is Removed) && !old(
                self).gate@.dark {
                old(self).stage.base_paint(
                    old(self).wtn@,
                    true,
                    TrainerMode::Off,
                    old(self).mark_set(),
                )
            } else {
                Seq::empty()
            }),
            *final(self) == (Player {
                guide: final(self).guide,
                preview: final(self).preview,
                ..*old(self)
            }),
    {
        let step: GuideStep = self.guide.read(order, cfg);
        let mut preview_left: bool = false;
        let mut switch: Option<usize> = None;
        let mut lights: Vec<RgbKey> = Vec::new();
        assert(lights@ =~= Seq::<RgbKey>::empty());
        match step {
            GuideStep::Enabled => {
                if self.preview.enabled {
                    preview_left = self.preview.leave();
                }
                switch =
                layouts::switch_to(&self.layouts, self.layout_index, &self.guide.layout_id);
            },
            GuideStep::Disabled | GuideStep::Removed => {
                if !self.gate.screensaver_active {
                    lights = self.base_lights(true);
                }
            },
            _ => {},
        }
        GuideResult { step, preview_left, switch, lights }
    }

    /// Shows a guide that has begun: this counts as activity, and every key is dimmed. Says
    /// whether the lights were out.
    pub fn show_guide(&mut self, now_ns: u64) -> (r: (bool, Vec<RgbKey>))
        requires
            old(self).wf(),
            old(self).stage.enabled ==> old(self).edo() != 0,
        ensures
            final(self).wf(),
            r.0 == old(self).gate@.dark,
            r.1@ == old(self).stage.guide_paint(
                old(self).wtn@,
                old(self).shade(),
                old(self).mark_set(),
            ),
            final(self).gate@ == (GateState {
                dark: false,
                active_ns: now_ns,
                ..old(self).gate@
            }),
            *final(self) == (Player { gate: final(self).gate, ..*old(self) }),
    {
        let woke: bool = self.gate.stir(now_ns);
        let lights: Vec<RgbKey> = self.guide_lights();
        (woke, lights)
    }
}

/// A key that is pressed and let go, with nothing changed in between, ends in the colour that
/// its cell has at rest, whatever the guide shows.
pub proof fn release_restores_the_colour(p: Player, key: KeyId, t: Target, now_ns: u64, level: u32)
    requires
        p.stage.light(key.device_id) is Some,
    ensures
        tracking::pressed_state(
            now_ns,
            level,
            t.voice,
            p.notes.by_key@.contains_key(key),
            p.key_led(key.device_id, t),
        ).led matches Some(led) && led.base_rgb == p.idle(t.cell) && led.dev_idx == p.stage.light(
            key.device_id,
        )->0 && led.row == t.place.led_row && led.col == t.place.led_col,
{
}

/// The keys of the control bar play no notes, nor do keys that are bound to an action when
/// they are pressed, or keys of a keyboard that plays no board; and while the lights are out
/// no press does.
pub proof fn control_keys_play_nothing(
    p: Player,
    kind: EdgeKind,
    key: KeyId,
    now_ns: u64,
    dump_only: bool,
)
    requires
        p.reached(kind, key, now_ns, dump_only).0 == Reach::Note,
    ensures
        p.bar(key.hid) is None,
        !p.stage.bar_cols@.contains_key(key.hid),
        kind == EdgeKind::Down ==> !p.actions@.contains_key(key.hid) && !p.gate@.dark,
        p.stage.boards@.contains_key(key.device_id),
        !p.gate@.ignored.contains(key),
        !dump_only,
{
}

/// The note of a cell and its light are on one and the same key: the key that plays a cell
/// lights up on the LED that the key map gives it, and that LED has the cell's colour at
/// rest.
pub proof fn note_and_light_share_a_key(p: Player, key: KeyId, dev: u8)
    requires
        table::distinct_keys(p.stage.hid_map.locs.entries@),
        p.target(key) matches Ok(Some(_)),
        p.stage.light(key.device_id) == Some(dev),
    ensures
        ({
            let t = p.target(key)->Ok_0->Some_0;
            let loc = p.stage.hid_map@[key.hid];
            &&& t.place.led_row == loc.led_row
            &&& t.place.led_col == loc.led_col
            &&& p.stage.cells(
                key.device_id,
                p.stage.boards@[key.device_id],
                p.wtn@,
                paint::plain(),
            ).contains(
                RgbKey {
                    device_index: dev,
                    row: loc.led_row,
                    col: loc.led_col,
                    rgb: t.cell.col_rgb,
                },
            )
        }),
{
    let locs = p.stage.hid_map.locs.entries@;
    table::lemma_entries_are_the_map(locs);
    let i = choose|i: int| 0 <= i < locs.len() && (#[trigger] locs[i]).0 == key.hid;
    assert(locs[i].1 == p.stage.hid_map@[key.hid]);
    paint::every_key_is_painted(
        locs,
        p.stage.boards@[key.device_id],
        dev,
        p.wtn@,
        paint::plain(),
        i,
    );
}

/// What a key plays, from its place on the keyboard to its note. The place is counted as the
/// board is mounted and from the first column of its row; the cell is the board's at that
/// place. The channel is the cell's, counted from 0, moved by the octave of the instrument
/// and by one more where the keyboard is held an octave up, within the sixteen that there
/// are. A key on the grid of a board that is mounted upright or turned plays whenever the
/// layout has a cell there.
pub proof fn keys_play_their_cell(p: Player, key: KeyId)
    requires
        p.stage.boards@.contains_key(key.device_id),
        p.stage.hid_map@.contains_key(key.hid),
        p.stage.hid_map@[key.hid].midi_row < 4,
        p.stage.hid_map@[key.hid].midi_col < 14,
    ensures
        ({
            let b = p.stage.boards@[key.device_id];
            let loc = p.stage.hid_map@[key.hid];
            let turned = b.rotation_deg == 180;
            let row = if turned {
                3 - loc.midi_row
            } else {
                loc.midi_row as int
            };
            let col = if turned != b.mirror_cols {
                13 - loc.midi_col
            } else {
                loc.midi_col as int
            };
            let index = 14 * row + col - b.offs@[row];
            let octave = p.controls.octave_shift + if p.controls.hold@.contains(key.device_id) {
                1int
            } else {
                0
            };
            &&& b.rotation_deg != 0 && !turned ==> p.target(key) == Err::<Option<Target>, GridError>(
                GridError::UnsupportedRotation(b.rotation_deg),
            )
            &&& b.rotation_deg == 0 || turned ==> {
                &&& p.target(key) matches Ok(t) && (t is Some <==> (b.offs@[row] <= col
                    && p.wtn@.contains_key(b.wtn_board) && index < p.wtn@[b.wtn_board].len()))
                &&& p.target(key) matches Ok(Some(t)) ==> {
                    let base = if t.cell.chan_1based == 0 {
                        0
                    } else {
                        t.cell.chan_1based - 1
                    };
                    &&& t.cell == p.wtn@[b.wtn_board][index]
                    &&& t.board == b.wtn_board
                    &&& t.voice.note == t.cell.key
                    &&& 0 <= base + octave <= 15 ==> t.voice.ch == base + octave
                    &&& base + octave < 0 ==> t.voice.ch == 0
                    &&& base + octave > 15 ==> t.voice.ch == 15
                    &&& t.place.index == index
                    &&& t.place.led_row == loc.led_row
                    &&& t.place.led_col == loc.led_col
                }
            }
        }),
{
}

/// Two players that differ in their octave alone: what the one plays an octave further up
/// is the same note of the same cell, on the next channel, as long as there is one.
pub proof fn an_octave_is_a_channel(p: Player, q: Player, key: KeyId)
    requires
        p.stage == q.stage,
        p.wtn@ == q.wtn@,
        p.controls.hold@ == q.controls.hold@,
        q.controls.octave_shift == p.controls.octave_shift + 1,
        p.target(key) matches Ok(Some(_)),
    ensures
        q.target(key) matches Ok(Some(_)),
        ({
            let t = p.target(key)->Ok_0->Some_0;
            let u = q.target(key)->Ok_0->Some_0;
            &&& u.cell == t.cell && u.place == t.place && u.board == t.board
            &&& u.voice.note == t.voice.note
            &&& 0 < t.voice.ch < 15 ==> u.voice.ch == t.voice.ch + 1
            &&& t.voice.ch == 15 ==> u.voice.ch == 15
            &&& t.voice.ch <= u.voice.ch <= t.voice.ch + 1
        }),
{
}

/// A keyboard that is held an octave up plays as all do an octave further up, and no other
/// keyboard is moved.
pub proof fn a_held_octave_moves_one_keyboard(p: Player, q: Player, key: KeyId, held: u64)
    requires
        p.stage == q.stage,
        p.wtn@ == q.wtn@,
        p.controls.octave_shift == q.controls.octave_shift,
        !p.controls.hold@.contains(held),
        q.controls.hold@ == p.controls.hold@.insert(held),
        p.target(key) matches Ok(Some(_)),
    ensures
        q.target(key) matches Ok(Some(_)),
        key.device_id != held ==> q.target(key) == p.target(key),
        ({
            let t = p.target(key)->Ok_0->Some_0;
            let u = q.target(key)->Ok_0->Some_0;
            key.device_id == held ==> {
                &&& u.voice.note == t.voice.note && u.cell == t.cell
                &&& 0 < t.voice.ch < 15 ==> u.voice.ch == t.voice.ch + 1
                &&& t.voice.ch <= u.voice.ch
            }
        }),
{
}

/// The instrument goes by the layout that is played: its division of the octave and its
/// offset; without one by twelve steps and none. The guide is shown by these, and so is the
/// colour that a key goes back to.
pub proof fn the_played_layout_counts(p: Player, cell: WtnCell)
    ensures
        p.layout_index < p.layouts@.len() ==> p.edo()
            == p.layouts@[p.layout_index as int].edo_divisions && p.pitch_offset()
            == p.layouts@[p.layout_index as int].pitch_offset,
        p.layout_index >= p.layouts@.len() ==> p.edo() == 12 && p.pitch_offset() == 0,
        p.shade().0 == p.guide.mode,
        p.shade().1 == p.edo(),
        p.shade().2 == p.pitch_offset(),
        p.shade().3 == p.guide.pcs_abs@,
        p.shade().4 == p.dims@,
        ({
            let own = cell.col_rgb;
            let dim = (
                p.dims@[own.0 as int],
                p.dims@[own.1 as int],
                p.dims@[own.2 as int],
            );
            let lit = p.guide.pcs_abs@.contains(
                ((cell.key + p.pitch_offset()) % (p.edo() as int)) as i64,
            );
            &&& p.guide.mode == GuideMode::Off ==> p.idle(cell) == own
            &&& p.guide.mode == GuideMode::WaitRoot ==> p.idle(cell) == dim
            &&& p.guide.mode == GuideMode::Active && p.edo() > 0 && lit ==> p.idle(cell) == own
            &&& p.guide.mode == GuideMode::Active && p.edo() > 0 && !lit ==> p.idle(cell) == dim
            &&& p.edo() > 0 ==> paint::shaded(p.shade(), cell) == p.idle(cell)
        }),
{
}

/// The marks of the control bars are those of the controls and of the capture, and their
/// colour that of the guide: red without one, out while it waits and green while it is
/// active.
pub proof fn bars_show_the_controls(p: Player, id: u64)
    ensures
        p.mark_set().0.contains(id) <==> p.controls.hold@.contains(id),
        p.mark_set().1.contains(id) <==> p.armed@.contains(id),
        p.mark_set().2 == p.controls.aftertouch,
        p.guide.mode == GuideMode::Off ==> p.base_rgb() == (255u8, 0u8, 0u8),
        p.guide.mode == GuideMode::WaitRoot ==> p.base_rgb() == (0u8, 0u8, 0u8),
        p.guide.mode == GuideMode::Active ==> p.base_rgb() == (0u8, 255u8, 0u8),
{
}

/// How far an edge gets that is neither ignored nor wakes the lights. A keyboard that plays
/// no board does nothing. A press of the right Alt key or of the space bar only sets something. While keys
/// are only looked at, nothing else happens; nor does it on a control bar without lights
/// where there are some. A press of a key that is bound does what it is bound to. Of the
/// rest, keys of the control bar play nothing, and all others play a note.
pub proof fn edges_reach_what_their_key_is_for(
    p: Player,
    kind: EdgeKind,
    key: KeyId,
    now_ns: u64,
    dump_only: bool,
)
    ensures
        ({
            let r = p.reached(kind, key, now_ns, dump_only).0;
            let passage = gate::passed(p.gate@, kind, key, now_ns).1;
            let arrow = key.hid == hid::ARROW_LEFT || key.hid == hid::ARROW_DOWN || key.hid
                == hid::ARROW_RIGHT;
            let bar = arrow || p.stage.bar_cols@.contains_key(key.hid);
            let plays = p.stage.boards@.contains_key(key.device_id);
            let lit = p.stage.enabled && p.stage.rgb_map@.contains_key(key.device_id);
            let sets = kind == EdgeKind::Down && (key.hid == hid::RIGHT_ALT || key.hid
                == hid::SPACE);
            let bound = kind == EdgeKind::Down && p.actions@.contains_key(key.hid);
            let unlit = p.stage.enabled && bar && !lit;
            &&& passage == Passage::Wake ==> r == Reach::Wake
            &&& passage == Passage::Chord && plays ==> r == (Reach::Chord {
                board: p.stage.boards@[key.device_id].wtn_board,
            })
            &&& passage == Passage::Chord && !plays ==> r == (Reach::Chord { board: 1 })
            &&& passage matches Passage::Blocked { ends } ==> r == (Reach::Blocked { ends })
            &&& passage == Passage::Through ==> {
                &&& !plays ==> r == Reach::NoBoard
                &&& plays && sets ==> r == Reach::Setting
                &&& plays && !sets && dump_only ==> r == Reach::Dumped
                &&& plays && !sets && !dump_only && unlit ==> r == Reach::Unlit
                &&& plays && !sets && !dump_only && !unlit && bound ==> r == (Reach::Action {
                    action: p.actions@[key.hid],
                })
                &&& plays && !sets && !dump_only && !unlit && !bound && bar ==> r == Reach::Bar
                &&& plays && !sets && !dump_only && !bound && !bar ==> r == Reach::Note
            }
        }),
{
}

/// What an edge sets: only a press sets anything, and only where it is not held back, on a
/// keyboard that plays a board; then it sets what the key is for.
pub proof fn presses_set_what_their_key_is_for(
    p: Player,
    kind: EdgeKind,
    key: KeyId,
    now_ns: u64,
    dump_only: bool,
)
    ensures
        ({
            let s = p.reached(kind, key, now_ns, dump_only).1;
            let through = gate::passed(p.gate@, kind, key, now_ns).1 == Passage::Through
                && p.stage.boards@.contains_key(key.device_id);
            &&& !through || kind != EdgeKind::Down ==> s == Setting::Nothing
            &&& through && kind == EdgeKind::Down ==> s == p.controls.setting(
                key.device_id,
                key.hid,
                now_ns,
            )
        }),
{
}

proof fn lemma_shown_mark(stage: Stage, id: u64, code: u8, rgb: (u8, u8, u8), col: u8)
    requires
        stage.light(id) is Some,
    ensures
        paint::shown(stage.mark(id, code, rgb), stage.light(id)->0, stage.bar_row, col) == (
        if stage.bar_cols@.contains_key(code) && stage.bar_cols@[code]@.contains(col) {
            Some(rgb)
        } else {
            None
        }),
{
    paint::marks_are_shown(stage, id, code, rgb, col);
}

/// A key of the control bar lights up when it is pressed: on its own LEDs in the colour of
/// pressed keys, an arrow in cyan on those it shows on. Moving it lights nothing.
pub proof fn bar_keys_light_up(p: Player, key: KeyId, col: u8)
    requires
        p.stage.light(key.device_id) is Some,
        key.hid != hid::LEFT_CTRL,
        key.hid != hid::RIGHT_CTRL,
    ensures
        ({
            let dev = p.stage.light(key.device_id)->0;
            let down = paint::shown(
                p.bar_lights(EdgeKind::Down, key),
                dev,
                p.stage.bar_row,
                col,
            );
            let cols = p.stage.bar_cols@;
            let led = if key.hid == hid::ARROW_LEFT {
                hid::RIGHT_ALT
            } else if key.hid == hid::ARROW_DOWN {
                hid::CONTEXT_MENU
            } else if key.hid == hid::ARROW_RIGHT {
                hid::RIGHT_CTRL
            } else {
                key.hid
            };
            &&& down == (if cols.contains_key(led) && cols[led]@.contains(col) {
                Some(
                    if led == key.hid {
                        p.highlight_rgb
                    } else {
                        (0u8, 255u8, 255u8)
                    },
                )
            } else {
                None
            })
            &&& p.bar_lights(EdgeKind::Update, key).len() == 0
            &&& p.bar(key.hid) is Some && cols.contains_key(led) ==> p.bar_lights(
                EdgeKind::Up,
                key,
            ) == p.stage.released(key.device_id, led, p.base_rgb(), p.mark_set())
        }),
{
    let dev = p.stage.light(key.device_id)->0;
    match p.bar(key.hid) {
        Some(b) => {
            let rgb = match b.flash {
                Some(rgb) => rgb,
                None => p.highlight_rgb,
            };
            lemma_shown_mark(p.stage, key.device_id, b.led_hid, rgb, col);
            let m = p.stage.mark(key.device_id, b.led_hid, rgb);
            assert(m + Seq::<RgbKey>::empty() =~= m);
        },
        None => {},
    }
}

/// A Ctrl key lights up like the others while there is no capture on its keyboard; while
/// there is one both Ctrl keys stay yellow.
pub proof fn ctrl_keys_stay_yellow(p: Player, key: KeyId, col: u8)
    requires
        p.stage.light(key.device_id) is Some,
        key.hid == hid::LEFT_CTRL || key.hid == hid::RIGHT_CTRL,
        p.stage.bar_cols@.contains_key(key.hid),
    ensures
        ({
            let dev = p.stage.light(key.device_id)->0;
            let cols = p.stage.bar_cols@;
            let at = |code: u8| cols.contains_key(code) && cols[code]@.contains(col);
            paint::shown(p.bar_lights(EdgeKind::Down, key), dev, p.stage.bar_row, col) == (
            if p.armed@.contains(key.device_id) && (at(hid::LEFT_CTRL) || at(hid::RIGHT_CTRL)) {
                Some((255u8, 255u8, 0u8))
            } else if at(key.hid) {
                Some(p.highlight_rgb)
            } else {
                None
            })
        }),
{
    let dev = p.stage.light(key.device_id)->0;
    let row = p.stage.bar_row;
    let yellow = paint::ctrl_rgb(p.base_rgb(), true);
    let m = p.stage.mark(key.device_id, key.hid, p.highlight_rgb);
    let left = p.stage.mark(key.device_id, hid::LEFT_CTRL, yellow);
    let right = p.stage.mark(key.device_id, hid::RIGHT_CTRL, yellow);
    lemma_shown_mark(p.stage, key.device_id, key.hid, p.highlight_rgb, col);
    lemma_shown_mark(p.stage, key.device_id, hid::LEFT_CTRL, yellow, col);
    lemma_shown_mark(p.stage, key.device_id, hid::RIGHT_CTRL, yellow, col);
    paint::later_lights_count(left, right, dev, row, col);
    paint::later_lights_count(m, left + right, dev, row, col);
    assert(m + Seq::<RgbKey>::empty() =~= m);
}

/// What lights an edge brings: all keyboards' when it wakes them, those of the control bar
/// for its keys and for settings, and none otherwise.
pub proof fn edges_light_the_bar(
    p: Player,
    kind: EdgeKind,
    key: KeyId,
    reach: Reach,
    setting: Setting,
    col: u8,
)
    ensures
        reach == Reach::Wake ==> p.edge_lights(kind, key, reach, setting) == p.stage.base_paint(
            p.wtn@,
            true,
            p.trainer(),
            p.mark_set(),
        ),
        reach is Action || reach == Reach::Bar ==> p.edge_lights(kind, key, reach, setting)
            == p.bar_lights(kind, key),
        reach is Chord || reach is Blocked || reach == Reach::NoBoard || reach == Reach::Dumped
            || reach == Reach::Unlit || reach == Reach::Note ==> p.edge_lights(
            kind,
            key,
            reach,
            setting,
        ).len() == 0,
        p.stage.light(key.device_id) is Some ==> {
            let dev = p.stage.light(key.device_id)->0;
            let cols = p.stage.bar_cols@;
            let space = cols.contains_key(hid::SPACE) && cols[hid::SPACE]@.contains(col);
            &&& paint::shown(
                p.edge_lights(kind, key, Reach::Setting, Setting::Hold { on: true }),
                dev,
                p.stage.bar_row,
                col,
            ) == (if space {
                Some((255u8, 255u8, 255u8))
            } else {
                None
            })
            &&& paint::shown(
                p.edge_lights(kind, key, Reach::Setting, Setting::Hold { on: false }),
                dev,
                p.stage.bar_row,
                col,
            ) == (if space {
                Some(p.base_rgb())
            } else {
                None
            })
        },
{
    if p.stage.light(key.device_id) is Some {
        lemma_shown_mark(
            p.stage,
            key.device_id,
            hid::SPACE,
            paint::space_rgb(p.base_rgb(), true),
            col,
        );
        lemma_shown_mark(
            p.stage,
            key.device_id,
            hid::SPACE,
            paint::space_rgb(p.base_rgb(), false),
            col,
        );
    }
}

proof fn lemma_other_marks(p: Player, device_id: u64, mode: AftertouchMode, m: int, n: int, col: u8)
    requires
        0 <= n < p.stage.boards.entries@.len(),
        0 <= m <= p.stage.boards.entries@.len(),
        p.stage.light(p.stage.boards.entries@[n].0) is Some,
        p.stage.has_own_lights(n),
    ensures
        ({
            let id = p.stage.boards.entries@[n].0;
            paint::shown(
                p.other_marks(device_id, mode, m),
                p.stage.light(id)->0,
                p.stage.bar_row,
                col,
            ) == (if n < m && id != device_id && p.stage.bar_cols@.contains_key(hid::RIGHT_ALT)
                && p.stage.bar_cols@[hid::RIGHT_ALT]@.contains(col) {
                Some(paint::aftertouch_rgb(p.base_rgb(), mode))
            } else {
                None
            })
        }),
    decreases m,
{
    if m > 0 {
        lemma_other_marks(p, device_id, mode, m - 1, n, col);
        let id = p.stage.boards.entries@[m - 1].0;
        let dev = p.stage.light(p.stage.boards.entries@[n].0)->0;
        let rgb = paint::aftertouch_rgb(p.base_rgb(), mode);
        let before = p.other_marks(device_id, mode, m - 1);
        let last = p.stage.mark(id, hid::RIGHT_ALT, rgb);
        paint::later_lights_count(before, last, dev, p.stage.bar_row, col);
        if m - 1 == n {
            lemma_shown_mark(p.stage, id, hid::RIGHT_ALT, rgb, col);
        } else {
            paint::marks_are_on_their_keyboard(
                p.stage,
                id,
                hid::RIGHT_ALT,
                rgb,
                dev,
                p.stage.bar_row,
                col,
            );
        }
    }
}

/// When the aftertouch mode is turned, the key that turned it flashes in the colour of
/// pressed keys, and the right Alt keys of the other keyboards show the mode that is now on:
/// yellow by peak, blue for none, and the bar's colour by speed.
pub proof fn other_keyboards_show_the_new_mode(p: Player, key: KeyId, n: int, col: u8)
    requires
        0 <= n < p.stage.boards.entries@.len(),
        p.stage.light(p.stage.boards.entries@[n].0) is Some,
        p.stage.has_own_lights(n),
    ensures
        ({
            let id = p.stage.boards.entries@[n].0;
            let cols = p.stage.bar_cols@;
            let at = cols.contains_key(hid::RIGHT_ALT) && cols[hid::RIGHT_ALT]@.contains(col);
            let seen = paint::shown(
                p.setting_lights(key, Setting::Aftertouch),
                p.stage.light(id)->0,
                p.stage.bar_row,
                col,
            );
            &&& !at ==> seen is None
            &&& at && id == key.device_id ==> seen == Some(p.highlight_rgb)
            &&& at && id != key.device_id && p.stage.light(key.device_id) != p.stage.light(id)
                ==> seen == Some(
                match p.controls.aftertouch {
                    AftertouchMode::SpeedMapped => (255u8, 255u8, 0u8),
                    AftertouchMode::PeakMapped => (0u8, 128u8, 255u8),
                    AftertouchMode::Off => p.base_rgb(),
                },
            )
        }),
{
    let id = p.stage.boards.entries@[n].0;
    let dev = p.stage.light(id)->0;
    let row = p.stage.bar_row;
    let len = p.stage.boards.entries@.len() as int;
    let mode = p.controls.aftertouch.turned();
    let flash = p.stage.mark(key.device_id, hid::RIGHT_ALT, p.highlight_rgb);
    lemma_other_marks(p, key.device_id, mode, len, n, col);
    paint::later_lights_count(flash, p.other_marks(key.device_id, mode, len), dev, row, col);
    if p.stage.light(key.device_id) == p.stage.light(id) {
        lemma_shown_mark(p.stage, key.device_id, hid::RIGHT_ALT, p.highlight_rgb, col);
    } else {
        paint::marks_are_on_their_keyboard(
            p.stage,
            key.device_id,
            hid::RIGHT_ALT,
            p.highlight_rgb,
            dev,
            row,
            col,
        );
    }
}

/// What becomes of the note of a key that is let go: one that others play too goes on, one
/// that only this key plays ends; one that the key was seen to play and no longer has ends
/// too; one that had not begun is played as a tap; and a key of which nothing is known plays
/// none.
pub proof fn letting_go_ends_the_note(
    voice: Voice,
    count: u32,
    release: Release,
    removed: Option<VelState>,
)
    ensures
        release == (Release::Shared { voice, count }) ==> lifted(release, removed) == (Lift::Shared {
            voice,
            count,
        }),
        release == (Release::Off { voice }) ==> lifted(release, removed) == (Lift::Off { voice }),
        release == Release::Unmapped ==> {
            &&& removed is None ==> lifted(release, removed) == Lift::Untracked
            &&& removed matches Some(st) ==> (st.playing ==> lifted(release, removed)
                == (Lift::Fallback { voice: st.voice })) && (!st.playing ==> lifted(
                release,
                removed,
            ) == (Lift::Tap { voice: st.voice }))
        },
{
}

/// What a key that has begun to play shows: its pitch in the layout that is played, on its
/// own board; its note is counted once more, and the key is known to play it.
pub proof fn begun_notes_are_shown(
    p: Player,
    after: Player,
    key: KeyId,
    now_ns: u64,
    strength: u32,
    x: i64,
)
    requires
        p.plays_on(after, key, now_ns, strength),
        p.notes.can_count(p.tracks.keys@[key].voice),
        p.layout_index < p.layouts@.len(),
        p.stage.boards@.contains_key(key.device_id),
    ensures
        ({
            let v = p.tracks.keys@[key].voice;
            let l = p.layouts@[p.layout_index as int];
            let pitch = (v.ch * l.edo_divisions + v.note + l.pitch_offset) as i64;
            let board = p.stage.boards@[key.device_id].wtn_board;
            &&& after.notes.by_key@.contains_key(key) && after.notes.by_key@[key] == v
            &&& after.notes.count@.contains_key(v)
            &&& p.notes.count@.contains_key(v) ==> after.notes.count@[v] == p.notes.count@[v] + 1
            &&& !p.notes.count@.contains_key(v) ==> after.notes.count@[v] == 1
            &&& after.notes.hud@.contains_key(key) && after.notes.hud@[key] == pitch
            &&& after.notes.pressed0@.contains(x) <==> p.notes.pressed0@.contains(x) || (board == 0
                && x == pitch)
            &&& after.notes.pressed1@.contains(x) <==> p.notes.pressed1@.contains(x) || (board == 1
                && x == pitch)
            &&& after.tracks.keys@.contains_key(key) && after.tracks.keys@[key].playing
            &&& after.tracks.keys@[key].voice == v
            &&& after.notes.pending == p.notes.pending
            &&& after.notes.aftertouch == p.notes.aftertouch
        }),
{
}

/// A held key whose peak was used without a note beginning goes on as it was: it plays if it
/// did, and its note and what it shows stay.
pub proof fn used_keys_go_on(p: Player, after: Player, key: KeyId, now_ns: u64, strength: u32)
    requires
        p.goes_on(after, key, now_ns, strength),
    ensures
        after.notes == p.notes,
        after.gate == p.gate,
        after.tracks.keys@.dom() == p.tracks.keys@.dom(),
        p.tracks.keys@.contains_key(key) ==> {
            let (st, now) = (p.tracks.keys@[key], after.tracks.keys@[key]);
            &&& now.playing == st.playing && now.voice == st.voice && now.led == st.led
            &&& now.started_ns == now_ns && now.peak == st.last_level && now.peak_speed == 0
            &&& now.at_level >= strength && now.at_level >= st.at_level
        },
{
    assert(after.tracks.keys@.dom() =~= p.tracks.keys@.dom());
}

/// The Ctrl chord on board 0 begins a capture, or throws away the one that runs; on another
/// board it writes the capture that runs, after which another begins if one is always on, or
/// else the trail.
pub proof fn chords_capture_on_board_0(board: u8, always_on: bool)
    ensures
        chord(0, false, always_on) == ChordStep::Start,
        chord(0, true, always_on) == ChordStep::Disarm,
        board != 0 ==> chord(board, true, true) == (ChordStep::Flush { restart: true }),
        board != 0 ==> chord(board, true, false) == (ChordStep::Flush { restart: false }),
        board != 0 ==> chord(board, false, always_on) == ChordStep::Dump,
{
}

/// The keyboards that play board 0 are all of them and no others.
pub proof fn first_boards_are_all(boards: Seq<(u64, Board)>, n: int, id: u64)
    requires
        0 <= n <= boards.len(),
    ensures
        first_boards(boards, n).contains(id) <==> exists|i: int|
            0 <= i < n && (#[trigger] boards[i]).0 == id && boards[i].1.wtn_board == 0,
    decreases n,
{
    if n > 0 {
        first_boards_are_all(boards, n - 1, id);
        let before = first_boards(boards, n - 1);
        let all = first_boards(boards, n);
        if before.contains(id) {
            let j = choose|j: int| 0 <= j < before.len() && before[j] == id;
            assert(all[j] == id);
        }
        if boards[n - 1].0 == id && boards[n - 1].1.wtn_board == 0 {
            assert(all[before.len() as int] == id);
        }
        if all.contains(id) {
            let j = choose|j: int| 0 <= j < all.len() && all[j] == id;
            if j < before.len() {
                assert(before[j] == id);
            }
        }
    }
}

/// Showing a capture on some keyboards marks exactly those, and ending it takes the mark
/// from exactly those.
pub proof fn captures_mark_their_keyboards(s: Set<u64>, ids: Seq<u64>, id: u64)
    ensures
        with_all(s, ids, true).contains(id) <==> s.contains(id) || ids.contains(id),
        with_all(s, ids, false).contains(id) <==> s.contains(id) && !ids.contains(id),
    decreases ids.len(),
{
    if ids.len() > 0 {
        let front = ids.drop_last();
        captures_mark_their_keyboards(s, front, id);
        assert(ids.contains(id) <==> front.contains(id) || ids.last() == id) by {
            if front.contains(id) {
                let j = choose|j: int| 0 <= j < front.len() && front[j] == id;
                assert(ids[j] == id);
            }
            if ids.last() == id {
                assert(ids[ids.len() - 1] == id);
            }
            if ids.contains(id) {
                let j = choose|j: int| 0 <= j < ids.len() && ids[j] == id;
                if j < front.len() {
                    assert(front[j] == id);
                }
            }
        }
    }
}

/// While a capture is shown on a keyboard its Ctrl keys are yellow, and in the bar's colour
/// once it is not.
pub proof fn captures_colour_the_ctrl_keys(
    stage: Stage,
    ids: Seq<u64>,
    base: (u8, u8, u8),
    on: bool,
    id: u64,
    col: u8,
)
    requires
        stage.light(id) is Some,
        forall|i: int|
            0 <= i < ids.len() && (#[trigger] ids[i]) != id ==> stage.light(ids[i]) != stage.light(
                id,
            ),
    ensures
        ({
            let cols = stage.bar_cols@;
            let at = |code: u8| cols.contains_key(code) && cols[code]@.contains(col);
            paint::shown(
                ctrl_marks(stage, ids, base, on),
                stage.light(id)->0,
                stage.bar_row,
                col,
            ) == (if ids.contains(id) && (at(hid::LEFT_CTRL) || at(hid::RIGHT_CTRL)) {
                Some(
                    if on {
                        (255u8, 255u8, 0u8)
                    } else {
                        base
                    },
                )
            } else {
                None
            })
        }),
    decreases ids.len(),
{
    if ids.len() > 0 {
        let front = ids.drop_last();
        let last = ids.last();
        let dev = stage.light(id)->0;
        let row = stage.bar_row;
        let rgb = paint::ctrl_rgb(base, on);
        assert forall|i: int| 0 <= i < front.len() && (#[trigger] front[i]) != id implies stage.light(
            front[i],
        ) != stage.light(id) by {
            assert(front[i] == ids[i]);
        }
        captures_colour_the_ctrl_keys(stage, front, base, on, id, col);
        let left = stage.mark(last, hid::LEFT_CTRL, rgb);
        let right = stage.mark(last, hid::RIGHT_CTRL, rgb);
        paint::later_lights_count(ctrl_marks(stage, front, base, on), left + right, dev, row, col);
        paint::later_lights_count(left, right, dev, row, col);
        if last == id {
            lemma_shown_mark(stage, id, hid::LEFT_CTRL, rgb, col);
            lemma_shown_mark(stage, id, hid::RIGHT_CTRL, rgb, col);
        } else {
            assert(ids[ids.len() - 1] != id);
            paint::marks_are_on_their_keyboard(stage, last, hid::LEFT_CTRL, rgb, dev, row, col);
            paint::marks_are_on_their_keyboard(stage, last, hid::RIGHT_CTRL, rgb, dev, row, col);
        }
        assert(ids.contains(id) <==> front.contains(id) || last == id) by {
            if front.contains(id) {
                let j = choose|j: int| 0 <= j < front.len() && front[j] == id;
                assert(ids[j] == id);
            }
            if last == id {
                assert(ids[ids.len() - 1] == id);
            }
            if ids.contains(id) {
                let j = choose|j: int| 0 <= j < ids.len() && ids[j] == id;
                if j < front.len() {
                    assert(front[j] == id);
                }
            }
        }
    }
}

/// The LED of a held key goes back to the colour that its cell has at rest, in the layout
/// and with the guide of the moment, whenever either changes.
pub proof fn held_keys_follow_the_layout(p: Player, m: Map<KeyId, VelState>, key: KeyId)
    requires
        m.contains_key(key),
        m[key].led is Some,
        p.target(key) matches Ok(Some(_)),
    ensures
        ({
            let after = p.recoloured(m);
            let t = p.target(key)->Ok_0->Some_0;
            &&& after.contains_key(key)
            &&& after[key].led matches Some(led) && led.base_rgb == p.idle(t.cell) && led.dev_idx
                == m[key].led->0.dev_idx && led.row == m[key].led->0.row && led.col
                == m[key].led->0.col
            &&& after[key].voice == m[key].voice && after[key].playing == m[key].playing
            &&& after[key].peak == m[key].peak && after[key].at_level == m[key].at_level
            &&& after[key].started_ns == m[key].started_ns
        }),
{
    tracking::held_keys_go_back_to_their_cell(
        m,
        p.stage,
        p.wtn@,
        p.edo(),
        p.pitch_offset(),
        p.guide.mode,
        p.guide.pcs_abs@,
        p.dims@,
        key,
    );
}

} // verus!
