use xenwooting::board::{assign_boards, mount_boards, Board};
use xenwooting::byte_order::ByteOrder;
use xenwooting::config::{BoardConfig, LayoutConfig};
use xenwooting::control::{
    action_of, bar_key_of, layout_next, layout_prev, Action, BarKey, Controls, Setting,
};
use xenwooting::gate::{EdgeKind, Gate, Passage};
use xenwooting::guide::{Guide, GuideCfg, GuideStep};
use xenwooting::hid;
use xenwooting::hidmap::{GridError, HidMap};
use xenwooting::highlight::{apply_highlight, parse_highlight, Highlight};
use xenwooting::layouts::Preview;
use xenwooting::modes::AftertouchMode;
use xenwooting::notes::{ping_voices, Due, KeyId, Notes, Release, Voice};
use xenwooting::paint::{Shading, Stage};
use xenwooting::pitch::GuideMode;
use xenwooting::player::{chord_step, ChordStep, Lift, Player, Reach};
use xenwooting::rgb_worker::RgbKey;
use xenwooting::table::{KeySet, Table};
use xenwooting::tracking::{peak_track_ns, LedState, Tick, Tracks};
use xenwooting::wtn::{fresh_wtn, parse_wtn};

const MS: u64 = 1_000_000;

fn board(device_id: Option<&str>, wtn_board: u8, rotation_deg: u16) -> BoardConfig {
    BoardConfig {
        device_id: device_id.map(|s| s.to_string()),
        wtn_board,
        rotation_deg,
        mirror_cols: false,
        meta_x: 0,
        meta_y: 0,
        cc_analog_hid: None,
        cc_analog_cc: None,
    }
}

fn key(device_id: u64, hid: u8) -> KeyId {
    KeyId { device_id, hid }
}

fn led(device_index: u8, row: u8, col: u8, rgb: (u8, u8, u8)) -> RgbKey {
    RgbKey { device_index, row, col, rgb }
}

#[test]
fn boards_go_to_their_devices_first() {
    let boards = vec![board(None, 0, 0), board(Some("20"), 1, 180), board(Some("x"), 2, 0)];
    let r = assign_boards(&boards, &vec![10, 20, 30, 40]);
    assert_eq!(r.get(20), Some(&1));
    assert_eq!(r.get(10), Some(&0));
    assert_eq!(r.get(30), Some(&2));
    assert_eq!(r.get(40), None);
    let m = mount_boards(&boards, &vec![10], &HidMap::default_60he_ansi_guess());
    assert_eq!(m.get(20).unwrap().offs, [2, 1, 0, 0]);
    assert_eq!(m.get(20).unwrap().rotation_deg, 180);
    assert_eq!(m.get(10).unwrap().offs, [0, 0, 0, 0]);
}

fn stage() -> Stage {
    let hid_map = HidMap::default_60he_ansi_guess();
    let boards =
        mount_boards(&vec![board(Some("1"), 0, 0), board(Some("2"), 1, 180)], &vec![], &hid_map);
    let mut rgb_map: Table<u64, u8> = Table::new();
    rgb_map.insert(1, 0);
    rgb_map.insert(2, 1);
    let mut bar_cols: Table<u8, Vec<u8>> = Table::new();
    bar_cols.insert(hid::LEFT_CTRL, vec![0]);
    bar_cols.insert(hid::SPACE, vec![4, 5]);
    bar_cols.insert(hid::RIGHT_ALT, vec![10]);
    bar_cols.insert(hid::CONTEXT_MENU, vec![11]);
    bar_cols.insert(hid::RIGHT_CTRL, vec![12]);
    Stage { enabled: true, hid_map, boards, rgb_map, bar_row: 5, bar_cols }
}

fn layout(id: &str, edo: i32) -> LayoutConfig {
    LayoutConfig {
        id: id.to_string(),
        name: id.to_string(),
        wtn_path: String::new(),
        edo_divisions: edo,
        pitch_offset: 0,
    }
}

fn player() -> Player {
    let mut actions: Table<u8, Action> = Table::new();
    actions.insert(hid::RIGHT_CTRL, Action::LayoutPrev);
    actions.insert(hid::CONTEXT_MENU, Action::OctaveUp);
    Player {
        stage: stage(),
        gate: Gate::new(0),
        controls: Controls::new(false),
        armed: KeySet::new(),
        guide: Guide::new(),
        preview: Preview::new(),
        notes: Notes::new(),
        tracks: Tracks::new(),
        actions,
        highlight_rgb: (255, 255, 255),
        layouts: vec![layout("a", 12), layout("b", 31), layout("c", 19)],
        layout_index: 0,
        wtn: parse_wtn(&fresh_wtn()).unwrap(),
        dims: (0..=255u8).map(|x| x / 2).collect(),
    }
}

fn shown(cmds: &Vec<RgbKey>, dev: u8, row: u8, col: u8) -> Option<(u8, u8, u8)> {
    cmds.iter().rev().find(|k| k.device_index == dev && k.row == row && k.col == col).map(|k| k.rgb)
}

#[test]
fn base_paint_covers_cells_and_bars() {
    let mut p = player();
    p.controls.hold.insert(1);
    p.armed.insert(2);
    let v = p.base_lights(true);
    assert_eq!(v.len(), 2 * (53 + 14 + 2 + 2 + 1));
    assert_eq!(shown(&v, 0, 4, 13), Some((0x30, 0x30, 0x30)));
    assert_eq!(shown(&v, 0, 4, 12), None);
    assert_eq!(shown(&v, 0, 5, 4), Some((255, 255, 255)));
    assert_eq!(shown(&v, 1, 5, 4), Some((255, 0, 0)));
    assert_eq!(shown(&v, 1, 5, 12), Some((255, 255, 0)));
    assert_eq!(shown(&v, 0, 5, 12), Some((255, 0, 0)));
    assert_eq!(shown(&v, 0, 5, 13), Some((255, 0, 0)));
    assert_eq!(p.base_lights(false).len(), 2 * 53);
    p.stage.enabled = false;
    assert!(p.base_lights(true).is_empty());
}

#[test]
fn bars_show_the_aftertouch_mode() {
    let mut p = player();
    let at = |p: &Player| {
        shown(&p.stage.paint_control_bar((1, 2, 3), &p.marks()), 0, 5, 10).unwrap()
    };
    assert_eq!(at(&p), (1, 2, 3));
    p.controls.aftertouch = AftertouchMode::PeakMapped;
    assert_eq!(at(&p), (255, 255, 0));
    p.controls.aftertouch = AftertouchMode::Off;
    assert_eq!(at(&p), (0, 128, 255));
}

#[test]
fn lights_out_reaches_every_led() {
    let v = stage().paint_off();
    assert_eq!(v.len(), 2 * (53 + 14));
    assert!(v.iter().all(|k| k.rgb == (0, 0, 0)));
}

#[test]
fn shading_lights_the_chord() {
    let mut pcs: KeySet<i64> = KeySet::new();
    pcs.insert(0);
    let sh = Shading {
        mode: GuideMode::Active,
        edo: 12,
        pitch_offset: 0,
        pcs,
        dims: vec![7; 256],
    };
    let p = player();
    let v = p.stage.paint_guide(&p.wtn, &sh, &p.marks());
    assert_eq!(shown(&v, 0, 1, 0), Some((0x30, 0x30, 0x30)));
    assert_eq!(shown(&v, 0, 1, 1), Some((7, 7, 7)));
    assert_eq!(shown(&v, 0, 5, 0), Some((0, 255, 0)));
    let off = Shading::plain();
    assert!(p.stage.paint_guide(&p.wtn, &off, &p.marks()).is_empty());
}

#[test]
fn waking_key_does_nothing_else() {
    let mut g = Gate::new(0);
    assert!(!g.idle(true, 300, 299_999 * MS));
    assert!(!g.idle(false, 300, 300_000 * MS));
    assert!(!g.idle(true, 0, 300_000 * MS));
    assert!(g.idle(true, 300, 300_000 * MS));
    assert!(!g.idle(true, 300, 300_001 * MS));
    let a = key(1, hid::A);
    assert_eq!(g.pass(EdgeKind::Down, a, 300_002 * MS), Passage::Wake);
    assert_eq!(g.pass(EdgeKind::Update, a, 300_003 * MS), Passage::Blocked { ends: false });
    assert_eq!(g.pass(EdgeKind::Up, a, 300_004 * MS), Passage::Blocked { ends: true });
    assert_eq!(g.pass(EdgeKind::Down, a, 300_005 * MS), Passage::Through);
    assert!(g.is_pressed(a));
    assert!(!g.idle(true, 300, 900_000 * MS));
    assert!(!g.stir(900_001 * MS));
    assert_eq!(g.last_activity_ns, 900_001 * MS);
}

#[test]
fn ctrl_keys_make_a_chord() {
    let mut g = Gate::new(0);
    assert_eq!(g.pass(EdgeKind::Down, key(1, hid::LEFT_CTRL), 0), Passage::Through);
    assert_eq!(g.pass(EdgeKind::Down, key(2, hid::RIGHT_CTRL), 100 * MS), Passage::Through);
    assert_eq!(g.pass(EdgeKind::Down, key(1, hid::RIGHT_CTRL), 401 * MS), Passage::Through);
    assert_eq!(g.pass(EdgeKind::Down, key(1, hid::LEFT_CTRL), 801 * MS), Passage::Chord);
    assert_eq!(g.pass(EdgeKind::Up, key(1, hid::LEFT_CTRL), 802 * MS), Passage::Through);
}

#[test]
fn control_keys_set_things() {
    let mut c = Controls::new(true);
    assert_eq!(c.key_down(1, hid::ARROW_LEFT, 0), Setting::Threshold { up: false });
    assert_eq!(c.key_down(1, hid::ARROW_RIGHT, 0), Setting::Threshold { up: true });
    assert_eq!(c.key_down(1, hid::RIGHT_ALT, 0), Setting::Aftertouch);
    assert_eq!(c.aftertouch, AftertouchMode::SpeedMapped);
    assert_eq!(c.key_down(1, hid::RIGHT_ALT, 159 * MS), Setting::Bounced { since_ns: 159 * MS });
    assert_eq!(c.key_down(2, hid::RIGHT_ALT, 159 * MS), Setting::Aftertouch);
    assert_eq!(c.key_down(1, hid::RIGHT_ALT, 160 * MS), Setting::Aftertouch);
    assert_eq!(c.key_down(1, hid::RIGHT_ALT, 600 * MS), Setting::Aftertouch);
    assert_eq!(c.key_down(1, hid::ARROW_LEFT, 0), Setting::SpeedMax { up: false });
    assert_eq!(c.key_down(1, hid::ARROW_RIGHT, 0), Setting::SpeedMax { up: true });
    for want in [1, 2, 3, 4, 0] {
        assert_eq!(c.key_down(1, hid::ARROW_DOWN, 0), Setting::Profile);
        assert_eq!(c.profile, want);
    }
    assert_eq!(c.key_down(1, hid::SPACE, 0), Setting::Hold { on: true });
    assert_eq!((c.shift_of(1), c.shift_of(2)), (1, 0));
    assert_eq!(c.key_down(1, hid::SPACE, 0), Setting::Hold { on: false });
    assert_eq!(c.key_down(1, hid::A, 0), Setting::Nothing);
}

#[test]
fn octaves_stop_at_fifteen() {
    let mut c = Controls::new(false);
    for _ in 0..20 {
        c.octave_up();
    }
    assert_eq!(c.octave_shift, 15);
    for _ in 0..40 {
        c.octave_down();
    }
    assert_eq!(c.octave_shift, -15);
}

#[test]
fn layouts_are_stepped_through_in_a_ring() {
    assert_eq!((layout_next(0, 3), layout_next(2, 3)), (1, 0));
    assert_eq!((layout_prev(0, 3), layout_prev(2, 3)), (2, 1));
    assert_eq!((layout_next(0, 1), layout_prev(0, 1)), (0, 0));
}

#[test]
fn actions_go_by_name() {
    assert_eq!(action_of("layout_next"), Action::LayoutNext);
    assert_eq!(action_of("layout_prev"), Action::LayoutPrev);
    assert_eq!(action_of("octave_up"), Action::OctaveUp);
    assert_eq!(action_of("octave_down"), Action::OctaveDown);
    assert_eq!(action_of("Octave_up"), Action::Other);
}

#[test]
fn arrows_are_bar_keys() {
    let s = stage();
    assert_eq!(
        bar_key_of(&s.bar_cols, hid::ARROW_LEFT),
        Some(BarKey { led_hid: hid::RIGHT_ALT, flash: Some((0, 255, 255)) })
    );
    assert_eq!(
        bar_key_of(&s.bar_cols, hid::SPACE),
        Some(BarKey { led_hid: hid::SPACE, flash: None })
    );
    assert_eq!(bar_key_of(&s.bar_cols, hid::A), None);
}

#[test]
fn shared_notes_end_with_the_last_key() {
    let mut n = Notes::new();
    let v = Voice { ch: 1, note: 60 };
    n.note_on(key(1, hid::A), v, 0, Some(72));
    n.note_on(key(2, hid::B), v, 1, Some(72));
    assert!(n.is_playing(key(1, hid::A)));
    assert_eq!(n.release(key(1, hid::A)), Release::Shared { voice: v, count: 2 });
    assert_eq!(n.release(key(1, hid::A)), Release::Unmapped);
    assert_eq!(n.release(key(2, hid::B)), Release::Off { voice: v });
    assert!(n.count.entries.is_empty());
}

#[test]
fn shown_pitches_go_with_their_keys() {
    let mut n = Notes::new();
    n.note_on(key(1, hid::A), Voice { ch: 1, note: 60 }, 0, Some(72));
    n.note_on(key(2, hid::B), Voice { ch: 1, note: 61 }, 1, Some(73));
    n.note_on(key(3, hid::C), Voice { ch: 1, note: 62 }, 2, Some(74));
    assert_eq!((n.pressed0.items.clone(), n.pressed1.items.clone()), (vec![72], vec![73]));
    assert!(n.unshow(key(1, hid::A), 0));
    assert!(!n.unshow(key(1, hid::A), 0));
    assert!(n.pressed0.items.is_empty());
    n.silence(false);
    assert!(n.pressed1.items.is_empty() && n.by_key.entries.is_empty());
}

#[test]
fn taps_and_pings_end_when_they_are_due() {
    let mut n = Notes::new();
    let v = Voice { ch: 0, note: 72 };
    n.tap_on(key(1, hid::A), v, 0, 72, 20 * MS);
    n.ping_on(v, 60 * MS);
    assert!(matches!(n.next_due(19 * MS), Due::Nothing));
    assert!(matches!(n.next_due(20 * MS), Due::Shared { count: 1, .. }));
    assert!(matches!(n.next_due(20 * MS), Due::Nothing));
    match n.next_due(60 * MS) {
        Due::Off { end } => assert_eq!((end.voice, end.origin), (v, None)),
        _ => panic!("not ended"),
    }
    n.ping_on(v, 5);
    n.silence(false);
    assert!(matches!(n.next_due(5), Due::Gone));
    n.ping_on(v, 5);
    n.silence(true);
    assert!(matches!(n.next_due(5), Due::Nothing));
    assert_eq!(ping_voices().iter().map(|v| v.note).collect::<Vec<u8>>(), vec![72, 76, 79]);
}

#[test]
fn pressures_are_sent_when_they_change() {
    let mut n = Notes::new();
    let k = key(1, hid::A);
    assert!(n.pressure_differs(k, 0));
    assert!(!n.pressure_differs(k, 255));
    n.pressure_sent(k, 9);
    assert!(!n.pressure_differs(k, 9));
    n.forget_pressure(k);
    assert!(n.pressure_differs(k, 9));
    assert!(n.has_room(Voice { ch: 0, note: 0 }));
}

#[test]
fn peaks_are_followed_and_pressure_never_falls() {
    let mut t = Tracks::new();
    let k = key(1, hid::A);
    let v = Voice { ch: 0, note: 60 };
    assert_eq!(peak_track_ns(0), MS);
    assert_eq!(peak_track_ns(6), 6 * MS);
    t.press(k, 10, 100, v, false, None);
    t.update(k, 20, 150, Some(7));
    t.update(k, 30, 120, Some(5));
    let st = t.get(k).unwrap();
    assert_eq!((st.peak, st.last_level, st.peak_speed, st.last_level_ns), (150, 120, 7, 30));
    assert!(matches!(t.tick(k, 10 + 6 * MS - 1, 6 * MS, true), Tick::NotYet));
    assert!(matches!(t.tick(k, 10 + 6 * MS, 6 * MS, true), Tick::Fire(_)));
    t.restart(k, 7 * MS, 50, true);
    t.restart(k, 14 * MS, 40, true);
    let st = t.get(k).unwrap();
    assert_eq!((st.peak, st.peak_speed, st.at_level, st.playing), (120, 0, 50, true));
    assert!(matches!(t.tick(k, 30 * MS, 6 * MS, false), Tick::Fire(_)));
    t.press(k, 10, 100, v, false, None);
    assert!(matches!(t.tick(k, 30 * MS, 6 * MS, false), Tick::TooLate));
    assert!(t.get(k).is_none());
    assert!(t.release(k).is_none());
}

#[test]
fn edges_of_keyboards_without_a_board_end_there() {
    let mut p = player();
    let r = p.edge(EdgeKind::Down, key(9, hid::A), 0, false);
    assert_eq!(r.reach, Reach::NoBoard);
    let r = p.edge(EdgeKind::Down, key(9, hid::LEFT_CTRL), 0, false);
    assert_eq!(r.reach, Reach::NoBoard);
    let r = p.edge(EdgeKind::Down, key(9, hid::RIGHT_CTRL), 1, false);
    assert_eq!(r.reach, Reach::Chord { board: 1 });
}

#[test]
fn note_keys_are_pressed_and_let_go() {
    let mut p = player();
    let k = key(1, hid::N1);
    assert_eq!(p.edge(EdgeKind::Down, k, MS, false).reach, Reach::Note);
    let t = p.target_of(k).unwrap().unwrap();
    assert_eq!((t.voice, t.board), (Voice { ch: 0, note: 13 }, 0));
    assert_eq!((t.place.index, t.place.led_row, t.place.led_col), (1, 1, 1));
    let r = p.press(k, &t, MS, MS, 500);
    assert_eq!(r.highlight, Some(led(0, 1, 1, (255, 255, 255))));
    assert!(!r.root_chosen && r.lights.is_empty());
    assert_eq!(
        p.tracks.get(k).unwrap().led,
        Some(LedState { dev_idx: 0, row: 1, col: 1, base_rgb: (0x30, 0x30, 0x30) })
    );
    let r = p.lift(k, &t);
    assert_eq!(r.lift, Lift::Tap { voice: t.voice });
    assert_eq!(r.restore, Some(led(0, 1, 1, (0x30, 0x30, 0x30))));
    assert_eq!(p.lift(k, &t).lift, Lift::Untracked);
    p.press(k, &t, MS, MS, 500);
    p.notes.note_on(k, t.voice, 0, Some(p.pitch_shown(t.voice)));
    let r = p.lift(k, &t);
    assert_eq!(r.lift, Lift::Off { voice: t.voice });
    assert!(r.unshown);
    p.press(k, &t, MS, MS, 500);
    p.tracks.restart(k, 2 * MS, 0, true);
    assert_eq!(p.lift(k, &t).lift, Lift::Fallback { voice: t.voice });
    p.press(k, &t, MS, MS, 500);
    p.notes.note_on(k, t.voice, 0, None);
    p.notes.note_on(key(1, hid::A), t.voice, 0, None);
    assert_eq!(p.lift(k, &t).lift, Lift::Shared { voice: t.voice, count: 2 });
}

#[test]
fn notes_begin_when_their_peak_is_used() {
    let mut p = player();
    let k = key(2, hid::RIGHT_SHIFT);
    p.edge(EdgeKind::Down, k, MS, false);
    let t = p.target_of(k).unwrap().unwrap();
    assert_eq!((t.place.index, t.voice.note), (0, 68));
    p.press(k, &t, MS, MS, 500);
    p.key_moved(k, 2 * MS, 700, Some(9));
    assert!(matches!(p.key_tick(k, 6 * MS, 6 * MS), Tick::NotYet));
    match p.key_tick(k, 7 * MS, 6 * MS) {
        Tick::Fire(st) => assert_eq!((st.peak, st.peak_speed, st.playing), (700, 9, false)),
        _ => panic!("not its turn"),
    }
    p.key_used(k, 7 * MS, 30);
    assert!(!p.tracks.get(k).unwrap().playing);
    p.note_begun(k, 8 * MS, 40);
    let st = p.tracks.get(k).unwrap();
    assert_eq!((st.playing, st.at_level, st.started_ns), (true, 40, 8 * MS));
    assert_eq!(p.notes.pressed1.items, vec![68]);
    assert!(p.notes.pressed0.items.is_empty());
    p.key_used(k, 9 * MS, 20);
    assert_eq!(p.tracks.get(k).unwrap().at_level, 40);
    p.edge(EdgeKind::Up, k, 10 * MS, false);
    assert_eq!(p.lift(k, &t).lift, Lift::Off { voice: t.voice });
    assert!(p.notes.count.entries.is_empty());
    assert!(matches!(p.key_tick(k, 20 * MS, 6 * MS), Tick::NotYet));
}

#[test]
fn held_octaves_move_one_keyboard() {
    let mut p = player();
    let r = p.edge(EdgeKind::Down, key(2, hid::SPACE), 0, false);
    assert_eq!((r.reach, r.setting), (Reach::Setting, Setting::Hold { on: true }));
    assert_eq!(r.lights, vec![led(1, 5, 4, (255, 255, 255)), led(1, 5, 5, (255, 255, 255))]);
    assert_eq!(p.target_of(key(2, hid::Z)).unwrap().unwrap().voice.ch, 1);
    assert_eq!(p.target_of(key(1, hid::Z)).unwrap().unwrap().voice.ch, 0);
}

#[test]
fn wrong_mounts_are_told() {
    let mut p = player();
    p.stage.boards.insert(
        1,
        Board { wtn_board: 0, rotation_deg: 90, mirror_cols: false, offs: [0; 4] },
    );
    assert_eq!(p.target_of(key(1, hid::A)).err(), Some(GridError::UnsupportedRotation(90)));
    assert!(matches!(p.target_of(key(1, hid::SPACE)), Ok(None)));
    assert!(matches!(p.target_of(key(7, hid::A)), Ok(None)));
}

#[test]
fn bar_keys_flash_and_go_back() {
    let mut p = player();
    let r = p.edge(EdgeKind::Down, key(1, hid::CONTEXT_MENU), 0, false);
    assert_eq!(r.reach, Reach::Action { action: Action::OctaveUp });
    assert_eq!(r.lights, vec![led(0, 5, 11, (255, 255, 255))]);
    let r = p.edge(EdgeKind::Up, key(1, hid::CONTEXT_MENU), 1, false);
    assert_eq!(r.reach, Reach::Bar);
    assert_eq!(shown(&r.lights, 0, 5, 11), Some((255, 0, 0)));
    assert_eq!(r.lights.len(), 1 + 2 + 2 + 1);
    let r = p.edge(EdgeKind::Down, key(1, hid::ARROW_DOWN), 0, false);
    assert_eq!((r.reach, r.setting), (Reach::Bar, Setting::Profile));
    assert_eq!(r.lights, vec![led(0, 5, 11, (0, 255, 255))]);
    p.armed.insert(1);
    let r = p.edge(EdgeKind::Down, key(1, hid::LEFT_CTRL), 0, false);
    assert_eq!(shown(&r.lights, 0, 5, 0), Some((255, 255, 0)));
    p.stage.rgb_map.remove(1);
    assert_eq!(p.edge(EdgeKind::Down, key(1, hid::CONTEXT_MENU), 0, false).reach, Reach::Unlit);
    assert_eq!(p.edge(EdgeKind::Down, key(2, hid::CONTEXT_MENU), 0, true).reach, Reach::Dumped);
}

#[test]
fn aftertouch_key_tells_the_other_keyboards() {
    let mut p = player();
    let r = p.edge(EdgeKind::Down, key(1, hid::RIGHT_ALT), 0, false);
    assert_eq!((r.reach, r.setting), (Reach::Setting, Setting::Aftertouch));
    assert_eq!(r.lights, vec![led(0, 5, 10, (255, 255, 255)), led(1, 5, 10, (255, 255, 0))]);
    let r = p.edge(EdgeKind::Down, key(1, hid::RIGHT_ALT), 1, false);
    assert_eq!(r.setting, Setting::Bounced { since_ns: 1 });
    assert!(r.lights.is_empty());
}

#[test]
fn resting_puts_the_lights_out_and_a_press_brings_them_back() {
    let mut p = player();
    assert!(p.rest(300, 299_000 * MS).is_none());
    p.preview.read(true, Some("b"));
    assert_eq!(p.rest(300, 300_000 * MS).unwrap().len(), 2 * (53 + 14));
    assert!(!p.preview.enabled);
    let r = p.edge(EdgeKind::Down, key(1, hid::A), 300_001 * MS, false);
    assert_eq!(r.reach, Reach::Wake);
    assert_eq!(r.lights, p.base_lights(true));
    let r = p.edge(EdgeKind::Up, key(1, hid::A), 300_002 * MS, false);
    assert_eq!(r.reach, Reach::Blocked { ends: true });
}

fn triad() -> Option<GuideCfg> {
    Some(GuideCfg {
        enabled: true,
        layout_id: Some("b".to_string()),
        chord_key: None,
        pcs_root: Some(vec![0, 10]),
        dim_milli: 200,
    })
}

#[test]
fn guides_take_their_root_from_a_press() {
    let mut p = player();
    p.preview.read(true, None);
    let r = p.read_guide(ByteOrder::Little, triad());
    assert_eq!((r.step, r.preview_left, r.switch), (GuideStep::Enabled, true, Some(1)));
    assert!(r.lights.is_empty());
    p.layout_index = 1;
    let (woke, lights) = p.show_guide(5);
    assert!(!woke);
    assert_eq!(shown(&lights, 0, 1, 0), Some((0x18, 0x18, 0x18)));
    assert_eq!(shown(&lights, 0, 5, 0), Some((0, 0, 0)));
    let k = key(1, hid::N1);
    let t = p.target_of(k).unwrap().unwrap();
    let r = p.press(k, &t, 6, 8, 1);
    assert!(r.root_chosen);
    assert_eq!((p.gate.last_activity_ns, p.tracks.get(k).unwrap().started_ns), (8, 6));
    assert_eq!(p.guide.root_pc, Some(13));
    assert_eq!(shown(&r.lights, 0, 1, 1), Some((0x30, 0x30, 0x30)));
    assert_eq!(shown(&r.lights, 0, 1, 11), Some((0x30, 0x30, 0x30)));
    assert_eq!(shown(&r.lights, 0, 1, 2), Some((0x18, 0x18, 0x18)));
    assert_eq!(shown(&r.lights, 0, 5, 0), Some((0, 255, 0)));
    assert!(p.has_octave());
    assert_eq!(p.read_guide(ByteOrder::Little, triad()).step, GuideStep::Same);
    let r = p.read_guide(ByteOrder::Little, None);
    assert_eq!(r.step, GuideStep::Removed);
    assert_eq!(r.lights, p.base_lights(true));
}

#[test]
fn guides_begin_without_lights_in_any_layout() {
    let mut p = player();
    p.stage.enabled = false;
    p.layouts[1].edo_divisions = 0;
    p.read_guide(ByteOrder::Little, triad());
    p.layout_index = 1;
    assert!(!p.has_octave());
    assert!(p.guide_lights().is_empty());
    assert!(p.show_guide(5).1.is_empty());
    assert_eq!(p.gate.last_activity_ns, 5);
}

#[test]
fn turns_send_pressures_and_begin_notes() {
    let mut p = player();
    let k = key(2, hid::RIGHT_SHIFT);
    assert!(!p.touches(k, true, 9, false));
    p.edge(EdgeKind::Down, k, MS, false);
    let t = p.target_of(k).unwrap().unwrap();
    p.press(k, &t, MS, MS, 500);
    p.controls.aftertouch = AftertouchMode::PeakMapped;
    assert!(!p.touches(k, false, 9, false));
    assert!(p.touches(k, true, 9, false));
    assert!(!p.touches(k, true, 9, true));
    assert!(!p.touches(k, true, 255, false));
    assert!(!p.end_turn(k, 2 * MS, 30, false));
    assert!(!p.tracks.get(k).unwrap().playing);
    assert!(p.end_turn(k, 3 * MS, 40, true));
    let st = p.tracks.get(k).unwrap();
    assert_eq!((st.playing, st.at_level, st.started_ns), (true, 40, 3 * MS));
    assert_eq!(p.notes.count.entries, vec![(t.voice, 1)]);
    assert!(p.touches(k, false, 9, false));
    p.notes.pressure_sent(k, 9);
    assert!(!p.touches(k, false, 9, false));
    assert!(p.touches(k, false, 10, false));
    p.controls.aftertouch = AftertouchMode::Off;
    assert!(!p.touches(k, false, 10, false));
    assert!(!p.end_turn(k, 4 * MS, 50, false));
    assert_eq!(p.notes.count.entries, vec![(t.voice, 1)]);
    assert_eq!(p.tracks.get(k).unwrap().at_level, 50);
}

#[test]
fn layout_keys_leave_the_guide_first() {
    let mut p = player();
    let r = p.layout_key(false);
    assert!(!r.guide_left && !r.preview_left);
    assert_eq!(p.layout_index, 2);
    p.layout_key(true);
    assert_eq!(p.layout_index, 0);
    p.read_guide(ByteOrder::Little, triad());
    let r = p.layout_key(true);
    assert!(r.guide_left);
    assert_eq!(p.layout_index, 0);
    assert_eq!(shown(&r.lights, 0, 5, 13), Some((255, 0, 0)));
}

#[test]
fn new_cells_recolour_held_keys() {
    let mut p = player();
    let k = key(1, hid::N1);
    let t = p.target_of(k).unwrap().unwrap();
    p.press(k, &t, 6, 8, 1);
    p.set_wtn(parse_wtn("[Board0]\nCol_1=010203\n").unwrap());
    assert_eq!(p.tracks.get(k).unwrap().led.unwrap().base_rgb, (1, 2, 3));
}

#[test]
fn chords_start_and_end_captures() {
    assert_eq!(chord_step(0, false, false), ChordStep::Start);
    assert_eq!(chord_step(0, true, true), ChordStep::Disarm);
    assert_eq!(chord_step(1, true, false), ChordStep::Flush { restart: false });
    assert_eq!(chord_step(1, true, true), ChordStep::Flush { restart: true });
    assert_eq!(chord_step(1, false, true), ChordStep::Dump);
    let mut p = player();
    let ids = p.board0_devices();
    assert_eq!(ids, vec![1]);
    assert_eq!(p.capture_trigger(), Some(1));
    p.stage.boards.insert(
        0,
        Board { wtn_board: 0, rotation_deg: 0, mirror_cols: false, offs: [0; 4] },
    );
    assert_eq!(p.capture_trigger(), Some(0));
    p.stage.boards.remove(0);
    let v = p.show_capture(&ids, true);
    assert_eq!(v, vec![led(0, 5, 0, (255, 255, 0)), led(0, 5, 12, (255, 255, 0))]);
    assert!(p.armed.contains(1));
    p.show_capture(&ids, false);
    assert!(!p.armed.contains(1));
}

#[test]
fn highlights_are_read_and_shown() {
    assert_eq!(
        parse_highlight("board=1\nidx= 3 \ndown=TRUE\n"),
        Highlight { board: Some(1), index: Some(3), down: Some(true) }
    );
    assert_eq!(
        parse_highlight("board=1\nboard=x\ndown=0\nother=1"),
        Highlight { board: None, index: None, down: Some(false) }
    );
    assert_eq!(parse_highlight("down=1").down, Some(true));
    let p = player();
    let h = parse_highlight("board=1\nidx=0\ndown=1");
    let (v, now) = apply_highlight(&p.stage, &p.wtn, &h, None, (9, 9, 9));
    assert_eq!(v, vec![led(1, 4, 13, (9, 9, 9))]);
    let off = parse_highlight("board=1\nidx=0\ndown=0");
    let (v, none) = apply_highlight(&p.stage, &p.wtn, &off, now, (9, 9, 9));
    assert_eq!(v, vec![led(1, 4, 13, (0x30, 0x30, 0x30))]);
    assert!(none.is_none());
    let far = parse_highlight("board=3\nidx=0\ndown=1");
    assert!(apply_highlight(&p.stage, &p.wtn, &far, None, (9, 9, 9)).0.is_empty());
}
