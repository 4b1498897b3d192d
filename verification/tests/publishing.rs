use std::collections::hash_map::DefaultHasher;
use std::collections::VecDeque;
use std::hash::Hasher;
use xenwooting::board::Board;
use xenwooting::byte_order::ByteOrder;
use xenwooting::config::{LayoutConfig, RgbConfig};
use xenwooting::devices::{
    analog_device_id_from_serial, compute_rgb_index_by_device_id, is_keyboard_entry, parse_uevent,
    read_uevent, rebuild_rgb_index_map, uevent_is_on_boundaries, HidDevice, UeventReading,
};
use xenwooting::dump::DebugEvent;
use xenwooting::gate::EdgeKind;
use xenwooting::lag::Lag;
use xenwooting::live::{LiveMode, LivePublisher};
use xenwooting::modes::AftertouchMode;
use xenwooting::pitch::GuideMode;
use xenwooting::rgb_worker::{
    note_critical, LightProgress, LightStep, RgbKey, RgbWorker, SendOutcome,
};
use xenwooting::table::{KeySet, Table};
use xenwooting::wtn::{fresh_wtn, parse_wtn};

const MS: u64 = 1_000_000;

fn order() -> ByteOrder {
    if 1u16.to_ne_bytes() == 1u16.to_le_bytes() {
        ByteOrder::Little
    } else {
        ByteOrder::Big
    }
}

fn mode() -> LiveMode {
    LiveMode {
        press_threshold_bits: 1,
        aftertouch: AftertouchMode::Off,
        speed_max_bits: 2,
        velocity_profile: "linear".to_string(),
        octave_shift: 0,
        screensaver_active: false,
        preview_enabled: false,
        guide_mode: GuideMode::Off,
        guide_chord_key: None,
        guide_root_pc: None,
    }
}

fn layouts() -> Vec<LayoutConfig> {
    vec![LayoutConfig {
        id: "edo12".to_string(),
        name: "12-EDO".to_string(),
        wtn_path: String::new(),
        edo_divisions: 12,
        pitch_offset: -3,
    }]
}

#[test]
fn states_are_published_when_they_change() {
    let w = parse_wtn(&fresh_wtn()).unwrap();
    let ls = layouts();
    let mut p = LivePublisher::new(order());
    let mut pressed: KeySet<i64> = KeySet::new();
    let none: KeySet<i64> = KeySet::new();
    let first = p.maybe_publish(&w, &ls, 0, &mode(), &pressed, &none, 0).unwrap();
    assert_eq!(first.seq, 1);
    assert_eq!(p.layout_key, "edo12:12:-3:0");
    assert_eq!(p.layout_pitches.board0[0], Some(9));
    assert!(p.maybe_publish(&w, &ls, 0, &mode(), &pressed, &none, 900 * MS).is_none());
    p.mark_mode_dirty();
    assert!(p.maybe_publish(&w, &ls, 0, &mode(), &pressed, &none, 900 * MS).is_none());
    assert!(!p.dirty_mode);
    for x in [9i64, -2, 40] {
        pressed.insert(x);
    }
    p.mark_pressed_dirty();
    let second = p.maybe_publish(&w, &ls, 0, &mode(), &pressed, &none, 1000 * MS).unwrap();
    assert_eq!((second.seq, second.pressed0, second.pressed1), (2, vec![-2, 9, 40], vec![]));
    pressed.remove(9);
    p.mark_pressed_dirty();
    assert!(p.maybe_publish(&w, &ls, 0, &mode(), &pressed, &none, 1032 * MS).is_none());
    assert!(p.maybe_publish(&w, &ls, 0, &mode(), &pressed, &none, 1033 * MS).is_some());
    assert!(p.maybe_publish(&w, &ls, 7, &mode(), &pressed, &none, 2000 * MS).is_none());
}

#[test]
fn mode_changes_wait_their_turn() {
    let w = parse_wtn(&fresh_wtn()).unwrap();
    let ls = layouts();
    let none: KeySet<i64> = KeySet::new();
    let mut p = LivePublisher::new(order());
    assert!(p.maybe_publish(&w, &ls, 0, &mode(), &none, &none, 0).is_some());
    let mut m = mode();
    m.octave_shift = -1;
    p.mark_mode_dirty();
    assert!(p.maybe_publish(&w, &ls, 0, &m, &none, &none, 14 * MS).is_none());
    assert!(p.dirty_mode);
    assert_eq!(p.maybe_publish(&w, &ls, 0, &m, &none, &none, 15 * MS).unwrap().seq, 2);
    assert_eq!(p.layout_key, "edo12:12:-3:-1");
    p.mark_layout_dirty();
    assert_eq!(p.layout_key, "");
    let other = parse_wtn("[Board0]\nKey_0=99\n").unwrap();
    assert!(p.maybe_publish(&other, &ls, 0, &m, &none, &none, 99 * MS).is_some());
    assert_eq!(p.layout_pitches.board0[0], Some(96));
}

#[test]
fn published_states_are_not_sent_again() {
    let w = parse_wtn(&fresh_wtn()).unwrap();
    let ls = layouts();
    let none: KeySet<i64> = KeySet::new();
    let mut p = LivePublisher::new(order());
    let first = p.maybe_publish(&w, &ls, 0, &mode(), &none, &none, 5 * MS).unwrap();
    assert_eq!(first.layout_pitches.board0, p.layout_pitches.board0);
    assert_eq!((p.last_pressed_ns, p.last_mode_ns), (Some(5 * MS), Some(5 * MS)));
    p.mark_mode_dirty();
    assert!(p.maybe_publish(&w, &ls, 0, &mode(), &none, &none, 5 * MS).is_none());
    assert!(!p.dirty_mode && !p.dirty_pressed);
    assert_eq!(p.seq, 1);
    let mut pressed: KeySet<i64> = KeySet::new();
    pressed.insert(3);
    p.mark_pressed_dirty();
    assert!(p.maybe_publish(&w, &ls, 0, &mode(), &pressed, &none, 6 * MS).is_none());
    assert!(p.dirty_pressed);
    assert!(p.maybe_publish(&w, &ls, 0, &mode(), &pressed, &none, 38 * MS).is_some());
    let other = parse_wtn("[Board0]\nKey_0=99\n").unwrap();
    p.mark_mode_dirty();
    assert!(p.maybe_publish(&other, &ls, 0, &mode(), &pressed, &none, 99 * MS).is_none());
    assert_eq!(p.layout_pitches.board0[0], Some(9));
    p.mark_layout_dirty();
    let fresh = p.maybe_publish(&other, &ls, 0, &mode(), &pressed, &none, 99 * MS).unwrap();
    assert_eq!(fresh.layout_pitches.board0[0], Some(96));
    assert_eq!(fresh.layout_pitches.board1, vec![None; 56]);
}

#[test]
fn lag_is_counted_and_reported() {
    let mut l = Lag::new();
    assert!(!l.is_reported(None, 0));
    assert_eq!(l.note(EdgeKind::Down, 100 * MS, 149 * MS), 49);
    assert!(!l.is_reported(None, 0));
    assert_eq!(l.note(EdgeKind::Update, 0, 250 * MS), 250);
    assert_eq!(l.note(EdgeKind::Up, 9 * MS, 0), 0);
    assert_eq!(
        l,
        Lag { edges: 3, updates: 1, downup: 2, max_ms: 250, over50: 1, over200: 1 }
    );
    assert!(l.is_reported(None, 0));
    assert!(!l.is_reported(Some(MS), 2000 * MS));
    assert!(l.is_reported(Some(MS), 2001 * MS));
    l.note(EdgeKind::Up, 0, 500 * MS);
    assert!(l.is_reported(Some(MS), 2 * MS));
}

const UEVENT: &str = "DRIVER=hid-generic\nHID_ID=0003:000031E3:00001342\nHID_PHYS=usb-1/input0\nHID_UNIQ=A02B2106\n";

#[test]
fn keyboards_are_told_by_the_system() {
    assert!(is_keyboard_entry("0003:31E3:1342.0001"));
    assert!(!is_keyboard_entry("0003:31e3:1342.0001"));
    assert!(!is_keyboard_entry("31E3"));
    let d = parse_uevent(UEVENT).unwrap();
    assert_eq!((d.serial.as_str(), d.vid, d.pid, d.phys.as_str()), ("A02B2106", 0x31E3, 0x1342, "usb-1/input0"));
    assert!(parse_uevent("HID_UNIQ=\nHID_ID=0003:000031E3:00001342\nHID_PHYS=x\n").is_none());
    assert!(parse_uevent("HID_UNIQ=a\nHID_ID=0003:000031E3\nHID_PHYS=x\n").is_none());
    assert!(parse_uevent("HID_UNIQ=a\nHID_ID=0003:zzzz:1342\nHID_PHYS=x\n").is_none());
    assert!(parse_uevent("HID_UNIQ=a\nHID_ID=3:1:1342\nHID_PHYS=x\n").is_none());
    let cut = "HID_ID=3:1\u{20ac}23:1342\n";
    assert!(!uevent_is_on_boundaries("HID_ID=3:\u{20ac}\u{20ac}:1342\n"));
    assert!(uevent_is_on_boundaries(UEVENT));
    assert!(matches!(read_uevent("HID_ID=3:\u{20ac}\u{20ac}:1342\n"), UeventReading::Cut));
    assert!(matches!(read_uevent(cut), UeventReading::Cut));
    assert!(matches!(read_uevent(""), UeventReading::Partial));
}

fn device(serial: &str, phys: &str) -> HidDevice {
    HidDevice { serial: serial.to_string(), vid: 0x31E3, pid: 0x1342, phys: phys.to_string() }
}

fn id(serial: &str) -> u64 {
    analog_device_id_from_serial(order(), serial, 0x31E3, 0x1342)
}

#[test]
fn device_numbers_come_from_the_serial() {
    let mut h = DefaultHasher::new();
    h.write_u16(0x31E3);
    h.write_u16(0x1342);
    h.write("A02B2106".as_bytes());
    assert_eq!(id("A02B2106"), h.finish());
    assert!(id("A02B2106") != id("A02B2107"));
    let mut h = DefaultHasher::new();
    h.write(&[0x31, 0xE3]);
    h.write(&[0x13, 0x42]);
    h.write("A02B2106".as_bytes());
    let big = analog_device_id_from_serial(ByteOrder::Big, "A02B2106", 0x31E3, 0x1342);
    assert_eq!(big, h.finish());
}

#[test]
fn numbers_are_bytes_in_the_order_of_the_machine() {
    assert_eq!(ByteOrder::Little.two_bytes(0x0102), vec![2, 1]);
    assert_eq!(ByteOrder::Big.two_bytes(0x0102), vec![1, 2]);
    assert_eq!(order().four_bytes(0x0102_0304), 0x0102_0304u32.to_ne_bytes().to_vec());
    assert_eq!(order().eight_bytes(7 << 40), (7u64 << 40).to_ne_bytes().to_vec());
    for x in [0i32, 1, -1, -300, i32::MAX, i32::MIN] {
        assert_eq!(order().signed_bytes(x as i64), x.to_ne_bytes().to_vec());
    }
}

#[test]
fn states_are_told_apart_by_their_parts() {
    let w = parse_wtn("[Board0]\nKey_0=60\n").unwrap();
    let ls = layouts();
    let mut p = LivePublisher::new(order());
    let mut pressed: KeySet<i64> = KeySet::new();
    pressed.insert(9);
    pressed.insert(-2);
    let none: KeySet<i64> = KeySet::new();
    let mut m = mode();
    m.octave_shift = -1;
    m.guide_mode = GuideMode::WaitRoot;
    m.guide_chord_key = Some("maj".to_string());
    assert!(p.maybe_publish(&w, &ls, 0, &m, &pressed, &none, 0).is_some());
    let mut h = DefaultHasher::new();
    for (name, v) in
        [("Board0", &p.layout_pitches.board0), ("Board1", &p.layout_pitches.board1)]
    {
        h.write(name.as_bytes());
        for x in v {
            h.write_i32(x.map_or(i32::MIN, |n| n as i32));
        }
    }
    assert_eq!(p.layout_pitches_hash, h.finish());
    let mut h = DefaultHasher::new();
    h.write("edo12:12:-3:-1".as_bytes());
    h.write_u64(p.layout_pitches_hash);
    h.write_u32(1);
    h.write("off".as_bytes());
    h.write_u32(2);
    h.write("linear".as_bytes());
    h.write_i8(-1);
    h.write_u8(0);
    h.write_u8(0);
    h.write_u8(1);
    h.write("maj".as_bytes());
    h.write_i32(i32::MIN);
    h.write_i32(-2);
    h.write_i32(9);
    h.write_u8(0);
    assert_eq!(p.last_hash, h.finish());
}

#[test]
fn published_states_show_layout_and_settings() {
    let w = parse_wtn(&fresh_wtn()).unwrap();
    let mut ls = layouts();
    ls.push(LayoutConfig {
        id: "b".to_string(),
        name: "Second".to_string(),
        wtn_path: String::new(),
        edo_divisions: 31,
        pitch_offset: 4,
    });
    let none: KeySet<i64> = KeySet::new();
    let mut p = LivePublisher::new(order());
    let mut m = mode();
    m.screensaver_active = true;
    m.guide_mode = GuideMode::Active;
    m.guide_chord_key = Some("maj".to_string());
    m.guide_root_pc = Some(7);
    let s = p.maybe_publish(&w, &ls, 1, &m, &none, &none, 0).unwrap();
    assert_eq!((s.version, s.seq), (1, 1));
    assert_eq!((s.layout.id.as_str(), s.layout.name.as_str()), ("b", "Second"));
    assert_eq!((s.layout.edo, s.layout.pitch_offset), (31, 4));
    assert_eq!((s.mode.press_threshold_bits, s.mode.speed_max_bits), (1, 2));
    assert_eq!((s.mode.aftertouch.as_str(), s.mode.guide_mode.as_str()), ("off", "active"));
    assert_eq!(s.mode.velocity_profile, "linear");
    assert_eq!((s.mode.octave_shift, s.mode.screensaver_active), (0, true));
    assert!(!s.mode.preview_enabled);
    assert_eq!((s.mode.guide_chord_key, s.mode.guide_root_pc), (Some("maj".to_string()), Some(7)));
}

#[test]
fn lights_are_numbered_by_where_they_are_plugged_in() {
    let devices = vec![
        device("b", "usb-2/input1"),
        device("a", "usb-3/input0"),
        device("b", "usb-2/input0"),
        device("b", "usb-9/input0"),
        device("c", "usb-1/input0"),
        device("x", "usb-0/input0"),
    ];
    let mut configured: KeySet<u64> = KeySet::new();
    for s in ["a", "b", "c"] {
        configured.insert(id(s));
    }
    let m = compute_rgb_index_by_device_id(order(), &devices, &configured, 3);
    assert_eq!(m.get(id("c")), Some(&0));
    assert_eq!(m.get(id("b")), Some(&1));
    assert_eq!(m.get(id("a")), Some(&2));
    let m = compute_rgb_index_by_device_id(order(), &devices, &configured, 2);
    assert_eq!(m.get(id("a")), None);
    assert!(compute_rgb_index_by_device_id(order(), &devices, &configured, 0).entries.is_empty());
}

#[test]
fn the_order_of_the_list_does_not_matter() {
    let mut configured: KeySet<u64> = KeySet::new();
    for s in ["a", "b", "c"] {
        configured.insert(id(s));
    }
    let forth = vec![device("a", "p2"), device("b", "p1"), device("c", "p3")];
    let back = vec![device("c", "p3"), device("b", "p1"), device("a", "p2")];
    let x = compute_rgb_index_by_device_id(order(), &forth, &configured, 3);
    let y = compute_rgb_index_by_device_id(order(), &back, &configured, 3);
    for s in ["a", "b", "c"] {
        assert_eq!(x.get(id(s)), y.get(id(s)));
    }
    assert_eq!(x.get(id("b")), Some(&0));
    let forth = vec![device("a", "p5"), device("b", "p2"), device("a", "p1"), device("a", "p5")];
    let back = vec![device("a", "p1"), device("a", "p5"), device("b", "p2")];
    for list in [forth, back] {
        let m = compute_rgb_index_by_device_id(order(), &list, &configured, 3);
        assert_eq!((m.get(id("a")), m.get(id("b"))), (Some(&0), Some(&1)));
    }
}

#[test]
fn lights_fall_back_to_the_configuration() {
    let mut boards: Table<u64, Board> = Table::new();
    boards.insert(5, Board { wtn_board: 1, rotation_deg: 0, mirror_cols: false, offs: [0; 4] });
    let none: KeySet<u64> = KeySet::new();
    let mut rgb = RgbConfig::default();
    rgb.device_index_by_wtn_board = vec![("1".to_string(), 4)];
    let m = rebuild_rgb_index_map(order(), true, &vec![], &none, 2, &boards, &rgb);
    assert_eq!(m.get(5), Some(&4));
    let m = rebuild_rgb_index_map(order(), false, &vec![], &none, 2, &boards, &rgb);
    assert!(m.entries.is_empty());
    let mut configured: KeySet<u64> = KeySet::new();
    configured.insert(id("a"));
    let found = vec![device("a", "p")];
    let m = rebuild_rgb_index_map(order(), true, &found, &configured, 2, &boards, &rgb);
    assert_eq!((m.get(5), m.get(id("a"))), (None, Some(&0)));
}

fn light(device_index: u8) -> RgbKey {
    RgbKey { device_index, row: 1, col: 2, rgb: (3, 4, 5) }
}

#[test]
fn workers_select_and_flush_their_devices() {
    let mut w = RgbWorker::new(0);
    let none = LightProgress::Counted { count: 0 };
    let two = LightProgress::Counted { count: 2 };
    let selected = LightProgress::Selected { ok: true };
    assert_eq!(w.step(light(0), LightProgress::Arrived), LightStep::Count);
    assert_eq!(w.step(light(0), none), LightStep::NoDevices { first: true });
    assert_eq!(w.step(light(0), none), LightStep::NoDevices { first: false });
    assert_eq!(w.step(light(2), two), LightStep::OutOfRange);
    assert_eq!(w.step(light(1), two), LightStep::Select);
    assert_eq!(w.step(light(1), LightProgress::Selected { ok: false }), LightStep::Done);
    assert_eq!(w.step(light(1), LightProgress::Arrived), LightStep::Count);
    assert_eq!(w.step(light(1), selected), LightStep::SetLight);
    assert_eq!(w.step(light(1), LightProgress::Tried { ok: false }), LightStep::Done);
    assert!(w.flush(16 * MS).is_empty());
    assert_eq!(w.step(light(1), LightProgress::Arrived), LightStep::SetLight);
    assert_eq!(w.step(light(1), LightProgress::Tried { ok: true }), LightStep::Done);
    assert!(w.flush(31 * MS).is_empty());
    assert_eq!(w.flush(32 * MS), vec![1]);
    assert!(w.flush(48 * MS).is_empty());
}

#[test]
fn dropped_lights_are_noted() {
    let mut ring: VecDeque<DebugEvent> = VecDeque::new();
    let mut drops: u64 = 0;
    note_critical(SendOutcome::Sent, &mut ring, 1, &mut drops, "CFG", "a");
    note_critical(SendOutcome::Full, &mut ring, 2, &mut drops, "CFG", "b");
    note_critical(SendOutcome::Disconnected, &mut ring, 3, &mut drops, "CFG", "c");
    let got: Vec<String> = ring.iter().map(|e| format!("{} {}", e.t_ms, e.msg)).collect();
    assert_eq!(got, vec!["1 RGB ok a", "2 RGB DROP b", "2 CFG", "3 RGB DISCONNECTED c"]);
    assert_eq!(drops, 1);
}
