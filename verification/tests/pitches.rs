use std::collections::hash_map::DefaultHasher;
use std::hash::{Hash, Hasher};
use xenwooting::byte_order::ByteOrder;
use xenwooting::guide::{guide_signature, Guide, GuideCfg, GuideStep};
use xenwooting::midi::{bend_value, board_channels, panic_all, ControlChange, LastSent};
use xenwooting::modes::{control_bar_rgb_for_tm, AftertouchMode, TrainerMode};
use xenwooting::pitch::{
    chord_classes_of, compute_layout_pitches, dim_with, guide_idle_rgb, out_channel,
    pitch_class_of, pitch_of, tuning_tables, GuideMode,
};
use xenwooting::table::KeySet;
use xenwooting::wtn::{fresh_wtn, parse_wtn};

#[test]
fn channels_are_octaves() {
    assert_eq!(out_channel(1, 0), 0);
    assert_eq!(out_channel(0, 0), 0);
    assert_eq!(out_channel(16, 0), 15);
    assert_eq!(out_channel(16, 1), 15);
    assert_eq!(out_channel(3, -5), 0);
    assert_eq!(out_channel(3, 2), 4);
    assert_eq!(out_channel(255, 0), 15);
    assert_eq!(pitch_of(2, 31, 60, -5), 117);
    assert_eq!(pitch_of(15, i32::MAX, 255, i32::MAX), 15 * 2147483647 + 255 + 2147483647);
}

#[test]
fn classes_are_within_the_octave() {
    assert_eq!(pitch_class_of(25, 12), 1);
    assert_eq!(pitch_class_of(-1, 12), 11);
    assert_eq!(pitch_class_of(-24, 12), 0);
    assert_eq!(pitch_class_of(25, -12), 1);
    assert_eq!(pitch_class_of(-1, -12), -13);
}

#[test]
fn layout_pitches_follow_the_octave() {
    let w = parse_wtn(&fresh_wtn()).unwrap();
    let p = compute_layout_pitches(&w, 12, 3, 2);
    assert_eq!(p.board0.len(), 56);
    assert_eq!(p.board0[0], Some(24 + 12 + 3));
    assert_eq!(p.board1[55], Some(24 + 68 + 55 + 3));
    let only0 = parse_wtn("[Board0]\nKey_1=5\n").unwrap();
    let p = compute_layout_pitches(&only0, 12, 0, 0);
    assert_eq!(p.board0[1], Some(5));
    assert_eq!(p.board1, vec![None; 56]);
}

#[test]
fn tuning_tables_have_all_channels() {
    let t = tuning_tables(31, -7);
    assert_eq!(t.general.len(), 128);
    assert_eq!(t.general[127], 120);
    assert_eq!(t.channels.len(), 16);
    assert_eq!(t.channels[15][3], 15 * 31 + 3 - 7);
}

fn halves() -> Vec<u8> {
    (0..=255u8).map(|x| x / 2).collect()
}

#[test]
fn guides_dim_what_is_not_in_the_chord() {
    let dims = halves();
    let mut pcs: KeySet<i64> = KeySet::new();
    pcs.insert(4);
    let base = (200, 100, 50);
    let dim = (100, 50, 25);
    assert_eq!(dim_with(base, &dims), dim);
    assert_eq!(guide_idle_rgb(base, 5, 12, 0, GuideMode::Off, &pcs, &dims), base);
    assert_eq!(guide_idle_rgb(base, 4, 12, 0, GuideMode::WaitRoot, &pcs, &dims), dim);
    assert_eq!(guide_idle_rgb(base, 5, 12, 0, GuideMode::Active, &pcs, &dims), dim);
    assert_eq!(guide_idle_rgb(base, 5, 12, 11, GuideMode::Active, &pcs, &dims), base);
    assert_eq!(guide_idle_rgb(base, 4, 0, 0, GuideMode::Active, &pcs, &dims), dim);
}

fn order() -> ByteOrder {
    if 1u16.to_ne_bytes() == 1u16.to_le_bytes() {
        ByteOrder::Little
    } else {
        ByteOrder::Big
    }
}

fn chord(enabled: bool, key: &str) -> GuideCfg {
    GuideCfg {
        enabled,
        layout_id: None,
        chord_key: Some(key.to_string()),
        pcs_root: Some(vec![0, 4, 7]),
        dim_milli: 200,
    }
}

#[test]
fn guides_wait_for_a_root() {
    let mut g = Guide::new();
    assert_eq!(g.read(order(), None), GuideStep::StillOff);
    assert_eq!(g.read(order(), None), GuideStep::Same);
    assert_eq!(g.read(order(), Some(chord(true, "maj"))), GuideStep::Enabled);
    assert_eq!(g.mode, GuideMode::WaitRoot);
    assert!(g.choose_root(70, 0, 12));
    assert_eq!((g.mode, g.root_pc), (GuideMode::Active, Some(10)));
    for pc in [10, 2, 5] {
        assert!(g.pcs_abs.contains(pc));
    }
    assert!(!g.pcs_abs.contains(0));
    assert!(!g.choose_root(60, 0, 12));
    assert_eq!(g.read(order(), Some(chord(true, "maj"))), GuideStep::Same);
    assert_eq!(g.read(order(), Some(chord(false, "maj"))), GuideStep::Disabled);
    assert_eq!(g.mode, GuideMode::Off);
    assert_eq!(g.read(order(), Some(chord(true, "min"))), GuideStep::Enabled);
    assert_eq!(g.read(order(), None), GuideStep::Removed);
    assert!(!g.leave());
}

#[test]
fn guide_signatures_tell_changes() {
    let a = guide_signature(order(), &Some(chord(true, "maj")));
    let mut h = DefaultHasher::new();
    true.hash(&mut h);
    "maj".hash(&mut h);
    for x in [0i32, 4, 7, 200] {
        x.hash(&mut h);
    }
    assert_eq!(a, h.finish());
    assert_eq!(a, guide_signature(order(), &Some(chord(true, "maj"))));
    assert!(a != guide_signature(order(), &Some(chord(true, "min"))));
    assert!(a != guide_signature(order(), &Some(chord(false, "maj"))));
    assert!(a != guide_signature(order(), &None));
    let mut c = chord(true, "maj");
    c.pcs_root = Some(vec![0, 4, -7]);
    assert!(a != guide_signature(order(), &Some(c)));
}

#[test]
fn chords_are_moved_to_their_root() {
    let s = chord_classes_of(&vec![0, 4, 7, -1], 10, 12);
    let mut v = s.items.clone();
    v.sort();
    assert_eq!(v, vec![2, 5, 9, 10]);
}

#[test]
fn modes_have_names_and_colours() {
    assert_eq!(AftertouchMode::SpeedMapped.name(), "speed-mapped");
    assert_eq!(AftertouchMode::PeakMapped.name(), "peak-mapped");
    assert_eq!(AftertouchMode::Off.name(), "off");
    assert_eq!(AftertouchMode::SpeedMapped.next().next().next(), AftertouchMode::SpeedMapped);
    assert_eq!(control_bar_rgb_for_tm(TrainerMode::Off), (255, 0, 0));
    assert_eq!(control_bar_rgb_for_tm(TrainerMode::Wait), (0, 0, 0));
    assert_eq!(control_bar_rgb_for_tm(TrainerMode::Active), (0, 255, 0));
    assert_eq!(GuideMode::WaitRoot.name(), "wait_root");
    assert_eq!(GuideMode::WaitRoot.trainer(), TrainerMode::Wait);
}

#[test]
fn everything_is_silenced_on_every_channel() {
    let v = panic_all();
    assert_eq!(v.len(), 48);
    assert_eq!(v[0], ControlChange { ch: 0, cc: 64, value: 0 });
    assert_eq!(v[1], ControlChange { ch: 0, cc: 120, value: 0 });
    assert_eq!(v[47], ControlChange { ch: 15, cc: 123, value: 0 });
}

#[test]
fn bends_are_kept_in_range() {
    assert_eq!(bend_value(-9000), -8192);
    assert_eq!(bend_value(9000), 8191);
    assert_eq!(bend_value(17), 17);
}

#[test]
fn boards_use_the_channels_of_their_cells() {
    let w = parse_wtn("[Board0]\nChan_0=3\nChan_1=1\nChan_2=16\n").unwrap();
    assert_eq!(board_channels(&w, 0, 0), vec![0, 2, 15]);
    assert_eq!(board_channels(&w, 0, 1), vec![1, 3, 15]);
    assert!(board_channels(&w, 1, 0).is_empty());
}

#[test]
fn values_are_sent_when_they_change() {
    let mut s = LastSent::new();
    assert_eq!(s.send(7, &vec![0, 2], 5, -1), vec![0, 2]);
    assert!(s.send(7, &vec![0, 2], 5, -1).is_empty());
    assert_eq!(s.send(7, &vec![0, 3], 5, -1), vec![3]);
    assert_eq!(s.send(8, &vec![0], 5, -1), vec![0]);
    assert!(s.send(9, &vec![0], -1, -1).is_empty());
    s.forget(7);
    assert_eq!(s.send(7, &vec![0, 2], 5, -1), vec![0, 2]);
    assert!(s.send(8, &vec![0], 5, -1).is_empty());
}
