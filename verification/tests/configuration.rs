use std::cmp::Ordering;
use xenwooting::bindings::{bind_actions, bind_bar, bind_controllers, control_keys, BindError};
use xenwooting::config::{
    override_tuples, ActionBindings, BoardConfig, Config, ControlBarConfig, HidOverride,
    LayoutConfig, OneOrManyU8, RgbConfig,
};
use xenwooting::control::Action;
use xenwooting::hid;
use xenwooting::hid::HidNames;
use xenwooting::layouts::{position_of, reload_layouts, switch_to, Preview, PreviewStep, Reload};
use xenwooting::natural::{natural_cmp, sort_layouts};
use xenwooting::text::IntError;

fn board(device_id: Option<&str>, wtn_board: u8) -> BoardConfig {
    BoardConfig {
        device_id: device_id.map(|s| s.to_string()),
        wtn_board,
        rotation_deg: 0,
        mirror_cols: false,
        meta_x: 0,
        meta_y: 0,
        cc_analog_hid: None,
        cc_analog_cc: None,
    }
}

fn layout(id: &str, name: &str) -> LayoutConfig {
    LayoutConfig {
        id: id.to_string(),
        name: name.to_string(),
        wtn_path: format!("wtn/{}.wtn", id),
        edo_divisions: 12,
        pitch_offset: 0,
    }
}

fn ids(v: &Vec<LayoutConfig>) -> Vec<&str> {
    v.iter().map(|l| l.id.as_str()).collect()
}

#[test]
fn device_numbers_are_read_or_explained() {
    assert_eq!(board(None, 0).device_id_u64().unwrap(), None);
    assert_eq!(
        board(Some(" 16353264950129218108 "), 0).device_id_u64().unwrap(),
        Some(16353264950129218108)
    );
    let e = board(Some("18446744073709551616"), 0).device_id_u64().unwrap_err();
    assert_eq!(e.cause, IntError::TooLarge);
    assert_eq!(
        e.message(),
        "Invalid device_id '18446744073709551616': number too large to fit in target type"
    );
    let e = board(Some("12x"), 0).device_id_u64().unwrap_err();
    assert_eq!(e.message(), "Invalid device_id '12x': invalid digit found in string");
    let e = board(Some("  "), 0).device_id_u64().unwrap_err();
    assert_eq!(e.message(), "Invalid device_id '  ': cannot parse integer from empty string");
    for text in ["", "+", "-", "-1", "+7", "99999999999999999999x", "x99999999999999999999", "0"] {
        let want = text.parse::<u64>().map_err(|e| e.to_string());
        let got =
            board(Some(text), 0).device_id_u64().map(|n| n.unwrap()).map_err(|e| e.cause.message());
        assert_eq!(got.map_err(|m| m.to_string()), want, "{}", text);
    }
}

#[test]
fn boards_have_their_analog_controllers() {
    assert_eq!(board(None, 0).cc_analog(), Some(("LeftMeta".to_string(), 4)));
    assert_eq!(board(None, 1).cc_analog(), Some(("LeftMeta".to_string(), 3)));
    assert_eq!(board(None, 2).cc_analog(), None);
    let mut b = board(None, 2);
    b.cc_analog_hid = Some("Space".to_string());
    b.cc_analog_cc = Some(11);
    assert_eq!(b.cc_analog(), Some(("Space".to_string(), 11)));
}

#[test]
fn one_or_many_is_a_list() {
    assert_eq!(OneOrManyU8::One(7).as_vec(), vec![7]);
    assert_eq!(OneOrManyU8::Many(vec![4, 5]).as_vec(), vec![4, 5]);
}

#[test]
fn light_devices_are_looked_up_by_board() {
    let mut rgb = RgbConfig::default();
    assert!(rgb.enabled);
    assert_eq!(rgb.screensaver_timeout_sec, 300);
    assert_eq!(rgb.highlight_hex, "FFFFFF");
    assert_eq!(rgb.rgb_device_index_for_wtn_board(1), 1);
    rgb.device_index_by_wtn_board = vec![("1".to_string(), 0), ("10".to_string(), 5)];
    assert_eq!(rgb.rgb_device_index_for_wtn_board(1), 0);
    assert_eq!(rgb.rgb_device_index_for_wtn_board(10), 5);
    assert_eq!(rgb.rgb_device_index_for_wtn_board(0), 0);
}

#[test]
fn first_run_configuration() {
    let c = Config::first_run();
    assert_eq!(c.midi_out_name, "XenWTN");
    assert_eq!((c.velocity_peak_track_ms, c.aftershock_ms), (6, 35));
    assert_eq!((c.aftertouch_speed_attack_ms, c.aftertouch_speed_decay_ms), (12, 250));
    assert_eq!((c.boards[0].wtn_board, c.boards[0].rotation_deg, c.boards[0].meta_y), (0, 0, 5));
    assert_eq!((c.boards[1].wtn_board, c.boards[1].rotation_deg, c.boards[1].meta_x), (1, 180, 2));
    assert_eq!(c.layouts[0].wtn_path, "wtn/edo12.wtn");
    assert_eq!(c.control_bar.row, 5);
    assert_eq!(c.actions.by_action.len(), 4);
    assert!(c.named_output_dir().is_none());
    let mut c = c;
    c.output_dir = Some("  ".to_string());
    assert!(c.named_output_dir().is_none());
    c.output_dir = Some(" /tmp/x ".to_string());
    assert_eq!(c.named_output_dir(), Some("/tmp/x".to_string()));
}

#[test]
fn sort_keys_fall_back_to_the_id() {
    assert_eq!(layout("a", "Name").sort_key(), ("Name", "a"));
    assert_eq!(layout("a", " \t").sort_key(), ("a", "a"));
}

#[test]
fn names_are_in_natural_order() {
    assert_eq!(natural_cmp("EDO 5", "edo 12"), Ordering::Less);
    assert_eq!(natural_cmp("edo 12", "EDO 5"), Ordering::Greater);
    assert_eq!(natural_cmp("abc", "ABC"), Ordering::Equal);
    assert_eq!(natural_cmp("a", "a1"), Ordering::Less);
    assert_eq!(natural_cmp("a1b", "a1"), Ordering::Greater);
    assert_eq!(natural_cmp("a01", "a1"), Ordering::Less);
    assert_eq!(natural_cmp("1a", "a"), Ordering::Less);
    assert_eq!(natural_cmp("", ""), Ordering::Equal);
    assert_eq!(natural_cmp("", "x"), Ordering::Less);
    assert_eq!(natural_cmp("\u{e9}2", "\u{e9}10"), Ordering::Less);
}

#[test]
fn numbers_beyond_bounds_go_round_in_a_ring() {
    let big = "50000000000000000000000";
    assert_eq!(natural_cmp("10", big), Ordering::Less);
    assert_eq!(natural_cmp(big, "9"), Ordering::Less);
    assert_eq!(natural_cmp("9", "10"), Ordering::Less);
}

#[test]
fn layouts_are_sorted_and_ties_stay() {
    let v = vec![
        layout("z", "31-EDO"),
        layout("y", "5-EDO"),
        layout("x10", ""),
        layout("x9", " "),
        layout("Q", "same"),
        layout("q", "SAME"),
        layout("p", "same"),
    ];
    assert_eq!(ids(&sort_layouts(v)), vec!["y", "z", "p", "Q", "q", "x9", "x10"]);
}

#[test]
fn reloaded_layouts_keep_the_one_that_is_played() {
    let old = sort_layouts(vec![layout("a", "a"), layout("b", "b"), layout("c", "c")]);
    assert!(matches!(reload_layouts(&old, 1, vec![]), Reload::Empty));
    assert!(matches!(
        reload_layouts(&old, 1, vec![layout("c", "c"), layout("a", "a"), layout("b", "b")]),
        Reload::Same
    ));
    match reload_layouts(&old, 1, vec![layout("c", "c"), layout("b", "0"), layout("d", "d")]) {
        Reload::New { layouts, index } => {
            assert_eq!(ids(&layouts), vec!["b", "c", "d"]);
            assert_eq!(index, 0);
        }
        _ => panic!("not new"),
    }
    match reload_layouts(&old, 2, vec![layout("a", "a"), layout("c", "c")]) {
        Reload::New { index, .. } => assert_eq!(index, 1),
        _ => panic!("not new"),
    }
    match reload_layouts(&old, 1, vec![layout("a", "a"), layout("c", "c")]) {
        Reload::New { index, .. } => assert_eq!(index, 0),
        _ => panic!("not new"),
    }
}

#[test]
fn layouts_are_found_by_id() {
    let v = vec![layout("a", "x"), layout("b", "y"), layout("b", "z")];
    assert_eq!(position_of(&v, "b"), Some(1));
    assert_eq!(position_of(&v, "c"), None);
    assert_eq!(switch_to(&v, 0, &Some("b".to_string())), Some(1));
    assert_eq!(switch_to(&v, 1, &Some("b".to_string())), None);
    assert_eq!(switch_to(&v, 1, &None), None);
}

#[test]
fn previews_follow_their_file() {
    let mut p = Preview::new();
    assert_eq!(p.read(false, Some("ignored")), PreviewStep::Same);
    assert_eq!(p.read(true, Some(" edo31 \n")), PreviewStep::On);
    assert_eq!(p.layout_id, Some("edo31".to_string()));
    assert_eq!(p.read(true, Some("edo31")), PreviewStep::Same);
    assert_eq!(p.read(true, Some("  ")), PreviewStep::On);
    assert_eq!(p.layout_id, None);
    assert_eq!(p.read(true, None), PreviewStep::Same);
    assert_eq!(p.read(false, None), PreviewStep::Off);
    assert!(!p.leave());
    p.read(true, Some("a"));
    p.unpin();
    assert!(p.enabled && p.layout_id.is_none());
    assert!(p.leave());
    assert!(!p.enabled);
}

#[test]
fn names_in_the_configuration_become_keys() {
    let names = HidNames::load();
    let a = bind_actions(&names, &ActionBindings::default_with_sane_keys().by_action).unwrap();
    assert_eq!(a.get(hid::RIGHT_CTRL), Some(&Action::LayoutPrev));
    assert_eq!(a.get(hid::RIGHT_ALT), Some(&Action::LayoutNext));
    assert_eq!(a.get(hid::LEFT_ALT), Some(&Action::OctaveDown));
    assert_eq!(a.get(hid::CONTEXT_MENU), Some(&Action::OctaveUp));
    let twice = vec![
        ("octave_up".to_string(), "A".to_string()),
        ("dance".to_string(), "a".to_string()),
    ];
    assert_eq!(bind_actions(&names, &twice).unwrap().get(hid::A), Some(&Action::Other));
    let bad = vec![("octave_up".to_string(), "Nope".to_string())];
    assert_eq!(bind_actions(&names, &bad).unwrap_err().name, "Nope");

    let bar = bind_bar(&names, &ControlBarConfig::default().led_cols_by_hid).unwrap();
    assert_eq!(bar.get(hid::SPACE), Some(&vec![4, 5, 6, 7, 8]));
    assert_eq!(bar.get(hid::RIGHT_CTRL), Some(&vec![12]));
    assert!(bind_bar(&names, &vec![("Nope".to_string(), OneOrManyU8::One(1))]).is_err());

    let ccs = bind_controllers(&names, &vec![board(Some("77"), 0), board(None, 1)]).unwrap();
    assert_eq!(ccs.get(77), Some(&(hid::LEFT_META, 4)));
    assert_eq!(ccs.entries.len(), 1);

    let skip = control_keys(&bar, &a, &ccs);
    for code in [hid::SPACE, hid::LEFT_META, hid::ARROW_LEFT, hid::ARROW_DOWN, hid::ARROW_RIGHT] {
        assert!(skip.contains(code));
    }
    assert!(!skip.contains(hid::A));
}

#[test]
fn wrong_controllers_are_explained() {
    let names = HidNames::load();
    match bind_controllers(&names, &vec![board(Some("no"), 0)]) {
        Err(BindError::Device(e)) => assert_eq!(e.device_id, "no"),
        _ => panic!("no device error"),
    }
    let mut b = board(Some("5"), 0);
    b.cc_analog_hid = Some("Nope".to_string());
    let e = bind_controllers(&names, &vec![board(Some("no"), 2), b]).unwrap_err();
    assert_eq!(e.message(), "Unknown HID key name: Nope");
}

#[test]
fn overrides_are_passed_on() {
    let v = vec![HidOverride { hid: "A".to_string(), midi_row: 1, midi_col: 2, led_row: 3, led_col: 4 }];
    assert_eq!(override_tuples(&v), vec![("A".to_string(), 1, 2, 3, 4)]);
}
