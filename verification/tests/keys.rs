use xenwooting::hid;
use xenwooting::hid::{parse_hid_name, HidNames};
use xenwooting::hidmap::{
    compute_compact_col_offsets, logical_loc, mirror_cols_4x14, rotate_4x14, wtn_index_for_loc,
    GridError, HidMap, KeyLoc,
};

#[test]
fn key_names_have_their_codes() {
    for (name, code) in [
        ("Escape", hid::ESCAPE),
        ("N1", hid::N1),
        ("N2", hid::N2),
        ("N3", hid::N3),
        ("N4", hid::N4),
        ("N5", hid::N5),
        ("N6", hid::N6),
        ("N7", hid::N7),
        ("N8", hid::N8),
        ("N9", hid::N9),
        ("N0", hid::N0),
        ("Minus", hid::MINUS),
        ("Equal", hid::EQUAL),
        ("Backspace", hid::BACKSPACE),
        ("Tab", hid::TAB),
        ("Q", hid::Q),
        ("W", hid::W),
        ("E", hid::E),
        ("R", hid::R),
        ("T", hid::T),
        ("Y", hid::Y),
        ("U", hid::U),
        ("I", hid::I),
        ("O", hid::O),
        ("P", hid::P),
        ("BracketLeft", hid::BRACKET_LEFT),
        ("BracketRight", hid::BRACKET_RIGHT),
        ("Backslash", hid::BACKSLASH),
        ("CapsLock", hid::CAPS_LOCK),
        ("A", hid::A),
        ("S", hid::S),
        ("D", hid::D),
        ("F", hid::F),
        ("G", hid::G),
        ("H", hid::H),
        ("J", hid::J),
        ("K", hid::K),
        ("L", hid::L),
        ("Semicolon", hid::SEMICOLON),
        ("Quote", hid::QUOTE),
        ("Enter", hid::ENTER),
        ("LeftShift", hid::LEFT_SHIFT),
        ("Z", hid::Z),
        ("X", hid::X),
        ("C", hid::C),
        ("V", hid::V),
        ("B", hid::B),
        ("N", hid::N),
        ("M", hid::M),
        ("Comma", hid::COMMA),
        ("Period", hid::PERIOD),
        ("Slash", hid::SLASH),
        ("RightShift", hid::RIGHT_SHIFT),
        ("LeftCtrl", hid::LEFT_CTRL),
        ("LeftMeta", hid::LEFT_META),
        ("LeftAlt", hid::LEFT_ALT),
        ("Space", hid::SPACE),
        ("RightAlt", hid::RIGHT_ALT),
        ("ContextMenu", hid::CONTEXT_MENU),
        ("RightCtrl", hid::RIGHT_CTRL),
        ("ArrowLeft", hid::ARROW_LEFT),
        ("ArrowDown", hid::ARROW_DOWN),
        ("ArrowRight", hid::ARROW_RIGHT),
    ] {
        assert_eq!(parse_hid_name(name).ok(), Some(code), "{}", name);
    }
    assert_eq!(parse_hid_name("eScApE").ok(), Some(hid::ESCAPE));
}

#[test]
fn unknown_key_names_are_errors() {
    let e = parse_hid_name("Fn").unwrap_err();
    assert_eq!(e.message(), "Unknown HID key name: Fn");
    let names = HidNames::load();
    assert!(names.knows(hid::A));
    assert!(!names.knows(0));
}

#[test]
fn wide_keys_have_their_leds_at_the_end() {
    let m = HidMap::default_60he_ansi_guess();
    assert_eq!(m.all_locs().len(), 53);
    assert_eq!(
        m.loc_for(hid::RIGHT_SHIFT),
        Some(KeyLoc { midi_row: 3, midi_col: 11, led_row: 4, led_col: 13 })
    );
    assert_eq!(
        m.loc_for(hid::ENTER),
        Some(KeyLoc { midi_row: 2, midi_col: 12, led_row: 3, led_col: 13 })
    );
    assert_eq!(
        m.loc_for(hid::Z),
        Some(KeyLoc { midi_row: 3, midi_col: 1, led_row: 4, led_col: 2 })
    );
    assert_eq!(
        m.loc_for(hid::ESCAPE),
        Some(KeyLoc { midi_row: 0, midi_col: 0, led_row: 1, led_col: 0 })
    );
    assert_eq!(m.loc_for(hid::SPACE), None);
}

#[test]
fn overrides_move_keys_up_to_the_first_unknown() {
    let mut m = HidMap::default_60he_ansi_guess();
    let r = m.apply_overrides(&[
        ("space".to_string(), 3, 5, 5, 6),
        ("A".to_string(), 0, 1, 2, 3),
        ("NoSuchKey".to_string(), 0, 0, 0, 0),
        ("B".to_string(), 9, 9, 9, 9),
    ]);
    assert_eq!(r.unwrap_err().name, "NoSuchKey");
    assert_eq!(
        m.loc_for(hid::SPACE),
        Some(KeyLoc { midi_row: 3, midi_col: 5, led_row: 5, led_col: 6 })
    );
    assert_eq!(m.loc_for(hid::A), Some(KeyLoc { midi_row: 0, midi_col: 1, led_row: 2, led_col: 3 }));
    assert_eq!(m.loc_for(hid::B), Some(KeyLoc { midi_row: 3, midi_col: 5, led_row: 4, led_col: 6 }));
    assert!(m.apply_overrides(&[]).is_ok());
}

#[test]
fn turning_and_mirroring_move_the_note_not_the_led() {
    let loc = KeyLoc { midi_row: 1, midi_col: 2, led_row: 2, led_col: 5 };
    let turned = KeyLoc { midi_row: 2, midi_col: 11, led_row: 2, led_col: 5 };
    assert_eq!(rotate_4x14(loc, 0), Ok(loc));
    assert_eq!(rotate_4x14(loc, 180), Ok(turned));
    assert_eq!(rotate_4x14(turned, 180), Ok(loc));
    let mirrored = KeyLoc { midi_row: 1, midi_col: 11, led_row: 2, led_col: 5 };
    assert_eq!(mirror_cols_4x14(loc, true), Ok(mirrored));
    assert_eq!(mirror_cols_4x14(mirrored, true), Ok(loc));
    assert_eq!(mirror_cols_4x14(loc, false), Ok(loc));
    assert_eq!(
        logical_loc(loc, 180, true),
        Ok(KeyLoc { midi_row: 2, midi_col: 2, led_row: 2, led_col: 5 })
    );
}

#[test]
fn wrong_mountings_are_errors() {
    let off = KeyLoc { midi_row: 4, midi_col: 0, led_row: 0, led_col: 0 };
    assert_eq!(rotate_4x14(off, 0), Ok(off));
    assert_eq!(rotate_4x14(off, 180), Err(GridError::OutOfBounds));
    assert_eq!(mirror_cols_4x14(off, true), Err(GridError::OutOfBounds));
    assert_eq!(rotate_4x14(off, 90), Err(GridError::UnsupportedRotation(90)));
    assert_eq!(
        GridError::UnsupportedRotation(90).message(),
        "Unsupported rotation_deg 90; use 0 or 180"
    );
    assert_eq!(GridError::OutOfBounds.message(), "KeyLoc out of 4x14 bounds");
}

#[test]
fn rows_are_counted_from_their_first_key() {
    let m = HidMap::default_60he_ansi_guess();
    assert_eq!(compute_compact_col_offsets(&m, 0, false), [0, 0, 0, 0]);
    let offs = compute_compact_col_offsets(&m, 180, false);
    assert_eq!(offs, [2, 1, 0, 0]);
    let index = |code: u8| {
        wtn_index_for_loc(logical_loc(m.loc_for(code).unwrap(), 180, false).unwrap(), &offs)
    };
    assert_eq!(index(hid::RIGHT_SHIFT), Some(0));
    assert_eq!(index(hid::LEFT_SHIFT), Some(11));
    assert_eq!(index(hid::ENTER), Some(14));
    assert_eq!(index(hid::CAPS_LOCK), Some(26));
    assert_eq!(index(hid::BACKSLASH), Some(28));
    assert_eq!(index(hid::ESCAPE), Some(55));
    assert_eq!(compute_compact_col_offsets(&m, 90, false), [0, 0, 0, 0]);
}

#[test]
fn places_off_the_grid_have_no_cell() {
    let loc = |r, c| KeyLoc { midi_row: r, midi_col: c, led_row: 0, led_col: 0 };
    assert_eq!(wtn_index_for_loc(loc(4, 0), &[0; 4]), None);
    assert_eq!(wtn_index_for_loc(loc(0, 14), &[0; 4]), None);
    assert_eq!(wtn_index_for_loc(loc(1, 2), &[0, 3, 0, 0]), None);
    assert_eq!(wtn_index_for_loc(loc(1, 3), &[0, 3, 0, 0]), Some(14));
    assert_eq!(wtn_index_for_loc(loc(3, 13), &[0; 4]), Some(55));
}
