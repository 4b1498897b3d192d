use xenwooting::wtn::{fresh_wtn, parse_wtn, wtn_is_on_boundaries, WtnErrorKind};

#[test]
fn fresh_file_has_two_boards() {
    let text = fresh_wtn();
    assert!(text.starts_with("[Board0]\nKey_0=12\nChan_0=1\nCol_0=303030\nKey_1=13\n"));
    assert!(wtn_is_on_boundaries(&text));
    let w = parse_wtn(&text).unwrap();
    for i in 0..56usize {
        let a = w.cell(0, i).unwrap();
        assert_eq!((a.key, a.chan_1based, a.col_rgb), (12 + i as u8, 1, (0x30, 0x30, 0x30)));
        let b = w.cell(1, i).unwrap();
        assert_eq!((b.key, b.chan_1based, b.col_rgb), (68 + i as u8, 1, (0x30, 0x30, 0x30)));
    }
    assert!(w.cell(0, 56).is_none());
    assert!(w.cell(2, 0).is_none());
}

#[test]
fn entries_set_one_field_each() {
    let w = parse_wtn(
        "# a comment\n; another\n\n[Board3]\r\nKey_5 = 60\r\n Chan_5=16\nCol_5=#xxA0B1C2\nOther_5=1\nKey_56=1\n",
    )
    .unwrap();
    let c = w.cell(3, 5).unwrap();
    assert_eq!((c.key, c.chan_1based, c.col_rgb), (60, 16, (0xa0, 0xb1, 0xc2)));
    let d = w.cell(3, 4).unwrap();
    assert_eq!((d.key, d.chan_1based), (0, 0));
}

fn kind_and_message(text: &str) -> (WtnErrorKind, String) {
    match parse_wtn(text) {
        Ok(_) => panic!("no error"),
        Err(e) => (e.kind, e.message()),
    }
}

#[test]
fn each_error_names_its_line() {
    assert_eq!(
        kind_and_message("[Keys]\n"),
        (WtnErrorKind::UnknownSection, "Unknown section header: [Keys]".to_string())
    );
    assert_eq!(
        kind_and_message("[BoardX]\n"),
        (WtnErrorKind::BadBoardHeader, "Bad board header: [BoardX]".to_string())
    );
    assert_eq!(
        kind_and_message("Key_0=1\n"),
        (WtnErrorKind::NoBoardYet, "Key/value before any [BoardX] header".to_string())
    );
    assert_eq!(
        kind_and_message("[Board0]\nnonsense\n"),
        (WtnErrorKind::NotKeyValue, "Bad line (expected key=value): nonsense".to_string())
    );
    assert_eq!(
        kind_and_message("[Board0]\nKey0=1\n"),
        (WtnErrorKind::NotFieldIndex, "Bad key (expected Field_N): Key0".to_string())
    );
    assert_eq!(
        kind_and_message("[Board0]\nKey_x=1\n"),
        (WtnErrorKind::BadIndex, "Bad index: Key_x".to_string())
    );
    assert_eq!(
        kind_and_message("[Board0]\nKey_0=256\n"),
        (WtnErrorKind::BadKeyValue, "Bad Key value: Key_0=256".to_string())
    );
    assert_eq!(
        kind_and_message("[Board0]\nChan_0=-1\n"),
        (WtnErrorKind::BadChanValue, "Bad Chan value: Chan_0=-1".to_string())
    );
    assert_eq!(
        kind_and_message("[Board0]\nCol_0=123\n"),
        (WtnErrorKind::BadColor, "Bad Col: Col_0=123".to_string())
    );
}

#[test]
fn colours_cut_within_a_character_are_noticed() {
    assert!(!wtn_is_on_boundaries("[Board0]\nCol_0=\u{20ac}12345\n"));
    assert!(wtn_is_on_boundaries("[Board0]\nCol_0=\u{20ac}123456\n"));
}

fn shuffled_layout() -> String {
    let mut text = String::new();
    for b in [7u8, 2] {
        text.push_str(&format!("[Board{}]\n", b));
        for k in 0..56u32 {
            let i = (k * 25 + 3) % 56;
            text.push_str(&format!("Key_{}={}\n", i, i + b as u32));
            text.push_str(&format!("Chan_{}={}\n", i, 1 + i % 16));
            text.push_str(&format!("Col_{}={:02X}{:02X}{:02X}\n", i, i, 2 * i, 255 - i));
        }
    }
    text
}

#[test]
fn cells_are_read_in_any_order() {
    let w = parse_wtn(&shuffled_layout()).unwrap();
    assert_eq!(w.boards.len(), 2);
    for b in [2u8, 7] {
        for i in 0..56u8 {
            let c = w.cell(b, i as usize).unwrap();
            assert_eq!(
                (c.key, c.chan_1based, c.col_rgb),
                (i + b, 1 + i % 16, (i, 2 * i, 255 - i))
            );
        }
    }
}

#[test]
fn lines_without_effect_can_be_put_in() {
    let plain = shuffled_layout();
    let mut padded = String::from("\n# head\n");
    for line in plain.lines() {
        match line.split_once('=') {
            Some((k, v)) => padded.push_str(&format!("  {}  =\t{} \r\n", k, v)),
            None => padded.push_str(&format!("\t{} \n", line)),
        }
        padded.push_str("; note\n   \nKey_56=not a number\nCol_9999=\n");
    }
    let a = parse_wtn(&plain).unwrap();
    let b = parse_wtn(&padded).unwrap();
    assert_eq!(a.boards, b.boards);
    assert!(parse_wtn("Key_56=1\n").is_err());
}
