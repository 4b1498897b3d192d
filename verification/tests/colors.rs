use xenwooting::rgb::{hex_rgb_is_on_boundaries, parse_hex_rgb, HexError};

#[test]
fn colours_are_read_in_either_case() {
    assert_eq!(parse_hex_rgb("FF8000"), Ok((255, 128, 0)));
    assert_eq!(parse_hex_rgb("ff8000"), Ok((255, 128, 0)));
    assert_eq!(parse_hex_rgb("  ##0a0B0c \n"), Ok((10, 11, 12)));
}

#[test]
fn wrong_colours_tell_what_is_wrong() {
    assert_eq!(parse_hex_rgb(""), Err(HexError::Length));
    assert_eq!(parse_hex_rgb("FFF"), Err(HexError::Length));
    assert_eq!(parse_hex_rgb("GG0000"), Err(HexError::Red));
    assert_eq!(parse_hex_rgb("00GG00"), Err(HexError::Green));
    assert_eq!(parse_hex_rgb("0000GG"), Err(HexError::Blue));
    assert_eq!(parse_hex_rgb("+1+2+3"), Ok((1, 2, 3)));
    assert_eq!(HexError::Length.message(), "Expected RRGGBB");
    assert_eq!(HexError::Red.message(), "Invalid R");
    assert_eq!(HexError::Green.message(), "Invalid G");
    assert_eq!(HexError::Blue.message(), "Invalid B");
}

#[test]
fn cut_characters_are_noticed() {
    assert!(hex_rgb_is_on_boundaries("303030"));
    assert!(hex_rgb_is_on_boundaries("too long to be looked at"));
    assert!(!hex_rgb_is_on_boundaries("1\u{20ac}23"));
    assert_eq!(parse_hex_rgb("\u{e9}0000"), Err(HexError::Red));
}
