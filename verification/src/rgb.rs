//! Colours as text.
use vstd::prelude::*;
use vstd::slice::slice_subrange;
use crate::text;

verus! {

/// What six bytes of text say of a colour, two bytes to a channel.
pub enum HexChannels {
    Color(u8, u8, u8),
    BadRed,
    BadGreen,
    BadBlue,
    /// A channel would have to begin inside a character.
    OffBoundary,
}

/// Why a text is no `RRGGBB` colour.
#[derive(Debug, Clone, Copy, PartialEq, Eq, Structural)]
pub enum HexError {
    Length,
    Red,
    Green,
    Blue,
}

impl HexError {
    pub open spec fn text(self) -> Seq<char> {
        match self {
            HexError::Length => "Expected RRGGBB"@,
            HexError::Red => "Invalid R"@,
            HexError::Green => "Invalid G"@,
            HexError::Blue => "Invalid B"@,
        }
    }

    /// The error in words.
    pub fn message(&self) -> (r: &'static str)
        ensures
            r@ == self.text(),
    {
        match self {
            HexError::Length => "Expected RRGGBB",
            HexError::Red => "Invalid R",
            HexError::Green => "Invalid G",
            HexError::Blue => "Invalid B",
        }
    }
}

/// The number of characters that make up the first two bytes of `s`, where those end
/// at a character.
pub open spec fn two_bytes(s: Seq<char>) -> Option<int> {
    if s.len() >= 1 && text::utf8_width(s[0]) == 2 {
        Some(1)
    } else if s.len() >= 2 && text::utf8_width(s[0]) == 1 && text::utf8_width(s[1]) == 1 {
        Some(2)
    } else {
        None
    }
}

/// The channel that `s` writes as a hexadecimal number.
pub open spec fn channel(s: Seq<char>) -> Option<nat> {
    text::parse_unsigned(s, 16, 255)
}

/// What the text `s` says of a colour: red, green and blue are looked at in that order,
/// and the first that is wrong decides.
pub open spec fn hex_channels(s: Seq<char>) -> HexChannels {
    match two_bytes(s) {
        None => HexChannels::OffBoundary,
        Some(n) => match channel(s.take(n)) {
            None => HexChannels::BadRed,
            Some(r) => {
                let t = s.skip(n);
                match two_bytes(t) {
                    None => HexChannels::OffBoundary,
                    Some(m) => match channel(t.take(m)) {
                        None => HexChannels::BadGreen,
                        Some(g) => match channel(t.skip(m)) {
                            None => HexChannels::BadBlue,
                            Some(b) => HexChannels::Color(r as u8, g as u8, b as u8),
                        },
                    },
                }
            },
        },
    }
}

fn two_byte_chars(s: &[char]) -> (r: Option<usize>)
    ensures
        match two_bytes(s@) {
            Some(n) => r == Some(n as usize) && n <= s@.len(),
            None => r is None,
        },
{
    if s.len() >= 1 && text::utf8_width_of(s[0]) == 2 {
        Some(1)
    } else if s.len() >= 2 && text::utf8_width_of(s[0]) == 1 && text::utf8_width_of(s[1]) == 1 {
        Some(2)
    } else {
        None
    }
}

/// What the text `s` says of a colour.
pub fn read_hex_channels(s: &[char]) -> (c: HexChannels)
    ensures
        c == hex_channels(s@),
{
    let n: usize = match two_byte_chars(s) {
        Some(n) => n,
        None => return HexChannels::OffBoundary,
    };
    let r: u64 = match text::unsigned_of(slice_subrange(s, 0, n), 16, 255) {
        Some(v) => v,
        None => return HexChannels::BadRed,
    };
    let t = slice_subrange(s, n, s.len());
    let m: usize = match two_byte_chars(t) {
        Some(m) => m,
        None => return HexChannels::OffBoundary,
    };
    let g: u64 = match text::unsigned_of(slice_subrange(t, 0, m), 16, 255) {
        Some(v) => v,
        None => return HexChannels::BadGreen,
    };
    match text::unsigned_of(slice_subrange(t, m, t.len()), 16, 255) {
        Some(b) => HexChannels::Color(r as u8, g as u8, b as u8),
        None => HexChannels::BadBlue,
    }
}

/// `s` without its leading `#` signs.
pub open spec fn strip_hashes(s: Seq<char>) -> Seq<char>
    decreases s.len(),
{
    if s.len() > 0 && s[0] == '#' {
        strip_hashes(s.drop_first())
    } else {
        s
    }
}

/// The characters of `s` that are read as a colour.
pub open spec fn hex_rgb_body(s: Seq<char>) -> Seq<char> {
    strip_hashes(text::trim(s))
}

/// Whether each channel of `s` begins and ends at a character, as far as it is looked at.
pub open spec fn hex_rgb_on_boundaries(s: Seq<char>) -> bool {
    text::utf8_len(hex_rgb_body(s)) == 6 ==> !(hex_channels(hex_rgb_body(s)) is OffBoundary)
}

/// The colour that `s` writes, with white space around it and `#` signs before it left
/// out.
pub open spec fn hex_rgb(s: Seq<char>) -> Result<(u8, u8, u8), HexError> {
    if text::utf8_len(hex_rgb_body(s)) != 6 {
        Err(HexError::Length)
    } else {
        match hex_channels(hex_rgb_body(s)) {
            HexChannels::Color(r, g, b) => Ok((r, g, b)),
            HexChannels::BadRed => Err(HexError::Red),
            HexChannels::BadGreen => Err(HexError::Green),
            _ => Err(HexError::Blue),
        }
    }
}

fn without_hashes<'a>(s: &'a [char]) -> (r: &'a [char])
    ensures
        r@ == strip_hashes(s@),
{
    let n: usize = s.len();
    let mut i: usize = 0;
    assert(s@.skip(0) == s@);
    while i < n && s[i] == '#'
        invariant
            n == s@.len(),
            i <= n,
            strip_hashes(s@) == strip_hashes(s@.skip(i as int)),
        decreases n - i,
    {
        assert(s@.skip(i as int).drop_first() == s@.skip(i + 1));
        i += 1;
    }
    slice_subrange(s, i, n)
}

/// Whether [`parse_hex_rgb`] can be asked for the colour that `s` writes.
pub fn hex_rgb_is_on_boundaries(s: &str) -> (b: bool)
    ensures
        b == hex_rgb_on_boundaries(s@),
{
    let cs = text::chars_of(s);
    let body = without_hashes(text::trimmed(cs.as_slice()));
    if text::utf8_len_up_to(body, 7) != 6 {
        return true;
    }
    match read_hex_channels(body) {
        HexChannels::OffBoundary => false,
        _ => true,
    }
}

/// The colour that `s` writes as `RRGGBB`.
pub fn parse_hex_rgb(s: &str) -> (r: Result<(u8, u8, u8), HexError>)
    requires
        hex_rgb_on_boundaries(s@),
    ensures
        r == hex_rgb(s@),
{
    let cs = text::chars_of(s);
    let body = without_hashes(text::trimmed(cs.as_slice()));
    if text::utf8_len_up_to(body, 7) != 6 {
        return Err(HexError::Length);
    }
    match read_hex_channels(body) {
        HexChannels::Color(r, g, b) => Ok((r, g, b)),
        HexChannels::BadRed => Err(HexError::Red),
        HexChannels::BadGreen => Err(HexError::Green),
        _ => Err(HexError::Blue),
    }
}

/// The hexadecimal digit `d`.
pub open spec fn hex_char(d: int) -> char {
    if d < 10 {
        ('0' as u32 + d) as char
    } else {
        ('A' as u32 + d - 10) as char
    }
}

/// A colour as it is written.
pub open spec fn hex_color(rgb: (u8, u8, u8)) -> Seq<char> {
    seq![
        hex_char(rgb.0 as int / 16),
        hex_char(rgb.0 as int % 16),
        hex_char(rgb.1 as int / 16),
        hex_char(rgb.1 as int % 16),
        hex_char(rgb.2 as int / 16),
        hex_char(rgb.2 as int % 16),
    ]
}

proof fn lemma_hex_char(d: int)
    requires
        0 <= d < 16,
    ensures
        text::digit_value(hex_char(d)) == Some(d as nat),
        text::utf8_width(hex_char(d)) == 1,
        hex_char(d) != '+',
        hex_char(d) != '#',
        !text::is_space(hex_char(d)),
{
}

proof fn lemma_hex_pair(n: u8)
    ensures
        channel(seq![hex_char(n as int / 16), hex_char(n as int % 16)]) == Some(n as nat),
{
    let s = seq![hex_char(n as int / 16), hex_char(n as int % 16)];
    lemma_hex_char(n as int / 16);
    lemma_hex_char(n as int % 16);
    assert(s.drop_last() =~= seq![hex_char(n as int / 16)]);
    assert(s.drop_last().drop_last() =~= Seq::empty());
    reveal_with_fuel(text::digits_value, 3);
    assert(text::strip_plus(s) == s);
}

proof fn lemma_ascii_len(s: Seq<char>)
    requires
        forall|i: int| 0 <= i < s.len() ==> text::utf8_width(#[trigger] s[i]) == 1,
    ensures
        text::utf8_len(s) == s.len(),
        text::tail_chars(s, s.len()) == Some(s.len()),
    decreases s.len(),
{
    if s.len() > 0 {
        let front = s.drop_last();
        assert forall|i: int| 0 <= i < front.len() implies text::utf8_width(#[trigger] front[i])
            == 1 by {
            assert(front[i] == s[i]);
        }
        lemma_ascii_len(front);
        assert(text::utf8_width(s[s.len() - 1]) == 1);
    }
}

/// A colour that is written as six hexadecimal digits, with or without a `#` before them, is
/// read back.
pub proof fn color_reads_back(rgb: (u8, u8, u8))
    ensures
        hex_channels(hex_color(rgb)) == HexChannels::Color(rgb.0, rgb.1, rgb.2),
        hex_rgb(hex_color(rgb)) == Ok::<(u8, u8, u8), HexError>(rgb),
        hex_rgb(seq!['#'] + hex_color(rgb)) == Ok::<(u8, u8, u8), HexError>(rgb),
        text::utf8_len(hex_color(rgb)) == 6,
        text::tail_chars(hex_color(rgb), 6) == Some(6nat),
        forall|i: int|
            0 <= i < 6 ==> !text::is_space(#[trigger] hex_color(rgb)[i]) && hex_color(rgb)[i]
                != '#',
{
    let s = hex_color(rgb);
    lemma_hex_char(rgb.0 as int / 16);
    lemma_hex_char(rgb.0 as int % 16);
    lemma_hex_char(rgb.1 as int / 16);
    lemma_hex_char(rgb.1 as int % 16);
    lemma_hex_char(rgb.2 as int / 16);
    lemma_hex_char(rgb.2 as int % 16);
    lemma_hex_pair(rgb.0);
    lemma_hex_pair(rgb.1);
    lemma_hex_pair(rgb.2);
    assert(s.take(2) =~= seq![hex_char(rgb.0 as int / 16), hex_char(rgb.0 as int % 16)]);
    let t = s.skip(2);
    assert(t.take(2) =~= seq![hex_char(rgb.1 as int / 16), hex_char(rgb.1 as int % 16)]);
    assert(t.skip(2) =~= seq![hex_char(rgb.2 as int / 16), hex_char(rgb.2 as int % 16)]);
    lemma_ascii_len(s);
    text::lemma_trim_is_identity(s);
    let h = seq!['#'] + s;
    assert(h.last() == s.last());
    text::lemma_trim_is_identity(h);
    assert(h.drop_first() =~= s);
    reveal_with_fuel(strip_hashes, 3);
}

/// Two hexadecimal digits, in either case, are sixteen times the first and the second; two
/// characters of which one is no such digit are no channel, but for a plus sign before one.
pub proof fn channels_are_two_digits(a: char, b: char)
    ensures
        text::digit_value(a) is Some && text::digit_value(b) is Some ==> channel(seq![a, b]) == Some(
            16 * text::digit_value(a)->0 + text::digit_value(b)->0,
        ),
        text::digit_value(b) is None ==> channel(seq![a, b]) is None,
        text::digit_value(a) is None && a != '+' ==> channel(seq![a, b]) is None,
{
    let s = seq![a, b];
    reveal_with_fuel(text::digits_value, 3);
    assert(s.drop_last() =~= seq![a]);
    assert(seq![a].drop_last() =~= Seq::<char>::empty());
    if a == '+' {
        assert(text::strip_plus(s) =~= seq![b]);
        assert(seq![b].drop_last() =~= Seq::<char>::empty());
    }
}

/// A text of six characters of ASCII is a colour exactly if each two of them are a channel:
/// the first two the red, the next the green and the last the blue. The first that is none
/// is told.
pub proof fn colours_are_red_green_and_blue(s: Seq<char>)
    requires
        s.len() == 6,
        forall|i: int| 0 <= i < 6 ==> text::utf8_width(#[trigger] s[i]) == 1,
        !text::is_space(s[0]),
        !text::is_space(s[5]),
        s[0] != '#',
    ensures
        ({
            let red = channel(seq![s[0], s[1]]);
            let green = channel(seq![s[2], s[3]]);
            let blue = channel(seq![s[4], s[5]]);
            &&& hex_rgb_on_boundaries(s)
            &&& red is None ==> hex_rgb(s) == Err::<(u8, u8, u8), HexError>(HexError::Red)
            &&& red is Some && green is None ==> hex_rgb(s) == Err::<(u8, u8, u8), HexError>(
                HexError::Green,
            )
            &&& red is Some && green is Some && blue is None ==> hex_rgb(s) == Err::<
                (u8, u8, u8),
                HexError,
            >(HexError::Blue)
            &&& red is Some && green is Some && blue is Some ==> hex_rgb(s) == Ok::<
                (u8, u8, u8),
                HexError,
            >((red->0 as u8, green->0 as u8, blue->0 as u8))
        }),
{
    text::lemma_trim_is_identity(s);
    lemma_ascii_len(s);
    assert(s.take(2) =~= seq![s[0], s[1]]);
    let t = s.skip(2);
    assert(t[0] == s[2] && t[1] == s[3]);
    assert(t.take(2) =~= seq![s[2], s[3]]);
    assert(t.skip(2) =~= seq![s[4], s[5]]);
}

/// Space around a colour and `#` signs before it make no difference, and what is left must
/// be six bytes long.
pub proof fn colours_are_six_bytes(s: Seq<char>)
    ensures
        hex_rgb(s) == Err::<(u8, u8, u8), HexError>(HexError::Length) <==> text::utf8_len(
            strip_hashes(text::trim(s)),
        ) != 6,
        text::trim(s).len() > 0 && text::trim(s)[0] == '#' ==> strip_hashes(text::trim(s))
            == strip_hashes(text::trim(s).drop_first()),
        s.len() > 0 && s[0] != '#' ==> strip_hashes(s) == s,
{
}

} // verus!
