use vstd::prelude::*;
use vstd::utf8::is_ascii_chars;

verus! {

/// Terminal colors of the `colored` crate; their variants are visible to
/// the contracts below.
#[verifier::external_type_specification]
pub struct ExColor(colored::Color);

/// The decimal digits of a byte value, without leading zeros.
pub open spec fn decimal(n: u8) -> Seq<char>
    decreases n,
{
    if n < 10 {
        seq![digit_char(n)]
    } else {
        decimal(n / 10) + seq![digit_char(n % 10)]
    }
}

pub open spec fn digit_char(d: u8) -> char {
    (('0' as u8) + d) as char
}

/// `r;g;b` in decimal.
pub open spec fn rgb_codes(r: u8, g: u8, b: u8) -> Seq<char> {
    decimal(r) + seq![';'] + decimal(g) + seq![';'] + decimal(b)
}

/// The SGR parameters that select `c` as foreground color.
pub open spec fn fg_code(c: colored::Color) -> Seq<char> {
    match c {
        colored::Color::Black => seq!['3', '0'],
        colored::Color::Red => seq!['3', '1'],
        colored::Color::Green => seq!['3', '2'],
        colored::Color::Yellow => seq!['3', '3'],
        colored::Color::Blue => seq!['3', '4'],
        colored::Color::Magenta => seq!['3', '5'],
        colored::Color::Cyan => seq!['3', '6'],
        colored::Color::White => seq!['3', '7'],
        colored::Color::BrightBlack => seq!['9', '0'],
        colored::Color::BrightRed => seq!['9', '1'],
        colored::Color::BrightGreen => seq!['9', '2'],
        colored::Color::BrightYellow => seq!['9', '3'],
        colored::Color::BrightBlue => seq!['9', '4'],
        colored::Color::BrightMagenta => seq!['9', '5'],
        colored::Color::BrightCyan => seq!['9', '6'],
        colored::Color::BrightWhite => seq!['9', '7'],
        colored::Color::TrueColor { r, g, b } => seq!['3', '8', ';', '2', ';'] + rgb_codes(r, g, b),
    }
}

/// The SGR parameters that select `c` as background color.
pub open spec fn bg_code(c: colored::Color) -> Seq<char> {
    match c {
        colored::Color::Black => seq!['4', '0'],
        colored::Color::Red => seq!['4', '1'],
        colored::Color::Green => seq!['4', '2'],
        colored::Color::Yellow => seq!['4', '3'],
        colored::Color::Blue => seq!['4', '4'],
        colored::Color::Magenta => seq!['4', '5'],
        colored::Color::Cyan => seq!['4', '6'],
        colored::Color::White => seq!['4', '7'],
        colored::Color::BrightBlack => seq!['1', '0', '0'],
        colored::Color::BrightRed => seq!['1', '0', '1'],
        colored::Color::BrightGreen => seq!['1', '0', '2'],
        colored::Color::BrightYellow => seq!['1', '0', '3'],
        colored::Color::BrightBlue => seq!['1', '0', '4'],
        colored::Color::BrightMagenta => seq!['1', '0', '5'],
        colored::Color::BrightCyan => seq!['1', '0', '6'],
        colored::Color::BrightWhite => seq!['1', '0', '7'],
        colored::Color::TrueColor { r, g, b } => seq!['4', '8', ';', '2', ';'] + rgb_codes(r, g, b),
    }
}

/// Relies on `colored::Color::to_fg_str`: the SGR parameters of a
/// foreground color (`38;2;r;g;b` for a true color).
#[verifier::external_body]
pub(crate) fn fg_str(c: &colored::Color) -> (r: String)
    ensures
        r@ == fg_code(*c),
{
    c.to_fg_str().into_owned()
}

/// Relies on `colored::Color::to_bg_str`: the SGR parameters of a
/// background color (`48;2;r;g;b` for a true color).
#[verifier::external_body]
pub(crate) fn bg_str(c: &colored::Color) -> (r: String)
    ensures
        r@ == bg_code(*c),
{
    c.to_bg_str().into_owned()
}

/// The value of a hexadecimal digit, either case.
pub open spec fn hex_value(c: char) -> Option<u8> {
    let v = c as u32;
    if 48 <= v <= 57 {
        Some((v - 48) as u8)
    } else if 97 <= v <= 102 {
        Some((v - 87) as u8)
    } else if 65 <= v <= 70 {
        Some((v - 55) as u8)
    } else {
        None
    }
}

/// The byte written by the two hexadecimal digits at `i` and `i + 1`.
pub open spec fn hex_pair(s: Seq<char>, i: int) -> u8 {
    (hex_value(s[i]).unwrap() * 16 + hex_value(s[i + 1]).unwrap()) as u8
}

/// `s` is `#RRGGBB`.
pub open spec fn is_hex_rgb(s: Seq<char>) -> bool {
    &&& s.len() == 7
    &&& s[0] == '#'
    &&& forall|i: int| 1 <= i < 7 ==> (#[trigger] hex_value(s[i])) is Some
}

/// The channels of a `#RRGGBB` string.
pub open spec fn hex_rgb(s: Seq<char>) -> (u8, u8, u8) {
    (hex_pair(s, 1), hex_pair(s, 3), hex_pair(s, 5))
}

/// A string that `hex_color` cannot read in any of its forms: it does not
/// start with `#`, or it is ASCII of a length that none of `#RGB`, `#RGBA`,
/// `#RRGGBB`, `#RRGGBBAA` has.
pub open spec fn is_hex_malformed(s: Seq<char>) -> bool {
    ||| s.len() == 0
    ||| s[0] != '#'
    ||| (is_ascii_chars(s) && s.len() != 4 && s.len() != 5 && s.len() != 7 && s.len() != 9)
}

/// The red, green and blue channels that `hex_color` reads from `s`, if any.
pub uninterp spec fn hex_parse(s: Seq<char>) -> Option<(u8, u8, u8)>;

/// Relies on `hex_color::HexColor::parse`: it reads `#RGB`, `#RGBA`,
/// `#RRGGBB` and `#RRGGBBAA`, case-insensitively, and refuses an empty
/// string, one without a leading `#` and one of another length.
#[verifier::external_body]
fn parse_hex(s: &str) -> (r: Option<(u8, u8, u8)>)
    ensures
        r == hex_parse(s@),
        is_hex_rgb(s@) ==> r == Some(hex_rgb(s@)),
        is_hex_malformed(s@) ==> r is None,
{
    hex_color::HexColor::parse(s).ok().map(|h| (h.r, h.g, h.b))
}

/// The true color a configuration string stands for: black where it cannot
/// be read.
pub open spec fn color_of(s: Seq<char>) -> colored::Color {
    match hex_parse(s) {
        Some((r, g, b)) => colored::Color::TrueColor { r, g, b },
        None => colored::Color::TrueColor { r: 0, g: 0, b: 0 },
    }
}

/// Reads a `#RRGGBB` color; a string that cannot be read gives black.
pub fn color_from_str(s: &str) -> (r: colored::Color)
    ensures
        r == color_of(s@),
        is_hex_rgb(s@) ==> r == (colored::Color::TrueColor {
            r: hex_rgb(s@).0,
            g: hex_rgb(s@).1,
            b: hex_rgb(s@).2,
        }),
        is_hex_malformed(s@) ==> r == (colored::Color::TrueColor { r: 0, g: 0, b: 0 }),
{
    match parse_hex(s) {
        Some((r, g, b)) => colored::Color::TrueColor { r, g, b },
        None => colored::Color::TrueColor { r: 0, g: 0, b: 0 },
    }
}

} // verus!
