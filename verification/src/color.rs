//! Colors.

use vstd::prelude::*;

verus! {

/// A color with its opacity.
#[derive(Debug, Clone, Copy, PartialEq, Eq, Structural)]
pub struct Color {
    pub r: u8,
    pub g: u8,
    pub b: u8,
    pub a: u8,
}

/// Why a value could not be read.
#[derive(Debug)]
pub enum ParseError {
    /// This is not a color.
    Color(String),
}

/// The value of a hexadecimal digit.
pub open spec fn hex_value(digit: char) -> Option<int> {
    if '0' <= digit <= '9' {
        Some(digit as int - '0' as int)
    } else if 'a' <= digit <= 'f' {
        Some(digit as int - 'a' as int + 10)
    } else if 'A' <= digit <= 'F' {
        Some(digit as int - 'A' as int + 10)
    } else {
        None
    }
}

/// The value of two hexadecimal digits. A plus sign may stand in place of the first.
pub open spec fn channel_value(first: char, second: char) -> Option<int> {
    match (hex_value(first), hex_value(second)) {
        (Some(high), Some(low)) => Some(16 * high + low),
        (None, Some(low)) if first == '+' => Some(low),
        _ => None,
    }
}

/// The color that a text stands for: a number sign and two digits for each of red, green and blue,
/// and two more for the opacity if it is not full.
pub open spec fn color_of(text: Seq<char>) -> Option<Color> {
    if (text.len() != 7 && text.len() != 9) || text[0] != '#' {
        None
    } else {
        let a = if text.len() == 9 {
            channel_value(text[7], text[8])
        } else {
            Some(255int)
        };
        match (
            channel_value(text[1], text[2]),
            channel_value(text[3], text[4]),
            channel_value(text[5], text[6]),
            a,
        ) {
            (Some(r), Some(g), Some(b), Some(a)) => Some(
                Color { r: r as u8, g: g as u8, b: b as u8, a: a as u8 },
            ),
            _ => None,
        }
    }
}

fn digit(byte: u8) -> (res: Option<u8>)
    ensures
        byte < 128 ==> match hex_value(byte as char) {
            Some(value) => res matches Some(found) && found == value,
            None => res is None,
        },
        res matches Some(found) ==> found < 16,
{
    if 48 <= byte && byte <= 57 {
        Some(byte - 48)
    } else if 97 <= byte && byte <= 102 {
        Some(byte - 87)
    } else if 65 <= byte && byte <= 70 {
        Some(byte - 55)
    } else {
        None
    }
}

fn channel(first: u8, second: u8) -> (res: Option<u8>)
    requires
        first < 128,
        second < 128,
    ensures
        match channel_value(first as char, second as char) {
            Some(value) => res matches Some(found) && found == value,
            None => res is None,
        },
{
    match (digit(first), digit(second)) {
        (Some(high), Some(low)) => Some(16 * high + low),
        (None, Some(low)) => if first == 43 {
            Some(low)
        } else {
            None
        },
        _ => None,
    }
}

impl Color {
    /// The color as a number with blue in the highest byte, without the opacity.
    pub fn to_bgr(&self) -> (res: u32)
        ensures
            res == self.r + self.g * 0x100 + self.b * 0x1_0000,
            res % 0x100 == self.r,
            (res / 0x100) % 0x100 == self.g,
            res / 0x1_0000 == self.b,
    {
        let r: u32 = self.r as u32;
        let g: u32 = self.g as u32;
        let b: u32 = self.b as u32;
        assert(r | (g << 8) | (b << 16) == r + g * 0x100 + b * 0x1_0000) by (bit_vector)
            requires
                r < 0x100,
                g < 0x100,
                b < 0x100,
        ;
        r | (g << 8) | (b << 16)
    }

    /// Reads a color such as `#12345678` or `#123456`.
    pub fn from_str(unparsed: &str) -> (res: Result<Color, ParseError>)
        ensures
            match color_of(unparsed@) {
                Some(color) => res matches Ok(found) && found == color,
                None => res matches Err(ParseError::Color(text)) && text@ == unparsed@,
            },
    {
        match parse(unparsed) {
            Some(color) => Ok(color),
            None => Err(ParseError::Color(unparsed.to_owned())),
        }
    }
}

proof fn lemma_not_ascii(text: Seq<char>)
    requires
        !vstd::utf8::is_ascii_chars(text),
    ensures
        color_of(text) is None,
{
    if color_of(text) is Some {
        assert forall|i: int| 0 <= i < text.len() implies 0 <= (#[trigger] text[i] as nat) < 128 by {
            if i == 0 {
                assert(text[0] == '#');
            } else if i == 1 || i == 2 {
                assert(channel_value(text[1], text[2]) is Some);
            } else if i == 3 || i == 4 {
                assert(channel_value(text[3], text[4]) is Some);
            } else if i == 5 || i == 6 {
                assert(channel_value(text[5], text[6]) is Some);
            } else {
                assert(channel_value(text[7], text[8]) is Some);
            }
        }
    }
}

fn parse(unparsed: &str) -> (res: Option<Color>)
    ensures
        res == color_of(unparsed@),
{
    if !unparsed.is_ascii() {
        proof {
            lemma_not_ascii(unparsed@);
        }
        return None;
    }
    let bytes = unparsed.as_bytes();
    proof {
        vstd::utf8::is_ascii_chars_encode_utf8(unparsed@);
        assert(bytes@.len() == unparsed@.len());
        assert forall|i: int| 0 <= i < bytes@.len() implies (#[trigger] bytes@[i]) < 128
            && bytes@[i] as char == unparsed@[i] by {
            assert(bytes@[i] == unparsed@[i] as u8);
        }
    }
    if (bytes.len() != 7 && bytes.len() != 9) || bytes[0] != 35 {
        return None;
    }
    let r = channel(bytes[1], bytes[2]);
    let g = channel(bytes[3], bytes[4]);
    let b = channel(bytes[5], bytes[6]);
    let a = if bytes.len() == 9 {
        channel(bytes[7], bytes[8])
    } else {
        Some(255)
    };
    match (r, g, b, a) {
        (Some(r), Some(g), Some(b), Some(a)) => Some(Color { r, g, b, a }),
        _ => None,
    }
}

/// The digit for a value below sixteen.
pub open spec fn hex_digit(value: int) -> char {
    if value < 10 {
        (value + '0' as int) as char
    } else {
        (value - 10 + 'a' as int) as char
    }
}

/// A color as text, with its opacity.
pub open spec fn color_text(color: Color) -> Seq<char> {
    seq![
        '#',
        hex_digit(color.r as int / 16),
        hex_digit(color.r as int % 16),
        hex_digit(color.g as int / 16),
        hex_digit(color.g as int % 16),
        hex_digit(color.b as int / 16),
        hex_digit(color.b as int % 16),
        hex_digit(color.a as int / 16),
        hex_digit(color.a as int % 16),
    ]
}

proof fn lemma_channel(value: u8)
    ensures
        channel_value(hex_digit(value as int / 16), hex_digit(value as int % 16)) == Some(
            value as int,
        ),
{
}

/// What is written as a color is read as that color, with every channel and the opacity. Without
/// the digits of the opacity it is read with full opacity.
pub proof fn colors_are_read_back(color: Color)
    ensures
        color_of(color_text(color)) == Some(color),
        color_of(color_text(color).take(7)) == Some(Color { a: 255, ..color }),
{
    lemma_channel(color.r);
    lemma_channel(color.g);
    lemma_channel(color.b);
    lemma_channel(color.a);
}

} // verus!
