use vstd::prelude::*;

use crate::text::chars_of;

verus! {

/// An opaque RGB colour, one byte per channel.
#[derive(Clone, Copy, Debug, PartialEq, Eq, Structural)]
pub struct Color {
    pub r: u8,
    pub g: u8,
    pub b: u8,
}

/// Why a hexadecimal colour literal was refused.
#[derive(Clone, Copy, Debug, PartialEq, Eq, Structural)]
pub enum ColorError {
    /// The literal holds no character at all.
    Empty,
    /// A character is not a hexadecimal digit (a lone `+` counts as one).
    InvalidDigit,
    /// The digits denote a number above `u32::MAX`.
    Overflow,
}

pub open spec fn is_hex_digit(c: char) -> bool {
    ('0' <= c && c <= '9') || ('a' <= c && c <= 'f') || ('A' <= c && c <= 'F')
}

pub open spec fn hex_value(c: char) -> int {
    if '0' <= c && c <= '9' {
        c as int - '0' as int
    } else if 'a' <= c && c <= 'f' {
        c as int - 'a' as int + 10
    } else {
        c as int - 'A' as int + 10
    }
}

/// Reads hexadecimal digits from the left onto `acc`, stopping at the first
/// character that is no digit or the first digit that takes the value past
/// `u32::MAX`.
pub open spec fn scan_hex(s: Seq<char>, acc: int) -> Result<u32, ColorError>
    decreases s.len(),
{
    if s.len() == 0 {
        Ok(acc as u32)
    } else if !is_hex_digit(s[0]) {
        Err(ColorError::InvalidDigit)
    } else if acc * 16 + hex_value(s[0]) > u32::MAX {
        Err(ColorError::Overflow)
    } else {
        scan_hex(s.drop_first(), acc * 16 + hex_value(s[0]))
    }
}

/// A `u32` written in base 16, with an optional leading `+`.
pub open spec fn parse_hex_u32(s: Seq<char>) -> Result<u32, ColorError> {
    if s.len() == 0 {
        Err(ColorError::Empty)
    } else if s[0] == '+' {
        if s.len() == 1 {
            Err(ColorError::InvalidDigit)
        } else {
            scan_hex(s.drop_first(), 0)
        }
    } else {
        scan_hex(s, 0)
    }
}

/// The colour whose red, green and blue bytes are bits 16..24, 8..16 and
/// 0..8 of `n`; higher bits are dropped.
pub open spec fn color_of_u32(n: u32) -> Color {
    Color { r: ((n as int / 0x10000) % 0x100) as u8, g: ((n as int / 0x100) % 0x100) as u8, b: (n as int % 0x100) as u8 }
}

/// The colour that the literal `s` denotes, `RRGGBB` in hexadecimal.
pub open spec fn parse_color(s: Seq<char>) -> Result<Color, ColorError> {
    match parse_hex_u32(s) {
        Ok(n) => Ok(color_of_u32(n)),
        Err(e) => Err(e),
    }
}

fn hex_digit_value(c: char) -> (r: Option<u32>)
    ensures
        r is Some <==> is_hex_digit(c),
        r is Some ==> r->0 as int == hex_value(c) && r->0 < 16,
{
    if '0' <= c && c <= '9' {
        Some(c as u32 - '0' as u32)
    } else if 'a' <= c && c <= 'f' {
        Some(c as u32 - 'a' as u32 + 10)
    } else if 'A' <= c && c <= 'F' {
        Some(c as u32 - 'A' as u32 + 10)
    } else {
        None
    }
}

/// Parses `s[lo..hi]` as a base-16 `u32`.
pub(crate) fn parse_hex_range(s: &Vec<char>, lo: usize, hi: usize) -> (r: Result<u32, ColorError>)
    requires
        lo <= hi <= s@.len(),
    ensures
        r == parse_hex_u32(s@.subrange(lo as int, hi as int)),
{
    let ghost whole = s@.subrange(lo as int, hi as int);
    if lo == hi {
        return Err(ColorError::Empty);
    }
    let mut i = lo;
    assert(whole.len() > 0 && whole[0] == s@[lo as int]);
    if s[lo] == '+' {
        if hi - lo == 1 {
            return Err(ColorError::InvalidDigit);
        }
        i = lo + 1;
        assert(whole.drop_first() =~= s@.subrange(i as int, hi as int));
    } else {
        assert(whole =~= s@.subrange(i as int, hi as int));
    }
    let mut acc: u32 = 0;
    while i < hi
        invariant
            lo <= i <= hi <= s@.len(),
            whole == s@.subrange(lo as int, hi as int),
            parse_hex_u32(whole) == scan_hex(s@.subrange(i as int, hi as int), acc as int),
        decreases hi - i,
    {
        let ghost rest = s@.subrange(i as int, hi as int);
        assert(rest.len() > 0 && rest[0] == s@[i as int]);
        assert(rest.drop_first() =~= s@.subrange(i + 1, hi as int));
        let c = s[i];
        assert(c == rest[0]);
        match hex_digit_value(c) {
            None => {
                return Err(ColorError::InvalidDigit);
            },
            Some(d) => {
                if acc > (u32::MAX - d) / 16 {
                    assert(acc as int * 16 + d > u32::MAX) by (nonlinear_arith)
                        requires acc > (u32::MAX - d) / 16, d < 16;
                    return Err(ColorError::Overflow);
                }
                assert(acc as int * 16 + d <= u32::MAX) by (nonlinear_arith)
                    requires acc <= (u32::MAX - d) / 16, d < 16;
                acc = acc * 16 + d;
            },
        }
        i = i + 1;
    }
    assert(s@.subrange(i as int, hi as int).len() == 0);
    Ok(acc)
}

impl Color {
    /// The colour in the low 24 bits of `n`, red in the highest byte.
    pub fn from_u32(n: u32) -> (c: Color)
        ensures
            c == color_of_u32(n),
    {
        Color { r: (n / 0x10000 % 0x100) as u8, g: (n / 0x100 % 0x100) as u8, b: (n % 0x100) as u8 }
    }

    /// Reads a colour from the hexadecimal literal `s` (`RRGGBB`, an optional
    /// leading `+`); bits above the low 24 of the number are dropped.
    pub fn from_hex(s: &str) -> (r: Result<Color, ColorError>)
        ensures
            r == parse_color(s@),
    {
        let cs = chars_of(s);
        assert(cs@.subrange(0, cs@.len() as int) =~= s@);
        match parse_hex_range(&cs, 0, cs.len()) {
            Ok(n) => Ok(Color::from_u32(n)),
            Err(e) => Err(e),
        }
    }
}

/// Reads a colour as `Color::from_hex` does.
impl std::str::FromStr for Color {
    type Err = ColorError;

    fn from_str(s: &str) -> Result<Color, ColorError> {
        Color::from_hex(s)
    }
}

} // verus!
