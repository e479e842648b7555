//! Colors as 8-bit sRGB triples, read from `#RRGGBB`-style hex codes.
use hex_color::{HexColor, ParseHexColorError};
use vstd::prelude::*;
use vstd::string::StringSliceAdditionalSpecFns;

verus! {

/// An 8-bit sRGB color.
#[derive(Clone, Copy, Debug, PartialEq, Eq, Structural)]
pub struct Rgb {
    pub r: u8,
    pub g: u8,
    pub b: u8,
}

/// Black.
pub open spec fn spec_black() -> Rgb {
    Rgb { r: 0, g: 0, b: 0 }
}

impl Rgb {
    /// Black, `(0, 0, 0)`.
    pub fn black() -> (res: Rgb)
        ensures
            res == spec_black(),
    {
        Rgb { r: 0, g: 0, b: 0 }
    }
}

/// Why a hex color code could not be read.
#[derive(Clone, Copy, Debug, PartialEq, Eq, Structural)]
pub enum ColorError {
    /// The code was empty.
    Empty,
    /// The code has a malformed length or does not start with `#`.
    InvalidFormat,
    /// A digit of the code is not hexadecimal.
    InvalidDigit,
}

/// The value of an ASCII hexadecimal digit (either case).
pub open spec fn hex_digit(b: u8) -> Option<u8> {
    if 48 <= b <= 57 {
        Some((b - 48) as u8)
    } else if 97 <= b <= 102 {
        Some((b - 87) as u8)
    } else if 65 <= b <= 70 {
        Some((b - 55) as u8)
    } else {
        None
    }
}

/// A channel written as one digit `d`, meaning `dd`.
pub open spec fn short_channel(b: u8) -> Option<u8> {
    match hex_digit(b) {
        Some(d) => Some((d * 17) as u8),
        None => None,
    }
}

/// A channel written as two characters, read as base-16 `u8` text (a leading `+` allowed).
pub open spec fn long_channel(hi: u8, lo: u8) -> Option<u8> {
    if hi == 43 {
        hex_digit(lo)
    } else {
        match (hex_digit(hi), hex_digit(lo)) {
            (Some(a), Some(c)) => Some((a * 16 + c) as u8),
            _ => None,
        }
    }
}

/// The red, green and blue channels of the hex code with bytes `s` (`#RGB`, `#RGBA`,
/// `#RRGGBB` or `#RRGGBBAA`, any case; the alpha digits are checked and dropped).
pub open spec fn parse_hex_rgb(s: Seq<u8>) -> Result<(u8, u8, u8), ColorError> {
    if s.len() == 0 {
        Err(ColorError::Empty)
    } else if s[0] != 35 {
        Err(ColorError::InvalidFormat)
    } else if s.len() == 4 || s.len() == 5 {
        match (short_channel(s[1]), short_channel(s[2]), short_channel(s[3])) {
            (Some(r), Some(g), Some(b)) => if s.len() == 5 && short_channel(s[4]) is None {
                Err(ColorError::InvalidDigit)
            } else {
                Ok((r, g, b))
            },
            _ => Err(ColorError::InvalidDigit),
        }
    } else if s.len() == 7 || s.len() == 9 {
        match (long_channel(s[1], s[2]), long_channel(s[3], s[4]), long_channel(s[5], s[6])) {
            (Some(r), Some(g), Some(b)) => if s.len() == 9 && long_channel(s[7], s[8]) is None {
                Err(ColorError::InvalidDigit)
            } else {
                Ok((r, g, b))
            },
            _ => Err(ColorError::InvalidDigit),
        }
    } else {
        Err(ColorError::InvalidFormat)
    }
}

/// `hex_color::HexColor::parse`, keeping the red, green and blue channels and telling the
/// error variants apart. The result is `parse_hex_rgb` of the string's UTF-8 bytes: the
/// crate reads `#`, checks the byte length (4, 5, 7 or 9) and reads each channel with a
/// digit table (short form) or `u8::from_str_radix(.., 16)` (long form). The crate's error
/// enum has exactly these three variants (it is marked non-exhaustive, hence the last arm).
#[verifier::external_body]
fn hex_color_parse(s: &str) -> (res: Result<(u8, u8, u8), ColorError>)
    ensures
        res == parse_hex_rgb(s.spec_bytes()),
{
    match HexColor::parse(s) {
        Ok(c) => Ok((c.r, c.g, c.b)),
        Err(ParseHexColorError::Empty) => Err(ColorError::Empty),
        Err(ParseHexColorError::InvalidDigit) => Err(ColorError::InvalidDigit),
        Err(ParseHexColorError::InvalidFormat) => Err(ColorError::InvalidFormat),
        Err(_) => Err(ColorError::InvalidFormat),
    }
}

/// The color written as the hex code `s`.
pub fn parse_color(s: &str) -> (res: Result<Rgb, ColorError>)
    ensures
        match parse_hex_rgb(s.spec_bytes()) {
            Ok((r, g, b)) => res == Ok::<Rgb, ColorError>(Rgb { r, g, b }),
            Err(e) => res == Err::<Rgb, ColorError>(e),
        },
{
    match hex_color_parse(s) {
        Ok((r, g, b)) => Ok(Rgb { r, g, b }),
        Err(e) => Err(e),
    }
}

impl ColorError {
    /// The message reported when a color code cannot be read.
    pub fn message(&self) -> (res: &'static str)
        ensures
            res@ == match *self {
                ColorError::Empty => "Invalid color - message: cannot parse hex color from empty string"@,
                ColorError::InvalidFormat => "Invalid color - message: invalid hexadecimal color format"@,
                ColorError::InvalidDigit => "Invalid color - message: invalid hexadecimal digit"@,
            },
    {
        match self {
            ColorError::Empty => "Invalid color - message: cannot parse hex color from empty string",
            ColorError::InvalidFormat => "Invalid color - message: invalid hexadecimal color format",
            ColorError::InvalidDigit => "Invalid color - message: invalid hexadecimal digit",
        }
    }
}

} // verus!
