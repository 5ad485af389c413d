//! Colours and how they are written down.
use vstd::prelude::*;

use crate::single::Single;
use crate::words::{trimmed, trimmed_characters};

verus! {

/// A colour: red, green, blue and alpha, each from zero to one.
#[derive(Clone, Copy, Debug, PartialEq, Eq, Structural)]
pub struct Rgba {
    pub r: Single,
    pub g: Single,
    pub b: Single,
    pub a: Single,
}

/// The single 1, the alpha of an opaque colour.
pub const OPAQUE: u32 = 0x3f80_0000;

impl Rgba {
    pub open spec fn spec_from_bytes(r: u8, g: u8, b: u8, a: u8) -> Rgba {
        Rgba {
            r: Single::of_byte(r),
            g: Single::of_byte(g),
            b: Single::of_byte(b),
            a: Single::of_byte(a),
        }
    }

    /// The colour with the given channels, each a byte out of 255.
    #[verifier::when_used_as_spec(spec_from_bytes)]
    pub fn from_bytes(r: u8, g: u8, b: u8, a: u8) -> (c: Rgba)
        ensures
            c == Rgba::spec_from_bytes(r, g, b, a),
    {
        Rgba {
            r: Single::of_byte(r),
            g: Single::of_byte(g),
            b: Single::of_byte(b),
            a: Single::of_byte(a),
        }
    }
}

/// The value of a hexadecimal digit.
pub open spec fn hex_digit(c: char) -> Option<u8> {
    if '0' <= c <= '9' {
        Some((c as u8 - '0' as u8) as u8)
    } else if 'a' <= c <= 'f' {
        Some((c as u8 - 'a' as u8 + 10) as u8)
    } else if 'A' <= c <= 'F' {
        Some((c as u8 - 'A' as u8 + 10) as u8)
    } else {
        None
    }
}

fn digit_value(c: char) -> (r: Option<u8>)
    ensures
        r == hex_digit(c),
        r matches Some(d) ==> d < 16,
{
    let u: u32 = c as u32;
    if 0x30 <= u && u <= 0x39 {
        Some((u - 0x30) as u8)
    } else if 0x61 <= u && u <= 0x66 {
        Some((u - 0x61 + 10) as u8)
    } else if 0x41 <= u && u <= 0x46 {
        Some((u - 0x41 + 10) as u8)
    } else {
        None
    }
}

/// The byte that two hexadecimal digits write.
pub open spec fn hex_byte(high: char, low: char) -> Option<u8> {
    match (hex_digit(high), hex_digit(low)) {
        (Some(h), Some(l)) => Some((16 * h + l) as u8),
        _ => None,
    }
}

fn byte_value(high: char, low: char) -> (r: Option<u8>)
    ensures
        r == hex_byte(high, low),
{
    match (digit_value(high), digit_value(low)) {
        (Some(h), Some(l)) => Some(16 * h + l),
        _ => None,
    }
}

/// Four channels, where each of them could be read.
pub open spec fn all_channels(
    r: Option<u8>,
    g: Option<u8>,
    b: Option<u8>,
    a: Option<u8>,
) -> Option<Rgba> {
    match (r, g, b, a) {
        (Some(r), Some(g), Some(b), Some(a)) => Some(Rgba::from_bytes(r, g, b, a)),
        _ => None,
    }
}

/// What a hexadecimal colour stands for: after a `#`, one digit or two for
/// each of red, green, blue and perhaps alpha. One digit stands for itself
/// twice over, and a missing alpha for opaque.
pub open spec fn css_hex(text: Seq<char>) -> Option<Rgba> {
    let t = trimmed(text);
    if t.len() == 0 || t[0] != '#' {
        None
    } else if t.len() == 4 {
        all_channels(
            hex_byte(t[1], t[1]),
            hex_byte(t[2], t[2]),
            hex_byte(t[3], t[3]),
            Some(255u8),
        )
    } else if t.len() == 5 {
        all_channels(
            hex_byte(t[1], t[1]),
            hex_byte(t[2], t[2]),
            hex_byte(t[3], t[3]),
            hex_byte(t[4], t[4]),
        )
    } else if t.len() == 7 {
        all_channels(
            hex_byte(t[1], t[2]),
            hex_byte(t[3], t[4]),
            hex_byte(t[5], t[6]),
            Some(255u8),
        )
    } else if t.len() == 9 {
        all_channels(
            hex_byte(t[1], t[2]),
            hex_byte(t[3], t[4]),
            hex_byte(t[5], t[6]),
            hex_byte(t[7], t[8]),
        )
    } else {
        None
    }
}

fn channels(r: Option<u8>, g: Option<u8>, b: Option<u8>, a: Option<u8>) -> (c: Option<Rgba>)
    ensures
        c == all_channels(r, g, b, a),
{
    match (r, g, b, a) {
        (Some(r), Some(g), Some(b), Some(a)) => Some(Rgba::from_bytes(r, g, b, a)),
        _ => None,
    }
}

/// Parse a CSS hex colour (`#rgb`, `#rgba`, `#rrggbb`, or `#rrggbbaa`). `None`
/// for any other form, such as a named colour, `none`, or malformed hex. Alpha
/// defaults to opaque when not given.
#[must_use]
pub fn parse_css_hex(s: &str) -> (r: Option<Rgba>)
    ensures
        r == css_hex(s@),
{
    let t = trimmed_characters(s);
    let n: usize = t.len();
    if n == 0 || t[0] != '#' {
        None
    } else if n == 4 {
        channels(
            byte_value(t[1], t[1]),
            byte_value(t[2], t[2]),
            byte_value(t[3], t[3]),
            Some(255u8),
        )
    } else if n == 5 {
        channels(
            byte_value(t[1], t[1]),
            byte_value(t[2], t[2]),
            byte_value(t[3], t[3]),
            byte_value(t[4], t[4]),
        )
    } else if n == 7 {
        channels(
            byte_value(t[1], t[2]),
            byte_value(t[3], t[4]),
            byte_value(t[5], t[6]),
            Some(255u8),
        )
    } else if n == 9 {
        channels(
            byte_value(t[1], t[2]),
            byte_value(t[3], t[4]),
            byte_value(t[5], t[6]),
            byte_value(t[7], t[8]),
        )
    } else {
        None
    }
}

/// Resolve a colour constant, what `fill: steelblue` or `fill: '#ccc'` means,
/// into the ink to paint: a hexadecimal colour first, and otherwise what the
/// table of colour keywords has for the text, `keyword`.
///
/// `None` where neither knows the text; the caller then keeps its default.
#[must_use]
pub fn parse_colour_literal(s: &str, keyword: Option<(u8, u8, u8, u8)>) -> (r: Option<Rgba>)
    ensures
        r == match css_hex(s@) {
            Some(c) => Some(c),
            None => match keyword {
                Some(k) => Some(Rgba::from_bytes(k.0, k.1, k.2, k.3)),
                None => None,
            },
        },
{
    match parse_css_hex(s) {
        Some(c) => Some(c),
        None => match keyword {
            Some(k) => Some(Rgba::from_bytes(k.0, k.1, k.2, k.3)),
            None => None,
        },
    }
}

} // verus!
