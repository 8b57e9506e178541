use vstd::prelude::*;
use crate::text::{chars_of, push_char};

verus! {

/// A color as three 8-bit channels.
#[derive(Debug, Clone, Copy, PartialEq, Eq, Structural)]
pub struct RgbColor {
    pub r: u8,
    pub g: u8,
    pub b: u8,
}

/// Why a hex color string was rejected.
#[derive(Debug, Clone, Copy, PartialEq, Eq, Structural)]
pub enum ColorError {
    /// The digits (after an optional `#`) are not 6 characters long; holds their length.
    InvalidSize(usize),
    /// The digits are not a base-16 number.
    InvalidInteger,
}

pub open spec fn is_hex_digit(c: char) -> bool {
    ('0' <= c && c <= '9') || ('a' <= c && c <= 'f') || ('A' <= c && c <= 'F')
}

pub open spec fn hex_digit_value(c: char) -> nat {
    if '0' <= c && c <= '9' {
        (c as nat - '0' as nat) as nat
    } else if 'a' <= c && c <= 'f' {
        (c as nat - 'a' as nat + 10) as nat
    } else {
        (c as nat - 'A' as nat + 10) as nat
    }
}

/// The value of a string of hex digits, most significant first.
pub open spec fn hex_value(s: Seq<char>) -> nat
    decreases s.len(),
{
    if s.len() == 0 {
        0
    } else {
        hex_value(s.drop_last()) * 16 + hex_digit_value(s.last())
    }
}

/// The text without one leading `#`, if it has one.
pub open spec fn strip_hash(s: Seq<char>) -> Seq<char> {
    if s.len() > 0 && s[0] == '#' {
        s.drop_first()
    } else {
        s
    }
}

/// Every character of `s` is a hex digit: no sign, no other character.
pub open spec fn is_hex_number(s: Seq<char>) -> bool {
    forall|i: int| 0 <= i < s.len() ==> is_hex_digit(#[trigger] s[i])
}

pub open spec fn pow16(n: nat) -> nat
    decreases n,
{
    if n == 0 {
        1
    } else {
        16 * pow16((n - 1) as nat)
    }
}

/// The channels of a `0xRRGGBB` integer.
pub open spec fn rgb_of(v: nat) -> RgbColor {
    RgbColor { r: ((v / 65536) % 256) as u8, g: ((v / 256) % 256) as u8, b: (v % 256) as u8 }
}

/// What `RgbColor::from_hex_str` gives for a text.
pub open spec fn parse_hex_color(s: Seq<char>) -> Result<RgbColor, ColorError> {
    let d = strip_hash(s);
    if d.len() != 6 {
        Err(ColorError::InvalidSize(d.len() as usize))
    } else if !is_hex_number(d) {
        Err(ColorError::InvalidInteger)
    } else {
        Ok(rgb_of(hex_value(d)))
    }
}

pub open spec fn hex_char(v: nat) -> char {
    if v < 10 {
        ('0' as nat + v) as char
    } else {
        ('a' as nat + v - 10) as char
    }
}

pub open spec fn hex_byte(v: u8) -> Seq<char> {
    seq![hex_char(v as nat / 16), hex_char(v as nat % 16)]
}

/// `#rrggbb`, lowercase.
pub open spec fn hex_text(c: RgbColor) -> Seq<char> {
    seq!['#'] + hex_byte(c.r) + hex_byte(c.g) + hex_byte(c.b)
}

fn hex_digit(c: char) -> (r: Option<u32>)
    ensures
        r.is_some() == is_hex_digit(c),
        r.is_some() ==> r.unwrap() as nat == hex_digit_value(c) && r.unwrap() < 16,
{
    if '0' <= c && c <= '9' {
        Some((c as u32) - ('0' as u32))
    } else if 'a' <= c && c <= 'f' {
        Some((c as u32) - ('a' as u32) + 10)
    } else if 'A' <= c && c <= 'F' {
        Some((c as u32) - ('A' as u32) + 10)
    } else {
        None
    }
}

fn push_hex_byte(s: &mut String, v: u8)
    ensures
        final(s)@ == old(s)@ + hex_byte(v),
{
    let digits = "0123456789abcdef";
    proof {
        reveal_strlit("0123456789abcdef");
    }
    let hi = (v / 16) as usize;
    let lo = (v % 16) as usize;
    let ch = digits.get_char(hi);
    let cl = digits.get_char(lo);
    assert(ch == hex_char(v as nat / 16));
    assert(cl == hex_char(v as nat % 16));
    push_char(s, ch);
    push_char(s, cl);
}

impl RgbColor {
    /// Reads `rrggbb` or `#rrggbb`: exactly six hex digits, in either case.
    pub fn from_hex_str(hex: &str) -> (r: Result<RgbColor, ColorError>)
        ensures
            r == parse_hex_color(hex@),
    {
        let n = hex.unicode_len();
        let digits: &str = if n > 0 && hex.get_char(0) == '#' {
            hex.substring_char(1, n)
        } else {
            hex
        };
        assert(digits@ == strip_hash(hex@));
        let d = chars_of(digits);
        if d.len() != 6 {
            return Err(ColorError::InvalidSize(d.len()));
        }
        let mut value: u64 = 0;
        let mut i: usize = 0;
        while i < d.len()
            invariant
                i <= d.len(),
                d@ == strip_hash(hex@),
                d@.len() == 6,
                forall|j: int| 0 <= j < i ==> is_hex_digit(#[trigger] d@[j]),
                value as nat == hex_value(d@.subrange(0, i as int)),
                value < pow16(i as nat),
            decreases d.len() - i,
        {
            let ghost p = d@.subrange(0, i as int + 1);
            assert(p.drop_last() =~= d@.subrange(0, i as int));
            proof {
                reveal_with_fuel(pow16, 7);
                assert(pow16(i as nat) <= 0x100_0000) by {
                    if i == 0 {
                    } else if i == 1 {
                    } else if i == 2 {
                    } else if i == 3 {
                    } else if i == 4 {
                    } else {
                        assert(i == 5);
                    }
                }
            }
            match hex_digit(d[i]) {
                None => {
                    assert(!is_hex_digit(d@[i as int]));
                    return Err(ColorError::InvalidInteger);
                },
                Some(x) => {
                    value = value * 16 + x as u64;
                    assert(p.last() == d@[i as int]);
                    assert(value as nat == hex_value(p));
                    i = i + 1;
                },
            }
        }
        assert(d@.subrange(0, 6) =~= d@);
        proof {
            reveal_with_fuel(pow16, 7);
        }
        Ok(RgbColor::from_hex(value as u32))
    }

    /// The color of a `0xRRGGBB` integer; higher bits are ignored.
    pub fn from_hex(hex: u32) -> (r: RgbColor)
        ensures
            r == rgb_of(hex as nat),
    {
        let r = ((hex >> 16) & 0xFF) as u8;
        let g = ((hex >> 8) & 0xFF) as u8;
        let b = (hex & 0xFF) as u8;
        assert((hex >> 16) & 0xFF == (hex / 65536) % 256) by (bit_vector);
        assert((hex >> 8) & 0xFF == (hex / 256) % 256) by (bit_vector);
        assert(hex & 0xFF == hex % 256) by (bit_vector);
        RgbColor { r, g, b }
    }

    /// `#rrggbb` in lowercase hex.
    pub fn hex(&self) -> (r: String)
        ensures
            r@ == hex_text(*self),
    {
        let mut s = String::new();
        push_char(&mut s, '#');
        push_hex_byte(&mut s, self.r);
        push_hex_byte(&mut s, self.g);
        push_hex_byte(&mut s, self.b);
        s
    }
}

/// All three channels are equal: a gray, white or black, whose saturation is 0.
pub open spec fn is_gray(c: RgbColor) -> bool {
    c.r == c.g && c.g == c.b
}

/// The standard hue formula gives 0: red is a largest channel and green
/// equals blue (every gray included).
pub open spec fn hue_is_zero(c: RgbColor) -> bool {
    c.r >= c.g && c.r >= c.b && c.g == c.b
}

/// A color in hue, saturation and lightness, held exactly by the channels it
/// comes from: saturation and lightness are those of `base`, the hue is that
/// of `hue_of`. A hue taken over from another color only ever goes to a gray,
/// whose channels do not depend on the hue.
#[derive(Debug, Clone, Copy, PartialEq, Eq, Structural)]
pub struct HslColor {
    pub base: RgbColor,
    pub hue_of: RgbColor,
}

impl HslColor {
    /// The hue, saturation and lightness of `c`.
    pub fn from_rgb(c: RgbColor) -> (r: HslColor)
        ensures
            r == (HslColor { base: c, hue_of: c }),
    {
        HslColor { base: c, hue_of: c }
    }

    /// The color of `rrggbb` or `#rrggbb` (see `RgbColor::from_hex_str`).
    pub fn from_hex_rgb(hex: &str) -> (r: Result<HslColor, ColorError>)
        ensures
            r == (match parse_hex_color(hex@) {
                Ok(c) => Ok(HslColor { base: c, hue_of: c }),
                Err(e) => Err(e),
            }),
    {
        match RgbColor::from_hex_str(hex) {
            Ok(c) => Ok(HslColor::from_rgb(c)),
            Err(e) => Err(e),
        }
    }

    /// The channels of this color.
    pub fn to_rgb(&self) -> (r: RgbColor)
        ensures
            r == self.base,
    {
        self.base
    }

    /// Whether the hue is 0.
    pub fn hue_is_zero(&self) -> (r: bool)
        ensures
            r == hue_is_zero(self.hue_of),
    {
        let c = self.hue_of;
        c.r >= c.g && c.r >= c.b && c.g == c.b
    }

    /// Whether the color has no hue to show: saturation 0 or lightness 1.
    pub fn is_hueless(&self) -> (r: bool)
        ensures
            r == is_gray(self.base),
    {
        self.base.r == self.base.g && self.base.g == self.base.b
    }
}

} // verus!
