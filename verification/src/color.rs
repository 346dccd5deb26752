//! Colours with three 8-bit channels, and the octant a colour falls into at
//! each depth of the tree.
use vstd::prelude::*;
use vstd::string::{StringExecFns, StringSliceAdditionalSpecFns};

verus! {

/// A colour in the CIE L\*a\*b\* colour space, as the crate `lab` holds it.
#[verifier::external_type_specification]
#[verifier::external_body]
pub struct ExLab(lab::Lab);

/// A colour with three 8-bit channels.
#[derive(Debug, Clone, Copy, PartialEq, Eq, Hash, Structural)]
pub struct RGB {
    pub r: u8,
    pub g: u8,
    pub b: u8,
}

/// Bit `7 - level` of a channel: the bit that decides the octant at depth
/// `level`, the most significant bit at the root.
pub open spec fn channel_bit(v: u8, level: nat) -> int {
    ((v >> ((7 - level) as u8)) & 1u8) as int
}

/// The octant of `c` at depth `level`: red gives the high bit, green the
/// middle bit and blue the low bit.
pub open spec fn octant(c: RGB, level: nat) -> int {
    4 * channel_bit(c.r, level) + 2 * channel_bit(c.g, level) + channel_bit(c.b, level)
}

/// The octants that `c` passes through on its first `len` steps from the root.
pub open spec fn path_of(c: RGB, len: nat) -> Seq<int> {
    Seq::new(len, |d: int| octant(c, d as nat))
}

/// An octant is one of eight.
pub proof fn lemma_octant_range(c: RGB, level: nat)
    requires
        level <= 7,
    ensures
        0 <= octant(c, level) < 8,
{
    let s = (7 - level) as u8;
    let (r, g, b) = (c.r, c.g, c.b);
    assert((r >> s) & 1u8 <= 1 && (g >> s) & 1u8 <= 1 && (b >> s) & 1u8 <= 1) by (bit_vector)
        requires
            s <= 7,
    ;
}

/// The octant of `rgb` at depth `level`.
pub fn octant_index(rgb: RGB, level: usize) -> (idx: usize)
    requires
        level <= 7,
    ensures
        idx as int == octant(rgb, level as nat),
        idx < 8,
{
    let shift: u8 = 7 - level as u8;
    let (red, green, blue) = (rgb.r, rgb.g, rgb.b);
    let r: u8 = red >> shift & 1;
    let g: u8 = green >> shift & 1;
    let b: u8 = blue >> shift & 1;
    assert(r <= 1 && (r << 2u8) == 4 * r) by (bit_vector)
        requires
            r == (red >> shift) & 1u8,
    ;
    assert(g <= 1 && (g << 1u8) == 2 * g) by (bit_vector)
        requires
            g == (green >> shift) & 1u8,
    ;
    assert(b <= 1) by (bit_vector)
        requires
            b == (blue >> shift) & 1u8,
    ;
    ((r << 2) + (g << 1) + b) as usize
}

/// The upper-case hexadecimal digit of a value below sixteen.
pub open spec fn hex_digit(n: int) -> char {
    if n == 0 {
        '0'
    } else if n == 1 {
        '1'
    } else if n == 2 {
        '2'
    } else if n == 3 {
        '3'
    } else if n == 4 {
        '4'
    } else if n == 5 {
        '5'
    } else if n == 6 {
        '6'
    } else if n == 7 {
        '7'
    } else if n == 8 {
        '8'
    } else if n == 9 {
        '9'
    } else if n == 10 {
        'A'
    } else if n == 11 {
        'B'
    } else if n == 12 {
        'C'
    } else if n == 13 {
        'D'
    } else if n == 14 {
        'E'
    } else {
        'F'
    }
}

/// The two hexadecimal digits of a channel, high digit first.
pub open spec fn hex_pair(v: u8) -> Seq<char> {
    seq![hex_digit(v as int / 16), hex_digit(v as int % 16)]
}

/// The text `#RRGGBB` of a colour.
pub open spec fn hex_text(c: RGB) -> Seq<char> {
    seq!['#'] + hex_pair(c.r) + hex_pair(c.g) + hex_pair(c.b)
}

fn hex_digit_str(n: u8) -> (s: &'static str)
    requires
        n < 16,
    ensures
        s@ == seq![hex_digit(n as int)],
{
    proof {
        reveal_strlit("0");
        reveal_strlit("1");
        reveal_strlit("2");
        reveal_strlit("3");
        reveal_strlit("4");
        reveal_strlit("5");
        reveal_strlit("6");
        reveal_strlit("7");
        reveal_strlit("8");
        reveal_strlit("9");
        reveal_strlit("A");
        reveal_strlit("B");
        reveal_strlit("C");
        reveal_strlit("D");
        reveal_strlit("E");
        reveal_strlit("F");
    }
    let s = if n == 0 {
        "0"
    } else if n == 1 {
        "1"
    } else if n == 2 {
        "2"
    } else if n == 3 {
        "3"
    } else if n == 4 {
        "4"
    } else if n == 5 {
        "5"
    } else if n == 6 {
        "6"
    } else if n == 7 {
        "7"
    } else if n == 8 {
        "8"
    } else if n == 9 {
        "9"
    } else if n == 10 {
        "A"
    } else if n == 11 {
        "B"
    } else if n == 12 {
        "C"
    } else if n == 13 {
        "D"
    } else if n == 14 {
        "E"
    } else {
        "F"
    };
    assert(s@ =~= seq![hex_digit(n as int)]);
    s
}

fn push_hex_pair(text: &mut String, v: u8)
    ensures
        final(text)@ == old(text)@ + hex_pair(v),
{
    text.append(hex_digit_str(v / 16));
    text.append(hex_digit_str(v % 16));
    assert(text@ =~= old(text)@ + hex_pair(v));
}

/// Why a text is not the hexadecimal form of a colour.
#[derive(Debug, Clone, Copy, PartialEq, Eq, Structural)]
pub enum HexError {
    /// The text has fewer than seven bytes.
    TooShort,
    /// One of the three pairs behind the first byte is no number in base
    /// sixteen.
    InvalidDigit,
}

/// The value of a byte that is a digit in base sixteen, in either case.
pub open spec fn digit_value(byte: u8) -> Option<int> {
    if 48 <= byte <= 57 {
        Some(byte - 48)
    } else if 65 <= byte <= 70 {
        Some(byte - 55)
    } else if 97 <= byte <= 102 {
        Some(byte - 87)
    } else {
        None
    }
}

/// The number that two bytes spell in base sixteen: two digits, or a plus
/// sign and one digit.
pub open spec fn pair_value(high: u8, low: u8) -> Option<int> {
    match (digit_value(high), digit_value(low)) {
        (Some(h), Some(l)) => Some(16 * h + l),
        (None, Some(l)) => if high == 43 {
            Some(l)
        } else {
            None
        },
        _ => None,
    }
}

/// The colour that a text spells: behind its first byte, whatever that is,
/// three pairs for red, green and blue; what follows them is not read.
pub open spec fn hex_color(bytes: Seq<u8>) -> Option<RGB> {
    if bytes.len() < 7 {
        None
    } else {
        match (
            pair_value(bytes[1], bytes[2]),
            pair_value(bytes[3], bytes[4]),
            pair_value(bytes[5], bytes[6]),
        ) {
            (Some(r), Some(g), Some(b)) => Some(RGB { r: r as u8, g: g as u8, b: b as u8 }),
            _ => None,
        }
    }
}

fn digit_of(byte: u8) -> (out: Option<u8>)
    ensures
        out is Some <==> digit_value(byte) is Some,
        out matches Some(d) ==> digit_value(byte) == Some(d as int) && d < 16,
{
    if 48 <= byte && byte <= 57 {
        Some(byte - 48)
    } else if 65 <= byte && byte <= 70 {
        Some(byte - 55)
    } else if 97 <= byte && byte <= 102 {
        Some(byte - 87)
    } else {
        None
    }
}

fn pair_of(high: u8, low: u8) -> (out: Option<u8>)
    ensures
        out is Some <==> pair_value(high, low) is Some,
        out matches Some(v) ==> pair_value(high, low) == Some(v as int),
{
    match digit_of(low) {
        Some(l) => match digit_of(high) {
            Some(h) => Some(16 * h + l),
            None => if high == 43 {
                Some(l)
            } else {
                None
            },
        },
        None => None,
    }
}

/// Calls `lab::Lab::from_rgb` on the three channels. Nothing is claimed of
/// the result: it is computed in floating point, and its last digits depend
/// on the instructions that the build may use.
#[verifier::external_body]
fn lab_from_rgb(r: u8, g: u8, b: u8) -> (out: lab::Lab) {
    lab::Lab::from_rgb(&[r, g, b])
}

impl std::str::FromStr for RGB {
    type Err = HexError;

    fn from_str(hex_code: &str) -> (out: Result<RGB, HexError>)
        ensures
            out matches Ok(c) ==> hex_color(hex_code.spec_bytes()) == Some(c),
            out is Ok <==> hex_color(hex_code.spec_bytes()) is Some,
            out == Err::<RGB, HexError>(HexError::TooShort) <==> hex_code.spec_bytes().len() < 7,
    {
        RGB::from_hex(hex_code)
    }
}

impl RGB {
    /// The colour that `hex_code` spells as `#RRGGBB`. The first byte is
    /// not read, nor what follows the three pairs; digits may be in either
    /// case.
    pub fn from_hex(hex_code: &str) -> (out: Result<RGB, HexError>)
        ensures
            out matches Ok(c) ==> hex_color(hex_code.spec_bytes()) == Some(c),
            out is Ok <==> hex_color(hex_code.spec_bytes()) is Some,
            out == Err::<RGB, HexError>(HexError::TooShort) <==> hex_code.spec_bytes().len() < 7,
    {
        let bytes = hex_code.as_bytes();
        if bytes.len() < 7 {
            return Err(HexError::TooShort);
        }
        let r = match pair_of(bytes[1], bytes[2]) {
            Some(v) => v,
            None => {
                return Err(HexError::InvalidDigit);
            },
        };
        let g = match pair_of(bytes[3], bytes[4]) {
            Some(v) => v,
            None => {
                return Err(HexError::InvalidDigit);
            },
        };
        let b = match pair_of(bytes[5], bytes[6]) {
            Some(v) => v,
            None => {
                return Err(HexError::InvalidDigit);
            },
        };
        Ok(RGB { r, g, b })
    }

    /// The colour in the CIE L\*a\*b\* colour space.
    pub fn to_lab(&self) -> (out: lab::Lab) {
        lab_from_rgb(self.r, self.g, self.b)
    }

    /// The colour whose channels are the three bytes, red first.
    pub fn from(rgb: &[u8; 3]) -> (c: RGB)
        ensures
            c == (RGB { r: rgb@[0], g: rgb@[1], b: rgb@[2] }),
    {
        RGB { r: rgb[0], g: rgb[1], b: rgb[2] }
    }

    /// The colour as `#RRGGBB`, in upper-case digits, two for each channel.
    pub fn to_hex(&self) -> (text: String)
        ensures
            text@ == hex_text(*self),
    {
        proof {
            reveal_strlit("#");
        }
        let mut text = String::from_str("#");
        push_hex_pair(&mut text, self.r);
        push_hex_pair(&mut text, self.g);
        push_hex_pair(&mut text, self.b);
        assert(text@ =~= hex_text(*self));
        text
    }
}

} // verus!
