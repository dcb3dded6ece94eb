//! The device RGB leaf: three channels held as exact fractions of full scale
//! over one fixed denominator, so that the hexagonal transform and the hub
//! matrix transform stay exact integer arithmetic.

use vstd::prelude::*;

verus! {

/// The fixed denominator of an RGB channel.  It is divisible by 255 (so
/// every 8-bit channel is exact), by 10^4 (so every component in this
/// crate's ten-thousandth units is exact), and by 6 * 10^13 (so the channels
/// the cylindrical transform produces are exact).
pub const RGB_DEN: i64 = 1_020_000_000_000_000;

/// One 8-bit channel step: `RGB_DEN / 255`.
pub const RGB_CHANNEL_STEP: i64 = 4_000_000_000_000;

/// One ten-thousandth of full scale: `RGB_DEN / 10_000`.
pub const RGB_UNIT_STEP: i64 = 102_000_000_000;

/// The bias subtracted before rounding when a channel is encoded to 8 bits:
/// 10^-6 of full scale below one half of `RGB_DEN`.
pub const RGB_ENCODE_BIAS: i64 = 509_998_980_000_000;

/// How far outside the unit cube a channel may lie and still be fed to the
/// conversions: 64 times full scale, room enough for any hub value this
/// crate's transforms produce.
pub const RGB_NUM_MAX: i64 = 65_280_000_000_000_000;

/// A color in a device RGB space: three channel numerators over `RGB_DEN`.
/// A value inside the unit cube has every numerator in `[0, RGB_DEN]`;
/// arithmetic may transiently leave those bounds, so the bounds are demanded
/// only where a conversion needs them.
#[derive(Clone, Copy, Debug, PartialEq, Eq, Structural)]
pub struct RgbColor {
    /// The red channel numerator over `RGB_DEN`.
    pub r: i64,
    /// The green channel numerator over `RGB_DEN`.
    pub g: i64,
    /// The blue channel numerator over `RGB_DEN`.
    pub b: i64,
}

impl RgbColor {
    /// All channels inside the unit cube.
    pub open spec fn in_gamut(self) -> bool {
        0 <= self.r <= RGB_DEN && 0 <= self.g <= RGB_DEN && 0 <= self.b <= RGB_DEN
    }

    /// All channels within the working range of the conversions.
    pub open spec fn bounded(self) -> bool {
        -RGB_NUM_MAX <= self.r <= RGB_NUM_MAX && -RGB_NUM_MAX <= self.g <= RGB_NUM_MAX
            && -RGB_NUM_MAX <= self.b <= RGB_NUM_MAX
    }

    /// Builds the exact color of an 8-bit channel triple.
    pub fn from_channels(r8: u8, g8: u8, b8: u8) -> (c: RgbColor)
        ensures
            c.r == r8 * RGB_CHANNEL_STEP,
            c.g == g8 * RGB_CHANNEL_STEP,
            c.b == b8 * RGB_CHANNEL_STEP,
            c.in_gamut(),
    {
        RgbColor {
            r: (r8 as i64) * RGB_CHANNEL_STEP,
            g: (g8 as i64) * RGB_CHANNEL_STEP,
            b: (b8 as i64) * RGB_CHANNEL_STEP,
        }
    }

    /// Encodes the three channels to 8 bits each.
    pub fn to_channels(&self) -> (out: (u8, u8, u8))
        requires
            self.bounded(),
        ensures
            out.0 == spec_encode_channel(self.r as int),
            out.1 == spec_encode_channel(self.g as int),
            out.2 == spec_encode_channel(self.b as int),
    {
        (encode_channel(self.r), encode_channel(self.g), encode_channel(self.b))
    }

    /// Renders the color as a hex code such as `#6E66CC`, after standard
    /// 8-bit encoding of each channel.
    pub fn to_hex_code(&self) -> (out: String)
        requires
            self.bounded(),
        ensures
            out@ == spec_hex_code(
                spec_encode_channel(self.r as int),
                spec_encode_channel(self.g as int),
                spec_encode_channel(self.b as int),
            ),
    {
        let (r8, g8, b8) = self.to_channels();
        let mut out = String::new();
        out.append(hash_str());
        out.append(hex_digit_str(r8 / 16));
        out.append(hex_digit_str(r8 % 16));
        out.append(hex_digit_str(g8 / 16));
        out.append(hex_digit_str(g8 % 16));
        out.append(hex_digit_str(b8 / 16));
        out.append(hex_digit_str(b8 % 16));
        proof {
            assert(out@ =~= spec_hex_code(r8, g8, b8));
        }
        out
    }
}

/// The 8-bit encoding of one channel: clamp to the unit interval, scale by
/// 255, subtract the 10^-6 bias, and round to the nearest integer, so that
/// an exact half such as 110.5 lands on 110.
pub open spec fn spec_encode_channel(num: int) -> u8 {
    if num <= 0 {
        0u8
    } else if num >= RGB_DEN {
        255u8
    } else {
        ((255 * num + RGB_ENCODE_BIAS) / (RGB_DEN as int)) as u8
    }
}

fn encode_channel(num: i64) -> (v: u8)
    requires
        -RGB_NUM_MAX <= num <= RGB_NUM_MAX,
    ensures
        v == spec_encode_channel(num as int),
{
    if num <= 0 {
        0
    } else if num >= RGB_DEN {
        255
    } else {
        let q: i64 = (255 * num + RGB_ENCODE_BIAS) / RGB_DEN;
        assert(0 <= q < 256) by (nonlinear_arith)
            requires
                q == (255 * (num as int) + RGB_ENCODE_BIAS) / (RGB_DEN as int),
                0 < num < RGB_DEN,
        ;
        q as u8
    }
}

/// The uppercase hex digit of a nibble.
pub open spec fn spec_hex_digit(n: int) -> char {
    if n == 0 {
        '0'
    } else if n == 1 {
        '1'
    } else if n == 2 {
        '2'
    } else if n == 3 {
        '3'
    } else if n == 4 {
        '4'
    } else if n == 5 {
        '5'
    } else if n == 6 {
        '6'
    } else if n == 7 {
        '7'
    } else if n == 8 {
        '8'
    } else if n == 9 {
        '9'
    } else if n == 10 {
        'A'
    } else if n == 11 {
        'B'
    } else if n == 12 {
        'C'
    } else if n == 13 {
        'D'
    } else if n == 14 {
        'E'
    } else {
        'F'
    }
}

/// The seven characters of a hex color code.
pub open spec fn spec_hex_code(r8: u8, g8: u8, b8: u8) -> Seq<char> {
    seq![
        '#',
        spec_hex_digit(r8 as int / 16),
        spec_hex_digit(r8 as int % 16),
        spec_hex_digit(g8 as int / 16),
        spec_hex_digit(g8 as int % 16),
        spec_hex_digit(b8 as int / 16),
        spec_hex_digit(b8 as int % 16),
    ]
}

fn hash_str() -> (out: &'static str)
    ensures
        out@ =~= seq!['#'],
{
    let s = "#";
    proof {
        reveal_strlit("#");
    }
    s
}

fn hex_digit_str(n: u8) -> (out: &'static str)
    requires
        n < 16,
    ensures
        out@ =~= seq![spec_hex_digit(n as int)],
{
    proof {
        reveal_strlit("0");
        reveal_strlit("1");
        reveal_strlit("2");
        reveal_strlit("3");
        reveal_strlit("4");
        reveal_strlit("5");
        reveal_strlit("6");
        reveal_strlit("7");
        reveal_strlit("8");
        reveal_strlit("9");
        reveal_strlit("A");
        reveal_strlit("B");
        reveal_strlit("C");
        reveal_strlit("D");
        reveal_strlit("E");
        reveal_strlit("F");
    }
    if n == 0 {
        "0"
    } else if n == 1 {
        "1"
    } else if n == 2 {
        "2"
    } else if n == 3 {
        "3"
    } else if n == 4 {
        "4"
    } else if n == 5 {
        "5"
    } else if n == 6 {
        "6"
    } else if n == 7 {
        "7"
    } else if n == 8 {
        "8"
    } else if n == 9 {
        "9"
    } else if n == 10 {
        "A"
    } else if n == 11 {
        "B"
    } else if n == 12 {
        "C"
    } else if n == 13 {
        "D"
    } else if n == 14 {
        "E"
    } else {
        "F"
    }
}

} // verus!
