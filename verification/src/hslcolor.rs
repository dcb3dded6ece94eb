//! The cylindrical hue/saturation/lightness leaf, a direct transformation of
//! the device RGB space.  The transform is hexagonal, not trigonometric:
//! values are placed on a hexagon by linear comparisons of the RGB channels,
//! and the hexagon is then read as a circle.  Components are held in
//! ten-thousandths — hue in ten-thousandths of a degree, saturation and
//! lightness in ten-thousandths of full scale — and the transform itself is
//! exact integer arithmetic over the RGB channel denominator.
//! Gray (a color with zero chroma) takes hue 0 by convention, though any hue
//! would be mathematically valid there.

use vstd::prelude::*;
use vstd::math::abs;
use vstd::string::StringSliceAdditionalSpecFns;

use crate::csscolor::{
    parse_hsl_hsv_tuple_bytes, spec_parse_hsl_hsv_tuple, HUE_TURN_UNITS, UNIT_SCALE,
};
use crate::coord::Coord;
use crate::cssnumeric::CSSParseError;
use crate::rgbcolor::{RgbColor, RGB_DEN, RGB_UNIT_STEP};

verus! {

/// A color in the HSL color space, the cylindrical transformation of device
/// RGB.  `h` ranges over `[0, 360)` degrees in ten-thousandths of a degree;
/// `s` and `l` range over `[0, 1]` in ten-thousandths.  Lightness is the
/// average of the largest and smallest RGB channels; saturation is chroma
/// relative to the largest chroma available at that lightness.
#[derive(Clone, Copy, Debug, PartialEq, Eq, Structural)]
pub struct HSLColor {
    /// The hue component, in ten-thousandths of a degree: `0..3_600_000`.
    pub h: u32,
    /// The saturation component, in ten-thousandths: `0..=10_000`.
    pub s: u32,
    /// The lightness component, in ten-thousandths: `0..=10_000`.
    pub l: u32,
}

impl HSLColor {
    /// The component ranges of the space.
    pub open spec fn wf(self) -> bool {
        self.h < HUE_TURN_UNITS && self.s <= UNIT_SCALE && self.l <= UNIT_SCALE
    }

    /// The per-component bounds of the space, in ten-thousandths: hue one
    /// turn, saturation and lightness full scale.
    pub fn bounds() -> (out: [(u32, u32); 3])
        ensures
            out@ == seq![(0u32, HUE_TURN_UNITS), (0u32, UNIT_SCALE), (0u32, UNIT_SCALE)],
    {
        let out = [(0u32, HUE_TURN_UNITS), (0u32, UNIT_SCALE), (0u32, UNIT_SCALE)];
        proof {
            assert(out@ =~= seq![(0u32, HUE_TURN_UNITS), (0u32, UNIT_SCALE), (0u32, UNIT_SCALE)]);
        }
        out
    }

    /// Parses CSS functional notation such as `hsl(245, 50%, 60%)`.  The
    /// prefix is case-sensitive; the tuple after `hsl` follows the shared
    /// cylindrical grammar.
    pub fn from_str(s: &str) -> (r: Result<HSLColor, CSSParseError>)
        ensures
            r == spec_hsl_from_str(s.spec_bytes()),
            r matches Ok(c) ==> c.wf(),
    {
        let bytes = s.as_bytes();
        let n = bytes.len();
        if n < 4 || bytes[0] != 104 || bytes[1] != 115 || bytes[2] != 108 || bytes[3] != 40 {
            return Err(CSSParseError::InvalidColorSyntax);
        }
        let tup = vstd::slice::slice_subrange(bytes, 3, n);
        proof {
            assert(tup@ =~= s.spec_bytes().skip(3));
        }
        match parse_hsl_hsv_tuple_bytes(tup) {
            Ok((h, s_, l_)) => {
                proof {
                    crate::csscolor::lemma_tuple_units_wf(tup@);
                }
                Ok(HSLColor { h, s: s_, l: l_ })
            },
            Err(e) => Err(e),
        }
    }
}

impl From<Coord> for HSLColor {
    /// Reads a coordinate triple as hue, saturation, lightness.
    fn from(c: Coord) -> (out: HSLColor) {
        HSLColor { h: c.x, s: c.y, l: c.z }
    }
}

impl vstd::std_specs::convert::FromSpecImpl<Coord> for HSLColor {
    open spec fn obeys_from_spec() -> bool {
        true
    }

    open spec fn from_spec(c: Coord) -> HSLColor {
        HSLColor { h: c.x, s: c.y, l: c.z }
    }
}

impl From<HSLColor> for Coord {
    /// Writes the components out as a coordinate triple, hue first.
    fn from(c: HSLColor) -> (out: Coord) {
        Coord { x: c.h, y: c.s, z: c.l }
    }
}

impl vstd::std_specs::convert::FromSpecImpl<HSLColor> for Coord {
    open spec fn obeys_from_spec() -> bool {
        true
    }

    open spec fn from_spec(c: HSLColor) -> Coord {
        Coord { x: c.h, y: c.s, z: c.l }
    }
}

/// The nearest integer to `a / d`, for non-negative `a` and positive `d`;
/// an exact half rounds up.  A value already on the grid is returned
/// exactly.
pub open spec fn round_div(a: int, d: int) -> int {
    (a + d / 2) / d
}

/// The hexagonal forward transform, over components in ten-thousandths.
/// Chroma is `(1 - |2l - 1|) * s`; the secondary channel follows the
/// distance to the nearest even sector boundary; the sector is decided by a
/// chain of `h <= boundary` tests against 60, 120, 180, 240 and 300 degrees,
/// so a hue of exactly 60 degrees belongs to the first sector; and the
/// offset `l - chroma/2` restores the requested lightness.  The channels
/// come out over `RGB_DEN` exactly — no rounding happens here.
pub open spec fn spec_to_rgb_raw(h: int, s: int, l: int) -> (int, int, int) {
    let a = UNIT_SCALE - abs(2 * l - UNIT_SCALE);
    let c = a * s;
    let t = h % 1_200_000;
    let w = 600_000 - abs(t - 600_000);
    let x = c * w;
    let c6 = c * 600_000;
    let m = l * 6_000_000_000 - c * 300_000;
    let rgb1 = if h <= 600_000 {
        (c6, x, 0int)
    } else if h <= 1_200_000 {
        (x, c6, 0int)
    } else if h <= 1_800_000 {
        (0int, c6, x)
    } else if h <= 2_400_000 {
        (0int, x, c6)
    } else if h <= 3_000_000 {
        (x, 0int, c6)
    } else {
        (c6, 0int, x)
    };
    (17 * (rgb1.0 + m), 17 * (rgb1.1 + m), 17 * (rgb1.2 + m))
}

/// See `spec_to_rgb_raw`; the channels are cast to their carrier type, which
/// `lemma_to_rgb_in_gamut` shows loses nothing.
pub open spec fn spec_to_rgb(h: int, s: int, l: int) -> RgbColor {
    let raw = spec_to_rgb_raw(h, s, l);
    RgbColor { r: raw.0 as i64, g: raw.1 as i64, b: raw.2 as i64 }
}

/// The hexagonal forward transform stays inside the unit cube on the whole
/// component domain.
pub proof fn lemma_to_rgb_in_gamut(h: int, s: int, l: int)
    requires
        0 <= h < HUE_TURN_UNITS,
        0 <= s <= UNIT_SCALE,
        0 <= l <= UNIT_SCALE,
    ensures
        0 <= spec_to_rgb_raw(h, s, l).0 <= RGB_DEN,
        0 <= spec_to_rgb_raw(h, s, l).1 <= RGB_DEN,
        0 <= spec_to_rgb_raw(h, s, l).2 <= RGB_DEN,
        spec_to_rgb(h, s, l).r == spec_to_rgb_raw(h, s, l).0,
        spec_to_rgb(h, s, l).g == spec_to_rgb_raw(h, s, l).1,
        spec_to_rgb(h, s, l).b == spec_to_rgb_raw(h, s, l).2,
{
    let a = UNIT_SCALE - abs(2 * l - UNIT_SCALE);
    let c = a * s;
    let t = h % 1_200_000;
    let w = 600_000 - abs(t - 600_000);
    let x = c * w;
    let c6 = c * 600_000;
    let m = l * 6_000_000_000 - c * 300_000;
    assert(0 <= t < 1_200_000);
    assert(0 <= a <= 10_000);
    assert(0 <= c <= 100_000_000) by (nonlinear_arith)
        requires
            0 <= a <= 10_000,
            0 <= s <= 10_000,
            c == a * s,
    ;
    assert(0 <= w <= 600_000);
    assert(0 <= x <= c6 && c6 <= 60_000_000_000_000) by (nonlinear_arith)
        requires
            0 <= c <= 100_000_000,
            0 <= w <= 600_000,
            x == c * w,
            c6 == c * 600_000,
    ;
    assert(a <= 2 * l);
    assert(c * 300_000 <= l * 6_000_000_000) by (nonlinear_arith)
        requires
            c == a * s,
            0 <= a <= 2 * l,
            0 <= s <= 10_000,
            0 <= l,
    ;
    assert(a <= 2 * (10_000 - l));
    assert(c6 + m <= 60_000_000_000_000) by (nonlinear_arith)
        requires
            c == a * s,
            0 <= a <= 2 * (10_000 - l),
            0 <= s <= 10_000,
            l <= 10_000,
            c6 == c * 600_000,
            m == l * 6_000_000_000 - c * 300_000,
    ;
}

/// The hexagonal inverse transform, over channels in `[0, RGB_DEN]`.
/// Chroma is the largest channel minus the smallest.  The hue sector is
/// whichever channel attains the maximum — ties broken red first, then
/// green, then blue — and hue is a linear function of the other two channels
/// over chroma, offset by 0, 120 or 240 degrees and wrapped into one turn.
/// Gray takes hue 0.  Lightness is the average of the largest and smallest
/// channels.  Saturation is chroma over `1 - |2l - 1|`, and 0 at the
/// singular lightness values 0 and 1 where that denominator vanishes.  Each
/// component is rounded to the nearest ten-thousandth.
///
/// Sector selection compares channels for the maximum exactly.  With
/// floating-point channels that comparison would need an epsilon tolerance,
/// because a maximum reached through a lossy conversion can miss a tie by a
/// rounding error; the channels here are exact fractions, so equality at a
/// sector boundary is exact and the red-green-blue priority order decides
/// it.
pub open spec fn spec_from_rgb(r: int, g: int, b: int) -> (int, int, int) {
    let mx = if r >= g && r >= b {
        r
    } else if g >= b {
        g
    } else {
        b
    };
    let mn = if r <= g && r <= b {
        r
    } else if g <= b {
        g
    } else {
        b
    };
    let c = mx - mn;
    let sum = mx + mn;
    let l = round_div(sum * UNIT_SCALE, 2 * RGB_DEN);
    let dnum = RGB_DEN - abs(sum - RGB_DEN);
    let s = if dnum == 0 {
        0int
    } else {
        round_div(c * UNIT_SCALE, dnum)
    };
    let h = if c == 0 {
        0int
    } else {
        let raw = if r >= g && r >= b {
            (g - b) * 600_000
        } else if g >= b {
            (b - r) * 600_000 + 1_200_000 * c
        } else {
            (r - g) * 600_000 + 2_400_000 * c
        };
        let adj = if raw < 0 {
            raw + 3_600_000 * c
        } else {
            raw
        };
        let q = round_div(adj, c);
        if q == 3_600_000 {
            0int
        } else {
            q
        }
    };
    (h, s, l)
}

impl HSLColor {
    /// Converts to device RGB by the hexagonal forward transform.  The
    /// result is exact and always lies inside the unit cube.
    pub fn to_rgb(&self) -> (out: RgbColor)
        requires
            self.wf(),
        ensures
            out == spec_to_rgb(self.h as int, self.s as int, self.l as int),
            out.in_gamut(),
    {
        let hl: i64 = self.h as i64;
        let sl: i64 = self.s as i64;
        let ll: i64 = self.l as i64;
        let two_l: i64 = 2 * ll - 10_000;
        let a: i64 = 10_000 - (if two_l < 0 {
            -two_l
        } else {
            two_l
        });
        proof {
            assert(0 <= a <= 10_000);
            assert(0 <= a * sl <= 100_000_000) by (nonlinear_arith)
                requires
                    0 <= a <= 10_000,
                    0 <= sl <= 10_000,
            ;
        }
        let c: i64 = a * sl;
        let t: i64 = (self.h % 1_200_000) as i64;
        let dt: i64 = t - 600_000;
        let w: i64 = 600_000 - (if dt < 0 {
            -dt
        } else {
            dt
        });
        proof {
            assert(0 <= w <= 600_000);
            assert(0 <= c * w <= c * 600_000 && c * 600_000 <= 60_000_000_000_000)
                by (nonlinear_arith)
                requires
                    0 <= c <= 100_000_000,
                    0 <= w <= 600_000,
            ;
        }
        let x: i64 = c * w;
        let c6: i64 = c * 600_000;
        let m: i64 = ll * 6_000_000_000 - c * 300_000;
        proof {
            // The offset is non-negative: chroma is at most twice the
            // lightness.
            assert(a <= 2 * ll);
            assert(c * 300_000 <= ll * 6_000_000_000) by (nonlinear_arith)
                requires
                    c == a * sl,
                    0 <= a <= 2 * ll,
                    0 <= sl <= 10_000,
                    0 <= ll,
            ;
            // The largest channel is at most full scale: chroma is at most
            // twice the headroom above the lightness.
            assert(a <= 2 * (10_000 - ll));
            assert(c6 + m <= 60_000_000_000_000) by (nonlinear_arith)
                requires
                    c == a * sl,
                    0 <= a <= 2 * (10_000 - ll),
                    0 <= sl <= 10_000,
                    ll <= 10_000,
                    c6 == c * 600_000,
                    m == ll * 6_000_000_000 - c * 300_000,
            ;
        }
        let (r1, g1, b1): (i64, i64, i64) = if hl <= 600_000 {
            (c6, x, 0)
        } else if hl <= 1_200_000 {
            (x, c6, 0)
        } else if hl <= 1_800_000 {
            (0, c6, x)
        } else if hl <= 2_400_000 {
            (0, x, c6)
        } else if hl <= 3_000_000 {
            (x, 0, c6)
        } else {
            (c6, 0, x)
        };
        RgbColor { r: 17 * (r1 + m), g: 17 * (g1 + m), b: 17 * (b1 + m) }
    }

    /// Converts from device RGB by the hexagonal inverse transform, rounding
    /// each component to the nearest ten-thousandth.
    pub fn from_rgb(rgb: RgbColor) -> (out: HSLColor)
        requires
            rgb.in_gamut(),
        ensures
            (out.h as int, out.s as int, out.l as int) == spec_from_rgb(
                rgb.r as int,
                rgb.g as int,
                rgb.b as int,
            ),
            out.wf(),
    {
        let r = rgb.r;
        let g = rgb.g;
        let b = rgb.b;
        let mx: i64 = if r >= g && r >= b {
            r
        } else if g >= b {
            g
        } else {
            b
        };
        let mn: i64 = if r <= g && r <= b {
            r
        } else if g <= b {
            g
        } else {
            b
        };
        let c: i64 = mx - mn;
        let sum: i64 = mx + mn;
        proof {
            assert(round_div(sum as int * 10_000, 2 * (RGB_DEN as int)) <= 10_000)
                by (nonlinear_arith)
                requires
                    0 <= sum <= 2 * (RGB_DEN as int),
            ;
        }
        let l: u32 = round_div_u128((sum as u128) * 10_000, 2 * (RGB_DEN as u128), 10_000);
        let dnum: i64 = RGB_DEN - (if sum >= RGB_DEN {
            sum - RGB_DEN
        } else {
            RGB_DEN - sum
        });
        let s: u32 = if dnum == 0 {
            0
        } else {
            proof {
                assert(c <= dnum);
                assert(round_div(c as int * 10_000, dnum as int) <= 10_000) by (nonlinear_arith)
                    requires
                        0 <= c <= dnum,
                        0 < dnum,
                ;
            }
            round_div_u128((c as u128) * 10_000, dnum as u128, 10_000)
        };
        let h: u32 = if c == 0 {
            0
        } else {
            let raw: i128 = if r >= g && r >= b {
                (g as i128 - b as i128) * 600_000
            } else if g >= b {
                (b as i128 - r as i128) * 600_000 + 1_200_000 * (c as i128)
            } else {
                (r as i128 - g as i128) * 600_000 + 2_400_000 * (c as i128)
            };
            let adj: i128 = if raw < 0 {
                raw + 3_600_000 * (c as i128)
            } else {
                raw
            };
            proof {
                assert(g - b >= -c && g - b <= c);
                assert(b - r >= -c && b - r <= c);
                assert(r - g >= -c && r - g <= c);
                assert(0 <= adj <= 3_600_000 * (c as int));
                assert(round_div(adj as int, c as int) <= 3_600_000) by (nonlinear_arith)
                    requires
                        0 <= adj <= 3_600_000 * (c as int),
                        0 < c,
                ;
            }
            let q: u32 = round_div_u128(adj as u128, c as u128, 3_600_000);
            if q == 3_600_000 {
                0
            } else {
                q
            }
        };
        HSLColor { h, s, l }
    }
}

/// Rounding division gives back exactly `k` on the exact multiple `k * d`.
pub proof fn lemma_round_div_exact(k: int, d: int)
    requires
        d > 0,
    ensures
        round_div(k * d, d) == k,
{
    assert(k * d + d / 2 == d * k + d / 2) by (nonlinear_arith);
    vstd::arithmetic::div_mod::lemma_div_multiples_vanish_fancy(k, d / 2, d);
}

/// Achromatic fixed point: an RGB value with all three channels equal maps
/// to hue 0 and saturation 0, and its lightness is the shared channel value,
/// read to the nearest ten-thousandth — exactly, when the channel lies on
/// the ten-thousandth grid.
pub proof fn lemma_achromatic_fixed_point(v: int)
    requires
        0 <= v <= RGB_DEN,
    ensures
        spec_from_rgb(v, v, v).0 == 0,
        spec_from_rgb(v, v, v).1 == 0,
        spec_from_rgb(v, v, v).2 == round_div(v * (UNIT_SCALE as int), RGB_DEN as int),
        forall|k: int|
            0 <= k <= UNIT_SCALE && v == #[trigger] (k * RGB_UNIT_STEP) ==> spec_from_rgb(
                v,
                v,
                v,
            ).2 == k,
{
    let sum = 2 * v;
    let dnum = RGB_DEN - abs(sum - RGB_DEN);
    // Saturation: chroma is zero, and rounding zero over any positive
    // denominator gives zero.
    if dnum != 0 {
        lemma_round_div_exact(0, dnum);
        assert(0 * dnum == 0) by (nonlinear_arith);
    }
    // Lightness: halving numerator and denominator together keeps the
    // rounded quotient.
    let a = v * (UNIT_SCALE as int) + (RGB_DEN as int) / 2;
    vstd::arithmetic::div_mod::lemma_div_multiples_vanish_quotient(2, a, RGB_DEN as int);
    assert(sum * (UNIT_SCALE as int) + (2 * (RGB_DEN as int)) / 2 == 2 * a);
    assert((2 * a) / (2 * (RGB_DEN as int)) == a / (RGB_DEN as int));
    assert forall|k: int|
        0 <= k <= UNIT_SCALE && v == #[trigger] (k * RGB_UNIT_STEP) implies spec_from_rgb(
        v,
        v,
        v,
    ).2 == k by {
        assert(v * (UNIT_SCALE as int) == k * (RGB_DEN as int)) by (nonlinear_arith)
            requires
                v == k * RGB_UNIT_STEP,
        ;
        lemma_round_div_exact(k, RGB_DEN as int);
    }
}

/// Round trip through the hexagonal transform: converting cylindrical
/// components to device RGB and back reproduces them exactly, away from the
/// singular lightness values 0 and 1.  A gray input (saturation 0) comes
/// back with saturation 0 and the conventional hue 0, its lightness intact.
pub proof fn lemma_hsl_rgb_round_trip(h: int, s: int, l: int)
    requires
        0 <= h < HUE_TURN_UNITS,
        0 <= s <= UNIT_SCALE,
        0 < l < UNIT_SCALE,
    ensures
        ({
            let rgb = spec_to_rgb(h, s, l);
            spec_from_rgb(rgb.r as int, rgb.g as int, rgb.b as int) == if s == 0 {
                (0int, 0int, l)
            } else {
                (h, s, l)
            }
        }),
{
    lemma_to_rgb_in_gamut(h, s, l);
    let a = UNIT_SCALE - abs(2 * l - UNIT_SCALE);
    let c = a * s;
    let t = h % 1_200_000;
    let w = 600_000 - abs(t - 600_000);
    let x = c * w;
    let c6 = c * 600_000;
    let m = l * 6_000_000_000 - c * 300_000;
    let rgb = spec_to_rgb(h, s, l);
    let r = rgb.r as int;
    let g = rgb.g as int;
    let b = rgb.b as int;
    // Shared facts about the forward channels.
    assert(0 < a);
    assert(0 <= c && (s > 0 ==> c > 0) && (s == 0 ==> c == 0)) by (nonlinear_arith)
        requires
            c == a * s,
            0 < a,
            0 <= s,
    ;
    assert(0 <= w <= 600_000);
    assert(0 <= x <= c6 && (c > 0 && w < 600_000 ==> x < c6) && (c > 0 && w > 0 ==> x > 0) && (c
        > 0 ==> c6 > 0)) by (nonlinear_arith)
        requires
            0 <= c,
            0 <= w <= 600_000,
            x == c * w,
            c6 == c * 600_000,
    ;
    assert(c * 300_000 <= l * 6_000_000_000) by (nonlinear_arith)
        requires
            c == a * s,
            0 <= a <= 2 * l,
            0 <= s <= 10_000,
            0 <= l,
    ;
    // The extremes and their combinations are sector-independent.
    let mx = 17 * (c6 + m);
    let mn = 17 * m;
    let cc = mx - mn;
    let sum = mx + mn;
    assert(cc == 17 * c6);
    assert(sum == l * 204_000_000_000);
    // Lightness comes back exactly.
    assert(sum * (UNIT_SCALE as int) == l * (2 * (RGB_DEN as int)));
    lemma_round_div_exact(l, 2 * (RGB_DEN as int));
    // Saturation comes back exactly.
    let dnum = RGB_DEN - abs(sum - RGB_DEN);
    assert(dnum == if l <= 5_000 {
        l * 204_000_000_000
    } else {
        (10_000 - l) * 204_000_000_000
    });
    assert(dnum > 0) by (nonlinear_arith)
        requires
            dnum == if l <= 5_000 {
                l * 204_000_000_000
            } else {
                (10_000 - l) * 204_000_000_000
            },
            0 < l < 10_000,
    ;
    if l <= 5_000 {
        assert(a == 2 * l);
        assert(cc * (UNIT_SCALE as int) == dnum * s) by (nonlinear_arith)
            requires
                cc == 17 * (a * s * 600_000),
                a == 2 * l,
                dnum == l * 204_000_000_000,
        ;
    } else {
        assert(a == 2 * (10_000 - l));
        assert(cc * (UNIT_SCALE as int) == dnum * s) by (nonlinear_arith)
            requires
                cc == 17 * (a * s * 600_000),
                a == 2 * (10_000 - l),
                dnum == (10_000 - l) * 204_000_000_000,
        ;
    }
    assert(cc * (UNIT_SCALE as int) == s * dnum) by (nonlinear_arith)
        requires
            cc * (UNIT_SCALE as int) == dnum * s,
    ;
    lemma_round_div_exact(s, dnum);
    if s == 0 {
        assert(c == 0);
        assert(r == g && g == b);
        assert(spec_from_rgb(r, g, b).0 == 0);
        assert(spec_from_rgb(r, g, b).1 == s);
        assert(spec_from_rgb(r, g, b).2 == l);
    } else {
        assert(c > 0);
        // Hue comes back exactly: in every sector the adjusted numerator is
        // the chroma times the hue.
        assert(cc * h == h * cc) by (nonlinear_arith);
        lemma_round_div_exact(h, cc);
        if h <= 600_000 {
            vstd::arithmetic::div_mod::lemma_small_mod(h as nat, 1_200_000nat);
            assert(t == h && w == h);
            assert(r == 17 * (c6 + m) && g == 17 * (x + m) && b == 17 * m);
            assert(r >= g && r >= b);
            assert((g - b) * 600_000 == cc * h) by (nonlinear_arith)
                requires
                    g - b == 17 * (c * h),
                    cc == 17 * (c * 600_000),
            ;
            assert(spec_from_rgb(r, g, b).0 == h);
        } else if h <= 1_200_000 {
            if h < 1_200_000 {
                vstd::arithmetic::div_mod::lemma_small_mod(h as nat, 1_200_000nat);
                assert(t == h);
            } else {
                vstd::arithmetic::div_mod::lemma_mod_multiples_vanish(1, 0, 1_200_000);
                assert(0int % 1_200_000int == 0) by (nonlinear_arith);
                assert(t == 0);
                assert(w == 0);
                assert(x == 0) by (nonlinear_arith)
                    requires
                        x == c * w,
                        w == 0,
                ;
            }
            assert(r == 17 * (x + m) && g == 17 * (c6 + m) && b == 17 * m);
            assert(x < c6) by (nonlinear_arith)
                requires
                    x == c * w,
                    c6 == c * 600_000,
                    c > 0,
                    0 <= w < 600_000,
                    w == if h < 1_200_000 {
                        1_200_000 - h
                    } else {
                        0int
                    },
            ;
            assert(!(r >= g && r >= b) && g >= b);
            assert((b - r) * 600_000 + 1_200_000 * cc == cc * h) by (nonlinear_arith)
                requires
                    b - r == -(17 * (c * w)),
                    cc == 17 * (c * 600_000),
                    w == 1_200_000 - h,
            ;
            assert((b - r) * 600_000 + 1_200_000 * cc >= 0);
            assert(spec_from_rgb(r, g, b).0 == h);
        } else if h <= 1_800_000 {
            vstd::arithmetic::div_mod::lemma_mod_multiples_vanish(1, h - 1_200_000, 1_200_000);
            vstd::arithmetic::div_mod::lemma_small_mod((h - 1_200_000) as nat, 1_200_000nat);
            assert(t == h - 1_200_000 && w == t);
            assert(r == 17 * m && g == 17 * (c6 + m) && b == 17 * (x + m));
            assert(!(r >= g && r >= b) && g >= b);
            assert((b - r) * 600_000 + 1_200_000 * cc == cc * h) by (nonlinear_arith)
                requires
                    b - r == 17 * (c * w),
                    cc == 17 * (c * 600_000),
                    w == h - 1_200_000,
            ;
            assert((b - r) * 600_000 + 1_200_000 * cc >= 0);
            assert(spec_from_rgb(r, g, b).0 == h);
        } else if h <= 2_400_000 {
            if h < 2_400_000 {
                vstd::arithmetic::div_mod::lemma_mod_multiples_vanish(1, h - 1_200_000, 1_200_000);
                vstd::arithmetic::div_mod::lemma_small_mod((h - 1_200_000) as nat, 1_200_000nat);
                assert(t == h - 1_200_000);
            } else {
                vstd::arithmetic::div_mod::lemma_mod_multiples_vanish(2, 0, 1_200_000);
                assert(0int % 1_200_000int == 0) by (nonlinear_arith);
                assert(t == 0);
            }
            assert(w == 2_400_000 - h);
            assert(r == 17 * m && g == 17 * (x + m) && b == 17 * (c6 + m));
            assert(x < c6) by (nonlinear_arith)
                requires
                    x == c * w,
                    c6 == c * 600_000,
                    c > 0,
                    0 <= w < 600_000,
            ;
            assert(!(r >= g && r >= b) && !(g >= b));
            assert((r - g) * 600_000 + 2_400_000 * cc == cc * h) by (nonlinear_arith)
                requires
                    r - g == -(17 * (c * w)),
                    cc == 17 * (c * 600_000),
                    w == 2_400_000 - h,
            ;
            assert((r - g) * 600_000 + 2_400_000 * cc >= 0) by (nonlinear_arith)
                requires
                    r - g == -(17 * (c * w)),
                    cc == 17 * (c * 600_000),
                    0 <= w < 600_000,
                    c > 0,
            ;
            assert(spec_from_rgb(r, g, b).0 == h);
        } else if h <= 3_000_000 {
            vstd::arithmetic::div_mod::lemma_mod_multiples_vanish(2, h - 2_400_000, 1_200_000);
            vstd::arithmetic::div_mod::lemma_small_mod((h - 2_400_000) as nat, 1_200_000nat);
            assert(t == h - 2_400_000 && w == t);
            assert(r == 17 * (x + m) && g == 17 * m && b == 17 * (c6 + m));
            if h == 3_000_000 {
                // The exact sector boundary: red ties with blue and wins.
                assert(x == c6);
                assert(r >= g && r >= b);
                assert((g - b) * 600_000 < 0) by (nonlinear_arith)
                    requires
                        g - b == -(17 * (c * 600_000)),
                        c > 0,
                ;
                assert((g - b) * 600_000 + 3_600_000 * cc == cc * h) by (nonlinear_arith)
                    requires
                        g - b == -(17 * (c * 600_000)),
                        cc == 17 * (c * 600_000),
                        h == 3_000_000,
                ;
                assert(spec_from_rgb(r, g, b).0 == h);
            } else {
                assert(x < c6) by (nonlinear_arith)
                    requires
                        x == c * w,
                        c6 == c * 600_000,
                        c > 0,
                        0 <= w < 600_000,
                ;
                assert(!(r >= g && r >= b) && !(g >= b));
                assert((r - g) * 600_000 + 2_400_000 * cc == cc * h) by (nonlinear_arith)
                    requires
                        r - g == 17 * (c * w),
                        cc == 17 * (c * 600_000),
                        w == h - 2_400_000,
                ;
                assert((r - g) * 600_000 + 2_400_000 * cc >= 0);
                assert(spec_from_rgb(r, g, b).0 == h);
            }
        } else {
            vstd::arithmetic::div_mod::lemma_mod_multiples_vanish(2, h - 2_400_000, 1_200_000);
            vstd::arithmetic::div_mod::lemma_small_mod((h - 2_400_000) as nat, 1_200_000nat);
            assert(t == h - 2_400_000 && w == 3_600_000 - h);
            assert(r == 17 * (c6 + m) && g == 17 * m && b == 17 * (x + m));
            assert(x > 0 && x <= c6) by (nonlinear_arith)
                requires
                    x == c * w,
                    c6 == c * 600_000,
                    c > 0,
                    0 < w <= 600_000,
            ;
            assert(r >= g && r >= b);
            assert((g - b) * 600_000 < 0) by (nonlinear_arith)
                requires
                    g - b == -(17 * (c * w)),
                    c > 0,
                    w > 0,
            ;
            assert((g - b) * 600_000 + 3_600_000 * cc == cc * h) by (nonlinear_arith)
                requires
                    g - b == -(17 * (c * w)),
                    cc == 17 * (c * 600_000),
                    w == 3_600_000 - h,
            ;
            assert(spec_from_rgb(r, g, b).0 == h);
        }
        assert(spec_from_rgb(r, g, b).1 == s);
        assert(spec_from_rgb(r, g, b).2 == l);
    }
}

/// Divides with rounding to nearest, half up, for values whose quotient is
/// known to stay at or below `cap`.
fn round_div_u128(a: u128, d: u128, cap: u32) -> (q: u32)
    requires
        d > 0,
        a + d / 2 <= u128::MAX,
        round_div(a as int, d as int) <= cap,
    ensures
        q == round_div(a as int, d as int),
{
    let q = (a + d / 2) / d;
    q as u32
}

/// What `HSLColor::from_str` returns: the string must open with the exact
/// prefix `hsl(`, and the parenthesized remainder after `hsl` follows the
/// shared cylindrical tuple grammar.
pub open spec fn spec_hsl_from_str(s: Seq<u8>) -> Result<HSLColor, CSSParseError> {
    if s.len() < 4 || s[0] != 104 || s[1] != 115 || s[2] != 108 || s[3] != 40 {
        Err(CSSParseError::InvalidColorSyntax)
    } else {
        match spec_parse_hsl_hsv_tuple(s.skip(3)) {
            Ok((h, sat, l)) => Ok(HSLColor { h, s: sat, l }),
            Err(e) => Err(e),
        }
    }
}

} // verus!
