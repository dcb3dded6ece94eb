//! The canonical reference space — the hub: an additive tristimulus value
//! tied to a viewing illuminant.  Conversions between leaf spaces are routed
//! only through this type, so each leaf implements exactly two transforms.
//! The transform between linear RGB and the hub is an exact 3-by-3 integer
//! matrix whose algebraic inverse — the adjugate over the determinant — is a
//! compile-time constant, so a round trip reproduces its input exactly
//! instead of accumulating elimination error.  Gamma companding is not
//! linear and stands outside these transforms, at the RGB leaf boundary.

use vstd::prelude::*;

use crate::rgbcolor::{RgbColor, RGB_DEN, RGB_NUM_MAX};

verus! {

/// The fixed denominator of a tristimulus component: 10^7 times the RGB
/// channel denominator, fine enough that the rounding of a hub component
/// can never move a recovered RGB channel off its grid.
pub const XYZ_DEN: i128 = 10_200_000_000_000_000_000_000;

/// Two full scales: how far a tristimulus component may range.
pub const XYZ_NUM_MAX: i128 = 20_400_000_000_000_000_000_000;

/// The entries of the XYZ-to-linear-RGB matrix for the standard RGB space,
/// in ten-thousandths.
pub const SM00: i64 = 32406;

pub const SM01: i64 = -15372;

pub const SM02: i64 = -4986;

pub const SM10: i64 = -9689;

pub const SM11: i64 = 18758;

pub const SM12: i64 = 415;

pub const SM20: i64 = 557;

pub const SM21: i64 = -2040;

pub const SM22: i64 = 10570;

/// The entries of the adjugate of that matrix: its exact algebraic inverse
/// times the determinant.
pub const SA00: i64 = 199_118_660;

pub const SA01: i64 = 172_653_480;

pub const SA02: i64 = 87_148_008;

pub const SA10: i64 = 102_643_885;

pub const SA11: i64 = 345_308_622;

pub const SA12: i64 = 34_860_864;

pub const SA20: i64 = 9_317_354;

pub const SA21: i64 = 57_546_036;

pub const SA22: i64 = 458_932_440;

/// The determinant of the matrix, at its own cubed scale.
pub const SDET: i128 = 4_828_341_168_696;

/// The combined scale factor between the two denominators: the matrix scale
/// of 10^4 times the extra 10^7 of `XYZ_DEN` over `RGB_DEN`.
pub const SF: i128 = 100_000_000_000;

/// A reference white point and viewing condition.  A tristimulus value is
/// only meaningful paired with its illuminant; conversions between
/// illuminants go through one chromatic-adaptation matrix application.
#[derive(Clone, Copy, Debug, PartialEq, Eq, Structural)]
pub enum Illuminant {
    /// Horizon light.
    D50,
    /// Mid-morning daylight.
    D55,
    /// Noon daylight, the native white of the standard RGB space.
    D65,
    /// North-sky daylight.
    D75,
}

/// A color in the canonical reference space: three tristimulus numerators
/// over `XYZ_DEN`, tied to an illuminant.
#[derive(Clone, Copy, Debug, PartialEq, Eq, Structural)]
pub struct XyzColor {
    /// The X numerator over `XYZ_DEN`.
    pub x: i128,
    /// The Y numerator over `XYZ_DEN`.
    pub y: i128,
    /// The Z numerator over `XYZ_DEN`.
    pub z: i128,
    /// The white point the value is defined against.
    pub illuminant: Illuminant,
}

impl XyzColor {
    /// All components within the working range of the conversions.
    pub open spec fn wf(self) -> bool {
        -XYZ_NUM_MAX <= self.x <= XYZ_NUM_MAX && -XYZ_NUM_MAX <= self.y <= XYZ_NUM_MAX
            && -XYZ_NUM_MAX <= self.z <= XYZ_NUM_MAX
    }
}

/// The nearest integer to `a / d` for positive `d`, an exact half rounding
/// away from zero.
pub open spec fn round_div_i(a: int, d: int) -> int {
    if a >= 0 {
        (a + d / 2) / d
    } else {
        -(((-a) + d / 2) / d)
    }
}

/// Rounding division lands within one denominator of the exact quotient.
pub proof fn lemma_round_div_i_close(a: int, d: int)
    requires
        d > 0,
    ensures
        round_div_i(a, d) * d - a <= d,
        a - round_div_i(a, d) * d <= d,
{
    if a >= 0 {
        let q = (a + d / 2) / d;
        vstd::arithmetic::div_mod::lemma_fundamental_div_mod(a + d / 2, d);
        assert(q * d == d * q) by (nonlinear_arith);
    } else {
        let q = ((-a) + d / 2) / d;
        vstd::arithmetic::div_mod::lemma_fundamental_div_mod((-a) + d / 2, d);
        assert((-q) * d == -(d * q)) by (nonlinear_arith);
    }
}

/// Rounding division recovers `k` exactly from `k * d + f` whenever the
/// perturbation `f` stays below half a denominator.
pub proof fn lemma_round_div_i_recover(k: int, f: int, d: int)
    requires
        d > 0,
        d % 2 == 0,
        k >= 0,
        -(d / 2) < f < d / 2,
    ensures
        round_div_i(k * d + f, d) == k,
{
    let a = k * d + f;
    if k == 0 {
        assert(a == f);
        if f >= 0 {
            vstd::arithmetic::div_mod::lemma_basic_div(f + d / 2, d);
        } else {
            vstd::arithmetic::div_mod::lemma_basic_div((-f) + d / 2, d);
        }
    } else {
        assert(a > 0) by (nonlinear_arith)
            requires
                a == k * d + f,
                k >= 1,
                d > 0,
                f > -(d / 2),
        ;
        assert(a + d / 2 == d * k + (f + d / 2)) by (nonlinear_arith)
            requires
                a == k * d + f,
        ;
        vstd::arithmetic::div_mod::lemma_div_multiples_vanish_fancy(k, f + d / 2, d);
    }
}

/// What `RgbColor::to_xyz` returns: each tristimulus numerator is the
/// adjugate row applied to the channels, scaled and divided by the
/// determinant with rounding to the nearest.
pub open spec fn spec_to_xyz(v: RgbColor) -> XyzColor {
    XyzColor {
        x: round_div_i(SF * (SA00 * v.r + SA01 * v.g + SA02 * v.b), SDET as int) as i128,
        y: round_div_i(SF * (SA10 * v.r + SA11 * v.g + SA12 * v.b), SDET as int) as i128,
        z: round_div_i(SF * (SA20 * v.r + SA21 * v.g + SA22 * v.b), SDET as int) as i128,
        illuminant: Illuminant::D65,
    }
}

/// What `RgbColor::from_xyz` returns: each channel numerator is the matrix
/// row applied to the tristimulus components, divided by the combined scale
/// with rounding to the nearest.
pub open spec fn spec_from_xyz(xyz: XyzColor) -> RgbColor {
    RgbColor {
        r: round_div_i(SM00 * xyz.x + SM01 * xyz.y + SM02 * xyz.z, SF as int) as i64,
        g: round_div_i(SM10 * xyz.x + SM11 * xyz.y + SM12 * xyz.z, SF as int) as i64,
        b: round_div_i(SM20 * xyz.x + SM21 * xyz.y + SM22 * xyz.z, SF as int) as i64,
    }
}

fn round_div_i128(a: i128, d: i128) -> (q: i128)
    requires
        d > 0,
        -(i128::MAX - d) <= a <= i128::MAX - d,
    ensures
        q == round_div_i(a as int, d as int),
{
    if a >= 0 {
        (a + d / 2) / d
    } else {
        -(((-a) + d / 2) / d)
    }
}

impl RgbColor {
    /// Converts linear RGB channels to the hub, under the standard RGB
    /// space's matrix and its native noon-daylight illuminant.  Companding
    /// is applied at the leaf boundary, outside this transform.
    pub fn to_xyz(&self) -> (out: XyzColor)
        requires
            self.in_gamut(),
        ensures
            out == spec_to_xyz(*self),
            out.wf(),
            out.illuminant == Illuminant::D65,
    {
        let r = self.r as i128;
        let g = self.g as i128;
        let b = self.b as i128;
        let ux: i128 = (SA00 as i128) * r + (SA01 as i128) * g + (SA02 as i128) * b;
        let uy: i128 = (SA10 as i128) * r + (SA11 as i128) * g + (SA12 as i128) * b;
        let uz: i128 = (SA20 as i128) * r + (SA21 as i128) * g + (SA22 as i128) * b;
        let x = round_div_i128(SF * ux, SDET);
        let y = round_div_i128(SF * uy, SDET);
        let z = round_div_i128(SF * uz, SDET);
        proof {
            lemma_round_div_i_close(SF * ux, SDET as int);
            lemma_round_div_i_close(SF * uy, SDET as int);
            lemma_round_div_i_close(SF * uz, SDET as int);
            assert(-XYZ_NUM_MAX <= x <= XYZ_NUM_MAX) by (nonlinear_arith)
                requires
                    x * (SDET as int) - SF * ux <= SDET,
                    SF * ux - x * (SDET as int) <= SDET,
                    -53_631_174_660_000_000_000_000_000_000_000_000 <= SF * ux
                        <= 53_631_174_660_000_000_000_000_000_000_000_000,
            ;
            assert(-XYZ_NUM_MAX <= y <= XYZ_NUM_MAX) by (nonlinear_arith)
                requires
                    y * (SDET as int) - SF * uy <= SDET,
                    SF * uy - y * (SDET as int) <= SDET,
                    -53_631_174_660_000_000_000_000_000_000_000_000 <= SF * uy
                        <= 53_631_174_660_000_000_000_000_000_000_000_000,
            ;
            assert(-XYZ_NUM_MAX <= z <= XYZ_NUM_MAX) by (nonlinear_arith)
                requires
                    z * (SDET as int) - SF * uz <= SDET,
                    SF * uz - z * (SDET as int) <= SDET,
                    -53_631_174_660_000_000_000_000_000_000_000_000 <= SF * uz
                        <= 53_631_174_660_000_000_000_000_000_000_000_000,
            ;
        }
        XyzColor { x, y, z, illuminant: Illuminant::D65 }
    }

    /// Converts a hub value back to linear RGB channels, under the standard
    /// RGB space's matrix; the value must carry that space's native
    /// illuminant.  Adapting from another illuminant takes one
    /// chromatic-adaptation matrix application first.
    pub fn from_xyz(xyz: XyzColor) -> (out: RgbColor)
        requires
            xyz.wf(),
            xyz.illuminant == Illuminant::D65,
        ensures
            out == spec_from_xyz(xyz),
            out.bounded(),
    {
        proof {
            assert((SM00 as int) * xyz.x <= 700_000_000_000_000_000_000_000_000 && (SM00 as int)
                * xyz.x >= -700_000_000_000_000_000_000_000_000 && (SM01 as int) * xyz.y
                <= 700_000_000_000_000_000_000_000_000 && (SM01 as int) * xyz.y
                >= -700_000_000_000_000_000_000_000_000 && (SM02 as int) * xyz.z
                <= 700_000_000_000_000_000_000_000_000 && (SM02 as int) * xyz.z
                >= -700_000_000_000_000_000_000_000_000 && (SM10 as int) * xyz.x
                <= 700_000_000_000_000_000_000_000_000 && (SM10 as int) * xyz.x
                >= -700_000_000_000_000_000_000_000_000 && (SM11 as int) * xyz.y
                <= 700_000_000_000_000_000_000_000_000 && (SM11 as int) * xyz.y
                >= -700_000_000_000_000_000_000_000_000 && (SM12 as int) * xyz.z
                <= 700_000_000_000_000_000_000_000_000 && (SM12 as int) * xyz.z
                >= -700_000_000_000_000_000_000_000_000 && (SM20 as int) * xyz.x
                <= 700_000_000_000_000_000_000_000_000 && (SM20 as int) * xyz.x
                >= -700_000_000_000_000_000_000_000_000 && (SM21 as int) * xyz.y
                <= 700_000_000_000_000_000_000_000_000 && (SM21 as int) * xyz.y
                >= -700_000_000_000_000_000_000_000_000 && (SM22 as int) * xyz.z
                <= 700_000_000_000_000_000_000_000_000 && (SM22 as int) * xyz.z
                >= -700_000_000_000_000_000_000_000_000) by (nonlinear_arith)
                requires
                    -XYZ_NUM_MAX <= xyz.x <= XYZ_NUM_MAX,
                    -XYZ_NUM_MAX <= xyz.y <= XYZ_NUM_MAX,
                    -XYZ_NUM_MAX <= xyz.z <= XYZ_NUM_MAX,
            ;
        }
        let px: i128 = (SM00 as i128) * xyz.x + (SM01 as i128) * xyz.y + (SM02 as i128) * xyz.z;
        let py: i128 = (SM10 as i128) * xyz.x + (SM11 as i128) * xyz.y + (SM12 as i128) * xyz.z;
        let pz: i128 = (SM20 as i128) * xyz.x + (SM21 as i128) * xyz.y + (SM22 as i128) * xyz.z;
        let r = round_div_i128(px, SF);
        let g = round_div_i128(py, SF);
        let b = round_div_i128(pz, SF);
        proof {
            lemma_round_div_i_close(px as int, SF as int);
            lemma_round_div_i_close(py as int, SF as int);
            lemma_round_div_i_close(pz as int, SF as int);
            assert(-RGB_NUM_MAX <= r <= RGB_NUM_MAX) by (nonlinear_arith)
                requires
                    r * (SF as int) - px <= SF,
                    px - r * (SF as int) <= SF,
                    -1_100_000_000_000_000_000_000_000_000 <= px
                        <= 1_100_000_000_000_000_000_000_000_000,
            ;
            assert(-RGB_NUM_MAX <= g <= RGB_NUM_MAX) by (nonlinear_arith)
                requires
                    g * (SF as int) - py <= SF,
                    py - g * (SF as int) <= SF,
                    -1_100_000_000_000_000_000_000_000_000 <= py
                        <= 1_100_000_000_000_000_000_000_000_000,
            ;
            assert(-RGB_NUM_MAX <= b <= RGB_NUM_MAX) by (nonlinear_arith)
                requires
                    b * (SF as int) - pz <= SF,
                    pz - b * (SF as int) <= SF,
                    -1_100_000_000_000_000_000_000_000_000 <= pz
                        <= 1_100_000_000_000_000_000_000_000_000,
            ;
        }
        RgbColor { r: r as i64, g: g as i64, b: b as i64 }
    }
}

/// Hub round trip: sending any color of the unit cube to the canonical
/// reference space and back reproduces its channels exactly.  The inverse
/// transform is the precomputed algebraic adjugate over the determinant, so
/// the only rounding — the hub grid itself — is too fine, by a factor of a
/// million, to move a channel off its grid.
pub proof fn lemma_hub_round_trip(v: RgbColor)
    requires
        v.in_gamut(),
    ensures
        spec_from_xyz(spec_to_xyz(v)) == v,
{
    let r = v.r as int;
    let g = v.g as int;
    let b = v.b as int;
    let det = SDET as int;
    let sf = SF as int;
    let ux = SA00 * r + SA01 * g + SA02 * b;
    let uy = SA10 * r + SA11 * g + SA12 * b;
    let uz = SA20 * r + SA21 * g + SA22 * b;
    let x = round_div_i(sf * ux, det);
    let y = round_div_i(sf * uy, det);
    let z = round_div_i(sf * uz, det);
    lemma_round_div_i_close(sf * ux, det);
    lemma_round_div_i_close(sf * uy, det);
    lemma_round_div_i_close(sf * uz, det);
    let ex = x * det - sf * ux;
    let ey = y * det - sf * uy;
    let ez = z * det - sf * uz;
    // The matrix times its adjugate is the determinant times the identity.
    assert(SM00 * SA00 + SM01 * SA10 + SM02 * SA20 == det);
    assert(SM00 * SA01 + SM01 * SA11 + SM02 * SA21 == 0);
    assert(SM00 * SA02 + SM01 * SA12 + SM02 * SA22 == 0);
    assert(SM10 * SA00 + SM11 * SA10 + SM12 * SA20 == 0);
    assert(SM10 * SA01 + SM11 * SA11 + SM12 * SA21 == det);
    assert(SM10 * SA02 + SM11 * SA12 + SM12 * SA22 == 0);
    assert(SM20 * SA00 + SM21 * SA10 + SM22 * SA20 == 0);
    assert(SM20 * SA01 + SM21 * SA11 + SM22 * SA21 == 0);
    assert(SM20 * SA02 + SM21 * SA12 + SM22 * SA22 == det);
    let px = SM00 * x + SM01 * y + SM02 * z;
    let py = SM10 * x + SM11 * y + SM12 * z;
    let pz = SM20 * x + SM21 * y + SM22 * z;
    assert(det * px == sf * det * r + (SM00 * ex + SM01 * ey + SM02 * ez)) by (nonlinear_arith)
        requires
            x * det == sf * ux + ex,
            y * det == sf * uy + ey,
            z * det == sf * uz + ez,
            px == SM00 * x + SM01 * y + SM02 * z,
            ux == SA00 * r + SA01 * g + SA02 * b,
            uy == SA10 * r + SA11 * g + SA12 * b,
            uz == SA20 * r + SA21 * g + SA22 * b,
            SM00 * SA00 + SM01 * SA10 + SM02 * SA20 == det,
            SM00 * SA01 + SM01 * SA11 + SM02 * SA21 == 0,
            SM00 * SA02 + SM01 * SA12 + SM02 * SA22 == 0,
    ;
    assert(det * py == sf * det * g + (SM10 * ex + SM11 * ey + SM12 * ez)) by (nonlinear_arith)
        requires
            x * det == sf * ux + ex,
            y * det == sf * uy + ey,
            z * det == sf * uz + ez,
            py == SM10 * x + SM11 * y + SM12 * z,
            ux == SA00 * r + SA01 * g + SA02 * b,
            uy == SA10 * r + SA11 * g + SA12 * b,
            uz == SA20 * r + SA21 * g + SA22 * b,
            SM10 * SA00 + SM11 * SA10 + SM12 * SA20 == 0,
            SM10 * SA01 + SM11 * SA11 + SM12 * SA21 == det,
            SM10 * SA02 + SM11 * SA12 + SM12 * SA22 == 0,
    ;
    assert(det * pz == sf * det * b + (SM20 * ex + SM21 * ey + SM22 * ez)) by (nonlinear_arith)
        requires
            x * det == sf * ux + ex,
            y * det == sf * uy + ey,
            z * det == sf * uz + ez,
            pz == SM20 * x + SM21 * y + SM22 * z,
            ux == SA00 * r + SA01 * g + SA02 * b,
            uy == SA10 * r + SA11 * g + SA12 * b,
            uz == SA20 * r + SA21 * g + SA22 * b,
            SM20 * SA00 + SM21 * SA10 + SM22 * SA20 == 0,
            SM20 * SA01 + SM21 * SA11 + SM22 * SA21 == 0,
            SM20 * SA02 + SM21 * SA12 + SM22 * SA22 == det,
    ;
    // Each perturbation is far below half the final rounding grid.
    lemma_recover_channel(r, px, SM00 * ex + SM01 * ey + SM02 * ez);
    lemma_recover_channel(g, py, SM10 * ex + SM11 * ey + SM12 * ez);
    lemma_recover_channel(b, pz, SM20 * ex + SM21 * ey + SM22 * ez);
    // The hub components lie inside the working range, so the casts in the
    // specification change nothing.
    assert(-XYZ_NUM_MAX <= x <= XYZ_NUM_MAX) by (nonlinear_arith)
        requires
            x * det - sf * ux <= det,
            sf * ux - x * det <= det,
            -536_311_746_600_000_000_000_000 <= ux <= 536_311_746_600_000_000_000_000,
            sf == SF as int,
            det == SDET as int,
    ;
    assert(-XYZ_NUM_MAX <= y <= XYZ_NUM_MAX) by (nonlinear_arith)
        requires
            y * det - sf * uy <= det,
            sf * uy - y * det <= det,
            -536_311_746_600_000_000_000_000 <= uy <= 536_311_746_600_000_000_000_000,
            sf == SF as int,
            det == SDET as int,
    ;
    assert(-XYZ_NUM_MAX <= z <= XYZ_NUM_MAX) by (nonlinear_arith)
        requires
            z * det - sf * uz <= det,
            sf * uz - z * det <= det,
            -536_311_746_600_000_000_000_000 <= uz <= 536_311_746_600_000_000_000_000,
            sf == SF as int,
            det == SDET as int,
    ;
}

/// One channel comes back exactly: the accumulated perturbation on the
/// matrix row is bounded by the row's magnitude times the determinant, far
/// below half the final grid.
proof fn lemma_recover_channel(ch: int, p: int, e: int)
    requires
        0 <= ch,
        (SDET as int) * p == (SF as int) * (SDET as int) * ch + e,
        -60_000 * (SDET as int) <= e <= 60_000 * (SDET as int),
    ensures
        round_div_i(p, SF as int) == ch,
{
    let det = SDET as int;
    let sf = SF as int;
    let f = p - sf * ch;
    assert(det * f == e) by (nonlinear_arith)
        requires
            det * p == sf * det * ch + e,
            f == p - sf * ch,
    ;
    assert(-60_000 <= f <= 60_000) by (nonlinear_arith)
        requires
            det * f == e,
            -60_000 * det <= e <= 60_000 * det,
            det == SDET as int,
    ;
    assert(p == ch * sf + f) by (nonlinear_arith)
        requires
            f == p - sf * ch,
    ;
    lemma_round_div_i_recover(ch, f, sf);
}

} // verus!
