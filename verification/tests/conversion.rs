use scarlet::{Coord, HSLColor, Illuminant, RgbColor};
use scarlet::consts::{
    adobe_rgb_transform, bradford_transform, romm_rgb_transform, standard_rgb_transform,
};

#[test]
fn test_hsl_round_trip_concrete() {
    // The cylindrical round trip is exact away from the lightness poles.
    let original = HSLColor {
        h: 245 * 10_000,
        s: 5_000,
        l: 6_000,
    };
    assert_eq!(HSLColor::from_rgb(original.to_rgb()), original);
    let odd = HSLColor {
        h: 3_599_999,
        s: 1,
        l: 9_999,
    };
    assert_eq!(HSLColor::from_rgb(odd.to_rgb()), odd);
}

#[test]
fn test_hsl_round_trip_sector_boundaries() {
    // The sector boundaries are the correctness-sensitive hues.
    for h in [
        0u32, 600_000, 1_200_000, 1_800_000, 2_400_000, 3_000_000, 3_599_999,
    ] {
        let original = HSLColor {
            h,
            s: 5_000,
            l: 5_000,
        };
        assert_eq!(HSLColor::from_rgb(original.to_rgb()), original, "hue {}", h);
        let vivid = HSLColor { h, s: 10_000, l: 2_500 };
        assert_eq!(HSLColor::from_rgb(vivid.to_rgb()), vivid, "hue {}", h);
    }
}

#[test]
fn test_hsl_round_trip_gray() {
    // A gray input comes back as hue 0, saturation 0, lightness intact.
    let gray = HSLColor {
        h: 1_234_567,
        s: 0,
        l: 4_321,
    };
    let back = HSLColor::from_rgb(gray.to_rgb());
    assert_eq!(back, HSLColor { h: 0, s: 0, l: 4_321 });
}

#[test]
fn test_achromatic_fixed_point() {
    // Equal channels map to hue 0 and saturation 0, lightness the channel.
    let gray = RgbColor::from_channels(128, 128, 128);
    let hsl = HSLColor::from_rgb(gray);
    assert_eq!(hsl.h, 0);
    assert_eq!(hsl.s, 0);
    // 128/255 in ten-thousandths, rounded: 5019.6... -> 5020.
    assert_eq!(hsl.l, 5_020);
    let white = HSLColor::from_rgb(RgbColor::from_channels(255, 255, 255));
    assert_eq!((white.h, white.s, white.l), (0, 0, 10_000));
    let black = HSLColor::from_rgb(RgbColor::from_channels(0, 0, 0));
    assert_eq!((black.h, black.s, black.l), (0, 0, 0));
}

#[test]
fn test_hub_round_trip() {
    // Leaf to hub and back reproduces the channels exactly.
    for (r8, g8, b8) in [(12u8, 200u8, 7u8), (0, 0, 0), (255, 255, 255), (110, 102, 204)] {
        let v = RgbColor::from_channels(r8, g8, b8);
        let xyz = v.to_xyz();
        assert_eq!(xyz.illuminant, Illuminant::D65);
        assert_eq!(RgbColor::from_xyz(xyz), v);
    }
    let off_grid = RgbColor { r: 1, g: 999_999_999_999_999, b: 123_456_789 };
    assert_eq!(RgbColor::from_xyz(off_grid.to_xyz()), off_grid);
}

#[test]
fn test_hub_values_scale() {
    // Full white maps close to the standard noon-daylight white point:
    // X = 0.9505, Y = 1.0000, Z = 1.0890 at four decimals.
    let white = RgbColor::from_channels(255, 255, 255);
    let xyz = white.to_xyz();
    let den: i128 = 10_200_000_000_000_000_000_000;
    assert_eq!((xyz.x * 10_000 + den / 2) / den, 9_505);
    assert_eq!((xyz.y * 10_000 + den / 2) / den, 10_000);
    assert_eq!((xyz.z * 10_000 + den / 2) / den, 10_890);
}

#[test]
fn test_channel_encoding() {
    let lavender = HSLColor {
        h: 245 * 10_000,
        s: 5_000,
        l: 6_000,
    };
    assert_eq!(lavender.to_rgb().to_channels(), (110, 102, 204));
    assert_eq!(RgbColor::from_channels(255, 0, 16).to_hex_code(), "#FF0010");
    assert_eq!(RgbColor::from_channels(0, 0, 0).to_hex_code(), "#000000");
}

#[test]
fn test_coord_round_trip() {
    let hsl = HSLColor {
        h: 2_450_000,
        s: 5_000,
        l: 6_000,
    };
    let coord: Coord = hsl.into();
    assert_eq!(coord, Coord { x: 2_450_000, y: 5_000, z: 6_000 });
    assert_eq!(HSLColor::from(coord), hsl);
}

#[test]
fn test_hsl_bounds() {
    assert_eq!(
        HSLColor::bounds(),
        [(0, 3_600_000), (0, 10_000), (0, 10_000)]
    );
}

#[test]
fn test_transform_matrices_invert() {
    // Every stored transform carries its exact inverse: the adjugate over a
    // positive determinant.
    let standard = standard_rgb_transform();
    assert_eq!(standard.m.e00, 32406);
    assert_eq!(standard.adj.e00, 199_118_660);
    assert_eq!(standard.det, 4_828_341_168_696);
    assert_eq!(standard.scale, 10_000);
    let adobe = adobe_rgb_transform();
    assert!(adobe.det > 0);
    let bradford = bradford_transform();
    assert!(bradford.det > 0);
    let romm = romm_rgb_transform();
    assert!(romm.det > 0);
    // Spot-check one inverse identity row of the Bradford pair.
    let (m, a) = (bradford.m, bradford.adj);
    let d = (m.e00 as i128) * (a.e00 as i128) + (m.e01 as i128) * (a.e10 as i128)
        + (m.e02 as i128) * (a.e20 as i128);
    assert_eq!(d, bradford.det);
    let zero = (m.e00 as i128) * (a.e01 as i128) + (m.e01 as i128) * (a.e11 as i128)
        + (m.e02 as i128) * (a.e21 as i128);
    assert_eq!(zero, 0);
}
