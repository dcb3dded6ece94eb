use scarlet::{HSLColor, RgbColor};

#[test]
fn test_hsl_rgb_conversion() {
    let red_rgb = RgbColor::from_channels(255, 0, 0);
    let red_hsl = HSLColor::from_rgb(red_rgb);
    assert_eq!(red_hsl.h, 0);
    assert_eq!(red_hsl.s, 10_000);
    assert_eq!(red_hsl.l, 5_000);
    let lavender_hsl = HSLColor {
        h: 245 * 10_000,
        s: 5_000,
        l: 6_000,
    };
    let lavender_rgb = lavender_hsl.to_rgb();
    assert_eq!(lavender_rgb.to_hex_code(), "#6E66CC");
}

#[test]
fn test_hsl_string_parsing() {
    let red_hsl: HSLColor = HSLColor::from_str("hsl(0, 120%, 50%)").unwrap();
    assert_eq!(red_hsl.h, 0);
    assert_eq!(red_hsl.s, 10_000);
    assert_eq!(red_hsl.l, 5_000);
    let lavender_hsl: HSLColor = HSLColor::from_str("hsl(-475, 50%, 60%)").unwrap();
    let lavender_rgb = lavender_hsl.to_rgb();
    assert_eq!(lavender_rgb.to_hex_code(), "#6E66CC");
    // test error
    assert!(HSLColor::from_str("hsl(254%, 0, 0)").is_err());
}
