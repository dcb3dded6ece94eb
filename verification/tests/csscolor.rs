use scarlet::{parse_css_number, parse_hsl_hsv_tuple, parse_rgb_num, parse_rgb_str};
use scarlet::{CSSNumeric, CSSParseError};

#[test]
fn test_rgb_num_parsing() {
    // test integers
    assert_eq!(104u8, parse_rgb_num("104").unwrap());
    assert_eq!(255u8, parse_rgb_num("234923").unwrap());
    // test floats
    assert_eq!(123u8, parse_rgb_num(".48235").unwrap());
    assert_eq!(255u8, parse_rgb_num("1.04").unwrap());
    // test percents
    assert_eq!(122u8, parse_rgb_num("48%").unwrap());
    assert_eq!(255u8, parse_rgb_num("115%").unwrap());
    // test errors
    assert_eq!(
        Err(CSSParseError::InvalidNumericCharacters),
        parse_rgb_num("abc")
    );
    assert_eq!(
        Err(CSSParseError::InvalidNumericSyntax),
        parse_rgb_num("123%%")
    );
}

#[test]
fn test_rgb_str_parsing() {
    // test integers and percents all at once
    let rgb = parse_rgb_str("rgb(125, 20%, 0.5)").unwrap();
    assert_eq!(rgb, (125, 51, 127));
    // test clamping in every direction
    let rgb = parse_rgb_str("rgb(-125, -20%, 10.5)").unwrap();
    assert_eq!(rgb, (0, 0, 255));
    // test error on bad syntax
    assert_eq!(
        Err(CSSParseError::InvalidColorSyntax),
        parse_rgb_str("rgB(123, 33, 2)")
    );
    assert_eq!(
        Err(CSSParseError::InvalidColorSyntax),
        parse_rgb_str("rgb(123, 123, 41, 22)")
    );
    assert_eq!(
        Err(CSSParseError::InvalidColorSyntax),
        parse_rgb_str("rgB(())")
    );
}

#[test]
fn test_hslv_str_parsing() {
    // test normal
    let hsl = parse_hsl_hsv_tuple("(123, 40%, 40%)").unwrap();
    assert_eq!(hsl.0, 123 * 10_000);
    assert_eq!(hsl.1, 40 * 100);
    assert_eq!(hsl.2, 40 * 100);
    // test hue angle stuff
    let hsl = parse_hsl_hsv_tuple("(-597, 40%, 40%)").unwrap();
    assert_eq!(hsl.0, 123 * 10_000);
    assert_eq!(hsl.1, 40 * 100);
    assert_eq!(hsl.2, 40 * 100);
    let hsl = parse_hsl_hsv_tuple("(1203, 40%, 40%)").unwrap();
    assert_eq!(hsl.0, 123 * 10_000);
    assert_eq!(hsl.1, 40 * 100);
    assert_eq!(hsl.2, 40 * 100);
    // test percentage clamping
    let hsl = parse_hsl_hsv_tuple("(123, 140%, -40%)").unwrap();
    assert_eq!(hsl.0, 123 * 10_000);
    assert_eq!(hsl.1, 100 * 100);
    assert_eq!(hsl.2, 0);
    // test error
    assert_eq!(
        parse_hsl_hsv_tuple("(14%, 140%, 12%)"),
        Err(CSSParseError::InvalidColorSyntax)
    );
}

#[test]
fn test_numeric_classification() {
    assert_eq!(parse_css_number("104"), Ok(CSSNumeric::Integer(104)));
    assert_eq!(parse_css_number("-12"), Ok(CSSNumeric::Integer(-12)));
    assert_eq!(parse_css_number("+7"), Ok(CSSNumeric::Integer(7)));
    assert_eq!(parse_css_number("48%"), Ok(CSSNumeric::Percentage(48)));
    assert_eq!(parse_css_number("-20%"), Ok(CSSNumeric::Percentage(-20)));
    let f = match parse_css_number(".48235") {
        Ok(CSSNumeric::Float(f)) => f,
        other => panic!("expected a float token, got {:?}", other),
    };
    assert!(!f.neg);
    assert_eq!(f.whole, 0);
    assert_eq!(f.frac, 482_350_000_000);
    let f = match parse_css_number("-1.04") {
        Ok(CSSNumeric::Float(f)) => f,
        other => panic!("expected a float token, got {:?}", other),
    };
    assert!(f.neg);
    assert_eq!(f.whole, 1);
    assert_eq!(f.frac, 40_000_000_000);
}

#[test]
fn test_numeric_parser_totality_over_token_characters() {
    // Every string over the permitted characters parses to a token or to one
    // of the two numeric error kinds, never to a color-syntax error.
    let cases = [
        "", "+", "-", ".", "%", "+%", "-%", ".%", "5.", "1.", ".5", "+.5", "-.5", "1.2.3", "1-2",
        "+-1", "--1", "12%%", "%5", "5%5", "1.5%", "+5%", "0.0", "000", "00.00", "360", "999999",
    ];
    for s in cases {
        match parse_css_number(s) {
            Ok(_) => {}
            Err(e) => assert!(
                e == CSSParseError::InvalidNumericCharacters
                    || e == CSSParseError::InvalidNumericSyntax,
                "unexpected error kind for {:?}: {:?}",
                s,
                e
            ),
        }
    }
    // And the character-class error comes exactly when a stray character is
    // present.
    assert_eq!(
        parse_css_number("1a2"),
        Err(CSSParseError::InvalidNumericCharacters)
    );
    assert_eq!(
        parse_css_number(" 5"),
        Err(CSSParseError::InvalidNumericCharacters)
    );
}

#[test]
fn test_numeric_shape_errors() {
    // The dot demands a following digit; percentages must be integral; signs
    // sit only at the front.
    assert_eq!(parse_css_number("5."), Err(CSSParseError::InvalidNumericSyntax));
    assert_eq!(parse_css_number("."), Err(CSSParseError::InvalidNumericSyntax));
    assert_eq!(parse_css_number("1.5%"), Err(CSSParseError::InvalidNumericSyntax));
    assert_eq!(parse_css_number(""), Err(CSSParseError::InvalidNumericSyntax));
    assert_eq!(parse_css_number("+"), Err(CSSParseError::InvalidNumericSyntax));
    assert_eq!(parse_css_number("1+1"), Err(CSSParseError::InvalidNumericSyntax));
    assert_eq!(parse_css_number("1.2.3"), Err(CSSParseError::InvalidNumericSyntax));
    // A magnitude beyond the signed 64-bit token domain is malformed.
    assert_eq!(
        parse_css_number("99999999999999999999"),
        Err(CSSParseError::InvalidNumericSyntax)
    );
    assert_eq!(parse_css_number("+5%"), Ok(CSSNumeric::Percentage(5)));
}

#[test]
fn test_rgb_coercion_values() {
    // The rounding bias keeps an exact half from flipping up.
    assert_eq!(parse_rgb_num("0.5").unwrap(), 127);
    assert_eq!(parse_rgb_num("50%").unwrap(), 127);
    assert_eq!(parse_rgb_num("20%").unwrap(), 51);
    assert_eq!(parse_rgb_num("100%").unwrap(), 255);
    assert_eq!(parse_rgb_num("0%").unwrap(), 0);
    assert_eq!(parse_rgb_num("1.0").unwrap(), 255);
    assert_eq!(parse_rgb_num("0.0").unwrap(), 0);
    assert_eq!(parse_rgb_num("-0.5").unwrap(), 0);
    assert_eq!(parse_rgb_num("255").unwrap(), 255);
    assert_eq!(parse_rgb_num("256").unwrap(), 255);
    assert_eq!(parse_rgb_num("-1").unwrap(), 0);
}

#[test]
fn test_rgb_str_shape_errors() {
    // Exactly three fields between the parentheses of the exact prefix.
    assert_eq!(
        parse_rgb_str("rgb(1,2)"),
        Err(CSSParseError::InvalidColorSyntax)
    );
    assert_eq!(
        parse_rgb_str("rgb(1,2,3"),
        Err(CSSParseError::InvalidColorSyntax)
    );
    assert_eq!(
        parse_rgb_str("rgb(1,, 34)"),
        Err(CSSParseError::InvalidNumericSyntax)
    );
    // Shorter than the minimal well-formed string, so the shape check fires
    // before any field is read.
    assert_eq!(
        parse_rgb_str("rgb(1,,3)"),
        Err(CSSParseError::InvalidColorSyntax)
    );
    assert_eq!(parse_rgb_str("rgb(1, 2, 3)"), Ok((1, 2, 3)));
    assert_eq!(parse_rgb_str("rgb(0,0,0)"), Ok((0, 0, 0)));
}

#[test]
fn test_hsl_tuple_float_hue() {
    // A float hue is accepted and wrapped at full precision.
    let hsl = parse_hsl_hsv_tuple("(123.5, 40%, 40%)").unwrap();
    assert_eq!(hsl.0, 1_235_000);
    let hsl = parse_hsl_hsv_tuple("(-0.5, 0%, 100%)").unwrap();
    assert_eq!(hsl.0, 3_595_000);
    assert_eq!(hsl.1, 0);
    assert_eq!(hsl.2, 10_000);
    // A hue of exactly one turn wraps to zero.
    let hsl = parse_hsl_hsv_tuple("(360, 0%, 0%)").unwrap();
    assert_eq!(hsl.0, 0);
    let hsl = parse_hsl_hsv_tuple("(359.9999, 0%, 0%)").unwrap();
    assert_eq!(hsl.0, 3_599_999);
}
