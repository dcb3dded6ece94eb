//! A color-space conversion and color-literal parsing library.
//!
//! Colors are held in exact fixed-point form, so every conversion in this
//! crate is pure integer arithmetic with a proved contract: the hexagonal
//! transform between device RGB and the cylindrical hue/saturation/lightness
//! space, the matrix transforms between linear RGB and the tristimulus hub,
//! and the recursive-descent grammar for CSS-style numeric tokens and
//! color-function strings.

pub mod consts;
pub mod coord;
pub mod csscolor;
pub mod cssnumeric;
pub mod hslcolor;
pub mod rgbcolor;
pub mod xyzcolor;

pub use coord::Coord;
pub use csscolor::{parse_hsl_hsv_tuple, parse_rgb_num, parse_rgb_str};
pub use cssnumeric::{parse_css_number, CSSFloat, CSSNumeric, CSSParseError};
pub use hslcolor::HSLColor;
pub use rgbcolor::RgbColor;
pub use xyzcolor::{Illuminant, XyzColor};
