//! A plain triple of components in the crate's ten-thousandth units, for
//! moving a color's raw coordinates in and out of its typed form.

use vstd::prelude::*;

verus! {

/// Three components in ten-thousandth units, in the order the color type
/// that produced them declares.
#[derive(Clone, Copy, Debug, PartialEq, Eq, Structural)]
pub struct Coord {
    /// The first component.
    pub x: u32,
    /// The second component.
    pub y: u32,
    /// The third component.
    pub z: u32,
}

} // verus!
