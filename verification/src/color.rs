//! Colors, and the scale from a magnitude to a color.
use vstd::prelude::*;

use crate::arithmetic::{minus, over, times, whole_byte};
use crate::double::Double;

verus! {

/// The color of one LED.
#[derive(Debug, Clone, Copy, PartialEq, Eq, Structural)]
pub struct RGB8 {
    pub r: u8,
    pub g: u8,
    pub b: u8,
}

impl RGB8 {
    /// A color from its red, green and blue parts.
    pub fn new(r: u8, g: u8, b: u8) -> (color: RGB8)
        ensures
            color == (RGB8 { r, g, b }),
    {
        RGB8 { r, g, b }
    }
}

/// The pattern of 0.5.
pub const ONE_HALF: u64 = 0x3fe0_0000_0000_0000;

/// The pattern of 75.
pub const SEVENTY_FIVE: u64 = 0x4052_c000_0000_0000;

/// The pattern of 255.
pub const FULL_SCALE: u64 = 0x406f_e000_0000_0000;

/// Where `mag` lies between `cmin`, which is 0, and `cmax`, which is 1; the middle if
/// that is no finite number.
pub open spec fn fraction(mag: Double, cmin: Double, cmax: Double) -> Double {
    let tmp = over(minus(mag, cmin), minus(cmax, cmin));
    if tmp.finite() {
        tmp
    } else {
        Double { bits: ONE_HALF }
    }
}

/// The color at the fraction `x` of the scale: red grows with it, blue fades.
pub open spec fn shade(x: Double) -> RGB8 {
    RGB8 {
        r: whole_byte(times(x, Double { bits: FULL_SCALE })),
        g: 255,
        b: whole_byte(
            minus(
                Double { bits: SEVENTY_FIVE },
                times(x, Double { bits: SEVENTY_FIVE }),
            ),
        ),
    }
}

/// Calculate the RGB values given a magnitude, min and max
pub fn colorscale(mag: Double, cmin: Double, cmax: Double) -> (color: RGB8)
    ensures
        color == shade(fraction(mag, cmin, cmax)),
{
    let tmp: Double = mag.subtract(cmin).divide(cmax.subtract(cmin));
    let x: Double = if tmp.is_finite() {
        tmp
    } else {
        Double { bits: ONE_HALF }
    };
    let top: Double = Double { bits: SEVENTY_FIVE };
    RGB8::new(
        x.multiply(Double { bits: FULL_SCALE }).to_byte(),
        255,
        top.subtract(x.multiply(top)).to_byte(),
    )
}

} // verus!
