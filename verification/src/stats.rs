//! What is known of each antenna, and the color that shows it.
use vstd::prelude::*;

use crate::arithmetic::{over, plus};
use crate::color::{colorscale, fraction, shade, RGB8};
use crate::double::{at_most, Double};
use crate::layout::NUM_LEDS;

verus! {

/// The two dipoles of an antenna.
#[derive(Debug, Clone, Copy, PartialEq, Eq, Structural)]
pub enum Polarization {
    E,
    N,
}

/// Columns of the ant_stats csv downloaded from HERAnow
#[derive(Debug)]
pub struct HeraAuto {
    pub ant: u16,
    pub pol: Polarization,
    pub constructed: bool,
    pub node: Option<u8>,
    pub fem_switch: Option<u8>,
    pub apriori: String,
    pub spectra: Option<Double>,
    pub pam_power: Option<Double>,
    pub adc_power: Option<Double>,
    pub adc_rms: Option<Double>,
    pub fem_imu_theta: Option<Double>,
    pub fem_imu_phi: Option<Double>,
    pub eq_coeffs: Option<Double>,
}

/// Spectra used to compute color of the LED
/// Created by merging the HeraAuto from both E and N pols
#[derive(Debug, Clone, Copy, PartialEq, Eq, Structural)]
pub struct LedStat {
    pub ant: u16,
    pub constructed: bool,
    pub spectra: Option<Double>,
}

/// The pattern of -45, the lowest spectrum that is in range.
pub const RANGE_LOW: u64 = 0xc046_8000_0000_0000;

/// The pattern of -20, the highest spectrum that is in range.
pub const RANGE_HIGH: u64 = 0xc034_0000_0000_0000;

/// The pattern of -100, where the color scale begins.
pub const SCALE_LOW: u64 = 0xc059_0000_0000_0000;

/// The pattern of -10, where the color scale ends.
pub const SCALE_HIGH: u64 = 0xc024_0000_0000_0000;

/// The pattern of negative infinity, the spectrum before any measurement.
pub const UNMEASURED: u64 = 0xfff0_0000_0000_0000;

/// The pattern of 2.
pub const TWO: u64 = 0x4000_0000_0000_0000;

/// A spectrum between -45 and -20, both included.
pub open spec fn in_range(x: Double) -> bool {
    at_most(Double { bits: RANGE_LOW }, x) && at_most(x, Double { bits: RANGE_HIGH })
}

/// Tells whether a spectrum lies between -45 and -20.
fn is_in_range(x: Double) -> (r: bool)
    ensures
        r == in_range(x),
{
    let low: Double = Double { bits: RANGE_LOW };
    low.le(x) && x.le(Double { bits: RANGE_HIGH })
}

/// The color of an antenna that is not constructed: off.
pub open spec fn off() -> RGB8 {
    RGB8 { r: 0, g: 0, b: 0 }
}

/// The color of a constructed antenna without a spectrum.
pub open spec fn unknown() -> RGB8 {
    RGB8 { r: 0, g: 127, b: 255 }
}

/// The color of a constructed antenna whose spectrum is out of range: red.
pub open spec fn out_of_bounds() -> RGB8 {
    RGB8 { r: 255, g: 50, b: 0 }
}

impl LedStat {
    /// The color that shows this antenna.
    pub open spec fn color(self) -> RGB8 {
        if !self.constructed {
            off()
        } else {
            match self.spectra {
                None => unknown(),
                Some(auto) => if in_range(auto) {
                    shade(fraction(auto, Double { bits: SCALE_LOW }, Double { bits: SCALE_HIGH }))
                } else {
                    out_of_bounds()
                },
            }
        }
    }

    /// Convert the spectra to a color in our colorscale
    /// if the antenna is not constructed turn it off
    /// if the spectra is out of bounds, make it red.
    pub fn get_color(&self) -> (color: RGB8)
        ensures
            color == self.color(),
            !self.constructed ==> color == (RGB8 { r: 0, g: 0, b: 0 }),
            self.constructed && self.spectra is None ==> color == (RGB8 { r: 0, g: 127, b: 255 }),
            self.constructed && self.spectra is Some && !in_range(self.spectra->0) ==> color == (RGB8 {
                r: 255,
                g: 50,
                b: 0,
            }),
    {
        if !self.constructed {
            return RGB8::new(0, 0, 0);
        }
        match self.spectra {
            None => RGB8::new(0, 127, 255),
            Some(auto) => if is_in_range(auto) {
                colorscale(auto, Double { bits: SCALE_LOW }, Double { bits: SCALE_HIGH })
            } else {
                RGB8::new(255, 50, 0)
            },
        }
    }
}

impl Default for LedStat {
    /// Antenna 0, not constructed, without a spectrum.
    fn default() -> (stat: LedStat)
        ensures
            stat == (LedStat { ant: 0, constructed: false, spectra: None }),
    {
        LedStat { ant: 0, constructed: false, spectra: None }
    }
}

/// The spectrum that stands for two measurements of one antenna, `x` the earlier.
///
/// A missing one makes the whole missing. A measurement that is not finite gives way
/// to the other, one that is out of range prevails, and two in range are averaged.
pub open spec fn blend(x: Option<Double>, y: Option<Double>) -> Option<Double> {
    match (x, y) {
        (Some(x), Some(y)) => Some(
            if !x.finite() {
                y
            } else if !y.finite() || !in_range(x) {
                x
            } else if !in_range(y) {
                y
            } else {
                over(plus(x, y), Double { bits: TWO })
            },
        ),
        _ => None,
    }
}

/// Merges two measurements of one antenna, `x` the earlier.
pub fn merge_spectra(x: Option<Double>, y: Option<Double>) -> (r: Option<Double>)
    ensures
        r == blend(x, y),
{
    match (x, y) {
        (None, None) => None,
        (None, Some(_)) => None,
        (Some(_), None) => None,
        (Some(x), Some(y)) => {
            if !x.is_finite() {
                Some(y)
            } else if !y.is_finite() || !is_in_range(x) {
                // if either of the dipoles are out of range
                // use that value. then we'll set to red later
                Some(x)
            } else if !is_in_range(y) {
                Some(y)
            } else {
                Some(x.add_to(y).divide(Double { bits: TWO }))
            }
        },
    }
}

/// An antenna of which nothing is known yet.
pub open spec fn blank(ant: u16) -> LedStat {
    LedStat { ant, constructed: false, spectra: Some(Double { bits: UNMEASURED }) }
}

/// An antenna after one more record of it.
pub open spec fn updated(stat: LedStat, record: HeraAuto) -> LedStat {
    LedStat {
        ant: stat.ant,
        constructed: stat.constructed || record.constructed,
        spectra: blend(stat.spectra, record.spectra),
    }
}

/// What the rows of a table say of one antenna, taken in their order. A row that could
/// not be read is `None` and does not matter, nor do rows of other antennas.
pub open spec fn merged(rows: Seq<Option<HeraAuto>>, ant: u16) -> LedStat
    decreases rows.len(),
{
    if rows.len() == 0 {
        blank(ant)
    } else {
        let before = merged(rows.drop_last(), ant);
        match rows.last() {
            Some(record) => if record.ant == ant {
                updated(before, record)
            } else {
                before
            },
            None => before,
        }
    }
}

/// Culminate all the antennas with ant < 320 into an array of [LedStat]
pub fn merge_rows(rows: &Vec<Option<HeraAuto>>) -> (stats: [LedStat; 320])
    ensures
        forall|ant: u16| ant < NUM_LEDS ==> #[trigger] stats@[ant as int] == merged(rows@, ant),
{
    let mut stats: [LedStat; 320] = [LedStat { ant: 0, constructed: false, spectra: None }; 320];
    let mut ant: u16 = 0;
    while ant < 320
        invariant
            ant <= 320,
            forall|a: u16| a < ant ==> #[trigger] stats@[a as int] == blank(a),
        decreases 320 - ant,
    {
        stats[ant as usize] = LedStat {
            ant,
            constructed: false,
            spectra: Some(Double { bits: UNMEASURED }),
        };
        ant = ant + 1;
    }
    let mut i: usize = 0;
    while i < rows.len()
        invariant
            i <= rows.len(),
            forall|a: u16| a < 320 ==> #[trigger] stats@[a as int] == merged(rows@.take(i as int), a),
        decreases rows.len() - i,
    {
        proof {
            assert(rows@.take(i + 1).drop_last() =~= rows@.take(i as int));
            assert(rows@.take(i + 1).last() == rows@[i as int]);
        }
        if let Some(record) = &rows[i] {
            if record.ant < 320 {
                let stat: LedStat = stats[record.ant as usize];
                stats[record.ant as usize] = LedStat {
                    ant: stat.ant,
                    constructed: stat.constructed || record.constructed,
                    spectra: merge_spectra(stat.spectra, record.spectra),
                };
            }
        }
        i = i + 1;
    }
    proof {
        assert(rows@.take(i as int) =~= rows@);
    }
    stats
}

} // verus!
