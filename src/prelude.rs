//! Strongly typed register values used by this crate.

use vstd::prelude::*;

verus! {

/// Lowest boost peak current, in milliamps, that the chip can be configured with.
pub const BOOST_PEAK_MIN_MILLIAMPS: u16 = 990;

/// Highest boost peak current, in milliamps, that the chip can be configured with.
pub const BOOST_PEAK_MAX_MILLIAMPS: u16 = 4000;

/// Boost peak current limit, as the register code the chip expects.
#[derive(Debug, PartialEq, Eq, Structural)]
pub struct BoostPeakCurrentMaxRun(pub u8);

/// The register code for a peak current: currents are clamped to 990..=4000 mA, steps of
/// 55 mA from 990 mA give codes 0..=0x36, and exactly 4000 mA gives 0x37.
pub open spec fn boost_peak_code(milliamps: int) -> int {
    let i = if milliamps < 990 {
        990
    } else if milliamps > 4000 {
        4000
    } else {
        milliamps
    };
    if i == 4000 {
        0x37
    } else {
        (i - 990) / 55
    }
}

impl BoostPeakCurrentMaxRun {
    pub fn from_milliamps(i: u16) -> (r: Self)
        ensures
            r.0 as int == boost_peak_code(i as int),
    {
        let i = if i < BOOST_PEAK_MIN_MILLIAMPS {
            BOOST_PEAK_MIN_MILLIAMPS
        } else if i > BOOST_PEAK_MAX_MILLIAMPS {
            BOOST_PEAK_MAX_MILLIAMPS
        } else {
            i
        };
        if i == BOOST_PEAK_MAX_MILLIAMPS {
            BoostPeakCurrentMaxRun(0x37)
        } else {
            let code = (i - BOOST_PEAK_MIN_MILLIAMPS) / 55;
            assert(code <= 54);
            BoostPeakCurrentMaxRun(code as u8)
        }
    }
}

/// Battery voltage readout, in units of 1/64 V.
#[derive(Debug, PartialEq, Eq, Structural)]
pub struct VBatCnv(pub u16);

impl VBatCnv {
    /// The voltage in millivolts, rounded down; like the 16-bit register result, it wraps
    /// at 65536 mV.
    pub fn to_millivolts(&self) -> (r: u16)
        ensures
            r as int == (self.0 as int * 1000 / 64) % 65536,
    {
        ((self.0 as u32 * 1000 / 64) % 65536) as u16
    }
}

/// Supply (PVDD) voltage readout, as the raw converter value.
#[derive(Debug, PartialEq, Eq, Structural)]
pub struct PVDDCnv(pub u16);

/// Die temperature readout: the raw code is the temperature in degrees Celsius plus 93.
#[derive(Debug, PartialEq, Eq, Structural)]
pub struct TempCnv(pub u8);

impl TempCnv {
    pub fn to_celcius(&self) -> (r: i16)
        ensures
            r as int == self.0 as int - 93,
    {
        self.0 as i16 - 93
    }
}

/// One set of analog readouts of the chip.
#[derive(Debug)]
pub struct ADCReadout {
    pub pvdd: PVDDCnv,
    pub vbat: VBatCnv,
    pub temp: TempCnv,
}

} // verus!
