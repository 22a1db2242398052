//! The SPI transport. The bus has no burst transfers: a burst goes out one register at a
//! time (see `consecutive_writes`), each as a two-byte frame.

use vstd::prelude::*;

use super::Tas2563Device;

verus! {

/// An SPI device.
pub struct SPIInterface<T> {
    spi: T,
}

/// The frame that writes `value` to flat `register`: the register shifted up one bit (the
/// low bit clear marks a write), then the value.
pub open spec fn write_frame_of(register: u8, value: u8) -> Seq<u8> {
    seq![((register as int * 2) % 256) as u8, value]
}

/// The frame that reads flat `register`: the register shifted up one bit with the low bit
/// set, then a placeholder byte, in whose place the value comes back.
pub open spec fn read_frame_of(register: u8) -> Seq<u8> {
    seq![((register as int * 2) % 256 + 1) as u8, 0u8]
}

pub fn write_frame(register: u8, value: u8) -> (r: [u8; 2])
    ensures
        r@ == write_frame_of(register, value),
{
    let r = [((register as u16 * 2) % 256) as u8, value];
    assert(r@ =~= write_frame_of(register, value));
    r
}

pub fn read_frame(register: u8) -> (r: [u8; 2])
    ensures
        r@ == read_frame_of(register),
{
    let r = [((register as u16 * 2) % 256 + 1) as u8, 0];
    assert(r@ =~= read_frame_of(register));
    r
}

impl<T> SPIInterface<T> {
    /// The device.
    pub closed spec fn bus_spec(&self) -> T {
        self.spi
    }

    pub fn bus(&mut self) -> (r: &mut T)
        ensures
            *r == old(self).bus_spec(),
            final(self).bus_spec() == *final(r),
    {
        &mut self.spi
    }
}

impl<T> Tas2563Device<SPIInterface<T>> {
    /// A device on `spi`, with no bank known to be selected.
    pub fn new_spi(spi: T) -> (r: Self)
        ensures
            r@ == (None::<u8>, None::<u8>),
            r.transport().bus_spec() == spi,
    {
        Tas2563Device::new(SPIInterface { spi })
    }

    /// Gives up the device.
    pub fn take(self) -> (r: T)
        ensures
            r == self.transport().bus_spec(),
    {
        self.into_interface().spi
    }
}

} // verus!
