//! High level interface for the TAS2563 chipset.

use vstd::prelude::*;

use crate::ll::i2c::{Address, I2CInterface};
use crate::ll::spi::SPIInterface;
use crate::ll::Tas2563Device;

verus! {

/// High level interface for the TAS2563 chipset.
pub struct Tas2563<T> {
    dev: Tas2563Device<T>,
}

impl<T> Tas2563<T> {
    /// The low level device.
    pub closed spec fn device(&self) -> Tas2563Device<T> {
        self.dev
    }

    /// Access to the underlying low level device.
    pub fn ll(&mut self) -> (r: &mut Tas2563Device<T>)
        ensures
            *r == old(self).device(),
            final(self).device() == *final(r),
    {
        &mut self.dev
    }
}

impl<T> Tas2563<I2CInterface<T>> {
    pub fn new_i2c(i2c: T, address: Address) -> (r: Self)
        ensures
            r.device()@ == (None::<u8>, None::<u8>),
            r.device().transport().bus_spec() == i2c,
            r.device().transport().address_spec() == address,
    {
        Self { dev: Tas2563Device::new_i2c(i2c, address) }
    }

    pub fn take(self) -> (r: T)
        ensures
            r == self.device().transport().bus_spec(),
    {
        self.dev.take()
    }
}

impl<T> Tas2563<SPIInterface<T>> {
    pub fn new_spi(spi: T) -> (r: Self)
        ensures
            r.device()@ == (None::<u8>, None::<u8>),
            r.device().transport().bus_spec() == spi,
    {
        Self { dev: Tas2563Device::new_spi(spi) }
    }

    pub fn take(self) -> (r: T)
        ensures
            r == self.device().transport().bus_spec(),
    {
        self.dev.take()
    }
}

} // verus!
