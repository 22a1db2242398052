//! The I2C transport: its bus and the chip's address on it.

use vstd::prelude::*;

use super::Tas2563Device;

verus! {

/// The I2C addresses a TAS2563 can answer on.
#[derive(Debug, PartialEq, Eq, Structural, Clone, Copy)]
pub enum Address {
    Global,
    Address0x4C,
    Address0x4D,
    Address0x4E,
    Address0x4F,
}

impl Address {
    /// The 7-bit bus address.
    pub fn as_u8(&self) -> (r: u8)
        ensures
            r == match *self {
                Address::Global => 0x48u8,
                Address::Address0x4C => 0x4cu8,
                Address::Address0x4D => 0x4du8,
                Address::Address0x4E => 0x4eu8,
                Address::Address0x4F => 0x4fu8,
            },
    {
        match self {
            Address::Global => 0x48,
            Address::Address0x4C => 0x4c,
            Address::Address0x4D => 0x4d,
            Address::Address0x4E => 0x4e,
            Address::Address0x4F => 0x4f,
        }
    }
}

/// An I2C bus, with the address of the chip on it. The bus takes a burst in one transfer.
pub struct I2CInterface<T> {
    address: Address,
    i2c: T,
}

impl<T> I2CInterface<T> {
    /// The chip's address on the bus.
    pub closed spec fn address_spec(&self) -> Address {
        self.address
    }

    /// The bus.
    pub closed spec fn bus_spec(&self) -> T {
        self.i2c
    }

    pub fn address(&self) -> (r: Address)
        ensures
            r == self.address_spec(),
    {
        self.address
    }

    pub fn bus(&mut self) -> (r: &mut T)
        ensures
            *r == old(self).bus_spec(),
            final(self).bus_spec() == *final(r),
            final(self).address_spec() == old(self).address_spec(),
    {
        &mut self.i2c
    }
}

impl<T> Tas2563Device<I2CInterface<T>> {
    /// A device on the bus `i2c` at `address`, with no bank known to be selected.
    pub fn new_i2c(i2c: T, address: Address) -> (r: Self)
        ensures
            r@ == (None::<u8>, None::<u8>),
            r.transport().bus_spec() == i2c,
            r.transport().address_spec() == address,
    {
        Tas2563Device::new(I2CInterface { i2c, address })
    }

    /// Gives up the bus.
    pub fn take(self) -> (r: T)
        ensures
            r == self.transport().bus_spec(),
    {
        self.into_interface().i2c
    }
}

} // verus!
