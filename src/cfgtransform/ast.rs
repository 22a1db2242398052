//! Commands of a register-dump configuration, as the configuration parser yields them.

use vstd::prelude::*;

verus! {

/// An ordered list of configuration commands.
#[derive(Debug, Clone, PartialEq, Eq)]
pub struct Commands(pub Vec<Command>);

impl Commands {
    /// The commands, in file order.
    pub fn iter(&self) -> (r: &[Command])
        ensures
            r@ == self.0@,
    {
        self.0.as_slice()
    }
}

/// A write of one or more bytes to consecutive flat registers, starting at `register`.
#[derive(Debug, Clone, PartialEq, Eq)]
pub struct WriteCommand {
    /// Bus address of the device the line was written for; not part of the bulk stream.
    pub address: u8,
    pub register: u8,
    pub bytes: Vec<u8>,
}

#[derive(Debug, Clone, PartialEq, Eq)]
pub enum Command {
    Write(WriteCommand),
    /// A pause of the given length; it writes no register.
    Delay(u8),
}

} // verus!
