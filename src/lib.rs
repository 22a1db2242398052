//! Register access and bulk configuration tooling for the TAS2563 audio amplifier.
//!
//! The chip's registers live in a banked space addressed by book, page and register; the
//! bus only carries the register byte, so two meta-registers select the bank. This crate
//! holds the bank-select cache, the bulk transaction codec, and the compiler that reduces
//! a register-write log to a minimal, burst-coalesced command stream.

pub mod bulk;
pub mod prelude;
pub mod cfgtransform;
pub mod hl;
pub mod ll;
