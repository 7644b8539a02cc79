//! Platform-agnostic core for flashing an RP2040 over PICOBOOT.
//!
//! [`constants`] holds the device identity and flash geometry, [`uf2`] parses the firmware
//! container, [`picoboot`] encodes the wire protocol, [`detect`] runs and decodes the flash
//! JEDEC-id query that bounds the flash window, [`transport`] holds the decisions of the USB
//! framing that do not need the bus itself, [`load`] plans the `load` operation, and
//! [`args`] rewrites the command line.

pub mod args;
pub mod constants;
pub mod detect;
pub mod load;
pub mod picoboot;
pub mod transport;
pub mod uf2;
