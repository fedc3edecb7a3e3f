//! Firmware update of a USB4 retimer over a bit-banged I2C bus.
//!
//! The retimer is reached through two GPIO pads that this crate drives as
//! the clock and data lines of an I2C bus. On top of that bus sit SMBus
//! block transfers, the retimer's registers and commands, and the update
//! itself, phase by phase.
//!
//! The hardware is not part of the crate. Pad registers and the clock come in
//! through the traits [`gpio::Register`], [`gpio::Sideband`] and
//! [`i2c::Delay`], whose methods promise nothing: a register may read
//! anything at any time. What is proved is what the crate does with them.
//! Each layer keeps a ghost history of what it did and of what it was
//! answered, and the contracts say how an operation extends that history and
//! how its result follows from it:
//!
//! * [`gpio`]: one pad's configuration register and the accesses made to it.
//! * [`signal`]: the signals of the bus protocol, as mathematical sequences.
//! * [`i2c`]: the bit-bang engine and the signals it has produced.
//! * [`retimer`]: register accesses and commands, with the device's answers.
//! * [`rom`]: raw reads from a serial ROM on the same bus.
//! * [`update`]: the update, and the journal of its steps.
//! * [`board`]: the wiring, the bring-up around an update, and the one log in
//!   which the board keeps the order of it all.

pub mod board;
pub mod gpio;
pub mod i2c;
pub mod retimer;
pub mod rom;
pub mod signal;
pub mod update;
