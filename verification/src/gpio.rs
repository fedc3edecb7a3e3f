//! A typed view over the configuration register of one GPIO pad.
//!
//! The register itself is reached through a [`Register`] handle that the
//! platform provides. Nothing is cached: every operation here is one or two
//! accesses to the live register, and the pad's view is the history of those
//! accesses.

use vstd::prelude::*;

verus! {

/// The three-bit pad mode selector.
pub const PAD_MODE: u32 = 0x1C00;

/// Set when the pad's input buffer is disabled.
pub const RX_DIS: u32 = 0x200;

/// Set when the pad's output driver is disabled.
pub const TX_DIS: u32 = 0x100;

/// The level seen on the pad.
pub const RX: u32 = 0x2;

/// The level the pad drives when its output is enabled.
pub const TX: u32 = 0x1;

/// What a pad is routed to: plain GPIO, or one of seven native functions.
#[derive(Clone, Copy, Debug, PartialEq, Eq, Structural)]
pub enum GpioPadMode {
    Gpio,
    Nf1,
    Nf2,
    Nf3,
    Nf4,
    Nf5,
    Nf6,
    Nf7,
}

impl GpioPadMode {
    /// The selector value, in place within the configuration word.
    pub open spec fn spec_bits(self) -> u32 {
        match self {
            GpioPadMode::Gpio => 0x0000,
            GpioPadMode::Nf1 => 0x0400,
            GpioPadMode::Nf2 => 0x0800,
            GpioPadMode::Nf3 => 0x0C00,
            GpioPadMode::Nf4 => 0x1000,
            GpioPadMode::Nf5 => 0x1400,
            GpioPadMode::Nf6 => 0x1800,
            GpioPadMode::Nf7 => 0x1C00,
        }
    }

    #[verifier::when_used_as_spec(spec_bits)]
    pub fn bits(self) -> (bits: u32)
        ensures
            bits == self.spec_bits(),
    {
        match self {
            GpioPadMode::Gpio => 0x0000,
            GpioPadMode::Nf1 => 0x0400,
            GpioPadMode::Nf2 => 0x0800,
            GpioPadMode::Nf3 => 0x0C00,
            GpioPadMode::Nf4 => 0x1000,
            GpioPadMode::Nf5 => 0x1400,
            GpioPadMode::Nf6 => 0x1800,
            GpioPadMode::Nf7 => 0x1C00,
        }
    }
}

/// A live handle to one 32-bit hardware register.
///
/// Reads are volatile: two reads may differ, and a read need not return what
/// was last written. The methods therefore promise nothing.
pub trait Register {
    fn read(&mut self) -> u32;

    fn write(&mut self, value: u32);
}

/// Resolves a pad, named by port and pad number, to its register.
pub trait Sideband<R: Register> {
    fn gpio(&self, port: u8, pad: u8) -> Option<R>;
}

/// One access to a pad's register.
#[derive(Clone, Copy, Debug, PartialEq, Eq, Structural)]
pub enum Access {
    /// The register was read and held this value.
    Load(u32),
    /// This value was written to the register.
    Store(u32),
}

impl Access {
    pub open spec fn value(self) -> u32 {
        match self {
            Access::Load(v) => v,
            Access::Store(v) => v,
        }
    }
}

/// A pad, named by its port and its number on that port.
#[derive(Clone, Copy, Debug, PartialEq, Eq, Structural)]
pub struct Pad {
    pub port: u8,
    pub pad: u8,
}

/// The pad could not be resolved to a register.
#[derive(Clone, Copy, Debug, PartialEq, Eq, Structural)]
pub struct GpioNotFound {
    pub port: u8,
    pub pad: u8,
}

/// `config` with the bits of `mask` set (`value`) or cleared (`!value`).
pub open spec fn spec_with_mask(config: u32, mask: u32, value: bool) -> u32 {
    if value {
        config | mask
    } else {
        config & !mask
    }
}

#[verifier::when_used_as_spec(spec_with_mask)]
pub fn with_mask(config: u32, mask: u32, value: bool) -> (updated: u32)
    ensures
        updated == spec_with_mask(config, mask, value),
{
    if value {
        config | mask
    } else {
        config & !mask
    }
}

/// Whether every bit of `mask` is set in `config`.
pub open spec fn spec_has_mask(config: u32, mask: u32) -> bool {
    config & mask == mask
}

#[verifier::when_used_as_spec(spec_has_mask)]
pub fn has_mask(config: u32, mask: u32) -> (set: bool)
    ensures
        set == spec_has_mask(config, mask),
{
    config & mask == mask
}

/// `config` with its pad mode selector replaced by that of `mode`.
pub open spec fn spec_with_pad_mode(config: u32, mode: GpioPadMode) -> u32 {
    (config & !PAD_MODE) | mode.spec_bits()
}

#[verifier::when_used_as_spec(spec_with_pad_mode)]
pub fn with_pad_mode(config: u32, mode: GpioPadMode) -> (updated: u32)
    ensures
        updated == spec_with_pad_mode(config, mode),
{
    (config & !PAD_MODE) | mode.bits()
}

/// Setting or clearing the bits of a mask changes those bits and no others.
pub proof fn lemma_with_mask(config: u32, mask: u32, value: bool)
    ensures
        spec_with_mask(config, mask, value) & !mask == config & !mask,
        spec_with_mask(config, mask, value) & mask == if value {
            mask
        } else {
            0
        },
        mask != 0 ==> spec_has_mask(spec_with_mask(config, mask, value), mask) == value,
{
    assert((config | mask) & !mask == config & !mask) by (bit_vector);
    assert((config & !mask) & !mask == config & !mask) by (bit_vector);
    assert((config | mask) & mask == mask) by (bit_vector);
    assert((config & !mask) & mask == 0) by (bit_vector);
}

/// Routing a pad changes the mode selector to that of the mode, and no other
/// bit.
pub proof fn lemma_with_pad_mode(config: u32, mode: GpioPadMode)
    ensures
        spec_with_pad_mode(config, mode) & PAD_MODE == mode.spec_bits(),
        spec_with_pad_mode(config, mode) & !PAD_MODE == config & !PAD_MODE,
{
    let bits = mode.spec_bits();
    assert(bits & !0x1C00u32 == 0) by (bit_vector)
        requires
            bits == 0x0000u32 || bits == 0x0400u32 || bits == 0x0800u32 || bits == 0x0C00u32 || bits
                == 0x1000u32 || bits == 0x1400u32 || bits == 0x1800u32 || bits == 0x1C00u32,
    ;
    assert(((config & !0x1C00u32) | bits) & 0x1C00u32 == bits && ((config & !0x1C00u32) | bits)
        & !0x1C00u32 == config & !0x1C00u32) by (bit_vector)
        requires
            bits & !0x1C00u32 == 0,
    ;
}

/// `after` is `before` followed by one read of the register and one write to
/// it: a read-modify-write.
pub open spec fn rewrites(before: Seq<Access>, after: Seq<Access>) -> bool {
    &&& after.len() == before.len() + 2
    &&& after == before.push(Access::Load(loaded(after))).push(Access::Store(stored(after)))
}

/// The value that the last read-modify-write of `history` read.
pub open spec fn loaded(history: Seq<Access>) -> u32 {
    history[history.len() - 2].value()
}

/// The value that the last read-modify-write of `history` wrote.
pub open spec fn stored(history: Seq<Access>) -> u32 {
    history[history.len() - 1].value()
}

/// One pad, and the register accesses made through it.
pub struct Gpio<R: Register> {
    reg: R,
    pad: Pad,
    history: Ghost<Seq<Access>>,
}

impl<R: Register> View for Gpio<R> {
    type V = Seq<Access>;

    /// Every access made to the register through this pad, oldest first.
    closed spec fn view(&self) -> Seq<Access> {
        self.history@
    }
}

impl<R: Register> Gpio<R> {
    /// Which pad this is.
    pub closed spec fn spec_pad(&self) -> Pad {
        self.pad
    }

    #[verifier::when_used_as_spec(spec_pad)]
    pub fn pad(&self) -> (pad: Pad)
        ensures
            pad == self.spec_pad(),
    {
        self.pad
    }

    /// Wraps a resolved register; `None` is reported as the pad not found.
    pub fn from_handle(handle: Option<R>, port: u8, pad: u8) -> (opened: Result<Self, GpioNotFound>)
        ensures
            opened is Ok <==> handle is Some,
            opened matches Ok(gpio) ==> gpio@ == Seq::<Access>::empty() && gpio.pad() == (Pad {
                port,
                pad,
            }),
            opened matches Err(err) ==> err == (GpioNotFound { port, pad }),
    {
        match handle {
            Some(reg) => Ok(Gpio { reg, pad: Pad { port, pad }, history: Ghost(Seq::empty()) }),
            None => Err(GpioNotFound { port, pad }),
        }
    }

    /// Resolves the pad through `sideband`. The register has not been touched
    /// yet when this returns.
    pub fn new<S: Sideband<R>>(sideband: &S, port: u8, pad: u8) -> (opened: Result<Self, GpioNotFound>)
        ensures
            opened matches Ok(gpio) ==> gpio@ == Seq::<Access>::empty() && gpio.pad() == (Pad {
                port,
                pad,
            }),
            opened matches Err(err) ==> err == (GpioNotFound { port, pad }),
    {
        Self::from_handle(sideband.gpio(port, pad), port, pad)
    }

    /// Reads the live configuration word.
    pub fn get_config(&mut self) -> (config: u32)
        ensures
            final(self).pad() == old(self).pad(),
            final(self)@ == old(self)@.push(Access::Load(config)),
    {
        let config = self.reg.read();
        self.history = Ghost(self.history@.push(Access::Load(config)));
        config
    }

    /// Writes the configuration word.
    pub fn set_config(&mut self, config: u32)
        ensures
            final(self).pad() == old(self).pad(),
            final(self)@ == old(self)@.push(Access::Store(config)),
    {
        self.reg.write(config);
        self.history = Ghost(self.history@.push(Access::Store(config)));
    }

    /// Reads the live configuration word and tests the bits of `mask` in it.
    pub fn get_mask(&mut self, mask: u32) -> (set: bool)
        ensures
            final(self).pad() == old(self).pad(),
            final(self)@.len() == old(self)@.len() + 1,
            final(self)@ == old(self)@.push(Access::Load(final(self)@.last().value())),
            set == spec_has_mask(final(self)@.last().value(), mask),
    {
        let config = self.get_config();
        has_mask(config, mask)
    }

    /// Reads the live configuration word and writes it back with the bits of
    /// `mask` set or cleared. All other bits are written as they were read.
    pub fn set_mask(&mut self, mask: u32, value: bool)
        ensures
            final(self).pad() == old(self).pad(),
            rewrites(old(self)@, final(self)@),
            stored(final(self)@) == spec_with_mask(loaded(final(self)@), mask, value),
    {
        let config = self.get_config();
        self.set_config(with_mask(config, mask, value));
    }

    /// Routes the pad to `mode`, leaving the rest of its configuration as read.
    pub fn set_pad_mode(&mut self, mode: GpioPadMode)
        ensures
            final(self).pad() == old(self).pad(),
            rewrites(old(self)@, final(self)@),
            stored(final(self)@) == spec_with_pad_mode(loaded(final(self)@), mode),
    {
        let config = self.get_config();
        self.set_config(with_pad_mode(config, mode));
    }

    /// Enables or disables the input buffer. The register bit has the
    /// inverted sense: it is set to disable.
    pub fn enable_rx(&mut self, value: bool)
        ensures
            final(self).pad() == old(self).pad(),
            rewrites(old(self)@, final(self)@),
            stored(final(self)@) == spec_with_mask(loaded(final(self)@), RX_DIS, !value),
    {
        self.set_mask(RX_DIS, !value);
    }

    /// Enables or disables the output driver. The register bit has the
    /// inverted sense: it is set to disable.
    pub fn enable_tx(&mut self, value: bool)
        ensures
            final(self).pad() == old(self).pad(),
            rewrites(old(self)@, final(self)@),
            stored(final(self)@) == spec_with_mask(loaded(final(self)@), TX_DIS, !value),
    {
        self.set_mask(TX_DIS, !value);
    }

    /// The level currently seen on the pad.
    pub fn get_rx(&mut self) -> (level: bool)
        ensures
            final(self).pad() == old(self).pad(),
            final(self)@.len() == old(self)@.len() + 1,
            final(self)@ == old(self)@.push(Access::Load(final(self)@.last().value())),
            level == spec_has_mask(final(self)@.last().value(), RX),
    {
        self.get_mask(RX)
    }

    /// The level the pad is set to drive.
    pub fn get_tx(&mut self) -> (level: bool)
        ensures
            final(self).pad() == old(self).pad(),
            final(self)@.len() == old(self)@.len() + 1,
            final(self)@ == old(self)@.push(Access::Load(final(self)@.last().value())),
            level == spec_has_mask(final(self)@.last().value(), TX),
    {
        self.get_mask(TX)
    }

    /// Sets the level the pad drives when its output is enabled.
    pub fn set_tx(&mut self, value: bool)
        ensures
            final(self).pad() == old(self).pad(),
            rewrites(old(self)@, final(self)@),
            stored(final(self)@) == spec_with_mask(loaded(final(self)@), TX, value),
    {
        self.set_mask(TX, value);
    }
}

} // verus!
