//! Raw reads from a serial ROM on the bus, addressed by a 16-bit offset.

use crate::gpio::{Gpio, Register};
use crate::i2c::{Delay, I2CBitbang, Timer};
use crate::signal::{
    frame_signals, lemma_frame_byte, lemma_read_run_prefix, offset_frame, offset_read_signals,
    read_run, Signal,
};
use vstd::prelude::*;

verus! {

/// `after` is `before` followed by a read of `length` bytes at `offset`
/// that returned `data`. Nothing is returned where the device did not
/// acknowledge all of the header.
pub open spec fn offset_read(
    before: Seq<Signal>,
    after: Seq<Signal>,
    address: u8,
    offset: u16,
    length: u16,
    data: Seq<u8>,
) -> bool {
    ||| data.len() == 0 && after == before + offset_read_signals(address, offset, 0, data)
    ||| data.len() == 0 && after == before + offset_read_signals(address, offset, 1, data)
    ||| data.len() == 0 && after == before + offset_read_signals(address, offset, 2, data)
    ||| data.len() == 0 && after == before + offset_read_signals(address, offset, 3, data)
    ||| data.len() == length && after == before + offset_read_signals(address, offset, 4, data)
}

/// The ROM at one address of an I2C bus.
pub struct Rom<R: Register, D: Delay> {
    i2c: I2CBitbang<R, D>,
    address: u8,
}

impl<R: Register, D: Delay> Rom<R, D> {
    /// The bus the ROM is on.
    pub closed spec fn bus(&self) -> I2CBitbang<R, D> {
        self.i2c
    }

    /// The ROM's seven-bit address.
    pub closed spec fn address(&self) -> u8 {
        self.address
    }

    /// The ROM at `address` of the bus `i2c`. The bus is had back with
    /// [`into_bus`](Self::into_bus), and must be: its pads are restored only
    /// when it is released.
    pub fn new(i2c: I2CBitbang<R, D>, address: u8) -> (rom: Self)
        ensures
            rom.bus() == i2c,
            rom.address() == address,
    {
        Rom { i2c, address }
    }

    /// Gives the bus back.
    pub fn into_bus(self) -> (i2c: I2CBitbang<R, D>)
        ensures
            i2c == self.bus(),
    {
        self.i2c
    }

    /// Reads `length` bytes starting at `offset`: the address, the offset
    /// high byte first and, after a repeated start, the address with the
    /// read bit; then, if the device acknowledged all four, the bytes, each
    /// acknowledged but the last. A stop condition ends the transfer in
    /// every case.
    pub fn read(&mut self, offset: u16, length: u16) -> (bytes: Vec<u8>)
        ensures
            offset_read(
                old(self).bus()@,
                final(self).bus()@,
                old(self).address(),
                offset,
                length,
                bytes@,
            ),
            final(self).address() == old(self).address(),
            final(self).bus().continues(&old(self).bus()),
    {
        let ghost head = self.i2c@;
        let ghost frame = offset_frame(self.address, offset);
        let ghost mut acked: nat = 0;
        let mut bytes: Vec<u8> = Vec::with_capacity(length as usize);
        let mut going = self.i2c.write_byte(self.address << 1, true);
        proof {
            lemma_frame_byte(head, frame, 0, going);
        }
        if going {
            going = self.i2c.write_byte(
                #[verifier::truncate]
                ((offset >> 8) as u8),
                false,
            );
            proof {
                acked = 1;
                lemma_frame_byte(head, frame, 1, going);
            }
        }
        if going {
            going = self.i2c.write_byte(
                #[verifier::truncate]
                (offset as u8),
                false,
            );
            proof {
                acked = 2;
                lemma_frame_byte(head, frame, 2, going);
            }
        }
        if going {
            going = self.i2c.write_byte(self.address << 1 | 1, true);
            proof {
                acked = 3;
                lemma_frame_byte(head, frame, 3, going);
                if going {
                    acked = 4;
                }
            }
        }
        let ghost header = self.i2c@;
        assert(header == head + frame_signals(frame, acked));
        if going {
            let mut i: u16 = 0;
            while i < length
                invariant
                    i <= length,
                    bytes@.len() == i,
                    self.i2c@ == header + read_run(bytes@, i as nat, length as nat),
                    self.i2c.continues(&old(self).i2c),
                    self.address == old(self).address,
                decreases length - i,
            {
                let ack = i + 1 != length;
                let ghost read = bytes@;
                let byte = self.i2c.read_byte(ack);
                bytes.push(byte);
                proof {
                    lemma_read_run_prefix(read, bytes@, i as nat, length as nat);
                    assert(self.i2c@ =~= header + read_run(bytes@, (i + 1) as nat, length as nat));
                }
                i += 1;
            }
        } else {
            assert(self.i2c@ =~= header + Seq::<Signal>::empty());
        }
        self.i2c.stop();
        assert(self.i2c@ == head + offset_read_signals(self.address, offset, acked, bytes@));
        bytes
    }
}

/// How many bytes a dump of the ROM holds.
pub const ROM_DUMP_LENGTH: u16 = 32768;

/// Reads the ROM's first `ROM_DUMP_LENGTH` bytes.
pub fn flash_rom<R: Register, D: Delay>(rom: &mut Rom<R, D>) -> (data: Vec<u8>)
    ensures
        offset_read(
            old(rom).bus()@,
            final(rom).bus()@,
            old(rom).address(),
            0,
            ROM_DUMP_LENGTH,
            data@,
        ),
        final(rom).address() == old(rom).address(),
        final(rom).bus().continues(&old(rom).bus()),
{
    rom.read(0, ROM_DUMP_LENGTH)
}

/// `data` is what a dump of the ROM at `address` returned on the bus `i2c`,
/// which is released since: the bus produced the signals of the read, and
/// `scl`, `sda` and `timer` are what is left of it.
pub open spec fn dumped<R: Register, D: Delay>(
    i2c: &I2CBitbang<R, D>,
    address: u8,
    data: Seq<u8>,
    scl: &Gpio<R>,
    sda: &Gpio<R>,
    timer: &Timer<D>,
) -> bool {
    exists|signals: Seq<Signal>|
        {
            &&& #[trigger] offset_read(i2c@, i2c@ + signals, address, 0, ROM_DUMP_LENGTH, data)
            &&& i2c.released(signals, scl, sda, timer)
        }
}

/// Dumps the ROM at `address` of the bus, then releases the bus, whatever
/// the dump came to: the pads hold again the configuration that the bus
/// found when it took them over.
pub fn rom_access<R: Register, D: Delay>(i2c: I2CBitbang<R, D>, address: u8) -> (dump: (
    Vec<u8>,
    Gpio<R>,
    Gpio<R>,
    Timer<D>,
))
    ensures
        dumped(&i2c, address, dump.0@, &dump.1, &dump.2, &dump.3),
{
    let mut rom = Rom::new(i2c, address);
    let data = flash_rom(&mut rom);
    let ghost used = rom.bus();
    let (scl, sda, timer) = rom.into_bus().release();
    proof {
        let signals = used@.skip(i2c@.len() as int);
        assert(used@ == i2c@ + signals);
        i2c.lemma_released(&used, signals, &scl, &sda, &timer);
        assert(offset_read(i2c@, i2c@ + signals, address, 0, ROM_DUMP_LENGTH, data@));
    }
    (data, scl, sda, timer)
}

} // verus!
