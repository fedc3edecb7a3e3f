//! What the bit-bang engine does on the two bus lines, as sequences of
//! [`Signal`]s: the vocabulary in which the bus-level contracts are written.
//!
//! Both lines are open-drain. A line is either released, and pulled high by
//! the bus, or driven low; `true` stands for released (high).

use vstd::prelude::*;

verus! {

/// Half of the clock period, in microseconds: 5 us, for a 100 kHz bus.
pub const HALF_PERIOD_US: u64 = 5;

/// One step of the engine.
#[derive(Clone, Copy, Debug, PartialEq, Eq, Structural)]
pub enum Signal {
    /// The clock line is released (`true`) or pulled low (`false`).
    Scl(bool),
    /// The data line is released (`true`) or pulled low (`false`).
    Sda(bool),
    /// The engine waits for this many microseconds.
    Wait(u64),
    /// The data line is sampled and found at this level.
    Sample(bool),
}

/// Start condition: data falls while the clock is high.
pub open spec fn start_signals() -> Seq<Signal> {
    seq![
        Signal::Sda(true),
        Signal::Scl(true),
        Signal::Wait(HALF_PERIOD_US),
        Signal::Sda(false),
        Signal::Wait(HALF_PERIOD_US),
        Signal::Scl(false),
        Signal::Wait(HALF_PERIOD_US),
    ]
}

/// Stop condition: data rises while the clock is high.
pub open spec fn stop_signals() -> Seq<Signal> {
    seq![
        Signal::Sda(false),
        Signal::Wait(HALF_PERIOD_US),
        Signal::Scl(true),
        Signal::Wait(HALF_PERIOD_US),
        Signal::Sda(true),
        Signal::Wait(HALF_PERIOD_US),
    ]
}

/// One bit written: data is set, then the clock is pulsed.
pub open spec fn write_bit_signals(bit: bool) -> Seq<Signal> {
    seq![Signal::Sda(bit), Signal::Wait(HALF_PERIOD_US), Signal::Scl(true), Signal::Wait(HALF_PERIOD_US), Signal::Scl(false)]
}

/// One bit read as `bit`: data is released, and sampled while the clock is
/// high.
pub open spec fn read_bit_signals(bit: bool) -> Seq<Signal> {
    seq![
        Signal::Sda(true),
        Signal::Wait(HALF_PERIOD_US),
        Signal::Scl(true),
        Signal::Wait(HALF_PERIOD_US),
        Signal::Sample(bit),
        Signal::Scl(false),
    ]
}

/// Bit `index` of `byte`, counted from the most significant bit.
pub open spec fn bit_of(byte: u8, index: u8) -> bool {
    byte & (0x80u8 >> index) != 0
}

/// The eight bits of `byte` in the order they travel: most significant first.
pub open spec fn bits_of(byte: u8) -> Seq<bool> {
    Seq::new(8, |i: int| bit_of(byte, i as u8))
}

/// The byte that eight bits make, the first being the most significant.
pub open spec fn byte_of(bits: Seq<bool>) -> u8 {
    (if bits[0] { 0x80u8 } else { 0 }) | (if bits[1] { 0x40u8 } else { 0 })
        | (if bits[2] { 0x20u8 } else { 0 }) | (if bits[3] { 0x10u8 } else { 0 })
        | (if bits[4] { 0x08u8 } else { 0 }) | (if bits[5] { 0x04u8 } else { 0 })
        | (if bits[6] { 0x02u8 } else { 0 }) | (if bits[7] { 0x01u8 } else { 0 })
}

/// The bits of `bits` written one after the other.
pub open spec fn write_bits_signals(bits: Seq<bool>) -> Seq<Signal>
    decreases bits.len(),
{
    if bits.len() == 0 {
        Seq::empty()
    } else {
        write_bits_signals(bits.drop_last()) + write_bit_signals(bits.last())
    }
}

/// The bits of `bits` read one after the other.
pub open spec fn read_bits_signals(bits: Seq<bool>) -> Seq<Signal>
    decreases bits.len(),
{
    if bits.len() == 0 {
        Seq::empty()
    } else {
        read_bits_signals(bits.drop_last()) + read_bit_signals(bits.last())
    }
}

/// One byte written: an optional start condition, the eight bits most
/// significant first, then the acknowledge bit read back. The receiver
/// acknowledges by holding the data line low.
pub open spec fn write_byte_signals(byte: u8, start: bool, acked: bool) -> Seq<Signal> {
    (if start {
        start_signals()
    } else {
        Seq::empty()
    }) + write_bits_signals(bits_of(byte)) + read_bit_signals(!acked)
}

/// One byte read as `byte`: its eight bits most significant first, then the
/// acknowledge bit written. The engine acknowledges by driving the data line
/// low.
pub open spec fn read_byte_signals(byte: u8, ack: bool) -> Seq<Signal> {
    read_bits_signals(bits_of(byte)) + write_bit_signals(!ack)
}

/// The address byte that opens a write to the device at `address`.
pub open spec fn spec_write_address(address: u8) -> u8 {
    address << 1
}

/// The address byte that opens a read from the device at `address`.
pub open spec fn spec_read_address(address: u8) -> u8 {
    address << 1 | 1
}

/// The first `n` bytes of `frame` written and acknowledged. Each byte of a
/// frame comes with a flag that says whether a start condition precedes it.
pub open spec fn acked_signals(frame: Seq<(u8, bool)>, n: nat) -> Seq<Signal>
    decreases n,
{
    if n == 0 {
        Seq::empty()
    } else {
        acked_signals(frame, (n - 1) as nat) + write_byte_signals(
            frame[n - 1].0,
            frame[n - 1].1,
            true,
        )
    }
}

/// `frame` written byte by byte up to the first byte that is not
/// acknowledged: `acked` bytes are acknowledged, and the byte after them, if
/// there is one, is written and not acknowledged.
pub open spec fn frame_signals(frame: Seq<(u8, bool)>, acked: nat) -> Seq<Signal> {
    acked_signals(frame, acked) + (if acked < frame.len() {
        write_byte_signals(frame[acked as int].0, frame[acked as int].1, false)
    } else {
        Seq::empty()
    })
}

/// The frame of an SMBus block write: the address with the write bit after a
/// start condition, the command, the byte count, then the payload.
pub open spec fn block_write_frame(address: u8, command: u8, payload: Seq<u8>) -> Seq<(u8, bool)> {
    Seq::new(
        3 + payload.len(),
        |i: int|
            if i == 0 {
                (spec_write_address(address), true)
            } else if i == 1 {
                (command, false)
            } else if i == 2 {
                (payload.len() as u8, false)
            } else {
                (payload[i - 3], false)
            },
    )
}

/// An SMBus block write of which the device acknowledged `acked` bytes, the
/// three header bytes counted: the frame up to the first byte not
/// acknowledged, then a stop condition.
pub open spec fn block_write_signals(address: u8, command: u8, payload: Seq<u8>, acked: nat) -> Seq<
    Signal,
> {
    frame_signals(block_write_frame(address, command, payload), acked) + stop_signals()
}

/// The header of an SMBus block read: the address with the write bit after a
/// start condition, the command, then the address with the read bit after a
/// repeated start.
pub open spec fn read_frame(address: u8, command: u8) -> Seq<(u8, bool)> {
    seq![(spec_write_address(address), true), (command, false), (spec_read_address(address), true)]
}

/// The first `n` of `total` bytes read, with the values `data[0]` to
/// `data[n - 1]`: every byte is acknowledged but the last of the `total`.
pub open spec fn read_run(data: Seq<u8>, n: nat, total: nat) -> Seq<Signal>
    decreases n,
{
    if n == 0 {
        Seq::empty()
    } else {
        read_run(data, (n - 1) as nat, total) + read_byte_signals(data[n - 1], n != total)
    }
}

/// An SMBus block read of which the device acknowledged `acked` of the three
/// header bytes. If it acknowledged all three, the byte count is read and
/// acknowledged, then that many bytes, `data`, are read, all acknowledged but
/// the last. A stop condition ends the transfer in every case.
pub open spec fn block_read_signals(address: u8, command: u8, acked: nat, data: Seq<u8>) -> Seq<
    Signal,
> {
    frame_signals(read_frame(address, command), acked) + (if acked == 3 {
        read_byte_signals(data.len() as u8, true) + read_run(data, data.len(), data.len())
    } else {
        Seq::empty()
    }) + stop_signals()
}

/// The header of a read at a 16-bit offset: the address with the write bit
/// after a start condition, the offset high byte first, then the address
/// with the read bit after a repeated start.
pub open spec fn offset_frame(address: u8, offset: u16) -> Seq<(u8, bool)> {
    seq![
        (spec_write_address(address), true),
        ((offset >> 8) as u8, false),
        (offset as u8, false),
        (spec_read_address(address), true),
    ]
}

/// A read at a 16-bit offset of which the device acknowledged `acked` of the
/// four header bytes. If it acknowledged all four, `data` is read, every
/// byte acknowledged but the last. A stop condition ends the transfer in
/// every case.
pub open spec fn offset_read_signals(address: u8, offset: u16, acked: nat, data: Seq<u8>) -> Seq<
    Signal,
> {
    frame_signals(offset_frame(address, offset), acked) + (if acked == 4 {
        read_run(data, data.len(), data.len())
    } else {
        Seq::empty()
    }) + stop_signals()
}

/// One more byte of a frame written after `n` bytes acknowledged: if it is
/// acknowledged, `n + 1` bytes are; if not, the frame ends there.
pub proof fn lemma_frame_byte(head: Seq<Signal>, frame: Seq<(u8, bool)>, n: nat, acked: bool)
    requires
        n < frame.len(),
    ensures
        head + acked_signals(frame, 0) == head,
        acked ==> (head + acked_signals(frame, n)) + write_byte_signals(
            frame[n as int].0,
            frame[n as int].1,
            acked,
        ) == head + acked_signals(frame, n + 1),
        !acked ==> (head + acked_signals(frame, n)) + write_byte_signals(
            frame[n as int].0,
            frame[n as int].1,
            acked,
        ) == head + frame_signals(frame, n),
        n + 1 == frame.len() ==> acked_signals(frame, n + 1) == frame_signals(frame, n + 1),
{
    let byte = write_byte_signals(frame[n as int].0, frame[n as int].1, acked);
    assert(head + acked_signals(frame, 0) == head);
    assert((head + acked_signals(frame, n)) + byte == head + (acked_signals(frame, n) + byte));
    assert(acked_signals(frame, n + 1) + Seq::<Signal>::empty() == acked_signals(frame, n + 1));
}

/// `read_run` looks only at the bytes it reads.
pub proof fn lemma_read_run_prefix(data: Seq<u8>, longer: Seq<u8>, n: nat, total: nat)
    requires
        n <= data.len(),
        data.is_prefix_of(longer),
    ensures
        read_run(longer, n, total) == read_run(data, n, total),
    decreases n,
{
    if n > 0 {
        lemma_read_run_prefix(data, longer, (n - 1) as nat, total);
    }
}

/// The bits of a byte travel most significant first: bit `i` on the wire is
/// bit `7 - i` of the value.
pub proof fn lemma_bits_msb_first(byte: u8)
    ensures
        bits_of(byte).len() == 8,
        forall|i: int| 0 <= i < 8 ==> #[trigger] bits_of(byte)[i] == ((byte >> ((7 - i) as u8)) & 1u8 == 1u8),
{
    assert forall|i: int| 0 <= i < 8 implies #[trigger] bits_of(byte)[i] == ((byte >> ((7 - i) as u8))
        & 1u8 == 1u8) by {
        let k = i as u8;
        let s = (7 - i) as u8;
        assert((byte & (0x80u8 >> k) != 0) == ((byte >> s) & 1u8 == 1u8)) by (bit_vector)
            requires
                k < 8,
                s == 7 - k,
        ;
    }
}

/// The bits of a byte assembled give the byte again.
pub proof fn lemma_byte_of_bits_of(byte: u8)
    ensures
        byte_of(bits_of(byte)) == byte,
{
    assert(((if byte & (0x80u8 >> 0u8) != 0 { 0x80u8 } else { 0 }) | (if byte & (0x80u8 >> 1u8) != 0 {
        0x40u8
    } else {
        0
    }) | (if byte & (0x80u8 >> 2u8) != 0 { 0x20u8 } else { 0 }) | (if byte & (0x80u8 >> 3u8) != 0 {
        0x10u8
    } else {
        0
    }) | (if byte & (0x80u8 >> 4u8) != 0 { 0x08u8 } else { 0 }) | (if byte & (0x80u8 >> 5u8) != 0 {
        0x04u8
    } else {
        0
    }) | (if byte & (0x80u8 >> 6u8) != 0 { 0x02u8 } else { 0 }) | (if byte & (0x80u8 >> 7u8) != 0 {
        0x01u8
    } else {
        0
    })) == byte) by (bit_vector);
}

/// Two bytes with the same bits on the wire are the same byte.
pub proof fn lemma_bits_determine_byte(a: u8, b: u8)
    requires
        bits_of(a) == bits_of(b),
    ensures
        a == b,
{
    lemma_byte_of_bits_of(a);
    lemma_byte_of_bits_of(b);
}

/// Eight bits assembled into a byte come apart into the same eight bits.
pub proof fn lemma_bits_of_byte_of(bits: Seq<bool>)
    requires
        bits.len() == 8,
    ensures
        bits_of(byte_of(bits)) == bits,
{
    let b0 = bits[0];
    let b1 = bits[1];
    let b2 = bits[2];
    let b3 = bits[3];
    let b4 = bits[4];
    let b5 = bits[5];
    let b6 = bits[6];
    let b7 = bits[7];
    let byte = byte_of(bits);
    assert(byte == (if b0 { 0x80u8 } else { 0 }) | (if b1 { 0x40u8 } else { 0 }) | (if b2 {
        0x20u8
    } else {
        0
    }) | (if b3 { 0x10u8 } else { 0 }) | (if b4 { 0x08u8 } else { 0 }) | (if b5 { 0x04u8 } else { 0 })
        | (if b6 { 0x02u8 } else { 0 }) | (if b7 { 0x01u8 } else { 0 }));
    assert((byte & (0x80u8 >> 0u8) != 0) == b0 && (byte & (0x80u8 >> 1u8) != 0) == b1 && (byte & (0x80u8
        >> 2u8) != 0) == b2 && (byte & (0x80u8 >> 3u8) != 0) == b3 && (byte & (0x80u8 >> 4u8) != 0)
        == b4 && (byte & (0x80u8 >> 5u8) != 0) == b5 && (byte & (0x80u8 >> 6u8) != 0) == b6 && (byte & (
    0x80u8 >> 7u8) != 0) == b7) by (bit_vector)
        requires
            byte == (if b0 { 0x80u8 } else { 0 }) | (if b1 { 0x40u8 } else { 0 }) | (if b2 {
                0x20u8
            } else {
                0
            }) | (if b3 { 0x10u8 } else { 0 }) | (if b4 { 0x08u8 } else { 0 }) | (if b5 {
                0x04u8
            } else {
                0
            }) | (if b6 { 0x02u8 } else { 0 }) | (if b7 { 0x01u8 } else { 0 }),
    ;
    assert(bits_of(byte) =~= bits);
}

/// The level at which the engine holds the data line after `signals`:
/// released (`true`) until it is first driven.
pub open spec fn data_level(signals: Seq<Signal>) -> bool
    decreases signals.len(),
{
    if signals.len() == 0 {
        true
    } else {
        match signals.last() {
            Signal::Sda(level) => level,
            _ => data_level(signals.drop_last()),
        }
    }
}

/// The bits that `signals` put on the wire: the level at which the engine
/// holds the data line at each release of the clock, when the receiver
/// looks.
pub open spec fn clocked(signals: Seq<Signal>) -> Seq<bool>
    decreases signals.len(),
{
    if signals.len() == 0 {
        Seq::empty()
    } else {
        match signals.last() {
            Signal::Scl(true) => clocked(signals.drop_last()).push(data_level(signals.drop_last())),
            _ => clocked(signals.drop_last()),
        }
    }
}

/// The bits that `signals` took off the wire: the samples, in order.
pub open spec fn sampled(signals: Seq<Signal>) -> Seq<bool>
    decreases signals.len(),
{
    if signals.len() == 0 {
        Seq::empty()
    } else {
        match signals.last() {
            Signal::Sample(level) => sampled(signals.drop_last()).push(level),
            _ => sampled(signals.drop_last()),
        }
    }
}

/// Writing a bit puts that bit on the wire, and takes none off it.
pub proof fn lemma_write_bit_clocked(head: Seq<Signal>, bit: bool)
    ensures
        clocked(head + write_bit_signals(bit)) == clocked(head).push(bit),
        sampled(head + write_bit_signals(bit)) == sampled(head),
        data_level(head + write_bit_signals(bit)) == bit,
{
    let s1 = head.push(Signal::Sda(bit));
    let s2 = s1.push(Signal::Wait(HALF_PERIOD_US));
    let s3 = s2.push(Signal::Scl(true));
    let s4 = s3.push(Signal::Wait(HALF_PERIOD_US));
    let s5 = s4.push(Signal::Scl(false));
    assert(s1.drop_last() == head);
    assert(s2.drop_last() == s1);
    assert(s3.drop_last() == s2);
    assert(s4.drop_last() == s3);
    assert(s5.drop_last() == s4);
    assert(data_level(s1) == bit);
    assert(data_level(s2) == bit);
    assert(clocked(s1) == clocked(head));
    assert(clocked(s2) == clocked(head));
    assert(clocked(s3) == clocked(head).push(bit));
    assert(clocked(s4) == clocked(s3));
    assert(data_level(s3) == bit);
    assert(data_level(s4) == bit);
    assert(sampled(s1) == sampled(head));
    assert(sampled(s2) == sampled(head));
    assert(sampled(s3) == sampled(head));
    assert(sampled(s4) == sampled(head));
    assert(head + write_bit_signals(bit) == s5);
}

/// Reading a bit takes that bit off the wire; the engine holds the data
/// line released meanwhile.
pub proof fn lemma_read_bit_sampled(head: Seq<Signal>, bit: bool)
    ensures
        sampled(head + read_bit_signals(bit)) == sampled(head).push(bit),
        clocked(head + read_bit_signals(bit)) == clocked(head).push(true),
        data_level(head + read_bit_signals(bit)) == true,
{
    let s1 = head.push(Signal::Sda(true));
    let s2 = s1.push(Signal::Wait(HALF_PERIOD_US));
    let s3 = s2.push(Signal::Scl(true));
    let s4 = s3.push(Signal::Wait(HALF_PERIOD_US));
    let s5 = s4.push(Signal::Sample(bit));
    let s6 = s5.push(Signal::Scl(false));
    assert(s1.drop_last() == head);
    assert(s2.drop_last() == s1);
    assert(s3.drop_last() == s2);
    assert(s4.drop_last() == s3);
    assert(s5.drop_last() == s4);
    assert(s6.drop_last() == s5);
    assert(data_level(s1) == true);
    assert(data_level(s2) == true);
    assert(data_level(s3) == true);
    assert(data_level(s4) == true);
    assert(data_level(s5) == true);
    assert(clocked(s1) == clocked(head));
    assert(clocked(s2) == clocked(head));
    assert(clocked(s3) == clocked(head).push(true));
    assert(clocked(s4) == clocked(s3));
    assert(clocked(s5) == clocked(s3));
    assert(sampled(s1) == sampled(head));
    assert(sampled(s2) == sampled(head));
    assert(sampled(s3) == sampled(head));
    assert(sampled(s4) == sampled(head));
    assert(sampled(s5) == sampled(head).push(bit));
    assert(head + read_bit_signals(bit) == s6);
}

/// Writing bits puts those bits on the wire, in order, and takes none off
/// it.
pub proof fn lemma_write_bits_clocked(bits: Seq<bool>)
    ensures
        clocked(write_bits_signals(bits)) == bits,
        sampled(write_bits_signals(bits)) == Seq::<bool>::empty(),
    decreases bits.len(),
{
    if bits.len() > 0 {
        lemma_write_bits_clocked(bits.drop_last());
        lemma_write_bit_clocked(write_bits_signals(bits.drop_last()), bits.last());
        assert(bits.drop_last().push(bits.last()) == bits);
    }
}

/// Reading bits takes those bits off the wire, in order.
pub proof fn lemma_read_bits_sampled(bits: Seq<bool>)
    ensures
        sampled(read_bits_signals(bits)) == bits,
    decreases bits.len(),
{
    if bits.len() > 0 {
        lemma_read_bits_sampled(bits.drop_last());
        lemma_read_bit_sampled(read_bits_signals(bits.drop_last()), bits.last());
        assert(bits.drop_last().push(bits.last()) == bits);
    }
}

/// A byte read as `byte` is the one whose bits, most significant first,
/// were taken off the wire.
pub proof fn lemma_read_byte_sampled(byte: u8, ack: bool)
    ensures
        sampled(read_byte_signals(byte, ack)) == bits_of(byte),
{
    lemma_read_bits_sampled(bits_of(byte));
    lemma_write_bit_clocked(read_bits_signals(bits_of(byte)), !ack);
}

/// A byte written without a start condition puts its eight bits on the
/// wire, most significant first: bit `i` on the wire is bit `7 - i` of the
/// value. The clock is then released once more, with the data line
/// released, for the receiver's acknowledge bit.
pub proof fn lemma_write_byte_clocked(byte: u8, acked: bool)
    ensures
        clocked(write_byte_signals(byte, false, acked)) == bits_of(byte).push(true),
        sampled(write_byte_signals(byte, false, acked)) == seq![!acked],
        forall|i: int|
            0 <= i < 8 ==> #[trigger] clocked(write_byte_signals(byte, false, acked))[i] == ((byte >> ((7
                - i) as u8)) & 1u8 == 1u8),
{
    lemma_write_bits_clocked(bits_of(byte));
    lemma_read_bit_sampled(write_bits_signals(bits_of(byte)), !acked);
    lemma_bits_msb_first(byte);
    assert(Seq::<Signal>::empty() + write_bits_signals(bits_of(byte)) == write_bits_signals(
        bits_of(byte),
    ));
    assert(Seq::<bool>::empty().push(!acked) == seq![!acked]);
}

/// Loopback: a byte read off a wire that carries the bits that writing
/// `written` puts on it is `written` again.
pub proof fn lemma_loopback(written: u8, read: u8, ack: bool)
    requires
        sampled(read_byte_signals(read, ack)) == clocked(write_bits_signals(bits_of(written))),
    ensures
        read == written,
{
    lemma_read_byte_sampled(read, ack);
    lemma_write_bits_clocked(bits_of(written));
    lemma_bits_determine_byte(read, written);
}

/// The bits taken off the wire over two stretches of signals are those of
/// the first followed by those of the second.
pub proof fn lemma_sampled_concat(first: Seq<Signal>, second: Seq<Signal>)
    ensures
        sampled(first + second) == sampled(first) + sampled(second),
    decreases second.len(),
{
    if second.len() == 0 {
        assert(first + second == first);
        assert(sampled(first) + Seq::<bool>::empty() == sampled(first));
    } else {
        lemma_sampled_concat(first, second.drop_last());
        assert((first + second).drop_last() == first + second.drop_last());
        assert((first + second).last() == second.last());
        match second.last() {
            Signal::Sample(level) => {
                assert(sampled(first) + sampled(second.drop_last()).push(level) == (sampled(first)
                    + sampled(second.drop_last())).push(level));
            },
            _ => {},
        }
    }
}

/// Start and stop conditions take nothing off the wire.
pub proof fn lemma_start_stop_sampled()
    ensures
        sampled(start_signals()) == Seq::<bool>::empty(),
        sampled(stop_signals()) == Seq::<bool>::empty(),
{
    let e = Seq::<Signal>::empty();
    let a1 = e.push(Signal::Sda(true));
    let a2 = a1.push(Signal::Scl(true));
    let a3 = a2.push(Signal::Wait(HALF_PERIOD_US));
    let a4 = a3.push(Signal::Sda(false));
    let a5 = a4.push(Signal::Wait(HALF_PERIOD_US));
    let a6 = a5.push(Signal::Scl(false));
    let a7 = a6.push(Signal::Wait(HALF_PERIOD_US));
    assert(a1.drop_last() == e);
    assert(a2.drop_last() == a1);
    assert(a3.drop_last() == a2);
    assert(a4.drop_last() == a3);
    assert(a5.drop_last() == a4);
    assert(a6.drop_last() == a5);
    assert(a7.drop_last() == a6);
    assert(sampled(a1) == sampled(e));
    assert(sampled(a2) == sampled(e));
    assert(sampled(a3) == sampled(e));
    assert(sampled(a4) == sampled(e));
    assert(sampled(a5) == sampled(e));
    assert(sampled(a6) == sampled(e));
    assert(sampled(a7) == sampled(e));
    assert(start_signals() == a7);
    let b1 = e.push(Signal::Sda(false));
    let b2 = b1.push(Signal::Wait(HALF_PERIOD_US));
    let b3 = b2.push(Signal::Scl(true));
    let b4 = b3.push(Signal::Wait(HALF_PERIOD_US));
    let b5 = b4.push(Signal::Sda(true));
    let b6 = b5.push(Signal::Wait(HALF_PERIOD_US));
    assert(b1.drop_last() == e);
    assert(b2.drop_last() == b1);
    assert(b3.drop_last() == b2);
    assert(b4.drop_last() == b3);
    assert(b5.drop_last() == b4);
    assert(b6.drop_last() == b5);
    assert(sampled(b1) == sampled(e));
    assert(sampled(b2) == sampled(e));
    assert(sampled(b3) == sampled(e));
    assert(sampled(b4) == sampled(e));
    assert(sampled(b5) == sampled(e));
    assert(sampled(b6) == sampled(e));
    assert(stop_signals() == b6);
}

/// Writing a byte takes one bit off the wire: the receiver's acknowledge
/// bit, low for a byte acknowledged.
pub proof fn lemma_write_byte_sampled(byte: u8, start: bool, acked: bool)
    ensures
        sampled(write_byte_signals(byte, start, acked)) == seq![!acked],
{
    let opening = if start {
        start_signals()
    } else {
        Seq::empty()
    };
    lemma_start_stop_sampled();
    lemma_write_bits_clocked(bits_of(byte));
    lemma_read_bit_sampled(Seq::empty(), !acked);
    assert(Seq::<Signal>::empty() + read_bit_signals(!acked) == read_bit_signals(!acked));
    lemma_sampled_concat(opening, write_bits_signals(bits_of(byte)));
    lemma_sampled_concat(opening + write_bits_signals(bits_of(byte)), read_bit_signals(!acked));
    assert(sampled(write_byte_signals(byte, start, acked)) =~= seq![!acked]);
}

/// The acknowledge bits of a frame of `len` bytes of which `acked` were
/// acknowledged: low for each of those, then high for the byte that was
/// not, if there is one.
pub open spec fn ack_bits(len: nat, acked: nat) -> Seq<bool> {
    Seq::new(
        if acked < len {
            acked + 1
        } else {
            acked
        },
        |i: int| i >= acked,
    )
}

/// Writing a frame takes its acknowledge bits off the wire and no others.
pub proof fn lemma_frame_sampled(frame: Seq<(u8, bool)>, acked: nat)
    requires
        acked <= frame.len(),
    ensures
        sampled(acked_signals(frame, acked)) == Seq::new(acked, |i: int| false),
        sampled(frame_signals(frame, acked)) == ack_bits(frame.len(), acked),
    decreases acked,
{
    if acked > 0 {
        let before = (acked - 1) as nat;
        lemma_frame_sampled(frame, before);
        lemma_write_byte_sampled(frame[acked - 1].0, frame[acked - 1].1, true);
        lemma_sampled_concat(
            acked_signals(frame, before),
            write_byte_signals(frame[acked - 1].0, frame[acked - 1].1, true),
        );
    }
    assert(sampled(acked_signals(frame, acked)) =~= Seq::new(acked, |i: int| false));
    if acked < frame.len() {
        let last = write_byte_signals(frame[acked as int].0, frame[acked as int].1, false);
        lemma_write_byte_sampled(frame[acked as int].0, frame[acked as int].1, false);
        lemma_sampled_concat(acked_signals(frame, acked), last);
    } else {
        assert(acked_signals(frame, acked) + Seq::<Signal>::empty() == acked_signals(frame, acked));
    }
    assert(sampled(frame_signals(frame, acked)) =~= ack_bits(frame.len(), acked));
}

/// The signals of a frame tell how many of its bytes were acknowledged.
pub proof fn lemma_frame_acked(frame: Seq<(u8, bool)>, acked: nat, other: nat)
    requires
        acked <= frame.len(),
        other <= frame.len(),
        frame_signals(frame, acked) == frame_signals(frame, other),
    ensures
        acked == other,
{
    lemma_frame_sampled(frame, acked);
    lemma_frame_sampled(frame, other);
    if acked < other {
        assert(ack_bits(frame.len(), acked)[acked as int]);
        assert(!ack_bits(frame.len(), other)[acked as int]);
    } else if other < acked {
        assert(ack_bits(frame.len(), other)[other as int]);
        assert(!ack_bits(frame.len(), acked)[other as int]);
    }
}

/// A block write takes the acknowledge bits of its frame off the wire and
/// no others.
pub proof fn lemma_block_write_sampled(address: u8, command: u8, payload: Seq<u8>, acked: nat)
    requires
        acked <= 3 + payload.len(),
    ensures
        sampled(block_write_signals(address, command, payload, acked)) == ack_bits(
            3 + payload.len(),
            acked,
        ),
{
    let frame = block_write_frame(address, command, payload);
    lemma_frame_sampled(frame, acked);
    lemma_start_stop_sampled();
    lemma_sampled_concat(frame_signals(frame, acked), stop_signals());
    assert(ack_bits(frame.len(), acked) + Seq::<bool>::empty() == ack_bits(frame.len(), acked));
}

/// The acknowledge bits tell how many bytes were acknowledged, whatever was
/// taken off the wire before them.
pub proof fn lemma_ack_bits_determine(head: Seq<bool>, len: nat, acked: nat, other: nat)
    requires
        acked <= len,
        other <= len,
        head + ack_bits(len, acked) == head + ack_bits(len, other),
    ensures
        acked == other,
{
    let left = head + ack_bits(len, acked);
    let right = head + ack_bits(len, other);
    if acked < other {
        assert(left[head.len() as int + acked] == ack_bits(len, acked)[acked as int]);
        assert(right[head.len() as int + acked] == ack_bits(len, other)[acked as int]);
    } else if other < acked {
        assert(left[head.len() as int + other] == ack_bits(len, acked)[other as int]);
        assert(right[head.len() as int + other] == ack_bits(len, other)[other as int]);
    }
}

/// The bits of the bytes of `data`, each most significant bit first, one
/// byte after the other.
pub open spec fn bytes_bits(data: Seq<u8>) -> Seq<bool>
    decreases data.len(),
{
    if data.len() == 0 {
        Seq::empty()
    } else {
        bytes_bits(data.drop_last()) + bits_of(data.last())
    }
}

/// Eight bits for each byte.
pub proof fn lemma_bytes_bits_len(data: Seq<u8>)
    ensures
        bytes_bits(data).len() == 8 * data.len(),
    decreases data.len(),
{
    if data.len() > 0 {
        lemma_bytes_bits_len(data.drop_last());
    }
}

/// Bytes with the same bits are the same bytes.
pub proof fn lemma_bytes_bits_determine(data: Seq<u8>, other: Seq<u8>)
    requires
        data.len() == other.len(),
        bytes_bits(data) == bytes_bits(other),
    ensures
        data == other,
    decreases data.len(),
{
    if data.len() > 0 {
        let n = 8 * (data.len() - 1);
        lemma_bytes_bits_len(data.drop_last());
        lemma_bytes_bits_len(other.drop_last());
        assert(bytes_bits(data).subrange(0, n) == bytes_bits(data.drop_last()));
        assert(bytes_bits(other).subrange(0, n) == bytes_bits(other.drop_last()));
        assert(bytes_bits(data).subrange(n, n + 8) == bits_of(data.last()));
        assert(bytes_bits(other).subrange(n, n + 8) == bits_of(other.last()));
        lemma_bytes_bits_determine(data.drop_last(), other.drop_last());
        lemma_bits_determine_byte(data.last(), other.last());
        assert(data == data.drop_last().push(data.last()));
        assert(other == other.drop_last().push(other.last()));
    } else {
        assert(data == other);
    }
}

/// Reading a run of bytes takes their bits off the wire and no others.
pub proof fn lemma_read_run_sampled(data: Seq<u8>, n: nat, total: nat)
    requires
        n <= data.len(),
    ensures
        sampled(read_run(data, n, total)) == bytes_bits(data.take(n as int)),
    decreases n,
{
    if n > 0 {
        let before = (n - 1) as nat;
        lemma_read_run_sampled(data, before, total);
        lemma_read_byte_sampled(data[n - 1], n != total);
        lemma_sampled_concat(read_run(data, before, total), read_byte_signals(data[n - 1], n != total));
        assert(data.take(n as int).drop_last() == data.take(before as int));
        assert(data.take(n as int).last() == data[n - 1]);
    } else {
        assert(data.take(0).len() == 0);
    }
}

/// What a block read takes off the wire: the acknowledge bits of its
/// header and, if all of the header was acknowledged, the bits of the byte
/// count and of the bytes read.
pub open spec fn block_read_bits(acked: nat, data: Seq<u8>) -> Seq<bool> {
    ack_bits(3, acked) + (if acked == 3 {
        bits_of(data.len() as u8) + bytes_bits(data)
    } else {
        Seq::empty()
    })
}

/// A block read takes the acknowledge bits of its header, the bits of the
/// byte count and the bits of the bytes off the wire, and no others.
pub proof fn lemma_block_read_sampled(address: u8, command: u8, acked: nat, data: Seq<u8>)
    requires
        acked <= 3,
    ensures
        sampled(block_read_signals(address, command, acked, data)) == block_read_bits(acked, data),
{
    let frame = read_frame(address, command);
    let header = frame_signals(frame, acked);
    let body = if acked == 3 {
        read_byte_signals(data.len() as u8, true) + read_run(data, data.len(), data.len())
    } else {
        Seq::empty()
    };
    lemma_frame_sampled(frame, acked);
    lemma_start_stop_sampled();
    lemma_sampled_concat(header, body);
    lemma_sampled_concat(header + body, stop_signals());
    if acked == 3 {
        lemma_read_byte_sampled(data.len() as u8, true);
        lemma_read_run_sampled(data, data.len(), data.len());
        lemma_sampled_concat(
            read_byte_signals(data.len() as u8, true),
            read_run(data, data.len(), data.len()),
        );
        assert(data.take(data.len() as int) == data);
    }
    assert(sampled(block_read_signals(address, command, acked, data)) =~= block_read_bits(
        acked,
        data,
    ));
}

/// What a block read took off the wire tells what it read, whatever was
/// taken off the wire before: how much of the header was acknowledged and,
/// if all of it was, the bytes.
pub proof fn lemma_block_read_bits_determine(
    head: Seq<bool>,
    acked: nat,
    data: Seq<u8>,
    other_acked: nat,
    other: Seq<u8>,
)
    requires
        acked <= 3,
        other_acked <= 3,
        data.len() <= 255,
        other.len() <= 255,
        head + block_read_bits(acked, data) == head + block_read_bits(other_acked, other),
    ensures
        acked == other_acked,
        acked == 3 ==> data == other,
{
    let left = head + block_read_bits(acked, data);
    let right = head + block_read_bits(other_acked, other);
    let h = head.len() as int;
    if acked < other_acked {
        assert(left[h + acked] == ack_bits(3, acked)[acked as int]);
        assert(right[h + acked] == ack_bits(3, other_acked)[acked as int]);
    } else if other_acked < acked {
        assert(left[h + other_acked] == ack_bits(3, acked)[other_acked as int]);
        assert(right[h + other_acked] == ack_bits(3, other_acked)[other_acked as int]);
    }
    if acked == 3 && other_acked == 3 {
        lemma_bytes_bits_len(data);
        lemma_bytes_bits_len(other);
        assert(left.subrange(h + 3, h + 11) == bits_of(data.len() as u8));
        assert(right.subrange(h + 3, h + 11) == bits_of(other.len() as u8));
        lemma_bits_determine_byte(data.len() as u8, other.len() as u8);
        assert(data.len() == other.len());
        assert(left.subrange(h + 11, h + 11 + 8 * data.len()) == bytes_bits(data));
        assert(right.subrange(h + 11, h + 11 + 8 * data.len()) == bytes_bits(other));
        lemma_bytes_bits_determine(data, other);
    }
}

} // verus!
