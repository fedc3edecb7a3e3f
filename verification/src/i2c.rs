//! The bit-bang engine: I2C signalling on two GPIO pads.
//!
//! The pads emulate open-drain outputs. Their output level is held low once
//! and for all; a line is then pulled low by enabling its output driver and
//! released by disabling it. Every transition is followed by a wait of half
//! a clock period.
//!
//! The engine's view is the sequence of [`Signal`]s it has produced.

use crate::gpio::{
    loaded, rewrites, spec_has_mask, spec_with_mask, spec_with_pad_mode, stored, Access, Gpio,
    GpioPadMode, Pad, Register, RX, RX_DIS, TX, TX_DIS,
};
use crate::signal::{
    ack_bits, acked_signals, bit_of, bits_of, block_read_bits, block_read_signals,
    block_write_frame, block_write_signals, frame_signals, lemma_ack_bits_determine,
    lemma_block_read_bits_determine, lemma_block_read_sampled, lemma_block_write_sampled,
    lemma_frame_byte, lemma_read_run_prefix, lemma_sampled_concat, read_bit_signals,
    read_bits_signals, read_byte_signals, read_frame, read_run, sampled, start_signals,
    stop_signals, write_bit_signals, write_bits_signals, write_byte_signals, Signal,
    HALF_PERIOD_US,
};
use vstd::prelude::*;

verus! {

/// A blocking wait.
pub trait Delay {
    /// Returns after at least `micros` microseconds.
    fn delay_us(&mut self, micros: u64);
}

/// A source of waits, and the waits made with it, in microseconds.
pub struct Timer<D: Delay> {
    delay: D,
    waits: Ghost<Seq<u64>>,
}

impl<D: Delay> View for Timer<D> {
    type V = Seq<u64>;

    /// Every wait made, oldest first.
    closed spec fn view(&self) -> Seq<u64> {
        self.waits@
    }
}

impl<D: Delay> Timer<D> {
    pub fn new(delay: D) -> (timer: Self)
        ensures
            timer@ == Seq::<u64>::empty(),
    {
        Timer { delay, waits: Ghost(Seq::empty()) }
    }

    /// Waits for `micros` microseconds.
    pub fn wait(&mut self, micros: u64)
        ensures
            final(self)@ == old(self)@.push(micros),
    {
        self.delay.delay_us(micros);
        self.waits = Ghost(self.waits@.push(micros));
    }
}

/// `after` is `before` followed by what putting a line into its idle state
/// does to the line's register: the configuration is read and found to be
/// `saved`, then input is enabled, output is disabled, the output level is
/// set low and the pad is routed to GPIO, each by a read-modify-write.
pub open spec fn idles(before: Seq<Access>, after: Seq<Access>, saved: u32) -> bool {
    let n = before.len() as int;
    &&& after.len() == n + 9
    &&& after.subrange(0, n) == before
    &&& after[n] == Access::Load(saved)
    &&& after[n + 1] is Load
    &&& after[n + 2] == Access::Store(spec_with_mask(after[n + 1].value(), RX_DIS, false))
    &&& after[n + 3] is Load
    &&& after[n + 4] == Access::Store(spec_with_mask(after[n + 3].value(), TX_DIS, true))
    &&& after[n + 5] is Load
    &&& after[n + 6] == Access::Store(spec_with_mask(after[n + 5].value(), TX, false))
    &&& after[n + 7] is Load
    &&& after[n + 8] == Access::Store(spec_with_pad_mode(after[n + 7].value(), GpioPadMode::Gpio))
}

/// `after` is `before` followed by everything a line sees from an engine
/// that takes it over and lets it go again: the configuration is read, the
/// line is put into the idle state, and the last thing written to it is
/// the configuration that was read first.
pub open spec fn borrowed(before: Seq<Access>, after: Seq<Access>) -> bool {
    let n = before.len() as int;
    &&& after.len() >= n + 10
    &&& idles(before, after.take(n + 9), after[n].value())
    &&& after.last() == Access::Store(after[n].value())
}

/// Teardown: a line that an engine took over at construction holds again,
/// once the engine is released, the configuration it had just before,
/// whatever the engine did in between.
pub proof fn lemma_release_restores(
    before: Seq<Access>,
    idle: Seq<Access>,
    used: Seq<Access>,
    after: Seq<Access>,
    saved: u32,
)
    requires
        idles(before, idle, saved),
        idle.is_prefix_of(used),
        after == used.push(Access::Store(saved)),
    ensures
        borrowed(before, after),
        after[before.len() as int] == Access::Load(saved),
        after.last() == Access::Store(saved),
{
    assert(after.take(before.len() as int + 9) == idle);
}

/// `after` is `before` followed by a read-modify-write that enables
/// (`low`) or disables the line's output driver.
pub open spec fn drives(before: Seq<Access>, after: Seq<Access>, low: bool) -> bool {
    &&& rewrites(before, after)
    &&& stored(after) == spec_with_mask(loaded(after), TX_DIS, !low)
}

/// `accesses` are what the clock pad's register sees when the engine
/// produces `signals`: one read-modify-write of the output driver for each
/// change of the clock line, in order, and nothing else.
pub open spec fn scl_follows(signals: Seq<Signal>, accesses: Seq<Access>) -> bool
    decreases signals.len(),
{
    if signals.len() == 0 {
        accesses.len() == 0
    } else {
        match signals.last() {
            Signal::Scl(level) => {
                &&& accesses.len() >= 2
                &&& drives(accesses.take(accesses.len() - 2), accesses, !level)
                &&& scl_follows(signals.drop_last(), accesses.take(accesses.len() - 2))
            },
            _ => scl_follows(signals.drop_last(), accesses),
        }
    }
}

/// `accesses` are what the data pad's register sees when the engine
/// produces `signals`: one read-modify-write of the output driver for each
/// change of the data line and one read for each sample, in order, and
/// nothing else. A sample is the level that the read shows.
pub open spec fn sda_follows(signals: Seq<Signal>, accesses: Seq<Access>) -> bool
    decreases signals.len(),
{
    if signals.len() == 0 {
        accesses.len() == 0
    } else {
        match signals.last() {
            Signal::Sda(level) => {
                &&& accesses.len() >= 2
                &&& drives(accesses.take(accesses.len() - 2), accesses, !level)
                &&& sda_follows(signals.drop_last(), accesses.take(accesses.len() - 2))
            },
            Signal::Sample(level) => {
                &&& accesses.len() >= 1
                &&& accesses.last() is Load
                &&& level == spec_has_mask(accesses.last().value(), RX)
                &&& sda_follows(signals.drop_last(), accesses.drop_last())
            },
            _ => sda_follows(signals.drop_last(), accesses),
        }
    }
}

/// `waits` are the waits made when the engine produces `signals`: one for
/// each wait among the signals, of the same length, in order.
pub open spec fn waits_follow(signals: Seq<Signal>, waits: Seq<u64>) -> bool
    decreases signals.len(),
{
    if signals.len() == 0 {
        waits.len() == 0
    } else {
        match signals.last() {
            Signal::Wait(micros) => {
                &&& waits.len() >= 1
                &&& waits.last() == micros
                &&& waits_follow(signals.drop_last(), waits.drop_last())
            },
            _ => waits_follow(signals.drop_last(), waits),
        }
    }
}

/// `after` is `before` followed by an SMBus block write of `payload` that
/// got `count` payload bytes acknowledged. No payload byte is acknowledged
/// where the device did not acknowledge all of the header.
pub open spec fn block_written(
    before: Seq<Signal>,
    after: Seq<Signal>,
    address: u8,
    command: u8,
    payload: Seq<u8>,
    count: nat,
) -> bool {
    ||| count == 0 && after == before + block_write_signals(address, command, payload, 0)
    ||| count == 0 && after == before + block_write_signals(address, command, payload, 1)
    ||| count == 0 && after == before + block_write_signals(address, command, payload, 2)
    ||| count <= payload.len() && after == before + block_write_signals(
        address,
        command,
        payload,
        3 + count,
    )
}

/// `after` is `before` followed by an SMBus block read that returned `data`.
/// Nothing is returned where the device did not acknowledge all of the
/// header.
pub open spec fn block_read(
    before: Seq<Signal>,
    after: Seq<Signal>,
    address: u8,
    command: u8,
    data: Seq<u8>,
) -> bool {
    ||| data.len() == 0 && after == before + block_read_signals(address, command, 0, data)
    ||| data.len() == 0 && after == before + block_read_signals(address, command, 1, data)
    ||| data.len() == 0 && after == before + block_read_signals(address, command, 2, data)
    ||| data.len() <= 255 && after == before + block_read_signals(address, command, 3, data)
}

/// How many bytes of its frame, the three header bytes counted, the device
/// acknowledged in a block write that the signals from `before` to `after`
/// are, with what those signals took off the wire.
pub proof fn lemma_block_written_acked(
    before: Seq<Signal>,
    after: Seq<Signal>,
    address: u8,
    command: u8,
    payload: Seq<u8>,
    count: nat,
) -> (acked: nat)
    requires
        block_written(before, after, address, command, payload, count),
    ensures
        acked <= 3 + payload.len(),
        after == before + block_write_signals(address, command, payload, acked),
        count == if acked >= 3 {
            (acked - 3) as nat
        } else {
            0
        },
        sampled(after) == sampled(before) + ack_bits(3 + payload.len(), acked),
{
    let acked: nat = if after == before + block_write_signals(address, command, payload, 3 + count)
        && count <= payload.len() {
        3 + count
    } else if after == before + block_write_signals(address, command, payload, 2) {
        2
    } else if after == before + block_write_signals(address, command, payload, 1) {
        1
    } else {
        0
    };
    lemma_block_write_sampled(address, command, payload, acked);
    lemma_sampled_concat(before, block_write_signals(address, command, payload, acked));
    acked
}

/// The signals of a block write tell how many payload bytes the device
/// acknowledged: the count returned is the only one that fits them.
pub proof fn lemma_block_written_count(
    before: Seq<Signal>,
    after: Seq<Signal>,
    address: u8,
    command: u8,
    payload: Seq<u8>,
    count: nat,
    other: nat,
)
    requires
        block_written(before, after, address, command, payload, count),
        block_written(before, after, address, command, payload, other),
    ensures
        count == other,
{
    let acked = lemma_block_written_acked(before, after, address, command, payload, count);
    let other_acked = lemma_block_written_acked(before, after, address, command, payload, other);
    lemma_ack_bits_determine(sampled(before), 3 + payload.len(), acked, other_acked);
}

/// How many bytes of its header the device acknowledged in a block read
/// that the signals from `before` to `after` are, with what those signals
/// took off the wire.
pub proof fn lemma_block_read_acked(
    before: Seq<Signal>,
    after: Seq<Signal>,
    address: u8,
    command: u8,
    data: Seq<u8>,
) -> (acked: nat)
    requires
        block_read(before, after, address, command, data),
    ensures
        acked <= 3,
        data.len() <= 255,
        acked < 3 ==> data.len() == 0,
        after == before + block_read_signals(address, command, acked, data),
        sampled(after) == sampled(before) + block_read_bits(acked, data),
{
    let acked: nat = if after == before + block_read_signals(address, command, 3, data)
        && data.len() <= 255 {
        3
    } else if after == before + block_read_signals(address, command, 2, data) {
        2
    } else if after == before + block_read_signals(address, command, 1, data) {
        1
    } else {
        0
    };
    lemma_block_read_sampled(address, command, acked, data);
    lemma_sampled_concat(before, block_read_signals(address, command, acked, data));
    acked
}

/// The signals of a block read tell what was read: the bytes returned are
/// the only ones that fit them.
pub proof fn lemma_block_read_data(
    before: Seq<Signal>,
    after: Seq<Signal>,
    address: u8,
    command: u8,
    data: Seq<u8>,
    other: Seq<u8>,
)
    requires
        block_read(before, after, address, command, data),
        block_read(before, after, address, command, other),
    ensures
        data == other,
{
    let acked = lemma_block_read_acked(before, after, address, command, data);
    let other_acked = lemma_block_read_acked(before, after, address, command, other);
    lemma_block_read_bits_determine(sampled(before), acked, data, other_acked, other);
    if acked < 3 {
        assert(data == other);
    }
}

/// An I2C master on a clock pad and a data pad.
pub struct I2CBitbang<R: Register, D: Delay> {
    scl: Gpio<R>,
    scl_config: u32,
    sda: Gpio<R>,
    sda_config: u32,
    timer: Timer<D>,
    trace: Ghost<Seq<Signal>>,
    scl_taken: Ghost<nat>,
    sda_taken: Ghost<nat>,
    timer_taken: Ghost<nat>,
}

impl<R: Register, D: Delay> View for I2CBitbang<R, D> {
    type V = Seq<Signal>;

    /// Every signal the engine has produced, oldest first.
    closed spec fn view(&self) -> Seq<Signal> {
        self.trace@
    }
}

impl<R: Register, D: Delay> I2CBitbang<R, D> {
    /// The accesses made to the clock pad's register.
    pub closed spec fn scl_history(&self) -> Seq<Access> {
        self.scl@
    }

    /// The accesses made to the data pad's register.
    pub closed spec fn sda_history(&self) -> Seq<Access> {
        self.sda@
    }

    /// Which pad the clock line is.
    pub closed spec fn scl_pad(&self) -> Pad {
        self.scl.pad()
    }

    /// Which pad the data line is.
    pub closed spec fn sda_pad(&self) -> Pad {
        self.sda.pad()
    }

    /// The waits made with the engine's timer, by the engine or before it.
    pub closed spec fn waits(&self) -> Seq<u64> {
        self.timer@
    }

    /// The clock pad's configuration as it was found at construction.
    pub closed spec fn scl_saved(&self) -> u32 {
        self.scl_config
    }

    /// The data pad's configuration as it was found at construction.
    pub closed spec fn sda_saved(&self) -> u32 {
        self.sda_config
    }

    /// How many accesses the clock pad's register had seen when the engine
    /// took the pad over.
    pub closed spec fn scl_taken(&self) -> int {
        self.scl_taken@ as int
    }

    /// How many accesses the data pad's register had seen when the engine
    /// took the pad over.
    pub closed spec fn sda_taken(&self) -> int {
        self.sda_taken@ as int
    }

    /// How many waits had been made with the timer when the engine took it
    /// over.
    pub closed spec fn timer_taken(&self) -> int {
        self.timer_taken@ as int
    }

    /// The pads and the timer have seen, since the engine took them over,
    /// what the engine's signals say and nothing else: each pad was put into
    /// the idle state, its configuration saved, and then followed the
    /// signals.
    pub open spec fn faithful(&self) -> bool {
        &&& 0 <= self.scl_taken()
        &&& self.scl_taken() + 9 <= self.scl_history().len()
        &&& idles(
            self.scl_history().take(self.scl_taken()),
            self.scl_history().take(self.scl_taken() + 9),
            self.scl_saved(),
        )
        &&& scl_follows(self@, self.scl_history().skip(self.scl_taken() + 9))
        &&& 0 <= self.sda_taken()
        &&& self.sda_taken() + 9 <= self.sda_history().len()
        &&& idles(
            self.sda_history().take(self.sda_taken()),
            self.sda_history().take(self.sda_taken() + 9),
            self.sda_saved(),
        )
        &&& sda_follows(self@, self.sda_history().skip(self.sda_taken() + 9))
        &&& 0 <= self.timer_taken() <= self.waits().len()
        &&& waits_follow(self@, self.waits().skip(self.timer_taken()))
    }

    /// `self` is a later state of the engine `before`: what was saved and
    /// taken over is the same, the accesses made to the pads and the waits
    /// made then are the first of those made now, and if the pads and the
    /// timer had seen what the signals said and nothing else, they still
    /// have.
    pub open spec fn continues(&self, before: &Self) -> bool {
        &&& self.scl_pad() == before.scl_pad()
        &&& self.sda_pad() == before.sda_pad()
        &&& self.scl_saved() == before.scl_saved()
        &&& self.sda_saved() == before.sda_saved()
        &&& self.scl_taken() == before.scl_taken()
        &&& self.sda_taken() == before.sda_taken()
        &&& self.timer_taken() == before.timer_taken()
        &&& before.scl_history().is_prefix_of(self.scl_history())
        &&& before.sda_history().is_prefix_of(self.sda_history())
        &&& before.waits().is_prefix_of(self.waits())
        &&& before.faithful() ==> self.faithful()
    }

    /// The pads `scl` and `sda` and the timer `timer` are what is left of
    /// the engine after it produced `signals` more and was released: each pad
    /// has seen what it had seen and more, and the last thing written to it
    /// is the configuration saved when the engine took it over. If the pads
    /// and the timer had followed the engine's signals until then, they have
    /// followed these too.
    pub open spec fn released(
        &self,
        signals: Seq<Signal>,
        scl: &Gpio<R>,
        sda: &Gpio<R>,
        timer: &Timer<D>,
    ) -> bool {
        &&& scl.pad() == self.scl_pad()
        &&& sda.pad() == self.sda_pad()
        &&& self.scl_history().is_prefix_of(scl@.drop_last())
        &&& scl@.len() > 0
        &&& scl@.last() == Access::Store(self.scl_saved())
        &&& self.sda_history().is_prefix_of(sda@.drop_last())
        &&& sda@.len() > 0
        &&& sda@.last() == Access::Store(self.sda_saved())
        &&& self.waits().is_prefix_of(timer@)
        &&& self.faithful() ==> {
            &&& scl_follows(self@ + signals, scl@.subrange(self.scl_taken() + 9, scl@.len() - 1))
            &&& sda_follows(self@ + signals, sda@.subrange(self.sda_taken() + 9, sda@.len() - 1))
            &&& waits_follow(self@ + signals, timer@.skip(self.timer_taken()))
        }
    }

    /// Releasing a later state of an engine leaves what is left of the
    /// engine after the signals produced in between.
    pub proof fn lemma_released(
        &self,
        used: &Self,
        signals: Seq<Signal>,
        scl: &Gpio<R>,
        sda: &Gpio<R>,
        timer: &Timer<D>,
    )
        requires
            used.continues(self),
            used@ == self@ + signals,
            scl.pad() == used.scl_pad(),
            sda.pad() == used.sda_pad(),
            scl@ == used.scl_history().push(Access::Store(used.scl_saved())),
            sda@ == used.sda_history().push(Access::Store(used.sda_saved())),
            timer@ == used.waits(),
        ensures
            self.released(signals, scl, sda, timer),
    {
        assert(scl@.drop_last() == used.scl_history());
        assert(sda@.drop_last() == used.sda_history());
        if self.faithful() {
            assert(scl@.subrange(self.scl_taken() + 9, scl@.len() - 1) == used.scl_history().skip(
                self.scl_taken() + 9,
            ));
            assert(sda@.subrange(self.sda_taken() + 9, sda@.len() - 1) == used.sda_history().skip(
                self.sda_taken() + 9,
            ));
        }
    }

    /// One more signal, with what the pads and the timer see of it, keeps
    /// them in step with the signals.
    proof fn lemma_step(&self, before: &Self, signal: Signal)
        requires
            self@ == before@.push(signal),
            self.scl_pad() == before.scl_pad(),
            self.sda_pad() == before.sda_pad(),
            self.scl_saved() == before.scl_saved(),
            self.sda_saved() == before.sda_saved(),
            self.scl_taken() == before.scl_taken(),
            self.sda_taken() == before.sda_taken(),
            self.timer_taken() == before.timer_taken(),
            match signal {
                Signal::Scl(level) => {
                    &&& drives(before.scl_history(), self.scl_history(), !level)
                    &&& self.sda_history() == before.sda_history()
                    &&& self.waits() == before.waits()
                },
                Signal::Sda(level) => {
                    &&& drives(before.sda_history(), self.sda_history(), !level)
                    &&& self.scl_history() == before.scl_history()
                    &&& self.waits() == before.waits()
                },
                Signal::Sample(level) => {
                    &&& self.sda_history() == before.sda_history().push(
                        Access::Load(self.sda_history().last().value()),
                    )
                    &&& level == spec_has_mask(self.sda_history().last().value(), RX)
                    &&& self.scl_history() == before.scl_history()
                    &&& self.waits() == before.waits()
                },
                Signal::Wait(micros) => {
                    &&& self.waits() == before.waits().push(micros)
                    &&& self.scl_history() == before.scl_history()
                    &&& self.sda_history() == before.sda_history()
                },
            },
        ensures
            self.continues(before),
    {
        assert(self@.drop_last() == before@);
        assert(self@.last() == signal);
        if before.faithful() {
            let scl_from = self.scl_taken() + 9;
            let sda_from = self.sda_taken() + 9;
            let timer_from = self.timer_taken();
            let scl_then = before.scl_history().skip(scl_from);
            let scl_now = self.scl_history().skip(scl_from);
            let sda_then = before.sda_history().skip(sda_from);
            let sda_now = self.sda_history().skip(sda_from);
            let waits_then = before.waits().skip(timer_from);
            let waits_now = self.waits().skip(timer_from);
            assert(self.scl_history().take(self.scl_taken()) == before.scl_history().take(
                self.scl_taken(),
            ));
            assert(self.scl_history().take(scl_from) == before.scl_history().take(scl_from));
            assert(self.sda_history().take(self.sda_taken()) == before.sda_history().take(
                self.sda_taken(),
            ));
            assert(self.sda_history().take(sda_from) == before.sda_history().take(sda_from));
            match signal {
                Signal::Scl(level) => {
                    assert(scl_now.take(scl_now.len() - 2) == scl_then);
                    assert(scl_now == scl_then.push(Access::Load(loaded(scl_now))).push(
                        Access::Store(stored(scl_now)),
                    ));
                },
                Signal::Sda(level) => {
                    assert(sda_now.take(sda_now.len() - 2) == sda_then);
                    assert(sda_now == sda_then.push(Access::Load(loaded(sda_now))).push(
                        Access::Store(stored(sda_now)),
                    ));
                },
                Signal::Sample(level) => {
                    assert(sda_now.drop_last() == sda_then);
                },
                Signal::Wait(micros) => {
                    assert(waits_now.drop_last() == waits_then);
                },
            }
        }
    }

    /// Takes over both pads: saves the configuration of each and puts each
    /// into the idle state, released and ready to be pulled low.
    ///
    /// The pads stay as the engine set them until [`release`](Self::release)
    /// is called, and only `release` restores them: an engine that merely
    /// goes out of scope leaves both pads reconfigured. There is no
    /// destructor, because one would have to be proved never to unwind, and
    /// nothing is known of what a [`Register`] does when written to.
    pub fn new(scl: Gpio<R>, sda: Gpio<R>, timer: Timer<D>) -> (bus: Self)
        ensures
            bus@ == Seq::<Signal>::empty(),
            bus.scl_pad() == scl.pad(),
            bus.sda_pad() == sda.pad(),
            bus.waits() == timer@,
            idles(scl@, bus.scl_history(), bus.scl_saved()),
            idles(sda@, bus.sda_history(), bus.sda_saved()),
            bus.scl_taken() == scl@.len(),
            bus.sda_taken() == sda@.len(),
            bus.timer_taken() == timer@.len(),
            bus.faithful(),
    {
        let mut scl = scl;
        let mut sda = sda;
        let ghost scl_before = scl@;
        let ghost sda_before = sda@;

        let scl_config = scl.get_config();
        scl.enable_rx(true);
        scl.enable_tx(false);
        scl.set_tx(false);
        scl.set_pad_mode(GpioPadMode::Gpio);

        let sda_config = sda.get_config();
        sda.enable_rx(true);
        sda.enable_tx(false);
        sda.set_tx(false);
        sda.set_pad_mode(GpioPadMode::Gpio);

        assert(scl@.subrange(0, scl_before.len() as int) == scl_before);
        assert(sda@.subrange(0, sda_before.len() as int) == sda_before);
        assert(scl@.take(scl_before.len() as int + 9) == scl@);
        assert(sda@.take(sda_before.len() as int + 9) == sda@);
        I2CBitbang {
            scl,
            scl_config,
            sda,
            sda_config,
            timer,
            trace: Ghost(Seq::empty()),
            scl_taken: Ghost(scl_before.len()),
            sda_taken: Ghost(sda_before.len()),
            timer_taken: Ghost(timer@.len()),
        }
    }

    /// Ends the engine's hold on the pads: writes back to each the
    /// configuration saved at construction, and hands the pads back. Every
    /// engine must end this way, whether its work succeeded or not.
    pub fn release(self) -> (parts: (Gpio<R>, Gpio<R>, Timer<D>))
        ensures
            parts.0.pad() == self.scl_pad(),
            parts.1.pad() == self.sda_pad(),
            parts.0@ == self.scl_history().push(Access::Store(self.scl_saved())),
            parts.1@ == self.sda_history().push(Access::Store(self.sda_saved())),
            parts.2@ == self.waits(),
    {
        let I2CBitbang { scl, scl_config, sda, sda_config, timer, .. } = self;
        let mut scl = scl;
        let mut sda = sda;
        scl.set_config(scl_config);
        sda.set_config(sda_config);
        (scl, sda, timer)
    }

    /// Waits for half a clock period.
    fn delay(&mut self)
        ensures
            final(self)@ == old(self)@.push(Signal::Wait(HALF_PERIOD_US)),
            final(self).continues(old(self)),
            final(self).waits() == old(self).waits().push(HALF_PERIOD_US),
            final(self).scl_history() == old(self).scl_history(),
            final(self).sda_history() == old(self).sda_history(),
    {
        self.timer.wait(HALF_PERIOD_US);
        self.trace = Ghost(self.trace@.push(Signal::Wait(HALF_PERIOD_US)));
        proof {
            self.lemma_step(old(self), Signal::Wait(HALF_PERIOD_US));
        }
    }

    /// Pulls the clock line low.
    fn clr_scl(&mut self)
        ensures
            final(self)@ == old(self)@.push(Signal::Scl(false)),
            final(self).continues(old(self)),
            drives(old(self).scl_history(), final(self).scl_history(), true),
            final(self).sda_history() == old(self).sda_history(),
    {
        self.scl.enable_tx(true);
        self.trace = Ghost(self.trace@.push(Signal::Scl(false)));
        proof {
            self.lemma_step(old(self), Signal::Scl(false));
        }
    }

    /// Releases the clock line; the bus pulls it high.
    fn set_scl(&mut self)
        ensures
            final(self)@ == old(self)@.push(Signal::Scl(true)),
            final(self).continues(old(self)),
            drives(old(self).scl_history(), final(self).scl_history(), false),
            final(self).sda_history() == old(self).sda_history(),
    {
        self.scl.enable_tx(false);
        self.trace = Ghost(self.trace@.push(Signal::Scl(true)));
        proof {
            self.lemma_step(old(self), Signal::Scl(true));
        }
    }

    /// Pulls the data line low.
    fn clr_sda(&mut self)
        ensures
            final(self)@ == old(self)@.push(Signal::Sda(false)),
            final(self).continues(old(self)),
            drives(old(self).sda_history(), final(self).sda_history(), true),
            final(self).scl_history() == old(self).scl_history(),
    {
        self.sda.enable_tx(true);
        self.trace = Ghost(self.trace@.push(Signal::Sda(false)));
        proof {
            self.lemma_step(old(self), Signal::Sda(false));
        }
    }

    /// Releases the data line; the bus pulls it high.
    fn set_sda(&mut self)
        ensures
            final(self)@ == old(self)@.push(Signal::Sda(true)),
            final(self).continues(old(self)),
            drives(old(self).sda_history(), final(self).sda_history(), false),
            final(self).scl_history() == old(self).scl_history(),
    {
        self.sda.enable_tx(false);
        self.trace = Ghost(self.trace@.push(Signal::Sda(true)));
        proof {
            self.lemma_step(old(self), Signal::Sda(true));
        }
    }

    /// Samples the data line.
    fn sample_sda(&mut self) -> (level: bool)
        ensures
            final(self)@ == old(self)@.push(Signal::Sample(level)),
            final(self).continues(old(self)),
            final(self).sda_history() == old(self).sda_history().push(
                Access::Load(final(self).sda_history().last().value()),
            ),
            level == spec_has_mask(final(self).sda_history().last().value(), RX),
            final(self).scl_history() == old(self).scl_history(),
    {
        let level = self.sda.get_rx();
        self.trace = Ghost(self.trace@.push(Signal::Sample(level)));
        proof {
            self.lemma_step(old(self), Signal::Sample(level));
        }
        level
    }

    /// Start condition: data falls while the clock is high.
    fn start(&mut self)
        ensures
            final(self)@ == old(self)@ + start_signals(),
            final(self).continues(old(self)),
    {
        self.set_sda();
        self.set_scl();
        self.delay();
        self.clr_sda();
        self.delay();
        self.clr_scl();
        self.delay();
        assert(self@ =~= old(self)@ + start_signals());
    }

    /// Stop condition: data rises while the clock is high.
    pub fn stop(&mut self)
        ensures
            final(self)@ == old(self)@ + stop_signals(),
            final(self).continues(old(self)),
    {
        self.clr_sda();
        self.delay();
        self.set_scl();
        self.delay();
        self.set_sda();
        self.delay();
        assert(self@ =~= old(self)@ + stop_signals());
    }

    /// Puts `bit` on the data line and pulses the clock.
    fn write_bit(&mut self, bit: bool)
        ensures
            final(self)@ == old(self)@ + write_bit_signals(bit),
            final(self).continues(old(self)),
    {
        if bit {
            self.set_sda();
        } else {
            self.clr_sda();
        }
        self.delay();
        self.set_scl();
        self.delay();
        self.clr_scl();
        assert(self@ =~= old(self)@ + write_bit_signals(bit));
    }

    /// Releases the data line, raises the clock and samples the data line.
    fn read_bit(&mut self) -> (bit: bool)
        ensures
            final(self)@ == old(self)@ + read_bit_signals(bit),
            final(self).continues(old(self)),
    {
        self.set_sda();
        self.delay();
        self.set_scl();
        self.delay();
        let bit = self.sample_sda();
        self.clr_scl();
        assert(self@ =~= old(self)@ + read_bit_signals(bit));
        bit
    }

    /// Writes `byte`, most significant bit first, after a start condition if
    /// `start` is set. Returns whether the receiver acknowledged it; a byte
    /// that is not acknowledged is no error here.
    pub fn write_byte(&mut self, byte: u8, start: bool) -> (acked: bool)
        ensures
            final(self)@ == old(self)@ + write_byte_signals(byte, start, acked),
            final(self).continues(old(self)),
    {
        if start {
            self.start();
        }
        let ghost head = self@;
        let mut i: u8 = 0;
        while i < 8
            invariant
                i <= 8,
                self@ == head + write_bits_signals(bits_of(byte).take(i as int)),
                self.continues(old(self)),
            decreases 8 - i,
        {
            self.write_bit(byte & (0x80u8 >> i) != 0);
            proof {
                let sent = bits_of(byte).take(i + 1);
                assert(sent.drop_last() == bits_of(byte).take(i as int));
                assert(sent.last() == bit_of(byte, i));
            }
            i += 1;
        }
        assert(bits_of(byte).take(8) == bits_of(byte));
        let nack = self.read_bit();
        !nack
    }

    /// Reads a byte, most significant bit first, then acknowledges it if
    /// `ack` is set.
    pub fn read_byte(&mut self, ack: bool) -> (byte: u8)
        ensures
            final(self)@ == old(self)@ + read_byte_signals(byte, ack),
            final(self).continues(old(self)),
    {
        let mut byte: u8 = 0;
        let ghost mut bits: Seq<bool> = Seq::empty();
        let mut i: u8 = 0;
        assert(forall|j: u8| j < 8 ==> 0u8 & (0x80u8 >> j) == 0) by (bit_vector);
        while i < 8
            invariant
                i <= 8,
                bits.len() == i,
                self@ == old(self)@ + read_bits_signals(bits),
                forall|j: u8| j < 8 ==> #[trigger] bit_of(byte, j) == (j < i && bits[j as int]),
                self.continues(old(self)),
            decreases 8 - i,
        {
            let bit = self.read_bit();
            let ghost before = byte;
            if bit {
                byte = byte | (0x80u8 >> i);
                assert(forall|j: u8|
                    j < 8 ==> ((byte & (0x80u8 >> j) != 0) == (j == i || before & (0x80u8 >> j)
                        != 0))) by (bit_vector)
                    requires
                        i < 8,
                        byte == before | (0x80u8 >> i),
                ;
            }
            proof {
                let longer = bits.push(bit);
                assert(longer.drop_last() == bits);
                assert forall|j: u8| j < 8 implies #[trigger] bit_of(byte, j) == (j < i + 1
                    && longer[j as int]) by {
                    assert(bit_of(before, j) == (j < i && bits[j as int]));
                }
                bits = longer;
            }
            i += 1;
        }
        assert(bits_of(byte) =~= bits);
        self.write_bit(!ack);
        byte
    }

    /// SMBus block write: the address, the command, the byte count and the
    /// payload, up to the first byte the device does not acknowledge, then a
    /// stop condition. Returns how many payload bytes were acknowledged.
    ///
    /// A payload of more than 32 bytes is not transferred at all.
    pub fn smbus_block_write(&mut self, address: u8, command: u8, bytes: &[u8]) -> (count: usize)
        ensures
            bytes@.len() > 32 ==> {
                &&& count == 0
                &&& final(self)@ == old(self)@
                &&& final(self).scl_history() == old(self).scl_history()
                &&& final(self).sda_history() == old(self).sda_history()
                &&& final(self).waits() == old(self).waits()
            },
            bytes@.len() <= 32 ==> block_written(
                old(self)@,
                final(self)@,
                address,
                command,
                bytes@,
                count as nat,
            ),
            final(self).continues(old(self)),
    {
        if bytes.len() > 32 {
            return 0;
        }
        let ghost head = self@;
        let ghost frame = block_write_frame(address, command, bytes@);
        let ghost mut acked: nat = 0;
        let mut count: usize = 0;
        let mut going = self.write_byte(address << 1, true);
        proof {
            lemma_frame_byte(head, frame, 0, going);
        }
        if going {
            going = self.write_byte(command, false);
            proof {
                acked = 1;
                lemma_frame_byte(head, frame, 1, going);
            }
        }
        if going {
            going = self.write_byte(bytes.len() as u8, false);
            proof {
                acked = 2;
                lemma_frame_byte(head, frame, 2, going);
                if going {
                    acked = 3;
                }
            }
        }
        while going && count < bytes.len()
            invariant
                bytes@.len() <= 32,
                count <= bytes@.len(),
                frame == block_write_frame(address, command, bytes@),
                head == old(self)@,
                going ==> acked == 3 + count && self@ == head + acked_signals(frame, acked),
                !going ==> acked < frame.len() && (acked >= 3 ==> acked == 3 + count) && self@ == head
                    + frame_signals(frame, acked),
                acked < 3 ==> count == 0,
                self.continues(old(self)),
            decreases bytes@.len() - count + (if going { 1nat } else { 0nat }),
        {
            going = self.write_byte(bytes[count], false);
            proof {
                lemma_frame_byte(head, frame, acked, going);
            }
            if going {
                count += 1;
                proof {
                    acked = acked + 1;
                }
            }
        }
        proof {
            if going {
                lemma_frame_byte(head, frame, (acked - 1) as nat, true);
            }
        }
        self.stop();
        assert(self@ == head + block_write_signals(address, command, bytes@, acked));
        count
    }

    /// SMBus block read: the address, the command and, after a repeated
    /// start, the address with the read bit. If the device acknowledges all
    /// three, the byte count is read, then that many bytes, each acknowledged
    /// but the last. A stop condition ends the transfer in every case.
    ///
    /// Returns the bytes read; none where the header was not acknowledged.
    pub fn smbus_block_read(&mut self, address: u8, command: u8) -> (bytes: Vec<u8>)
        ensures
            block_read(old(self)@, final(self)@, address, command, bytes@),
            final(self).continues(old(self)),
    {
        let ghost head = self@;
        let ghost frame = read_frame(address, command);
        let ghost mut acked: nat = 0;
        let mut bytes: Vec<u8> = Vec::new();
        let mut going = self.write_byte(address << 1, true);
        proof {
            lemma_frame_byte(head, frame, 0, going);
        }
        if going {
            going = self.write_byte(command, false);
            proof {
                acked = 1;
                lemma_frame_byte(head, frame, 1, going);
            }
        }
        if going {
            going = self.write_byte(address << 1 | 1, true);
            proof {
                acked = 2;
                lemma_frame_byte(head, frame, 2, going);
                if going {
                    acked = 3;
                }
            }
        }
        let ghost header = self@;
        assert(header == head + frame_signals(frame, acked));
        if going {
            let count = self.read_byte(true);
            let ghost counted = self@;
            let mut i: u8 = 0;
            while i < count
                invariant
                    i <= count,
                    bytes@.len() == i,
                    self@ == counted + read_run(bytes@, i as nat, count as nat),
                    self.continues(old(self)),
                decreases count - i,
            {
                let ack = i + 1 != count;
                let ghost read = bytes@;
                let byte = self.read_byte(ack);
                bytes.push(byte);
                proof {
                    lemma_read_run_prefix(read, bytes@, i as nat, count as nat);
                    assert(self@ =~= counted + read_run(bytes@, (i + 1) as nat, count as nat));
                }
                i += 1;
            }
            assert(self@ =~= header + (read_byte_signals(bytes@.len() as u8, true) + read_run(
                bytes@,
                bytes@.len(),
                bytes@.len(),
            )));
        } else {
            assert(self@ =~= header + Seq::<Signal>::empty());
        }
        self.stop();
        assert(self@ == head + block_read_signals(address, command, acked, bytes@));
        bytes
    }
}

} // verus!
