//! The wiring of the machine, and the order in which the retimer is brought
//! up, updated and let go again.
//!
//! Two pads switch the retimer's power and its bus on; each is driven high
//! and given time to settle before the next step, and driven low again when
//! the work is over. The bus then runs on one of three pairs of pads.
//!
//! The order of these things is binding. It is kept in one log for the
//! board, the [`BoardLog`]: every access to a power pad, every settling wait
//! and every session of the bus, in the order in which they happened.

use crate::gpio::{
    loaded, rewrites, spec_with_mask, stored, Access, Gpio, GpioNotFound, Pad, Register, Sideband,
    TX,
};
use crate::i2c::{
    borrowed, lemma_release_restores, scl_follows, sda_follows, waits_follow, Delay, I2CBitbang,
    Timer,
};
use crate::retimer::{ops_signals, Retimer};
use crate::signal::Signal;
use crate::update::{
    flash_retimer, journal_ok, journal_ops, journal_phase, journal_result, Failure, Monitor, Step,
};
use vstd::prelude::*;

verus! {

/// The retimer's address on the bus.
pub const RETIMER_ADDRESS: u8 = 0x40;

/// How long the power and the bus are given to settle, in microseconds.
pub const POWER_SETTLE_US: u64 = 40_000;

/// The pairs of pads that the bus can run on.
#[derive(Clone, Copy, Debug, PartialEq, Eq, Structural)]
pub enum I2CBus {
    I2C1,
    SMLink0,
    SMLink1,
}

impl I2CBus {
    /// The clock pad: GPP_C19, GPP_C3 or GPP_C6.
    pub open spec fn spec_scl(self) -> Pad {
        match self {
            I2CBus::I2C1 => Pad { port: 0x6A, pad: 0x26 },
            I2CBus::SMLink0 => Pad { port: 0x6A, pad: 0x06 },
            I2CBus::SMLink1 => Pad { port: 0x6A, pad: 0x0C },
        }
    }

    /// The data pad: GPP_C18, GPP_C4 or GPP_C7.
    pub open spec fn spec_sda(self) -> Pad {
        match self {
            I2CBus::I2C1 => Pad { port: 0x6A, pad: 0x24 },
            I2CBus::SMLink0 => Pad { port: 0x6A, pad: 0x08 },
            I2CBus::SMLink1 => Pad { port: 0x6A, pad: 0x0E },
        }
    }

    #[verifier::when_used_as_spec(spec_scl)]
    pub fn scl(self) -> (pad: Pad)
        ensures
            pad == self.spec_scl(),
    {
        match self {
            I2CBus::I2C1 => Pad { port: 0x6A, pad: 0x26 },
            I2CBus::SMLink0 => Pad { port: 0x6A, pad: 0x06 },
            I2CBus::SMLink1 => Pad { port: 0x6A, pad: 0x0C },
        }
    }

    #[verifier::when_used_as_spec(spec_sda)]
    pub fn sda(self) -> (pad: Pad)
        ensures
            pad == self.spec_sda(),
    {
        match self {
            I2CBus::I2C1 => Pad { port: 0x6A, pad: 0x24 },
            I2CBus::SMLink0 => Pad { port: 0x6A, pad: 0x08 },
            I2CBus::SMLink1 => Pad { port: 0x6A, pad: 0x0E },
        }
    }
}

/// The pad that forces the retimer's power on: GPP_A23.
pub open spec fn spec_force_power_pad() -> Pad {
    Pad { port: 0x6E, pad: 0x82 }
}

#[verifier::when_used_as_spec(spec_force_power_pad)]
pub fn force_power_pad() -> (pad: Pad)
    ensures
        pad == spec_force_power_pad(),
{
    Pad { port: 0x6E, pad: 0x82 }
}

/// The pad that connects the retimer to the bus: GPP_E1.
pub open spec fn spec_rom_i2c_en_pad() -> Pad {
    Pad { port: 0x6A, pad: 0x70 }
}

#[verifier::when_used_as_spec(spec_rom_i2c_en_pad)]
pub fn rom_i2c_en_pad() -> (pad: Pad)
    ensures
        pad == spec_rom_i2c_en_pad(),
{
    Pad { port: 0x6A, pad: 0x70 }
}

/// The error that reports `pad` as not found.
pub open spec fn not_found(pad: Pad) -> GpioNotFound {
    GpioNotFound { port: pad.port, pad: pad.pad }
}

/// What a session of the bus did to the pads and the timer it had: the
/// accesses made to the clock pad and to the data pad, and the waits made.
/// How these lie in time among each other is what the bus's signals say.
pub struct BusRecord {
    pub scl: Pad,
    pub sda: Pad,
    pub scl_accesses: Seq<Access>,
    pub sda_accesses: Seq<Access>,
    pub waits: Seq<u64>,
}

/// One thing that happened on the board.
pub enum Event {
    /// An access to the register of a power pad.
    Access(Pad, Access),
    /// A wait of this many microseconds for power to settle.
    Wait(u64),
    /// A session of the bus, from taking its pads over to letting them go.
    Bus(BusRecord),
}

/// The log of the board: what happened, in the order in which it happened.
pub struct BoardLog {
    events: Ghost<Seq<Event>>,
}

impl View for BoardLog {
    type V = Seq<Event>;

    closed spec fn view(&self) -> Seq<Event> {
        self.events@
    }
}

impl BoardLog {
    /// A log in which nothing has happened yet.
    pub fn new() -> (log: Self)
        ensures
            log@ == Seq::<Event>::empty(),
    {
        BoardLog { events: Ghost(Seq::empty()) }
    }
}

/// What raising `pad` puts in the log, if the pad's register has seen
/// `history` when it is done: the last two accesses of the history, a read
/// and a write, then the settling wait.
pub open spec fn raise_events(pad: Pad, history: Seq<Access>) -> Seq<Event> {
    seq![
        Event::Access(pad, history[history.len() - 2]),
        Event::Access(pad, history[history.len() - 1]),
        Event::Wait(POWER_SETTLE_US),
    ]
}

/// What lowering `pad` puts in the log, if the pad's register has seen
/// `history` when it is done: the last two accesses of the history, a read
/// and a write.
pub open spec fn lower_events(pad: Pad, history: Seq<Access>) -> Seq<Event> {
    seq![
        Event::Access(pad, history[history.len() - 2]),
        Event::Access(pad, history[history.len() - 1]),
    ]
}

/// `after` is `before` followed by `pad` being raised and nothing else: a
/// read of the pad's register, a write of what was read with the output
/// level set, and the settling wait, in this order.
pub open spec fn logs_raise(before: Seq<Event>, after: Seq<Event>, pad: Pad) -> bool {
    let n = before.len() as int;
    &&& after.len() == n + 3
    &&& after.take(n) == before
    &&& after[n] matches Event::Access(first, Access::Load(found))
    &&& first == pad
    &&& after[n + 1] == Event::Access(pad, Access::Store(spec_with_mask(found, TX, true)))
    &&& after[n + 2] == Event::Wait(POWER_SETTLE_US)
}

/// The history of a pad that was driven high and nothing else: one
/// read-modify-write that sets the output level.
pub open spec fn raised(history: Seq<Access>) -> bool {
    &&& rewrites(Seq::empty(), history)
    &&& stored(history) == spec_with_mask(loaded(history), TX, true)
}

/// The history of a pad that was driven high and then low again: two
/// read-modify-writes of the output level.
pub open spec fn pulsed(history: Seq<Access>) -> bool {
    &&& history.len() == 4
    &&& raised(history.take(2))
    &&& rewrites(history.take(2), history)
    &&& stored(history) == spec_with_mask(loaded(history), TX, false)
}

/// `after` is `before` followed by what the work of [`i2c_enable`] does
/// when it comes to an end, on a pad whose register has then seen `history`:
/// the pad is raised, the bus has its session, the pad is lowered.
pub open spec fn logs_enabled(
    before: Seq<Event>,
    after: Seq<Event>,
    pad: Pad,
    history: Seq<Access>,
    record: BusRecord,
) -> bool {
    after == before + raise_events(pad, history.take(2)) + seq![Event::Bus(record)] + lower_events(
        pad,
        history,
    )
}

/// `after` is `before` followed by what the work of [`force_power`] does
/// when it comes to an end, on a power pad whose register has then seen
/// `power` and an enable pad whose register has then seen `enable`: the
/// power pad is raised, the work of [`i2c_enable`] is done, the power pad is
/// lowered.
pub open spec fn logs_powered(
    before: Seq<Event>,
    after: Seq<Event>,
    power_pad: Pad,
    power: Seq<Access>,
    enable_pad: Pad,
    enable: Seq<Access>,
    record: BusRecord,
) -> bool {
    after == before + raise_events(power_pad, power.take(2)) + raise_events(
        enable_pad,
        enable.take(2),
    ) + seq![Event::Bus(record)] + lower_events(enable_pad, enable) + lower_events(power_pad, power)
}

/// The bus `i2c` has done a whole update, of the retimer at `address` to
/// `image`, that returned `result`, and is released: it produced the signals
/// of the accesses of some journal of such an update, one that is over, and
/// `scl`, `sda` and `timer` are what is left of it.
pub open spec fn accessed<R: Register, D: Delay>(
    i2c: &I2CBitbang<R, D>,
    address: u8,
    image: Seq<u8>,
    result: Result<(), Failure>,
    scl: &Gpio<R>,
    sda: &Gpio<R>,
    timer: &Timer<D>,
) -> bool {
    exists|journal: Seq<Step>|
        {
            &&& #[trigger] journal_ok(image, journal)
            &&& journal_phase(image, journal) is Done || journal_phase(image, journal) is Failed
            &&& result == journal_result(image, journal)
            &&& i2c.released(ops_signals(address, journal_ops(journal)), scl, sda, timer)
        }
}

/// What is left when the work is over: how the update ended, and the pads
/// and the timer that the bus had.
pub struct Session<R: Register, D: Delay> {
    pub outcome: Result<(), Failure>,
    pub scl: Gpio<R>,
    pub sda: Gpio<R>,
    pub timer: Timer<D>,
}

impl<R: Register, D: Delay> Session<R, D> {
    /// What the session did to its pads and its timer, which had seen
    /// `scl_before`, `sda_before` and `waited` when it began.
    pub open spec fn record(
        &self,
        scl_before: Seq<Access>,
        sda_before: Seq<Access>,
        waited: Seq<u64>,
    ) -> BusRecord {
        BusRecord {
            scl: self.scl.pad(),
            sda: self.sda.pad(),
            scl_accesses: self.scl@.skip(scl_before.len() as int),
            sda_accesses: self.sda@.skip(sda_before.len() as int),
            waits: self.timer@.skip(waited.len() as int),
        }
    }

    /// The pads and the timer have seen a bus that produced `signals` come
    /// and go, and nothing else since the accesses `scl_before` and
    /// `sda_before` and the waits `waited`: each pad was taken over,
    /// followed the signals, and holds again the configuration it had just
    /// before.
    pub open spec fn saw(
        &self,
        signals: Seq<Signal>,
        scl_before: Seq<Access>,
        sda_before: Seq<Access>,
        waited: Seq<u64>,
    ) -> bool {
        &&& borrowed(scl_before, self.scl@)
        &&& scl_follows(signals, self.scl@.subrange(scl_before.len() as int + 9, self.scl@.len() - 1))
        &&& borrowed(sda_before, self.sda@)
        &&& sda_follows(signals, self.sda@.subrange(sda_before.len() as int + 9, self.sda@.len() - 1))
        &&& waited.is_prefix_of(self.timer@)
        &&& waits_follow(signals, self.timer@.skip(waited.len() as int))
    }

    /// The session is that of a whole update of the retimer to `image`, on
    /// pads that had seen `scl_before` and `sda_before` and begun after the
    /// waits `waited`: the outcome is that of some journal of such an
    /// update, one that is over, and the pads and the timer have seen the
    /// signals of that journal's accesses.
    pub open spec fn settled_from(
        &self,
        image: Seq<u8>,
        scl_before: Seq<Access>,
        sda_before: Seq<Access>,
        waited: Seq<u64>,
    ) -> bool {
        exists|journal: Seq<Step>|
            {
                &&& #[trigger] journal_ok(image, journal)
                &&& journal_phase(image, journal) is Done || journal_phase(image, journal) is Failed
                &&& self.outcome == journal_result(image, journal)
                &&& self.saw(
                    ops_signals(RETIMER_ADDRESS, journal_ops(journal)),
                    scl_before,
                    sda_before,
                    waited,
                )
            }
    }

    /// The session is that of a whole update of the retimer to `image`, on
    /// pads not touched before and begun after the waits `waited`.
    pub open spec fn settled(&self, image: Seq<u8>, waited: Seq<u64>) -> bool {
        self.settled_from(image, Seq::empty(), Seq::empty(), waited)
    }
}

/// A log that grew by the events of raising a pad shows the pad raised.
proof fn lemma_logs_raise(before: Seq<Event>, after: Seq<Event>, pad: Pad, history: Seq<Access>)
    requires
        raised(history),
        after == before + raise_events(pad, history),
    ensures
        logs_raise(before, after, pad),
{
    assert(after.take(before.len() as int) == before);
    assert(history[0] == Access::Load(loaded(history)));
    assert(history[1] == Access::Store(stored(history)));
}

/// No pad of the bus is a power pad, and the power pads are two.
proof fn lemma_pads_apart(bus: I2CBus)
    ensures
        not_found(bus.scl()) != not_found(rom_i2c_en_pad()),
        not_found(bus.sda()) != not_found(rom_i2c_en_pad()),
        not_found(bus.scl()) != not_found(force_power_pad()),
        not_found(bus.sda()) != not_found(force_power_pad()),
        not_found(rom_i2c_en_pad()) != not_found(force_power_pad()),
{
}

/// Sets the output level of `pad` and enters the two accesses in the log.
fn drive<R: Register>(pad: &mut Gpio<R>, level: bool, log: &mut BoardLog)
    ensures
        final(pad).pad() == old(pad).pad(),
        rewrites(old(pad)@, final(pad)@),
        stored(final(pad)@) == spec_with_mask(loaded(final(pad)@), TX, level),
        final(log)@ == old(log)@ + lower_events(final(pad).pad(), final(pad)@),
{
    pad.set_tx(level);
    log.events = Ghost(log.events@ + lower_events(pad.pad(), pad@));
}

/// Waits for `POWER_SETTLE_US` and enters the wait in the log.
fn settle<D: Delay>(timer: &mut Timer<D>, log: &mut BoardLog)
    ensures
        final(timer)@ == old(timer)@.push(POWER_SETTLE_US),
        final(log)@ == old(log)@.push(Event::Wait(POWER_SETTLE_US)),
{
    timer.wait(POWER_SETTLE_US);
    log.events = Ghost(log.events@.push(Event::Wait(POWER_SETTLE_US)));
}

/// Drives high the pad that a lookup gave, if it gave one, then waits for
/// `POWER_SETTLE_US`. A lookup that failed is handed on, and nothing is done.
pub fn raise_pad<R: Register, D: Delay>(
    opened: Result<Gpio<R>, GpioNotFound>,
    timer: &mut Timer<D>,
    log: &mut BoardLog,
) -> (line: Result<Gpio<R>, GpioNotFound>)
    ensures
        line is Ok <==> opened is Ok,
        line matches Ok(gpio) ==> {
            &&& gpio.pad() == opened->Ok_0.pad()
            &&& rewrites(opened->Ok_0@, gpio@)
            &&& stored(gpio@) == spec_with_mask(loaded(gpio@), TX, true)
            &&& final(timer)@ == old(timer)@.push(POWER_SETTLE_US)
            &&& final(log)@ == old(log)@ + raise_events(gpio.pad(), gpio@)
        },
        line matches Err(err) ==> {
            &&& opened == Err::<Gpio<R>, GpioNotFound>(err)
            &&& final(timer)@ == old(timer)@
            &&& final(log)@ == old(log)@
        },
{
    match opened {
        Err(err) => Err(err),
        Ok(gpio) => {
            let mut gpio = gpio;
            drive(&mut gpio, true, log);
            settle(timer, log);
            assert(log@ == old(log)@ + raise_events(gpio.pad(), gpio@));
            Ok(gpio)
        },
    }
}

/// Drives low again the pad `pad`, if the work done while it was high came
/// to an end. Work that ended at a pad not found is handed on as it is, and
/// the pad stays high.
pub fn lower_pad<R: Register, T>(
    pad: Gpio<R>,
    inner: Result<T, GpioNotFound>,
    log: &mut BoardLog,
) -> (done: Result<(T, Gpio<R>), GpioNotFound>)
    ensures
        done is Ok <==> inner is Ok,
        done matches Ok((work, lowered)) ==> {
            &&& inner == Ok::<T, GpioNotFound>(work)
            &&& lowered.pad() == pad.pad()
            &&& rewrites(pad@, lowered@)
            &&& stored(lowered@) == spec_with_mask(loaded(lowered@), TX, false)
            &&& final(log)@ == old(log)@ + lower_events(lowered.pad(), lowered@)
        },
        done matches Err(err) ==> inner == Err::<T, GpioNotFound>(err) && final(log)@ == old(log)@,
{
    match inner {
        Err(err) => Err(err),
        Ok(work) => {
            let mut pad = pad;
            drive(&mut pad, false, log);
            Ok((work, pad))
        },
    }
}

/// Resolves `pad`, drives it high and waits for `POWER_SETTLE_US`. Whether
/// the pad resolves is for the sideband to say; what follows from its answer
/// is stated of [`raise_pad`].
pub fn raise<R: Register, S: Sideband<R>, D: Delay>(
    sideband: &S,
    pad: Pad,
    timer: &mut Timer<D>,
    log: &mut BoardLog,
) -> (line: Result<Gpio<R>, GpioNotFound>)
    ensures
        line matches Ok(gpio) ==> {
            &&& gpio.pad() == pad
            &&& raised(gpio@)
            &&& final(timer)@ == old(timer)@.push(POWER_SETTLE_US)
            &&& final(log)@ == old(log)@ + raise_events(pad, gpio@)
        },
        line matches Err(err) ==> {
            &&& err == not_found(pad)
            &&& final(timer)@ == old(timer)@
            &&& final(log)@ == old(log)@
        },
{
    raise_pad(Gpio::new(sideband, pad.port, pad.pad), timer, log)
}

/// Updates the firmware of the retimer at `address` of the bus to `image`,
/// then releases the bus, however the update ended: the pads hold again the
/// configuration that the bus found when it took them over.
pub fn retimer_access<R: Register, D: Delay, M: Monitor>(
    i2c: I2CBitbang<R, D>,
    address: u8,
    image: Vec<u8>,
    monitor: &mut M,
) -> (done: (Result<(), Failure>, Gpio<R>, Gpio<R>, Timer<D>))
    ensures
        accessed(&i2c, address, image@, done.0, &done.1, &done.2, &done.3),
{
    let ghost bytes = image@;
    let mut retimer = Retimer::new(i2c, address);
    let ghost fresh = retimer;
    let result = flash_retimer(&mut retimer, image, monitor);
    let ghost used = retimer.bus();
    let (scl, sda, timer) = retimer.into_bus().release();
    proof {
        let journal = choose|journal: Seq<Step>|
            {
                &&& #[trigger] journal_ok(bytes, journal)
                &&& journal_phase(bytes, journal) is Done || journal_phase(bytes, journal) is Failed
                &&& retimer.performed(&fresh, journal_ops(journal))
                &&& result == journal_result(bytes, journal)
            };
        let signals = ops_signals(address, journal_ops(journal));
        assert(journal_ok(bytes, journal));
        assert(used@ == i2c@ + signals);
        i2c.lemma_released(&used, signals, &scl, &sda, &timer);
    }
    (result, scl, sda, timer)
}

/// With the two pads that the lookups gave, if they gave both: takes the
/// pads over as clock and data line, updates the retimer's firmware to
/// `image`, and lets the pads go again, restored, however the update ended.
/// The session is entered in the log.
///
/// A lookup that failed, that of the clock pad before that of the data pad,
/// is handed on, and nothing is touched.
pub fn i2c_session<R: Register, D: Delay, M: Monitor>(
    scl: Result<Gpio<R>, GpioNotFound>,
    sda: Result<Gpio<R>, GpioNotFound>,
    timer: Timer<D>,
    image: Vec<u8>,
    monitor: &mut M,
    log: &mut BoardLog,
) -> (session: Result<Session<R, D>, GpioNotFound>)
    ensures
        session is Ok <==> scl is Ok && sda is Ok,
        session matches Ok(session) ==> {
            &&& session.scl.pad() == scl->Ok_0.pad()
            &&& session.sda.pad() == sda->Ok_0.pad()
            &&& session.settled_from(image@, scl->Ok_0@, sda->Ok_0@, timer@)
            &&& final(log)@ == old(log)@.push(
                Event::Bus(session.record(scl->Ok_0@, sda->Ok_0@, timer@)),
            )
        },
        session matches Err(err) ==> {
            &&& err == (if scl is Err {
                scl->Err_0
            } else {
                sda->Err_0
            })
            &&& final(log)@ == old(log)@
        },
{
    let scl = match scl {
        Ok(gpio) => gpio,
        Err(err) => {
            return Err(err);
        },
    };
    let sda = match sda {
        Ok(gpio) => gpio,
        Err(err) => {
            return Err(err);
        },
    };
    let ghost waited = timer@;
    let ghost scl_before = scl@;
    let ghost sda_before = sda@;
    let i2c = I2CBitbang::new(scl, sda, timer);
    let ghost idle = i2c;
    let ghost bytes = image@;
    let (outcome, scl, sda, timer) = retimer_access(i2c, RETIMER_ADDRESS, image, monitor);
    let session = Session { outcome, scl, sda, timer };
    log.events = Ghost(log.events@.push(Event::Bus(session.record(scl_before, sda_before, waited))));
    proof {
        let journal = choose|journal: Seq<Step>|
            {
                &&& #[trigger] journal_ok(bytes, journal)
                &&& journal_phase(bytes, journal) is Done || journal_phase(bytes, journal) is Failed
                &&& outcome == journal_result(bytes, journal)
                &&& idle.released(
                    ops_signals(RETIMER_ADDRESS, journal_ops(journal)),
                    &session.scl,
                    &session.sda,
                    &session.timer,
                )
            };
        let signals = ops_signals(RETIMER_ADDRESS, journal_ops(journal));
        assert(journal_ok(bytes, journal));
        assert(idle@ + signals == signals);
        assert(session.scl@ == session.scl@.drop_last().push(Access::Store(idle.scl_saved())));
        assert(session.sda@ == session.sda@.drop_last().push(Access::Store(idle.sda_saved())));
        lemma_release_restores(
            scl_before,
            idle.scl_history(),
            session.scl@.drop_last(),
            session.scl@,
            idle.scl_saved(),
        );
        lemma_release_restores(
            sda_before,
            idle.sda_history(),
            session.sda@.drop_last(),
            session.sda@,
            idle.sda_saved(),
        );
        assert(session.saw(signals, scl_before, sda_before, waited));
    }
    Ok(session)
}

/// Resolves the two pads of `bus` and does the work of [`i2c_session`] with
/// them. Whether the pads resolve is for the sideband to say; what follows
/// from its answers is stated of [`i2c_session`].
pub fn i2c_access<R: Register, S: Sideband<R>, D: Delay, M: Monitor>(
    sideband: &S,
    timer: Timer<D>,
    bus: I2CBus,
    image: Vec<u8>,
    monitor: &mut M,
    log: &mut BoardLog,
) -> (session: Result<Session<R, D>, GpioNotFound>)
    ensures
        session matches Ok(session) ==> {
            &&& session.scl.pad() == bus.scl()
            &&& session.sda.pad() == bus.sda()
            &&& session.settled(image@, timer@)
            &&& final(log)@ == old(log)@.push(
                Event::Bus(session.record(Seq::empty(), Seq::empty(), timer@)),
            )
        },
        session matches Err(err) ==> {
            &&& err == not_found(bus.scl()) || err == not_found(bus.sda())
            &&& final(log)@ == old(log)@
        },
{
    let scl_pad = bus.scl();
    let sda_pad = bus.sda();
    let scl = Gpio::new(sideband, scl_pad.port, scl_pad.pad);
    let sda = Gpio::new(sideband, sda_pad.port, sda_pad.pad);
    i2c_session(scl, sda, timer, image, monitor, log)
}

/// Connects the retimer to the bus, does the work of [`i2c_access`], and
/// disconnects the retimer again.
///
/// A pad that cannot be resolved ends the work where it stands: pads driven
/// high by then stay high. Whether the pads resolve is for the sideband to
/// say; what follows from its answers is stated of [`raise_pad`],
/// [`i2c_session`] and [`lower_pad`].
pub fn i2c_enable<R: Register, S: Sideband<R>, D: Delay, M: Monitor>(
    sideband: &S,
    timer: Timer<D>,
    bus: I2CBus,
    image: Vec<u8>,
    monitor: &mut M,
    log: &mut BoardLog,
) -> (enabled: Result<(Session<R, D>, Gpio<R>), GpioNotFound>)
    ensures
        enabled matches Ok((session, rom_i2c_en)) ==> {
            &&& session.scl.pad() == bus.scl()
            &&& session.sda.pad() == bus.sda()
            &&& rom_i2c_en.pad() == rom_i2c_en_pad()
            &&& session.settled(image@, timer@.push(POWER_SETTLE_US))
            &&& pulsed(rom_i2c_en@)
            &&& logs_enabled(
                old(log)@,
                final(log)@,
                rom_i2c_en_pad(),
                rom_i2c_en@,
                session.record(Seq::empty(), Seq::empty(), timer@.push(POWER_SETTLE_US)),
            )
        },
        enabled matches Err(err) ==> if err == not_found(rom_i2c_en_pad()) {
            final(log)@ == old(log)@
        } else {
            &&& err == not_found(bus.scl()) || err == not_found(bus.sda())
            &&& logs_raise(old(log)@, final(log)@, rom_i2c_en_pad())
        },
{
    let ghost waited = timer@;
    let mut timer = timer;
    let rom_i2c_en = match raise(sideband, rom_i2c_en_pad(), &mut timer, log) {
        Ok(gpio) => gpio,
        Err(err) => {
            return Err(err);
        },
    };
    let ghost high = rom_i2c_en@;
    let ghost raised_log = log@;
    let inner = i2c_access(sideband, timer, bus, image, monitor, log);
    let ghost inner_log = log@;
    let enabled = lower_pad(rom_i2c_en, inner, log);
    proof {
        lemma_pads_apart(bus);
        lemma_logs_raise(old(log)@, raised_log, rom_i2c_en_pad(), high);
        if enabled is Ok {
            let low = enabled->Ok_0.1@;
            let record = enabled->Ok_0.0.record(
                Seq::empty(),
                Seq::empty(),
                waited.push(POWER_SETTLE_US),
            );
            assert(low.take(2) == high);
            assert(inner_log == raised_log + seq![Event::Bus(record)]);
        }
    }
    enabled
}

/// Forces the retimer's power on, does the work of [`i2c_enable`], and
/// lets the power go again.
///
/// A pad that cannot be resolved ends the work where it stands: pads driven
/// high by then stay high. Whether the pads resolve is for the sideband to
/// say; what follows from its answers is stated of [`raise_pad`],
/// [`i2c_session`] and [`lower_pad`].
pub fn force_power<R: Register, S: Sideband<R>, D: Delay, M: Monitor>(
    sideband: &S,
    timer: Timer<D>,
    bus: I2CBus,
    image: Vec<u8>,
    monitor: &mut M,
    log: &mut BoardLog,
) -> (powered: Result<(Session<R, D>, Gpio<R>, Gpio<R>), GpioNotFound>)
    ensures
        powered matches Ok((session, rom_i2c_en, force_power)) ==> {
            &&& session.scl.pad() == bus.scl()
            &&& session.sda.pad() == bus.sda()
            &&& rom_i2c_en.pad() == rom_i2c_en_pad()
            &&& force_power.pad() == force_power_pad()
            &&& session.settled(image@, timer@.push(POWER_SETTLE_US).push(POWER_SETTLE_US))
            &&& pulsed(rom_i2c_en@)
            &&& pulsed(force_power@)
            &&& logs_powered(
                old(log)@,
                final(log)@,
                force_power_pad(),
                force_power@,
                rom_i2c_en_pad(),
                rom_i2c_en@,
                session.record(
                    Seq::empty(),
                    Seq::empty(),
                    timer@.push(POWER_SETTLE_US).push(POWER_SETTLE_US),
                ),
            )
        },
        powered matches Err(err) ==> if err == not_found(force_power_pad()) {
            final(log)@ == old(log)@
        } else if err == not_found(rom_i2c_en_pad()) {
            logs_raise(old(log)@, final(log)@, force_power_pad())
        } else {
            &&& err == not_found(bus.scl()) || err == not_found(bus.sda())
            &&& logs_raise(old(log)@, final(log)@.take(old(log)@.len() as int + 3), force_power_pad())
            &&& logs_raise(final(log)@.take(old(log)@.len() as int + 3), final(log)@, rom_i2c_en_pad())
        },
{
    let ghost waited = timer@;
    let mut timer = timer;
    let force_power = match raise(sideband, force_power_pad(), &mut timer, log) {
        Ok(gpio) => gpio,
        Err(err) => {
            return Err(err);
        },
    };
    let ghost high = force_power@;
    let ghost raised_log = log@;
    let inner = i2c_enable(sideband, timer, bus, image, monitor, log);
    let ghost inner_log = log@;
    proof {
        lemma_pads_apart(bus);
        lemma_logs_raise(old(log)@, raised_log, force_power_pad(), high);
    }
    match lower_pad(force_power, inner, log) {
        Err(err) => {
            proof {
                if err != not_found(rom_i2c_en_pad()) {
                    assert(log@.take(old(log)@.len() as int + 3) == raised_log);
                }
            }
            Err(err)
        },
        Ok(((session, rom_i2c_en), force_power)) => {
            proof {
                let record = session.record(
                    Seq::empty(),
                    Seq::empty(),
                    waited.push(POWER_SETTLE_US).push(POWER_SETTLE_US),
                );
                assert(force_power@.take(2) == high);
                assert(inner_log == raised_log + raise_events(
                    rom_i2c_en_pad(),
                    rom_i2c_en@.take(2),
                ) + seq![Event::Bus(record)] + lower_events(rom_i2c_en_pad(), rom_i2c_en@));
            }
            Ok((session, rom_i2c_en, force_power))
        },
    }
}

} // verus!
