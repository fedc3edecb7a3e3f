//! The retimer's register and command protocol.
//!
//! Registers are four bytes wide and travel least significant byte first,
//! each access being one SMBus block transfer. A command is issued by
//! writing its opcode to the command register, and has completed when that
//! register no longer reads back the opcode.
//!
//! The retimer's view is the sequence of register accesses made to it, each
//! with what the device answered.

use crate::gpio::Register;
use crate::i2c::{lemma_block_read_acked, lemma_block_written_acked, Delay, I2CBitbang};
use crate::signal::{block_read_signals, block_write_signals, Signal};
use vstd::prelude::*;

verus! {

/// The command register.
pub const IECS_CMD: u8 = 8;

/// The command data register; holds the staging offset.
pub const IECS_DATA: u8 = 9;

/// The staging data register.
pub const MSG_OUT_RDATA: u8 = 18;

/// An opcode that the update has no use for.
pub const CMD_AFRR: u32 = 0x52524641;

/// Authenticate the staged image.
pub const CMD_AUTH: u32 = 0x48545541;

/// Write the staged block.
pub const CMD_BLKW: u32 = 0x574b4c42;

/// Begin an operation at the staging offset.
pub const CMD_BOPS: u32 = 0x53504f42;

/// Power cycle.
pub const CMD_PCYC: u32 = 0x43594350;

/// How often the command register is polled before a command is given up.
pub const COMMAND_RETRIES: u32 = 1000;

/// Which way a register transfer went.
#[derive(Clone, Copy, Debug, PartialEq, Eq, Structural)]
pub enum Direction {
    Read,
    Write,
}

/// Why a register access or a command failed.
#[derive(Clone, Copy, Debug, PartialEq, Eq, Structural)]
pub enum RetimerError {
    /// The transfer moved `count` bytes where a register has four.
    LengthMismatch { direction: Direction, count: usize },
    /// The command register reported `status`, which is neither the opcode
    /// nor zero.
    DeviceError { status: u32 },
    /// The command was still pending after the last poll.
    Timeout,
}

/// What one poll of the command register says of a pending command.
#[derive(Clone, Copy, Debug, PartialEq, Eq, Structural)]
pub enum Poll {
    /// The register still holds the opcode.
    Pending,
    /// The register holds zero: the command succeeded.
    Succeeded,
    /// The register holds this status: the command failed.
    Failed(u32),
}

/// One register access, with the device's part in it.
pub enum RegisterOp {
    /// A read of `reg`: the device acknowledged `acked` of the three header
    /// bytes and, if all three, sent `data`.
    Read { reg: u8, acked: nat, data: Seq<u8> },
    /// A write of `value` to `reg`: the device acknowledged `acked` of the
    /// seven bytes, three of header and four of data.
    Write { reg: u8, value: u32, acked: nat },
}

/// The four bytes of a register value, least significant first.
pub open spec fn word_bytes(value: u32) -> Seq<u8> {
    seq![value as u8, (value >> 8) as u8, (value >> 16) as u8, (value >> 24) as u8]
}

/// The register value that four bytes make, the first the least significant.
pub open spec fn word_of(bytes: Seq<u8>) -> u32 {
    bytes[0] as u32 | (bytes[1] as u32) << 8 | (bytes[2] as u32) << 16 | (bytes[3] as u32) << 24
}

/// What a read that returned `data` amounts to.
pub open spec fn read_outcome(data: Seq<u8>) -> Result<u32, RetimerError> {
    if data.len() == 4 {
        Ok(word_of(data))
    } else {
        Err(RetimerError::LengthMismatch { direction: Direction::Read, count: data.len() as usize })
    }
}

/// How many of the four data bytes were acknowledged in a write of which
/// `acked` bytes in all were.
pub open spec fn written(acked: nat) -> nat {
    if acked >= 3 {
        (acked - 3) as nat
    } else {
        0
    }
}

/// What a write of which `acked` bytes were acknowledged amounts to.
pub open spec fn write_outcome(acked: nat) -> Result<(), RetimerError> {
    if written(acked) == 4 {
        Ok(())
    } else {
        Err(
            RetimerError::LengthMismatch {
                direction: Direction::Write,
                count: written(acked) as usize,
            },
        )
    }
}

/// What a poll that read `status` says of the command `cmd`.
pub open spec fn spec_poll(cmd: u32, status: u32) -> Poll {
    if status == cmd {
        Poll::Pending
    } else if status == 0 {
        Poll::Succeeded
    } else {
        Poll::Failed(status)
    }
}

impl RegisterOp {
    /// The register accessed.
    pub open spec fn reg(self) -> u8 {
        match self {
            RegisterOp::Read { reg, .. } => reg,
            RegisterOp::Write { reg, .. } => reg,
        }
    }

    /// The device's part is one that the protocol allows.
    pub open spec fn valid(self) -> bool {
        match self {
            RegisterOp::Read { acked, data, .. } => {
                &&& acked <= 3
                &&& data.len() <= 255
                &&& acked < 3 ==> data.len() == 0
            },
            RegisterOp::Write { acked, .. } => acked <= 7,
        }
    }

    /// What the access does on the bus of the device at `address`.
    pub open spec fn signals(self, address: u8) -> Seq<Signal> {
        match self {
            RegisterOp::Read { reg, acked, data } => block_read_signals(address, reg, acked, data),
            RegisterOp::Write { reg, value, acked } => block_write_signals(
                address,
                reg,
                word_bytes(value),
                acked,
            ),
        }
    }

    /// What a read returned to its caller.
    pub open spec fn read_result(self) -> Result<u32, RetimerError> {
        read_outcome(self->data)
    }

    /// What a write returned to its caller.
    pub open spec fn write_result(self) -> Result<(), RetimerError> {
        write_outcome(self->Write_acked)
    }

    /// What this access, taken as a poll of the command `cmd`, decides:
    /// nothing while the command is pending, else the command's result.
    pub open spec fn decides(self, cmd: u32) -> Option<Result<(), RetimerError>> {
        match self.read_result() {
            Err(err) => Some(Err(err)),
            Ok(status) => match spec_poll(cmd, status) {
                Poll::Pending => None,
                Poll::Succeeded => Some(Ok(())),
                Poll::Failed(status) => Some(Err(RetimerError::DeviceError { status })),
            },
        }
    }
}

/// What the accesses `ops` do, one after the other, on the bus of the device
/// at `address`.
pub open spec fn ops_signals(address: u8, ops: Seq<RegisterOp>) -> Seq<Signal>
    decreases ops.len(),
{
    if ops.len() == 0 {
        Seq::empty()
    } else {
        ops_signals(address, ops.drop_last()) + ops.last().signals(address)
    }
}

/// `ops` is one run of the command `cmd`: the opcode is written to the
/// command register; if the write went through, the register is polled
/// until a poll decides, `COMMAND_RETRIES` times at most.
pub open spec fn command_run(cmd: u32, ops: Seq<RegisterOp>) -> bool {
    &&& ops.len() >= 1
    &&& ops[0] matches RegisterOp::Write { reg, value, .. }
    &&& reg == IECS_CMD
    &&& value == cmd
    &&& if ops[0].write_result() is Err {
        ops.len() == 1
    } else {
        &&& 2 <= ops.len() <= 1 + COMMAND_RETRIES
        &&& forall|i: int| 1 <= i < ops.len() ==> #[trigger] ops[i] is Read && ops[i].reg() == IECS_CMD
        &&& forall|i: int| 1 <= i < ops.len() - 1 ==> (#[trigger] ops[i]).decides(cmd) is None
        &&& ops.len() < 1 + COMMAND_RETRIES ==> ops.last().decides(cmd) is Some
    }
}

/// What the run `ops` of the command `cmd` returns: the failure of the
/// write; else what the last poll decided, or a timeout if it decided
/// nothing.
pub open spec fn command_result(cmd: u32, ops: Seq<RegisterOp>) -> Result<(), RetimerError> {
    match ops[0].write_result() {
        Err(err) => Err(err),
        Ok(()) => match ops.last().decides(cmd) {
            Some(result) => result,
            None => Err(RetimerError::Timeout),
        },
    }
}

/// The four bytes of `value`, least significant first.
pub fn encode_word(value: u32) -> (bytes: [u8; 4])
    ensures
        bytes@ == word_bytes(value),
{
    [
        #[verifier::truncate]
        (value as u8),
        #[verifier::truncate]
        ((value >> 8) as u8),
        #[verifier::truncate]
        ((value >> 16) as u8),
        #[verifier::truncate]
        ((value >> 24) as u8),
    ]
}

/// The register value in `bytes`, which must be exactly four, least
/// significant first.
pub fn decode_word(bytes: &[u8]) -> (value: Result<u32, RetimerError>)
    ensures
        value == read_outcome(bytes@),
{
    if bytes.len() == 4 {
        Ok(
            bytes[0] as u32 | (bytes[1] as u32) << 8 | (bytes[2] as u32) << 16 | (bytes[3] as u32)
                << 24,
        )
    } else {
        Err(RetimerError::LengthMismatch { direction: Direction::Read, count: bytes.len() })
    }
}

/// What a poll that read `status` says of the command `cmd`. An opcode of
/// zero can never be seen to succeed: zero is then the opcode still pending.
#[verifier::when_used_as_spec(spec_poll)]
pub fn poll(cmd: u32, status: u32) -> (verdict: Poll)
    ensures
        verdict == spec_poll(cmd, status),
{
    if status != cmd {
        if status == 0 {
            Poll::Succeeded
        } else {
            Poll::Failed(status)
        }
    } else {
        Poll::Pending
    }
}

/// A register value survives being taken apart into bytes and put together
/// again.
pub proof fn lemma_word_round_trip(value: u32)
    ensures
        word_bytes(value).len() == 4,
        word_of(word_bytes(value)) == value,
{
    assert(((value as u8) as u32 | (((value >> 8) as u8) as u32) << 8 | (((value >> 16) as u8) as u32)
        << 16 | (((value >> 24) as u8) as u32) << 24) == value) by (bit_vector);
}

/// The signals of two runs of accesses, one after the other, are those of
/// the first followed by those of the second.
pub proof fn lemma_ops_signals_concat(address: u8, first: Seq<RegisterOp>, second: Seq<RegisterOp>)
    ensures
        ops_signals(address, first + second) == ops_signals(address, first) + ops_signals(
            address,
            second,
        ),
    decreases second.len(),
{
    if second.len() == 0 {
        assert(first + second == first);
    } else {
        lemma_ops_signals_concat(address, first, second.drop_last());
        assert((first + second).drop_last() == first + second.drop_last());
        assert((first + second).last() == second.last());
    }
}

/// Whether `op` writes `opcode` to the command register: issues the command.
pub open spec fn issues(op: RegisterOp, opcode: u32) -> bool {
    op matches RegisterOp::Write { reg, value, .. } && reg == IECS_CMD && value == opcode
}

/// How often the command `opcode` is issued in `ops`.
pub open spec fn issued(ops: Seq<RegisterOp>, opcode: u32) -> nat
    decreases ops.len(),
{
    if ops.len() == 0 {
        0
    } else {
        issued(ops.drop_last(), opcode) + if issues(ops.last(), opcode) {
            1nat
        } else {
            0nat
        }
    }
}

/// The commands issued in two runs of accesses add up.
pub proof fn lemma_issued_concat(first: Seq<RegisterOp>, second: Seq<RegisterOp>, opcode: u32)
    ensures
        issued(first + second, opcode) == issued(first, opcode) + issued(second, opcode),
    decreases second.len(),
{
    if second.len() == 0 {
        assert(first + second == first);
    } else {
        lemma_issued_concat(first, second.drop_last(), opcode);
        assert((first + second).drop_last() == first + second.drop_last());
        assert((first + second).last() == second.last());
    }
}

/// Where no access issues the command, it is not issued.
pub proof fn lemma_issued_none(ops: Seq<RegisterOp>, opcode: u32)
    requires
        forall|i: int| 0 <= i < ops.len() ==> !issues(#[trigger] ops[i], opcode),
    ensures
        issued(ops, opcode) == 0,
    decreases ops.len(),
{
    if ops.len() > 0 {
        lemma_issued_none(ops.drop_last(), opcode);
    }
}

/// One run of a command issues that command once, whatever comes of it, and
/// no other.
pub proof fn lemma_issued_command(cmd: u32, ops: Seq<RegisterOp>, opcode: u32)
    requires
        command_run(cmd, ops),
    ensures
        issued(ops, opcode) == if opcode == cmd {
            1nat
        } else {
            0nat
        },
{
    let head = seq![ops[0]];
    let polls = ops.skip(1);
    assert(ops == head + polls);
    lemma_issued_concat(head, polls, opcode);
    assert(head.drop_last() == Seq::<RegisterOp>::empty());
    assert(issued(head.drop_last(), opcode) == 0);
    assert forall|i: int| 0 <= i < polls.len() implies !issues(#[trigger] polls[i], opcode) by {
        assert(polls[i] == ops[i + 1]);
        assert(ops[i + 1] is Read);
    }
    lemma_issued_none(polls, opcode);
}

/// A command whose register reads back the opcode at the first `echoes`
/// polls and something else, `status`, at the next is decided by that poll:
/// it succeeds if `status` is zero and fails with `status` otherwise, after
/// `echoes + 1` polls in all.
pub proof fn lemma_command_decided(cmd: u32, ops: Seq<RegisterOp>, echoes: nat, status: u32)
    requires
        command_run(cmd, ops),
        ops[0].write_result() is Ok,
        echoes < COMMAND_RETRIES,
        status != cmd,
        forall|i: int| 1 <= i <= echoes && i < ops.len() ==> (#[trigger] ops[i]).read_result() == Ok::<u32, RetimerError>(cmd),
        echoes + 1 < ops.len() ==> ops[echoes as int + 1].read_result() == Ok::<u32, RetimerError>(status),
    ensures
        ops.len() == echoes + 2,
        status == 0 ==> command_result(cmd, ops) == Ok::<(), RetimerError>(()),
        status != 0 ==> command_result(cmd, ops) == Err::<(), RetimerError>(
            RetimerError::DeviceError { status },
        ),
{
    if ops.len() <= echoes + 1 {
        let last = ops.len() - 1;
        assert(ops[last].read_result() == Ok::<u32, RetimerError>(cmd));
        assert(ops.last().decides(cmd) is None);
    }
    if ops.len() > echoes + 2 {
        assert(ops[echoes as int + 1].decides(cmd) is Some);
    }
}

/// A command whose register reads back the opcode at every poll times out,
/// after `COMMAND_RETRIES` polls.
pub proof fn lemma_command_times_out(cmd: u32, ops: Seq<RegisterOp>)
    requires
        command_run(cmd, ops),
        ops[0].write_result() is Ok,
        forall|i: int| 1 <= i < ops.len() ==> (#[trigger] ops[i]).read_result() == Ok::<u32, RetimerError>(cmd),
    ensures
        ops.len() == 1 + COMMAND_RETRIES,
        command_result(cmd, ops) == Err::<(), RetimerError>(RetimerError::Timeout),
{
    let last = ops.len() - 1;
    assert(ops[last].read_result() == Ok::<u32, RetimerError>(cmd));
    assert(ops.last().decides(cmd) is None);
}

/// The retimer at one address of an I2C bus.
pub struct Retimer<R: Register, D: Delay> {
    i2c: I2CBitbang<R, D>,
    address: u8,
    log: Ghost<Seq<RegisterOp>>,
}

impl<R: Register, D: Delay> View for Retimer<R, D> {
    type V = Seq<RegisterOp>;

    /// Every register access made, oldest first.
    closed spec fn view(&self) -> Seq<RegisterOp> {
        self.log@
    }
}

impl<R: Register, D: Delay> Retimer<R, D> {
    /// The bus the retimer is on.
    pub closed spec fn bus(&self) -> I2CBitbang<R, D> {
        self.i2c
    }

    /// The retimer's seven-bit address.
    pub closed spec fn address(&self) -> u8 {
        self.address
    }

    /// `self` is `before` after the accesses `ops` and nothing else: they
    /// are the new entries of the view, and the signals they stand for are
    /// what the bus has produced since.
    pub open spec fn performed(&self, before: &Self, ops: Seq<RegisterOp>) -> bool {
        &&& self@ == before@ + ops
        &&& forall|i: int| 0 <= i < ops.len() ==> (#[trigger] ops[i]).valid()
        &&& self.bus()@ == before.bus()@ + ops_signals(self.address(), ops)
        &&& self.address() == before.address()
        &&& self.bus().continues(&before.bus())
    }

    /// The retimer at `address` of the bus `i2c`. The bus is had back with
    /// [`into_bus`](Self::into_bus), and must be: its pads are restored only
    /// when it is released.
    pub fn new(i2c: I2CBitbang<R, D>, address: u8) -> (retimer: Self)
        ensures
            retimer@ == Seq::<RegisterOp>::empty(),
            retimer.bus() == i2c,
            retimer.address() == address,
    {
        Retimer { i2c, address, log: Ghost(Seq::empty()) }
    }

    /// Gives the bus back.
    pub fn into_bus(self) -> (i2c: I2CBitbang<R, D>)
        ensures
            i2c == self.bus(),
    {
        self.i2c
    }

    /// Reads the register `reg`. Succeeds only if the device sent exactly
    /// four bytes.
    pub fn read(&mut self, reg: u8) -> (value: Result<u32, RetimerError>)
        ensures
            final(self)@.len() == old(self)@.len() + 1,
            final(self).performed(old(self), seq![final(self)@.last()]),
            final(self)@.last() is Read,
            final(self)@.last().reg() == reg,
            value == final(self)@.last().read_result(),
    {
        let ghost before = self.i2c@;
        let bytes = self.i2c.smbus_block_read(self.address, reg);
        let ghost after = self.i2c@;
        let ghost address = self.address;
        let ghost mut acked: nat = 0;
        proof {
            acked = lemma_block_read_acked(before, after, address, reg, bytes@);
        }
        let ghost op = RegisterOp::Read { reg, acked, data: bytes@ };
        self.log = Ghost(self.log@.push(op));
        proof {
            assert(ops_signals(address, seq![op]) == ops_signals(address, seq![op].drop_last())
                + op.signals(address));
            assert(ops_signals(address, seq![op]) =~= op.signals(address));
            assert(self@ =~= old(self)@ + seq![op]);
        }
        decode_word(bytes.as_slice())
    }

    /// Writes `data` to the register `reg`. Succeeds only if the device
    /// acknowledged all four bytes.
    pub fn write(&mut self, reg: u8, data: u32) -> (done: Result<(), RetimerError>)
        ensures
            final(self)@.len() == old(self)@.len() + 1,
            final(self).performed(old(self), seq![final(self)@.last()]),
            final(self)@.last() matches RegisterOp::Write { reg: r, value, .. } && r == reg && value
                == data,
            done == final(self)@.last().write_result(),
    {
        let bytes = encode_word(data);
        let ghost before = self.i2c@;
        let count = self.i2c.smbus_block_write(self.address, reg, bytes.as_slice());
        let ghost after = self.i2c@;
        let ghost address = self.address;
        let ghost mut acked: nat = 0;
        proof {
            acked = lemma_block_written_acked(before, after, address, reg, bytes@, count as nat);
        }
        let ghost op = RegisterOp::Write { reg, value: data, acked };
        self.log = Ghost(self.log@.push(op));
        proof {
            assert(ops_signals(address, seq![op]) == ops_signals(address, seq![op].drop_last())
                + op.signals(address));
            assert(ops_signals(address, seq![op]) =~= op.signals(address));
            assert(self@ =~= old(self)@ + seq![op]);
        }
        if count == 4 {
            Ok(())
        } else {
            Err(RetimerError::LengthMismatch { direction: Direction::Write, count })
        }
    }

    /// Issues the command `cmd`: writes the opcode to the command register,
    /// then polls that register until it reads something other than the
    /// opcode, `COMMAND_RETRIES` times at most. Zero is success; any other
    /// value is the device's error status. A transfer of the wrong length ends
    /// the command at once.
    pub fn command(&mut self, cmd: u32) -> (done: Result<(), RetimerError>)
        ensures
            old(self)@.len() <= final(self)@.len(),
            final(self).performed(old(self), final(self)@.skip(old(self)@.len() as int)),
            command_run(cmd, final(self)@.skip(old(self)@.len() as int)),
            done == command_result(cmd, final(self)@.skip(old(self)@.len() as int)),
    {
        let ghost start = old(self)@.len() as int;
        let written = self.write(IECS_CMD, cmd);
        assert(self@.skip(start) == seq![self@.last()]);
        match written {
            Err(err) => {
                return Err(err);
            },
            Ok(()) => {},
        }
        let mut polls: u32 = 0;
        while polls < COMMAND_RETRIES
            invariant
                start == old(self)@.len(),
                polls <= COMMAND_RETRIES,
                self@.len() == start + 1 + polls,
                self.performed(old(self), self@.skip(start)),
                self@[start] matches RegisterOp::Write { reg, value, .. } && reg == IECS_CMD
                    && value == cmd,
                self@[start].write_result() is Ok,
                forall|i: int|
                    start < i < self@.len() ==> {
                        &&& #[trigger] self@[i] is Read
                        &&& self@[i].reg() == IECS_CMD
                        &&& self@[i].decides(cmd) is None
                    },
            decreases COMMAND_RETRIES - polls,
        {
            let ghost mid = *self;
            let status = self.read(IECS_CMD);
            proof {
                Self::lemma_performed_push(old(self), &mid, self, mid@.skip(start), self@.last());
                assert(self@.skip(start) == mid@.skip(start).push(self@.last()));
                assert(forall|i: int| start <= i < mid@.len() ==> self@[i] == mid@[i]);
            }
            match status {
                Err(err) => {
                    return Err(err);
                },
                Ok(status) => match poll(cmd, status) {
                    Poll::Pending => {},
                    Poll::Succeeded => {
                        return Ok(());
                    },
                    Poll::Failed(status) => {
                        return Err(RetimerError::DeviceError { status });
                    },
                },
            }
            polls += 1;
        }
        Err(RetimerError::Timeout)
    }

    /// No access leaves the retimer as it is.
    pub proof fn lemma_performed_none(retimer: &Self)
        ensures
            retimer.performed(retimer, Seq::empty()),
            retimer@.skip(retimer@.len() as int) == Seq::<RegisterOp>::empty(),
    {
        assert(ops_signals(retimer.address(), Seq::<RegisterOp>::empty()) == Seq::<Signal>::empty());
        assert(retimer.bus()@ + Seq::<Signal>::empty() == retimer.bus()@);
        assert(retimer@ + Seq::<RegisterOp>::empty() == retimer@);
    }

    /// Accesses made one run after the other add up.
    pub proof fn lemma_performed_concat(
        first: &Self,
        mid: &Self,
        last: &Self,
        ops: Seq<RegisterOp>,
        more: Seq<RegisterOp>,
    )
        requires
            mid.performed(first, ops),
            last.performed(mid, more),
        ensures
            last.performed(first, ops + more),
    {
        let address = last.address();
        lemma_ops_signals_concat(address, ops, more);
        assert(last@ =~= first@ + (ops + more));
        assert forall|i: int| 0 <= i < (ops + more).len() implies (#[trigger] (ops + more)[i]).valid() by {
            if i < ops.len() {
                assert(ops[i].valid());
            } else {
                assert(more[i - ops.len()].valid());
            }
        }
        assert(last.bus()@ =~= first.bus()@ + (ops_signals(address, ops) + ops_signals(
            address,
            more,
        )));
    }

    /// One more access after `ops` makes `ops.push(op)`.
    proof fn lemma_performed_push(
        first: &Self,
        mid: &Self,
        last: &Self,
        ops: Seq<RegisterOp>,
        op: RegisterOp,
    )
        requires
            mid.performed(first, ops),
            last.performed(mid, seq![op]),
        ensures
            last.performed(first, ops.push(op)),
    {
        Self::lemma_performed_concat(first, mid, last, ops, seq![op]);
        assert(ops + seq![op] == ops.push(op));
    }
}

} // verus!
