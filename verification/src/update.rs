//! The firmware update: a sequence of phases, each a handful of register
//! writes and commands, that pushes an image to the retimer 64 bytes at a
//! time and then has it authenticated and the device power cycled.
//!
//! An image may have any length. It goes out in words of four bytes; where
//! it ends within a word, the rest of that word is zero.
//!
//! The first failure ends the update. Nothing is retried and nothing is
//! rolled back: the device keeps whatever state the failing phase left.
//!
//! The updater's view is its journal: one [`Step`] for each phase gone
//! through, with the register accesses that the phase made.

use crate::gpio::Register;
use crate::i2c::Delay;
use crate::retimer::{
    command_result, command_run, issued, issues, lemma_issued_command, lemma_issued_concat,
    lemma_issued_none, word_of, RegisterOp, Retimer, RetimerError, CMD_AUTH, CMD_BLKW, CMD_BOPS,
    CMD_PCYC, IECS_DATA, MSG_OUT_RDATA,
};
use vstd::prelude::*;

verus! {

/// The size of a chunk, the part of the image that one write-block command
/// commits: 64 bytes, sixteen words.
pub const CHUNK_BYTES: usize = 64;

/// The register that holds the vendor identification.
pub const VENDOR_ID: u8 = 0;

/// The register that holds the device identification.
pub const DEVICE_ID: u8 = 1;

/// Where an update stands. A phase names the work that the next step does.
#[derive(Clone, Copy, Debug, PartialEq, Eq, Structural)]
pub enum Phase {
    /// Nothing has happened yet.
    Idle,
    /// The identification registers are read, for diagnostics only.
    Identified,
    /// The staging offset is set to zero and an operation is begun.
    OffsetReset,
    /// Chunk `chunk` of the image, counted from zero, is staged and written.
    Writing { chunk: usize },
    /// The written image is authenticated.
    Authenticating,
    /// The device is power cycled.
    PowerCycling,
    /// Every phase went through.
    Done,
    /// A phase failed; the update is over.
    Failed,
}

/// The phase that failed, and why.
#[derive(Clone, Copy, Debug, PartialEq, Eq, Structural)]
pub struct Failure {
    pub phase: Phase,
    pub error: RetimerError,
}

/// One phase gone through, with the register accesses it made.
pub struct Step {
    pub phase: Phase,
    pub ops: Seq<RegisterOp>,
}

/// How many chunks an image of `len` bytes has.
pub open spec fn chunk_count(len: nat) -> nat {
    (len + 63) / 64
}

/// How many bytes chunk `chunk` of an image of `len` bytes has: 64, but for
/// a last chunk that the image does not fill.
pub open spec fn chunk_len(len: nat, chunk: nat) -> nat {
    if len >= 64 * chunk + 64 {
        64
    } else {
        (len - 64 * chunk) as nat
    }
}

/// How many words chunk `chunk` of an image of `len` bytes has: four bytes
/// to a word, the last word of the image filled up if the image ends within
/// it.
pub open spec fn chunk_words(len: nat, chunk: nat) -> nat {
    (chunk_len(len, chunk) + 3) / 4
}

/// Byte `index` of the image. Past the end of the image it is zero: an
/// image that does not end on a word is filled up with zeros.
pub open spec fn image_byte(image: Seq<u8>, index: int) -> u8 {
    if 0 <= index < image.len() {
        image[index]
    } else {
        0
    }
}

/// Word `index` of the image: four bytes, least significant first.
pub open spec fn image_word(image: Seq<u8>, index: int) -> u32 {
    word_of(
        seq![
            image_byte(image, 4 * index),
            image_byte(image, 4 * index + 1),
            image_byte(image, 4 * index + 2),
            image_byte(image, 4 * index + 3),
        ],
    )
}

/// The phase of the step with index `i` in an update of an image of `len`
/// bytes, provided that all steps before it succeeded.
pub open spec fn nth_phase(len: nat, i: nat) -> Phase {
    let count = chunk_count(len);
    if i == 0 {
        Phase::Idle
    } else if i == 1 {
        Phase::Identified
    } else if i == 2 {
        Phase::OffsetReset
    } else if i < 3 + count {
        Phase::Writing { chunk: (i - 3) as usize }
    } else if i == 3 + count {
        Phase::Authenticating
    } else if i == 4 + count {
        Phase::PowerCycling
    } else {
        Phase::Done
    }
}

/// `ops` is what resetting the staging offset does: zero is written to the
/// command data register and, if that went through, the begin-operation
/// command is run.
pub open spec fn reset_run(ops: Seq<RegisterOp>) -> bool {
    &&& ops.len() >= 1
    &&& ops[0] matches RegisterOp::Write { reg, value, .. }
    &&& reg == IECS_DATA
    &&& value == 0
    &&& if ops[0].write_result() is Err {
        ops.len() == 1
    } else {
        command_run(CMD_BOPS, ops.skip(1))
    }
}

/// `ops` is what writing chunk `chunk` of `image` does: the words of the
/// chunk are written in order to the staging data register, up to the first
/// write that fails; if none fails, the write-block command is run.
pub open spec fn chunk_run(image: Seq<u8>, chunk: nat, ops: Seq<RegisterOp>) -> bool {
    let words = chunk_words(image.len(), chunk);
    let staged = if ops.len() <= words {
        ops.len()
    } else {
        words
    };
    &&& ops.len() >= 1
    &&& forall|i: int|
        0 <= i < staged ==> (#[trigger] ops[i] matches RegisterOp::Write { reg, value, .. } && reg
            == MSG_OUT_RDATA && value == image_word(image, 16 * chunk + i))
    &&& forall|i: int| 0 <= i < staged - 1 ==> (#[trigger] ops[i]).write_result() is Ok
    &&& if ops.len() <= words {
        ops.last().write_result() is Err
    } else {
        &&& ops[words - 1].write_result() is Ok
        &&& command_run(CMD_BLKW, ops.skip(words as int))
    }
}

/// `ops` is what a step in `phase` does in an update of `image`.
pub open spec fn step_run(image: Seq<u8>, phase: Phase, ops: Seq<RegisterOp>) -> bool {
    match phase {
        Phase::Idle => ops.len() == 0,
        Phase::Identified => {
            &&& ops.len() == 2
            &&& ops[0] is Read
            &&& ops[0].reg() == VENDOR_ID
            &&& ops[1] is Read
            &&& ops[1].reg() == DEVICE_ID
        },
        Phase::OffsetReset => reset_run(ops),
        Phase::Writing { chunk } => chunk_run(image, chunk as nat, ops),
        Phase::Authenticating => command_run(CMD_AUTH, ops),
        Phase::PowerCycling => command_run(CMD_PCYC, ops),
        Phase::Done => ops.len() == 0,
        Phase::Failed => ops.len() == 0,
    }
}

/// How the step in `phase` that made the accesses `ops` ended. What the
/// identification registers read gates nothing.
pub open spec fn step_result(image: Seq<u8>, phase: Phase, ops: Seq<RegisterOp>) -> Result<
    (),
    RetimerError,
> {
    match phase {
        Phase::OffsetReset => match ops[0].write_result() {
            Err(err) => Err(err),
            Ok(()) => command_result(CMD_BOPS, ops.skip(1)),
        },
        Phase::Writing { chunk } => {
            let words = chunk_words(image.len(), chunk as nat);
            if ops.len() <= words {
                ops.last().write_result()
            } else {
                command_result(CMD_BLKW, ops.skip(words as int))
            }
        },
        Phase::Authenticating => command_result(CMD_AUTH, ops),
        Phase::PowerCycling => command_result(CMD_PCYC, ops),
        _ => Ok(()),
    }
}

impl Step {
    /// How the step ended.
    pub open spec fn result(self, image: Seq<u8>) -> Result<(), RetimerError> {
        step_result(image, self.phase, self.ops)
    }
}

/// `journal` is the journal of an update of `image`, finished or not: the
/// phases follow each other in their order, each step is what its phase
/// does, and no step follows one that failed.
pub open spec fn journal_ok(image: Seq<u8>, journal: Seq<Step>) -> bool {
    &&& journal.len() <= 5 + chunk_count(image.len())
    &&& forall|i: int|
        0 <= i < journal.len() ==> {
            &&& (#[trigger] journal[i]).phase == nth_phase(image.len(), i as nat)
            &&& step_run(image, journal[i].phase, journal[i].ops)
        }
    &&& forall|i: int| 0 <= i < journal.len() - 1 ==> (#[trigger] journal[i]).result(image) is Ok
}

/// Where the update with this journal stands.
pub open spec fn journal_phase(image: Seq<u8>, journal: Seq<Step>) -> Phase {
    if journal.len() > 0 && journal.last().result(image) is Err {
        Phase::Failed
    } else {
        nth_phase(image.len(), journal.len())
    }
}

/// The failure that ended the update with this journal, if one did.
pub open spec fn journal_failure(image: Seq<u8>, journal: Seq<Step>) -> Option<Failure> {
    if journal.len() > 0 && journal.last().result(image) is Err {
        Some(Failure { phase: journal.last().phase, error: journal.last().result(image)->Err_0 })
    } else {
        None
    }
}

/// What the update with this journal returns once it is over.
pub open spec fn journal_result(image: Seq<u8>, journal: Seq<Step>) -> Result<(), Failure> {
    match journal_failure(image, journal) {
        Some(failure) => Err(failure),
        None => Ok(()),
    }
}

/// What the identification register read by access `index` of the second
/// step held, if the update has come that far and the read succeeded.
pub open spec fn journal_identity(journal: Seq<Step>, index: int) -> Option<u32> {
    if journal.len() >= 2 {
        match journal[1].ops[index].read_result() {
            Ok(value) => Some(value),
            Err(_) => None,
        }
    } else {
        None
    }
}

/// All register accesses of the journal, in order.
pub open spec fn journal_ops(journal: Seq<Step>) -> Seq<RegisterOp>
    decreases journal.len(),
{
    if journal.len() == 0 {
        Seq::empty()
    } else {
        journal_ops(journal.drop_last()) + journal.last().ops
    }
}

/// How often a step in `phase` issues the command `opcode` if it goes
/// through: each phase but the first two issues one command, once.
pub open spec fn issued_by(phase: Phase, opcode: u32) -> nat {
    let command = match phase {
        Phase::OffsetReset => Some(CMD_BOPS),
        Phase::Writing { .. } => Some(CMD_BLKW),
        Phase::Authenticating => Some(CMD_AUTH),
        Phase::PowerCycling => Some(CMD_PCYC),
        _ => None,
    };
    if command == Some(opcode) {
        1
    } else {
        0
    }
}

/// How often the first `steps` steps of an update of an image of `len`
/// bytes issue the command `opcode` if they all go through.
pub open spec fn issued_in(len: nat, steps: nat, opcode: u32) -> nat {
    let count = chunk_count(len);
    let blocks: nat = if steps <= 3 {
        0
    } else if steps <= 3 + count {
        (steps - 3) as nat
    } else {
        count
    };
    (if opcode == CMD_BOPS && steps >= 3 {
        1nat
    } else {
        0nat
    }) + (if opcode == CMD_BLKW {
        blocks
    } else {
        0nat
    }) + (if opcode == CMD_AUTH && steps >= 4 + count {
        1nat
    } else {
        0nat
    }) + (if opcode == CMD_PCYC && steps >= 5 + count {
        1nat
    } else {
        0nat
    })
}

/// A step issues the command of its phase once if it goes through, once at
/// most if it fails, and no other command.
pub proof fn lemma_issued_step(image: Seq<u8>, phase: Phase, ops: Seq<RegisterOp>, opcode: u32)
    requires
        step_run(image, phase, ops),
        phase matches Phase::Writing { chunk } ==> chunk < chunk_count(image.len()),
    ensures
        issued(ops, opcode) <= issued_by(phase, opcode),
        step_result(image, phase, ops) is Ok ==> issued(ops, opcode) == issued_by(phase, opcode),
{
    match phase {
        Phase::OffsetReset => {
            let head = seq![ops[0]];
            let run = ops.skip(1);
            assert(ops == head + run);
            lemma_issued_concat(head, run, opcode);
            assert(!issues(head[0], opcode));
            lemma_issued_none(head, opcode);
            if ops[0].write_result() is Err {
                lemma_issued_none(run, opcode);
            } else {
                lemma_issued_command(CMD_BOPS, run, opcode);
            }
        },
        Phase::Writing { chunk } => {
            let words = chunk_words(image.len(), chunk as nat);
            if ops.len() <= words {
                assert forall|i: int| 0 <= i < ops.len() implies !issues(#[trigger] ops[i], opcode) by {
                    assert(ops[i] matches RegisterOp::Write { reg, .. } && reg == MSG_OUT_RDATA);
                }
                lemma_issued_none(ops, opcode);
            } else {
                let staged = ops.take(words as int);
                let run = ops.skip(words as int);
                assert(ops == staged + run);
                lemma_issued_concat(staged, run, opcode);
                assert forall|i: int| 0 <= i < staged.len() implies !issues(
                    #[trigger] staged[i],
                    opcode,
                ) by {
                    assert(staged[i] == ops[i]);
                    assert(ops[i] matches RegisterOp::Write { reg, .. } && reg == MSG_OUT_RDATA);
                }
                lemma_issued_none(staged, opcode);
                lemma_issued_command(CMD_BLKW, run, opcode);
            }
        },
        Phase::Authenticating => {
            lemma_issued_command(CMD_AUTH, ops, opcode);
        },
        Phase::PowerCycling => {
            lemma_issued_command(CMD_PCYC, ops, opcode);
        },
        _ => {
            assert forall|i: int| 0 <= i < ops.len() implies !issues(#[trigger] ops[i], opcode) by {
                assert(ops[i] is Read);
            }
            lemma_issued_none(ops, opcode);
        },
    }
}

/// The commands issued over a journal: what its steps issue when they go
/// through, but for a last step that failed, which may have failed before
/// it issued its command.
pub proof fn lemma_issued_journal(image: Seq<u8>, journal: Seq<Step>, opcode: u32)
    requires
        journal_ok(image, journal),
    ensures
        journal_failure(image, journal) is None ==> issued(journal_ops(journal), opcode)
            == issued_in(image.len(), journal.len(), opcode),
        journal_failure(image, journal) is Some ==> issued_in(
            image.len(),
            (journal.len() - 1) as nat,
            opcode,
        ) <= issued(journal_ops(journal), opcode) <= issued_in(image.len(), journal.len(), opcode),
    decreases journal.len(),
{
    if journal.len() > 0 {
        let earlier = journal.drop_last();
        let last = journal.last();
        assert(journal_ok(image, earlier)) by {
            assert forall|i: int| 0 <= i < earlier.len() implies {
                &&& (#[trigger] earlier[i]).phase == nth_phase(image.len(), i as nat)
                &&& step_run(image, earlier[i].phase, earlier[i].ops)
            } by {
                assert(earlier[i] == journal[i]);
            }
            assert forall|i: int| 0 <= i < earlier.len() - 1 implies (#[trigger] earlier[i]).result(
                image,
            ) is Ok by {
                assert(earlier[i] == journal[i]);
            }
        }
        if earlier.len() > 0 {
            assert(earlier.last() == journal[journal.len() - 2]);
            assert(earlier.last().result(image) is Ok);
        }
        lemma_issued_journal(image, earlier, opcode);
        lemma_issued_concat(journal_ops(earlier), last.ops, opcode);
        assert(last == journal[journal.len() - 1]);
        lemma_issued_step(image, last.phase, last.ops, opcode);
        assert(issued_in(image.len(), journal.len(), opcode) == issued_in(
            image.len(),
            earlier.len(),
            opcode,
        ) + issued_by(last.phase, opcode));
    }
}

/// An update that is done took one step for each phase and each chunk, and
/// issued one begin-operation command, one write-block command for each
/// chunk, one authenticate command and one power-cycle command.
pub proof fn lemma_update_done(image: Seq<u8>, journal: Seq<Step>)
    requires
        journal_ok(image, journal),
        journal_phase(image, journal) is Done,
    ensures
        journal.len() == 5 + chunk_count(image.len()),
        issued(journal_ops(journal), CMD_BOPS) == 1,
        issued(journal_ops(journal), CMD_BLKW) == chunk_count(image.len()),
        issued(journal_ops(journal), CMD_AUTH) == 1,
        issued(journal_ops(journal), CMD_PCYC) == 1,
{
    lemma_issued_journal(image, journal, CMD_BOPS);
    lemma_issued_journal(image, journal, CMD_BLKW);
    lemma_issued_journal(image, journal, CMD_AUTH);
    lemma_issued_journal(image, journal, CMD_PCYC);
}

/// An update that failed while writing chunk `chunk` had begun the
/// operation and written the chunks before it, issued the write-block
/// command for `chunk` once at most, and issued neither the authenticate
/// nor the power-cycle command.
pub proof fn lemma_update_failed_writing(image: Seq<u8>, journal: Seq<Step>, chunk: usize)
    requires
        journal_ok(image, journal),
        image.len() <= usize::MAX,
        journal_failure(image, journal) matches Some(failure) && failure.phase == (Phase::Writing {
            chunk,
        }),
    ensures
        journal.len() == 4 + chunk,
        chunk < chunk_count(image.len()),
        issued(journal_ops(journal), CMD_BOPS) == 1,
        chunk <= issued(journal_ops(journal), CMD_BLKW) <= chunk + 1,
        issued(journal_ops(journal), CMD_AUTH) == 0,
        issued(journal_ops(journal), CMD_PCYC) == 0,
{
    assert(journal.last() == journal[journal.len() - 1]);
    lemma_issued_journal(image, journal, CMD_BOPS);
    lemma_issued_journal(image, journal, CMD_BLKW);
    lemma_issued_journal(image, journal, CMD_AUTH);
    lemma_issued_journal(image, journal, CMD_PCYC);
}

/// The chunks of an image of `len` bytes, whatever `len` is: as many as 64
/// goes into `len`, rounded up; each of 64 bytes, but for the last, which
/// holds what is left over if 64 does not divide `len`; each staged in as
/// many words as hold its bytes.
pub proof fn lemma_chunks(len: nat)
    ensures
        64 * chunk_count(len) >= len,
        len > 0 ==> 64 * (chunk_count(len) - 1) < len,
        forall|chunk: nat|
            chunk + 1 < chunk_count(len) ==> #[trigger] chunk_len(len, chunk) == 64,
        len > 0 ==> chunk_len(len, (chunk_count(len) - 1) as nat) == if len % 64 == 0 {
            64
        } else {
            len % 64
        },
        forall|chunk: nat|
            chunk < chunk_count(len) ==> {
                &&& 1 <= #[trigger] chunk_words(len, chunk) <= 16
                &&& chunk_len(len, chunk) <= 4 * chunk_words(len, chunk) < chunk_len(len, chunk) + 4
            },
{
}

/// How many bytes of an image of `len` bytes are written and committed when
/// the update has come to `phase`.
pub open spec fn committed(len: nat, phase: Phase) -> nat {
    match phase {
        Phase::Writing { chunk } => 64 * (chunk as nat),
        Phase::Authenticating | Phase::PowerCycling | Phase::Done => len,
        _ => 0,
    }
}

/// Someone who follows the update, to tell the user how far it has come.
pub trait Monitor {
    /// Called after each step, with the updater as the step left it.
    fn report(&mut self, updater: &FirmwareUpdater);
}

/// The update of one image.
pub struct FirmwareUpdater {
    image: Vec<u8>,
    phase: Phase,
    failure: Option<Failure>,
    vendor: Option<u32>,
    device: Option<u32>,
    journal: Ghost<Seq<Step>>,
    reports: Ghost<nat>,
}

impl View for FirmwareUpdater {
    type V = Seq<Step>;

    /// The journal: the steps taken so far.
    closed spec fn view(&self) -> Seq<Step> {
        self.journal@
    }
}

impl FirmwareUpdater {
    /// The image being written.
    pub closed spec fn image(&self) -> Seq<u8> {
        self.image@
    }

    /// How often the update was reported to a monitor.
    pub closed spec fn reports(&self) -> nat {
        self.reports@
    }

    /// The state is the one that the journal leads to.
    pub closed spec fn coherent(&self) -> bool {
        &&& self.phase == journal_phase(self.image@, self@)
        &&& self.failure == journal_failure(self.image@, self@)
        &&& self.vendor == journal_identity(self@, 0)
        &&& self.device == journal_identity(self@, 1)
    }

    /// The journal is that of an update of the image, and the state is the
    /// one that the journal leads to.
    pub open spec fn wf(&self) -> bool {
        &&& self.image().len() <= usize::MAX
        &&& journal_ok(self.image(), self@)
        &&& self.coherent()
    }

    /// An update of `image`, not yet begun. The image may have any length:
    /// it goes out in words of four bytes, and if it ends within a word, the
    /// word is filled up with zeros.
    pub fn new(image: Vec<u8>) -> (updater: Self)
        ensures
            updater.wf(),
            updater.image() == image@,
            updater@ == Seq::<Step>::empty(),
            updater.reports() == 0,
    {
        assert(image@.len() == image.len());
        FirmwareUpdater {
            image,
            phase: Phase::Idle,
            failure: None,
            vendor: None,
            device: None,
            journal: Ghost(Seq::empty()),
            reports: Ghost(0),
        }
    }

    /// Where the update stands.
    pub fn phase(&self) -> (phase: Phase)
        ensures
            self.wf() ==> phase == journal_phase(self.image(), self@),
    {
        self.phase
    }

    /// The failure that ended the update, if one did.
    pub fn failure(&self) -> (failure: Option<Failure>)
        ensures
            self.wf() ==> failure == journal_failure(self.image(), self@),
    {
        self.failure
    }

    /// What the vendor identification register held, once it has been read
    /// successfully.
    pub fn vendor(&self) -> (vendor: Option<u32>)
        ensures
            self.wf() ==> vendor == journal_identity(self@, 0),
    {
        self.vendor
    }

    /// What the device identification register held, once it has been read
    /// successfully.
    pub fn device(&self) -> (device: Option<u32>)
        ensures
            self.wf() ==> device == journal_identity(self@, 1),
    {
        self.device
    }

    /// How many bytes of the image are written and committed: those of the
    /// chunks before the one at hand. After a failure, those that were
    /// committed when the failing phase began.
    pub fn written(&self) -> (bytes: usize)
        ensures
            self.wf() ==> bytes == committed(
                self.image().len(),
                match journal_failure(self.image(), self@) {
                    Some(failure) => failure.phase,
                    None => journal_phase(self.image(), self@),
                },
            ),
    {
        let phase = match self.failure {
            Some(failure) => failure.phase,
            None => self.phase,
        };
        proof {
            if self.wf() && self@.len() > 0 {
                assert(self@.last() == self@[self@.len() - 1]);
            }
        }
        match phase {
            Phase::Writing { chunk } => {
                if chunk <= self.image.len() / CHUNK_BYTES {
                    CHUNK_BYTES * chunk
                } else {
                    0
                }
            },
            Phase::Authenticating | Phase::PowerCycling | Phase::Done => self.image.len(),
            _ => 0,
        }
    }

    /// How many bytes the image has.
    pub fn total(&self) -> (bytes: usize)
        ensures
            bytes == self.image().len(),
    {
        self.image.len()
    }

    /// Closes the step of the current phase: enters it in the journal and
    /// moves on, to the next phase or to `Failed`.
    fn advance(
        &mut self,
        Ghost(ops): Ghost<Seq<RegisterOp>>,
        result: Result<(), RetimerError>,
        vendor: Option<u32>,
        device: Option<u32>,
    )
        requires
            old(self).wf(),
            !(journal_phase(old(self).image(), old(self)@) is Done),
            !(journal_phase(old(self).image(), old(self)@) is Failed),
            step_run(old(self).image(), journal_phase(old(self).image(), old(self)@), ops),
            result == step_result(
                old(self).image(),
                journal_phase(old(self).image(), old(self)@),
                ops,
            ),
            vendor == journal_identity(
                old(self)@.push(
                    Step { phase: journal_phase(old(self).image(), old(self)@), ops },
                ),
                0,
            ),
            device == journal_identity(
                old(self)@.push(
                    Step { phase: journal_phase(old(self).image(), old(self)@), ops },
                ),
                1,
            ),
        ensures
            final(self).wf(),
            final(self).image() == old(self).image(),
            final(self).reports() == old(self).reports(),
            final(self)@ == old(self)@.push(
                Step { phase: journal_phase(old(self).image(), old(self)@), ops },
            ),
    {
        let ghost step = Step { phase: self.phase, ops };
        let ghost before = self@;
        let len = self.image.len();
        let next = match self.phase {
            Phase::Idle => Phase::Identified,
            Phase::Identified => Phase::OffsetReset,
            Phase::OffsetReset => if len > 0 {
                Phase::Writing { chunk: 0 }
            } else {
                Phase::Authenticating
            },
            Phase::Writing { chunk } => if len - CHUNK_BYTES * chunk > CHUNK_BYTES {
                Phase::Writing { chunk: chunk + 1 }
            } else {
                Phase::Authenticating
            },
            Phase::Authenticating => Phase::PowerCycling,
            Phase::PowerCycling => Phase::Done,
            Phase::Done => Phase::Done,
            Phase::Failed => Phase::Failed,
        };
        assert(next == nth_phase(len as nat, before.len() + 1));
        match result {
            Ok(()) => {
                self.phase = next;
            },
            Err(error) => {
                self.failure = Some(Failure { phase: self.phase, error });
                self.phase = Phase::Failed;
            },
        }
        self.vendor = vendor;
        self.device = device;
        self.journal = Ghost(before.push(step));
        proof {
            assert(self@.drop_last() == before);
            assert forall|i: int| 0 <= i < self@.len() - 1 implies (#[trigger] self@[i]).result(
                self.image@,
            ) is Ok by {
                assert(self@[i] == before[i]);
                if i == before.len() - 1 {
                    assert(before.last().result(self.image@) is Ok);
                }
            }
        }
    }

    /// Does the work of the current phase on `retimer` and moves on: to the
    /// next phase if the work succeeded, to `Failed` if it did not. An update
    /// that is `Done` or `Failed` stays as it is, and the retimer is not
    /// touched.
    pub fn step<R: Register, D: Delay>(&mut self, retimer: &mut Retimer<R, D>)
        requires
            old(self).wf(),
        ensures
            final(self).wf(),
            final(self).image() == old(self).image(),
            final(self).reports() == old(self).reports(),
            old(retimer)@.len() <= final(retimer)@.len(),
            final(retimer).performed(old(retimer), final(retimer)@.skip(old(retimer)@.len() as int)),
            if journal_phase(old(self).image(), old(self)@) is Done || journal_phase(
                old(self).image(),
                old(self)@,
            ) is Failed {
                &&& final(self)@ == old(self)@
                &&& final(retimer)@ == old(retimer)@
            } else {
                final(self)@ == old(self)@.push(
                    Step {
                        phase: journal_phase(old(self).image(), old(self)@),
                        ops: final(retimer)@.skip(old(retimer)@.len() as int),
                    },
                )
            },
    {
        let ghost start = old(retimer)@.len() as int;
        let ghost first = *old(retimer);
        proof {
            Retimer::lemma_performed_none(retimer);
        }
        match self.phase {
            Phase::Idle => {
                self.advance(Ghost(Seq::empty()), Ok(()), self.vendor, self.device);
            },
            Phase::Identified => {
                let vendor = retimer.read(VENDOR_ID);
                let ghost mid = *retimer;
                let device = retimer.read(DEVICE_ID);
                proof {
                    Retimer::lemma_performed_concat(
                        &first,
                        &mid,
                        retimer,
                        seq![mid@.last()],
                        seq![retimer@.last()],
                    );
                    assert(retimer@.skip(start) == seq![mid@.last()] + seq![retimer@.last()]);
                }
                self.advance(
                    Ghost(retimer@.skip(start)),
                    Ok(()),
                    match vendor {
                        Ok(value) => Some(value),
                        Err(_) => None,
                    },
                    match device {
                        Ok(value) => Some(value),
                        Err(_) => None,
                    },
                );
            },
            Phase::OffsetReset => {
                let reset = retimer.write(IECS_DATA, 0);
                let ghost mid = *retimer;
                assert(retimer@.skip(start) == seq![mid@.last()]);
                let result = match reset {
                    Err(err) => Err(err),
                    Ok(()) => {
                        let begun = retimer.command(CMD_BOPS);
                        proof {
                            let run = retimer@.skip(mid@.len() as int);
                            Retimer::lemma_performed_concat(
                                &first,
                                &mid,
                                retimer,
                                seq![mid@.last()],
                                run,
                            );
                            assert(retimer@.skip(start) == seq![mid@.last()] + run);
                            assert(retimer@.skip(start).skip(1) == run);
                        }
                        begun
                    },
                };
                self.advance(Ghost(retimer@.skip(start)), result, self.vendor, self.device);
            },
            Phase::Writing { chunk } => {
                let result = self.write_chunk(retimer, chunk);
                self.advance(Ghost(retimer@.skip(start)), result, self.vendor, self.device);
            },
            Phase::Authenticating => {
                let result = retimer.command(CMD_AUTH);
                self.advance(Ghost(retimer@.skip(start)), result, self.vendor, self.device);
            },
            Phase::PowerCycling => {
                let result = retimer.command(CMD_PCYC);
                self.advance(Ghost(retimer@.skip(start)), result, self.vendor, self.device);
            },
            Phase::Done => {},
            Phase::Failed => {},
        }
    }

    /// The byte of the image that stands `offset` after the byte `at`; zero
    /// past the end of the image.
    fn byte_at(&self, at: usize, offset: usize) -> (byte: u8)
        requires
            at < self.image().len(),
        ensures
            byte == image_byte(self.image(), at + offset),
    {
        if offset < self.image.len() - at {
            self.image[at + offset]
        } else {
            0
        }
    }

    /// Stages the words of chunk `chunk` and has the block written.
    #[verifier::rlimit(50)]
    fn write_chunk<R: Register, D: Delay>(&self, retimer: &mut Retimer<R, D>, chunk: usize) -> (result:
        Result<(), RetimerError>)
        requires
            self.wf(),
            journal_phase(self.image(), self@) == (Phase::Writing { chunk }),
        ensures
            old(retimer)@.len() <= final(retimer)@.len(),
            final(retimer).performed(old(retimer), final(retimer)@.skip(old(retimer)@.len() as int)),
            chunk_run(self.image(), chunk as nat, final(retimer)@.skip(old(retimer)@.len() as int)),
            result == step_result(
                self.image(),
                Phase::Writing { chunk },
                final(retimer)@.skip(old(retimer)@.len() as int),
            ),
    {
        let ghost start = old(retimer)@.len() as int;
        let ghost first = *old(retimer);
        let ghost image = self.image@;
        let len = self.image.len();
        assert(self@.len() == 3 + chunk && chunk < chunk_count(len as nat));
        let base = CHUNK_BYTES * chunk;
        let bytes = if len - base > CHUNK_BYTES {
            CHUNK_BYTES
        } else {
            len - base
        };
        let words = (bytes + 3) / 4;
        assert(words == chunk_words(len as nat, chunk as nat));
        assert(1 <= words <= 16);
        proof {
            Retimer::lemma_performed_none(retimer);
        }
        let mut word: usize = 0;
        while word < words
            invariant
                word <= words,
                1 <= words <= 16,
                words == chunk_words(len as nat, chunk as nat),
                words == (bytes + 3) / 4,
                base == 64 * chunk,
                1 <= bytes <= 64,
                base + bytes <= len,
                len == self.image@.len(),
                image == self.image@,
                start == old(retimer)@.len(),
                first == *old(retimer),
                retimer@.len() == start + word,
                retimer.performed(&first, retimer@.skip(start)),
                forall|j: int|
                    start <= j < start + word ==> (#[trigger] retimer@[j] matches RegisterOp::Write {
                        reg,
                        value,
                        ..
                    } && reg == MSG_OUT_RDATA && value == image_word(image, 16 * chunk + (j - start))
                        && retimer@[j].write_result() is Ok),
            decreases words - word,
        {
            let at = base + 4 * word;
            let data = self.byte_at(at, 0) as u32 | (self.byte_at(at, 1) as u32) << 8 | (self.byte_at(
                at,
                2,
            ) as u32) << 16 | (self.byte_at(at, 3) as u32) << 24;
            proof {
                let quad = seq![
                    image_byte(image, 4 * (16 * chunk + word)),
                    image_byte(image, 4 * (16 * chunk + word) + 1),
                    image_byte(image, 4 * (16 * chunk + word) + 2),
                    image_byte(image, 4 * (16 * chunk + word) + 3),
                ];
                assert(quad[0] == image_byte(image, at as int));
                assert(quad[1] == image_byte(image, at + 1));
                assert(quad[2] == image_byte(image, at + 2));
                assert(quad[3] == image_byte(image, at + 3));
                assert(data == image_word(image, 16 * chunk + word));
            }
            let ghost mid = *retimer;
            let staged = retimer.write(MSG_OUT_RDATA, data);
            proof {
                Retimer::lemma_performed_concat(
                    &first,
                    &mid,
                    retimer,
                    mid@.skip(start),
                    seq![retimer@.last()],
                );
                assert(retimer@.skip(start) == mid@.skip(start) + seq![retimer@.last()]);
                assert(forall|j: int| start <= j < start + word ==> retimer@[j] == mid@[j]);
            }
            match staged {
                Err(err) => {
                    proof {
                        let ops = retimer@.skip(start);
                        assert(forall|i: int|
                            0 <= i < ops.len() ==> #[trigger] ops[i] == retimer@[start + i]);
                    }
                    return Err(err);
                },
                Ok(()) => {},
            }
            word += 1;
        }
        let ghost mid = *retimer;
        let result = retimer.command(CMD_BLKW);
        proof {
            let staged = mid@.skip(start);
            let run = retimer@.skip(mid@.len() as int);
            let ops = retimer@.skip(start);
            Retimer::lemma_performed_concat(&first, &mid, retimer, staged, run);
            assert(ops == staged + run);
            assert(ops.skip(words as int) == run);
            assert(forall|i: int| 0 <= i < words ==> #[trigger] ops[i] == mid@[start + i]);
        }
        result
    }

    /// Whether the update is over: `Done` or `Failed`.
    pub fn is_over(&self) -> (over: bool)
        ensures
            self.wf() ==> over == (journal_phase(self.image(), self@) is Done || journal_phase(
                self.image(),
                self@,
            ) is Failed),
    {
        match self.phase {
            Phase::Done => true,
            Phase::Failed => true,
            _ => false,
        }
    }

    /// Takes step after step until the update is over, reports to `monitor`
    /// after each, and returns how the update ended.
    pub fn run<R: Register, D: Delay, M: Monitor>(
        &mut self,
        retimer: &mut Retimer<R, D>,
        monitor: &mut M,
    ) -> (result: Result<(), Failure>)
        requires
            old(self).wf(),
        ensures
            final(self).wf(),
            final(self).image() == old(self).image(),
            journal_phase(final(self).image(), final(self)@) is Done || journal_phase(
                final(self).image(),
                final(self)@,
            ) is Failed,
            old(self)@.is_prefix_of(final(self)@),
            final(self).reports() == old(self).reports() + final(self)@.len() - old(self)@.len(),
            final(retimer).performed(
                old(retimer),
                journal_ops(final(self)@.skip(old(self)@.len() as int)),
            ),
            result == journal_result(final(self).image(), final(self)@),
    {
        let ghost begun = old(self)@.len() as int;
        let ghost first = *old(retimer);
        proof {
            assert(self@.skip(begun) == Seq::<Step>::empty());
            Retimer::lemma_performed_none(retimer);
        }
        while !self.is_over()
            invariant
                self.wf(),
                self.image() == old(self).image(),
                begun == old(self)@.len(),
                old(self)@.is_prefix_of(self@),
                self.reports() == old(self).reports() + self@.len() - begun,
                retimer.performed(&first, journal_ops(self@.skip(begun))),
            decreases 5 + chunk_count(self.image().len()) - self@.len(),
        {
            let ghost mid = *retimer;
            let ghost journal = self@;
            self.step(retimer);
            proof {
                let ops = retimer@.skip(mid@.len() as int);
                Retimer::lemma_performed_concat(
                    &first,
                    &mid,
                    retimer,
                    journal_ops(journal.skip(begun)),
                    ops,
                );
                assert(self@.skip(begun).drop_last() == journal.skip(begun));
                assert(self@.skip(begun).last().ops == ops);
            }
            monitor.report(self);
            self.reports = Ghost(self.reports@ + 1);
        }
        match self.failure {
            Some(failure) => Err(failure),
            None => Ok(()),
        }
    }
}

/// `after` is `before` after a whole update of `image` that returned
/// `result`: the retimer has seen the accesses of some journal of such an
/// update, one that is over.
pub open spec fn flashed<R: Register, D: Delay>(
    before: &Retimer<R, D>,
    after: &Retimer<R, D>,
    image: Seq<u8>,
    result: Result<(), Failure>,
) -> bool {
    exists|journal: Seq<Step>|
        {
            &&& #[trigger] journal_ok(image, journal)
            &&& journal_phase(image, journal) is Done || journal_phase(image, journal) is Failed
            &&& after.performed(before, journal_ops(journal))
            &&& result == journal_result(image, journal)
        }
}

/// Updates the retimer's firmware to `image`: every phase in turn, up to the
/// first that fails, with a report to `monitor` after each step.
pub fn flash_retimer<R: Register, D: Delay, M: Monitor>(
    retimer: &mut Retimer<R, D>,
    image: Vec<u8>,
    monitor: &mut M,
) -> (result: Result<(), Failure>)
    ensures
        flashed(old(retimer), final(retimer), image@, result),
{
    let mut updater = FirmwareUpdater::new(image);
    let result = updater.run(retimer, monitor);
    proof {
        assert(updater@.skip(0) == updater@);
        assert(journal_ok(image@, updater@));
    }
    result
}

} // verus!
