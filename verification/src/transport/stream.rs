//! Shutdown of a byte stream, and the adapter calls admitted under it. Closing
//! refuses further adapter calls and waits for those already admitted. The calls
//! themselves are made outside; the two halves here say which call comes next and
//! take in its result.

use vstd::prelude::*;

use super::io::{check_deadline, ErrorKind};

verus! {

/// Budget of writing and flushing one frame unless another is set.
pub const DEFAULT_WRITE_TIMEOUT: u64 = 10_000_000_000;

/// Deadline of a frame whose output starts now: the write budget from here on, or
/// the deadline of the handshake it belongs to if that comes first.
pub fn frame_deadline(now: u64, timeout: u64, limit: Option<u64>) -> (deadline: u64)
    requires
        now + timeout <= u64::MAX,
    ensures
        deadline == (match limit {
            Some(limit) if limit < now + timeout => limit as int,
            _ => now + timeout,
        }),
{
    let own: u64 = now + timeout;
    match limit {
        Some(limit) => if limit < own {
            limit
        } else {
            own
        },
        None => own,
    }
}

/// Lifecycle of a byte stream. Closing refuses new adapter calls. Closed
/// additionally guarantees that shutdown and all admitted calls have finished.
#[derive(Clone, Copy, Debug, PartialEq, Eq, Structural)]
pub enum Phase {
    /// Adapter calls may be admitted and shutdown has not been requested.
    Open,
    /// One closer runs shutdown. Other closers wait and new calls are refused.
    Closing,
    /// The shutdown action and every admitted adapter call have returned.
    Closed,
}

/// What a closer is to do.
#[derive(Clone, Copy, Debug, PartialEq, Eq, Structural)]
pub enum Close {
    /// Run the shutdown action, then wait for the admitted calls to return.
    Run,
    /// Wait for the closer that runs it.
    Wait,
    /// Nothing, the stream is closed.
    Done,
}

/// Stream lifecycle and the number of active adapter calls, as a model.
pub struct Lifecycle {
    pub phase: Phase,
    pub active: int,
}

/// What can happen to a stream's lifecycle.
pub enum Op {
    /// An adapter call asks for admission.
    Enter,
    /// An admitted call returned.
    Leave,
    /// A closer arrives.
    BeginClose,
    /// The shutdown action returned, or an admitted call did after it.
    FinishClose,
}

/// Lifecycle after something happened. Calls are admitted while the stream is
/// open. The first closer takes it to closing, from where it closes once the last
/// admitted call returned.
pub open spec fn happened(state: Lifecycle, op: Op) -> Lifecycle {
    match op {
        Op::Enter => if state.phase == Phase::Open {
            Lifecycle { active: state.active + 1, ..state }
        } else {
            state
        },
        Op::Leave => Lifecycle { active: state.active - 1, ..state },
        Op::BeginClose => if state.phase == Phase::Open {
            Lifecycle { phase: Phase::Closing, ..state }
        } else {
            state
        },
        Op::FinishClose => if state.phase == Phase::Closing && state.active == 0 {
            Lifecycle { phase: Phase::Closed, ..state }
        } else {
            state
        },
    }
}

/// What a closer is to do that arrives in a phase.
pub open spec fn told(phase: Phase) -> Close {
    match phase {
        Phase::Open => Close::Run,
        Phase::Closing => Close::Wait,
        Phase::Closed => Close::Done,
    }
}

/// Lifecycle after a series of happenings.
pub open spec fn history(state: Lifecycle, ops: Seq<Op>) -> Lifecycle
    decreases ops.len(),
{
    if ops.len() == 0 {
        state
    } else {
        happened(history(state, ops.drop_last()), ops.last())
    }
}

/// How often a series of happenings makes a closer run the shutdown action.
pub open spec fn shutdowns(state: Lifecycle, ops: Seq<Op>) -> nat
    decreases ops.len(),
{
    if ops.len() == 0 {
        0
    } else {
        let runs = ops.last() is BeginClose && history(state, ops.drop_last()).phase == Phase::Open;
        shutdowns(state, ops.drop_last()) + if runs {
            1nat
        } else {
            0nat
        }
    }
}

/// The shutdown action runs at most once, whatever happens to the stream, and not
/// at all once the stream left the open phase.
pub proof fn law_shutdown_runs_once(state: Lifecycle, ops: Seq<Op>)
    ensures
        shutdowns(state, ops) <= 1,
        shutdowns(state, ops) == 1 ==> history(state, ops).phase != Phase::Open,
        state.phase != Phase::Open ==> shutdowns(state, ops) == 0,
        state.phase != Phase::Open ==> history(state, ops).phase != Phase::Open,
    decreases ops.len(),
{
    if ops.len() > 0 {
        law_shutdown_runs_once(state, ops.drop_last());
    }
}

/// Once closing has begun the stream never admits a call again: the number of
/// active calls only falls. A stream closes with none.
pub proof fn law_closing_is_final(state: Lifecycle, ops: Seq<Op>)
    requires
        state.phase != Phase::Open,
    ensures
        history(state, ops).phase != Phase::Open,
        history(state, ops).active <= state.active,
        state.phase == Phase::Closed ==> history(state, ops).phase == Phase::Closed,
    decreases ops.len(),
{
    if ops.len() > 0 {
        law_closing_is_final(state, ops.drop_last());
    }
}

/// A stream that was open without a call is closed only after a closer ran the shutdown
/// action, that action returned, and every call admitted returned. A close returns once
/// it finds the stream closed, so it returns only after all of them, and from then on no
/// call is active.
pub proof fn law_close_waits(ops: Seq<Op>, later: Seq<Op>)
    requires
        history(Lifecycle { phase: Phase::Open, active: 0 }, ops).phase == Phase::Closed,
    ensures
        ({
            let start = Lifecycle { phase: Phase::Open, active: 0 };
            let closed = history(start, ops);
            &&& shutdowns(start, ops) == 1
            &&& exists|i: int| #[trigger] finishes(start, ops, i)
            &&& closed.active <= 0
            &&& history(closed, later).phase == Phase::Closed
            &&& history(closed, later).active <= 0
        }),
{
    let start = Lifecycle { phase: Phase::Open, active: 0 };
    lemma_closed(start, ops);
    law_shutdown_runs_once(start, ops);
    law_closing_is_final(history(start, ops), later);
}

/// The shutdown action returned at a point where it had begun, no admitted call being
/// left.
pub open spec fn finishes(state: Lifecycle, ops: Seq<Op>, at: int) -> bool {
    &&& 0 <= at < ops.len()
    &&& ops[at] is FinishClose
    &&& history(state, ops.take(at)) == (Lifecycle { phase: Phase::Closing, active: 0 })
}

/// A stream leaves the open phase by the shutdown action being run, and closes by its
/// return.
proof fn lemma_closed(state: Lifecycle, ops: Seq<Op>)
    requires
        state.phase == Phase::Open,
    ensures
        history(state, ops).phase != Phase::Open ==> shutdowns(state, ops) >= 1,
        history(state, ops).phase == Phase::Closed ==> {
            &&& exists|i: int| #[trigger] finishes(state, ops, i)
            &&& history(state, ops).active <= 0
        },
    decreases ops.len(),
{
    if ops.len() > 0 {
        let front = ops.drop_last();
        lemma_closed(state, front);
        let last = ops.len() - 1;
        assert(ops.take(last) =~= front);
        if history(state, ops).phase == Phase::Closed {
            if history(state, front).phase == Phase::Closed {
                let i = choose|i: int| #[trigger] finishes(state, front, i);
                assert(ops.take(i) =~= front.take(i));
                assert(finishes(state, ops, i));
            } else {
                assert(finishes(state, ops, last));
            }
        }
    }
}

/// Stream lifecycle and the number of active adapter calls.
pub struct Shutdown {
    phase: Phase,
    active: usize,  // Admitted adapter calls that shutdown must wait for
}

impl View for Shutdown {
    type V = Lifecycle;

    closed spec fn view(&self) -> Lifecycle {
        Lifecycle { phase: self.phase, active: self.active as int }
    }
}

impl Shutdown {
    /// A closed stream has no active call.
    #[verifier::type_invariant]
    spec fn wf(self) -> bool {
        self.phase == Phase::Closed ==> self.active == 0
    }

    /// Starts out open, without a call.
    pub fn new() -> (shutdown: Shutdown)
        ensures
            shutdown@ == (Lifecycle { phase: Phase::Open, active: 0 }),
    {
        Shutdown { phase: Phase::Open, active: 0 }
    }

    /// Admits one adapter call, unless closing has begun.
    pub fn enter(&mut self) -> (admitted: bool)
        requires
            old(self)@.active < usize::MAX,
        ensures
            admitted == (old(self)@.phase == Phase::Open),
            final(self)@ == happened(old(self)@, Op::Enter),
    {
        if self.phase != Phase::Open {
            return false;
        }
        self.active = self.active + 1;
        true
    }

    /// Takes back the admission of a call that returned. Tells whether it was the
    /// last one, which waiting closers are to hear of.
    pub fn leave(&mut self) -> (last: bool)
        requires
            old(self)@.active > 0,
        ensures
            final(self)@ == happened(old(self)@, Op::Leave),
            last == (final(self)@.active == 0),
    {
        proof {
            use_type_invariant(&*self);
        }
        self.active = self.active - 1;
        self.active == 0
    }

    /// Begins closing, or finds that another closer did.
    pub fn begin_close(&mut self) -> (close: Close)
        ensures
            final(self)@ == happened(old(self)@, Op::BeginClose),
            close == told(old(self)@.phase),
    {
        proof {
            use_type_invariant(&*self);
        }
        match self.phase {
            Phase::Open => {
                self.phase = Phase::Closing;
                Close::Run
            },
            Phase::Closing => Close::Wait,
            Phase::Closed => Close::Done,
        }
    }

    /// Closes the stream for good once the shutdown action has run and no admitted
    /// call is left.
    pub fn finish_close(&mut self) -> (closed: bool)
        requires
            old(self)@.phase == Phase::Closing,
        ensures
            final(self)@ == happened(old(self)@, Op::FinishClose),
            closed == (final(self)@.phase == Phase::Closed),
    {
        if self.active != 0 {
            return false;
        }
        self.phase = Phase::Closed;
        true
    }

    /// Whether the stream is closed, no call being active then.
    pub fn is_closed(&self) -> (closed: bool)
        ensures
            closed == (self@.phase == Phase::Closed),
            closed ==> self@.active == 0,
    {
        proof {
            use_type_invariant(self);
        }
        self.phase == Phase::Closed
    }
}

/// Adapter call of a read, or its result.
#[derive(Clone, Copy, Debug, PartialEq, Eq)]
pub enum ReadStep {
    /// Install the deadline.
    SetDeadline,
    /// Read into the buffer.
    Read,
    /// The read is over, with the number of bytes or the error.
    Done(Result<usize, ErrorKind>),
}

/// Stage of a read.
#[derive(Clone, Copy, Debug, PartialEq, Eq)]
pub enum ReadStage {
    /// A call is to be admitted.
    Ready,
    /// The deadline is being installed.
    Setting,
    /// The deadline is installed, the read is to follow under the same admission.
    Installed,
    /// The adapter is reading.
    Reading,
    /// The read is over.
    Done(Result<usize, ErrorKind>),
}

/// Which adapter call of a read comes next, if one does. The deadline is checked before a
/// call is admitted, and so is closure. One admission covers the deadline setter and the
/// read behind it.
pub open spec fn read_goes_on(
    before: ReadStage,
    after: ReadStage,
    open: Lifecycle,
    left: Lifecycle,
    now: u64,
    deadline: Option<u64>,
    step: ReadStep,
) -> bool {
    &&& left.phase == open.phase
    &&& left.active == open.active + (if before is Ready && step is SetDeadline {
        1int
    } else {
        0
    })
    &&& match before {
        ReadStage::Done(result) => step == ReadStep::Done(result) && after == before,
        ReadStage::Installed => step == ReadStep::Read && after == ReadStage::Reading,
        _ => if deadline matches Some(deadline) && now >= deadline {
            &&& step == ReadStep::Done(Err(ErrorKind::TimedOut))
            &&& after == ReadStage::Done(Err(ErrorKind::TimedOut))
        } else if open.phase != Phase::Open {
            step == ReadStep::Done(Ok(0)) && after == ReadStage::Done(Ok(0))
        } else {
            step == ReadStep::SetDeadline && after == ReadStage::Setting
        },
    }
}

/// What the result of an adapter call makes of a read. Timeouts and interruptions of the
/// read itself are retried.
pub open spec fn read_returns(
    before: ReadStage,
    after: ReadStage,
    open: Lifecycle,
    left: Lifecycle,
    result: Result<usize, ErrorKind>,
) -> bool {
    &&& left.phase == open.phase
    &&& left.active == open.active - (if after is Installed {
        0int
    } else {
        1
    })
    &&& after == (match (before, result) {
        (ReadStage::Setting, Ok(_)) => ReadStage::Installed,
        (ReadStage::Setting, Err(kind)) => ReadStage::Done(Err(kind)),
        (_, Err(ErrorKind::TimedOut)) | (_, Err(ErrorKind::Interrupted)) => ReadStage::Ready,
        (_, result) => ReadStage::Done(result),
    })
}

/// One read of the stream, with a deadline during handshakes. Timeouts and
/// interruptions are retried within the deadline. A successful read reports its
/// bytes even if it finishes late. Closure refuses new calls with the end of the
/// stream.
pub struct ReadHalf {
    stage: ReadStage,
}

impl ReadHalf {
    /// Stage of the read.
    pub closed spec fn stage(self) -> ReadStage {
        self.stage
    }

    /// Whether an adapter call of this read is outstanding or admitted.
    pub open spec fn admitted(self) -> bool {
        self.stage() is Setting || self.stage() is Installed || self.stage() is Reading
    }

    /// Starts a read.
    pub fn new() -> (read: ReadHalf)
        ensures
            read.stage() == ReadStage::Ready,
    {
        ReadHalf { stage: ReadStage::Ready }
    }

    /// Next adapter call, or the result. An expired deadline refuses the attempt
    /// before the adapter is called.
    pub fn read(&mut self, shutdown: &mut Shutdown, now: u64, deadline: Option<u64>) -> (step:
        ReadStep)
        requires
            !(old(self).stage() is Setting),
            !(old(self).stage() is Reading),
            old(shutdown)@.active < usize::MAX,
        ensures
            read_goes_on(
                old(self).stage(),
                final(self).stage(),
                old(shutdown)@,
                final(shutdown)@,
                now,
                deadline,
                step,
            ),
    {
        match self.stage {
            ReadStage::Done(result) => ReadStep::Done(result),
            ReadStage::Installed => {
                self.stage = ReadStage::Reading;
                ReadStep::Read
            },
            _ => {
                if let Some(deadline) = deadline {
                    if let Err(kind) = check_deadline(now, deadline) {
                        self.stage = ReadStage::Done(Err(kind));
                        return ReadStep::Done(Err(kind));
                    }
                }
                if !shutdown.enter() {
                    self.stage = ReadStage::Done(Ok(0));
                    return ReadStep::Done(Ok(0));
                }
                self.stage = ReadStage::Setting;
                ReadStep::SetDeadline
            },
        }
    }

    /// Takes in the result of the adapter call handed out last. The admission
    /// covers the deadline setter and the read after it.
    pub fn returned(&mut self, shutdown: &mut Shutdown, result: Result<usize, ErrorKind>)
        requires
            old(self).stage() is Setting || old(self).stage() is Reading,
            old(shutdown)@.active > 0,
        ensures
            read_returns(
                old(self).stage(),
                final(self).stage(),
                old(shutdown)@,
                final(shutdown)@,
                result,
            ),
    {
        match (self.stage, result) {
            (ReadStage::Setting, Ok(_)) => {
                self.stage = ReadStage::Installed;
                return ;
            },
            (ReadStage::Setting, Err(kind)) => {
                self.stage = ReadStage::Done(Err(kind));
            },
            (_, Err(ErrorKind::TimedOut)) | (_, Err(ErrorKind::Interrupted)) => {
                self.stage = ReadStage::Ready;
            },
            (_, result) => {
                self.stage = ReadStage::Done(result);
            },
        }
        let _ = shutdown.leave();
    }
}

/// Adapter call of a write, or its result.
#[derive(Clone, Copy, Debug, PartialEq, Eq)]
pub enum WriteStep {
    /// Install the deadline.
    SetDeadline,
    /// Write the bytes from this position on.
    Write(usize),
    /// Flush.
    Flush,
    /// The write is over.
    Done(Result<(), ErrorKind>),
}

/// Stage of a write.
#[derive(Clone, Copy, Debug, PartialEq, Eq)]
pub enum WriteStage {
    /// The deadline is to be installed.
    Fresh,
    /// The deadline is being installed.
    Setting,
    /// The next partial write or the flush is to be admitted.
    Ready,
    /// The adapter is writing.
    Writing,
    /// The adapter is flushing.
    Flushing,
    /// The write is over.
    Done(Result<(), ErrorKind>),
}

/// Which adapter call of a write comes next, if one does. Each is admitted only in time and
/// while the stream is open: the deadline setter, then writes from where the last one ended,
/// then the flush.
pub open spec fn write_goes_on(
    before: WriteHalf,
    after: WriteHalf,
    open: Lifecycle,
    left: Lifecycle,
    now: u64,
    deadline: u64,
    step: WriteStep,
) -> bool {
    &&& after.size() == before.size()
    &&& after.written() == before.written()
    &&& left.phase == open.phase
    &&& left.active == open.active + (if step is Done {
        0int
    } else {
        1
    })
    &&& match before.stage() {
        WriteStage::Done(result) => {
            &&& step == WriteStep::Done(result)
            &&& after.stage() == before.stage()
        },
        _ => if now >= deadline {
            &&& step == WriteStep::Done(Err(ErrorKind::TimedOut))
            &&& after.stage() == WriteStage::Done(Err(ErrorKind::TimedOut))
        } else if open.phase != Phase::Open {
            &&& step == WriteStep::Done(Err(ErrorKind::NotConnected))
            &&& after.stage() == WriteStage::Done(Err(ErrorKind::NotConnected))
        } else if before.stage() is Fresh {
            step == WriteStep::SetDeadline && after.stage() == WriteStage::Setting
        } else if before.written() < before.size() {
            &&& step == WriteStep::Write(before.written())
            &&& after.stage() == WriteStage::Writing
        } else {
            step == WriteStep::Flush && after.stage() == WriteStage::Flushing
        },
    }
}

/// What the result of an adapter call makes of a write. Interrupted writes are retried, one
/// that takes nothing fails, and so do the errors of the setter and of the flush.
pub open spec fn write_returns(
    before: WriteHalf,
    after: WriteHalf,
    open: Lifecycle,
    left: Lifecycle,
    result: Result<usize, ErrorKind>,
) -> bool {
    &&& after.size() == before.size()
    &&& left.phase == open.phase
    &&& left.active == open.active - 1
    &&& match (before.stage(), result) {
        (WriteStage::Writing, Ok(0)) => {
            &&& after.stage() == WriteStage::Done(Err(ErrorKind::WriteZero))
            &&& after.written() == before.written()
        },
        (WriteStage::Writing, Ok(taken)) => {
            &&& after.stage() == WriteStage::Ready
            &&& after.written() == before.written() + taken
        },
        (WriteStage::Writing, Err(ErrorKind::Interrupted)) => {
            &&& after.stage() == WriteStage::Ready
            &&& after.written() == before.written()
        },
        (stage, Ok(_)) => {
            &&& after.stage() == (if stage is Setting {
                WriteStage::Ready
            } else {
                WriteStage::Done(Ok(()))
            })
            &&& after.written() == before.written()
        },
        (_, Err(kind)) => {
            &&& after.stage() == WriteStage::Done(Err(kind))
            &&& after.written() == before.written()
        },
    }
}

/// One write and flush of a buffer under one absolute deadline. The deadline is
/// installed once before the output. Each partial write and the flush check
/// expiration and closure before calling the adapter. Interrupted writes are
/// retried. Zero progress fails. Setter and flush errors are not retried.
pub struct WriteHalf {
    size: usize,  // Bytes in the buffer
    written: usize,  // Bytes that the adapter took
    stage: WriteStage,
}

impl WriteHalf {
    /// The adapter took at most the whole buffer, and all of it before the flush.
    #[verifier::type_invariant]
    spec fn wf(self) -> bool {
        &&& self.written <= self.size
        &&& self.stage is Flushing ==> self.written == self.size
        &&& self.stage matches WriteStage::Done(Ok(_)) ==> self.written == self.size
        &&& self.stage is Writing ==> self.written < self.size
    }

    /// Size of the buffer.
    pub closed spec fn size(self) -> usize {
        self.size
    }

    /// Number of bytes that the adapter took.
    pub closed spec fn written(self) -> usize {
        self.written
    }

    /// Stage of the write.
    pub closed spec fn stage(self) -> WriteStage {
        self.stage
    }

    /// Whether an adapter call of this write is outstanding.
    pub open spec fn admitted(self) -> bool {
        self.stage() is Setting || self.stage() is Writing || self.stage() is Flushing
    }

    /// Starts the write of a buffer of some size.
    pub fn new(size: usize) -> (write: WriteHalf)
        ensures
            write.size() == size,
            write.written() == 0,
            write.stage() == WriteStage::Fresh,
    {
        WriteHalf { size, written: 0, stage: WriteStage::Fresh }
    }

    /// Next adapter call, or the result.
    pub fn write(&mut self, shutdown: &mut Shutdown, now: u64, deadline: u64) -> (step: WriteStep)
        requires
            !old(self).admitted(),
            old(shutdown)@.active < usize::MAX,
        ensures
            write_goes_on(
                *old(self),
                *final(self),
                old(shutdown)@,
                final(shutdown)@,
                now,
                deadline,
                step,
            ),
    {
        proof {
            use_type_invariant(&*self);
        }
        if let WriteStage::Done(result) = self.stage {
            return WriteStep::Done(result);
        }
        if let Err(kind) = check_deadline(now, deadline) {
            self.stage = WriteStage::Done(Err(kind));
            return WriteStep::Done(Err(kind));
        }
        if !shutdown.enter() {
            self.stage = WriteStage::Done(Err(ErrorKind::NotConnected));
            return WriteStep::Done(Err(ErrorKind::NotConnected));
        }
        if matches!(self.stage, WriteStage::Fresh) {
            self.stage = WriteStage::Setting;
            WriteStep::SetDeadline
        } else if self.written < self.size {
            self.stage = WriteStage::Writing;
            WriteStep::Write(self.written)
        } else {
            self.stage = WriteStage::Flushing;
            WriteStep::Flush
        }
    }

    /// Takes in the result of the adapter call handed out last, the number of bytes
    /// it took if it was a write.
    pub fn returned(&mut self, shutdown: &mut Shutdown, result: Result<usize, ErrorKind>)
        requires
            old(self).admitted(),
            old(shutdown)@.active > 0,
            (old(self).stage() is Writing && result is Ok) ==> result->Ok_0 <= old(self).size() - old(
                self,
            ).written(),
        ensures
            write_returns(*old(self), *final(self), old(shutdown)@, final(shutdown)@, result),
    {
        proof {
            use_type_invariant(&*self);
        }
        let _ = shutdown.leave();
        let WriteHalf { size, written, stage } = *self;
        *self = match (stage, result) {
            (WriteStage::Writing, Ok(0)) => WriteHalf {
                size,
                written,
                stage: WriteStage::Done(Err(ErrorKind::WriteZero)),
            },
            (WriteStage::Writing, Ok(taken)) => WriteHalf {
                size,
                written: written + taken,
                stage: WriteStage::Ready,
            },
            (WriteStage::Writing, Err(ErrorKind::Interrupted)) => WriteHalf {
                size,
                written,
                stage: WriteStage::Ready,
            },
            (WriteStage::Setting, Ok(_)) => WriteHalf { size, written, stage: WriteStage::Ready },
            (_, Ok(_)) => WriteHalf { size, written, stage: WriteStage::Done(Ok(())) },
            (_, Err(kind)) => WriteHalf { size, written, stage: WriteStage::Done(Err(kind)) },
        };
    }

    /// Outcome of the frame once the write is over. A flush that returned too late
    /// fails the complete frame. Success means that the adapter took every byte.
    pub fn outcome(&self, now: u64, deadline: u64) -> (outcome: Option<Result<(), ErrorKind>>)
        ensures
            match self.stage() {
                WriteStage::Done(Ok(_)) => {
                    &&& self.written() == self.size()
                    &&& outcome == Some(
                        if now >= deadline {
                            Err::<(), ErrorKind>(ErrorKind::TimedOut)
                        } else {
                            Ok::<(), ErrorKind>(())
                        },
                    )
                },
                WriteStage::Done(Err(kind)) => outcome == Some(Err::<(), ErrorKind>(kind)),
                _ => outcome is None,
            },
    {
        proof {
            use_type_invariant(self);
        }
        match self.stage {
            WriteStage::Done(Ok(_)) => Some(check_deadline(now, deadline)),
            WriteStage::Done(Err(kind)) => Some(Err(kind)),
            _ => None,
        }
    }
}

/// A frame never has longer than the write budget, nor than what is left of the handshake
/// it belongs to, and it has the whole of one of the two.
pub proof fn law_frame_deadline(now: u64, timeout: u64, limit: Option<u64>, deadline: u64)
    requires
        call_ensures(frame_deadline, (now, timeout, limit), deadline),
        now + timeout <= u64::MAX,
    ensures
        deadline <= now + timeout,
        limit matches Some(limit) ==> deadline <= limit,
        deadline == now + timeout || limit == Some(deadline),
{
}

/// No adapter call is made once the deadline has passed, nor once closing has begun, but for
/// the read that an admitted deadline setter belongs to. A read that finds the stream closed
/// reads its end, one that is late times out.
pub proof fn law_read_is_admitted_in_time(
    before: ReadStage,
    after: ReadStage,
    open: Lifecycle,
    left: Lifecycle,
    now: u64,
    deadline: Option<u64>,
    step: ReadStep,
)
    requires
        read_goes_on(before, after, open, left, now, deadline, step),
        before is Ready,
    ensures
        step is SetDeadline <==> open.phase == Phase::Open && (deadline matches Some(deadline)
            ==> now < deadline),
        deadline matches Some(deadline) && now >= deadline ==> step == ReadStep::Done(
            Err(ErrorKind::TimedOut),
        ),
        open.phase != Phase::Open && (deadline matches Some(deadline) ==> now < deadline) ==> step
            == ReadStep::Done(Ok(0)),
        left.active == open.active + (if step is SetDeadline {
            1int
        } else {
            0
        }),
        !(step is Read),
{
}

/// The bytes of a read are reported as the adapter counted them, its end as well. Only
/// timeouts and interruptions of the read are retried, and everything else is the result. A
/// read that is over or to be retried holds no admission.
pub proof fn law_read_reports_bytes(
    before: ReadStage,
    after: ReadStage,
    open: Lifecycle,
    left: Lifecycle,
    result: Result<usize, ErrorKind>,
)
    requires
        read_returns(before, after, open, left, result),
        before is Reading,
    ensures
        result matches Ok(count) ==> after == ReadStage::Done(Ok(count)),
        result matches Err(kind) ==> if kind == ErrorKind::TimedOut || kind
            == ErrorKind::Interrupted {
            after is Ready
        } else {
            after == ReadStage::Done(Err(kind))
        },
        left.active == open.active - 1,
{
}

/// A write asks for the bytes from exactly where the adapter stopped taking them, and for
/// the flush only once all of them were taken. Late or closed, it asks for nothing more.
pub proof fn law_write_goes_on_in_order(
    before: WriteHalf,
    after: WriteHalf,
    open: Lifecycle,
    left: Lifecycle,
    now: u64,
    deadline: u64,
    step: WriteStep,
)
    requires
        write_goes_on(before, after, open, left, now, deadline, step),
        before.stage() is Ready,
        before.written() <= before.size(),
    ensures
        step matches WriteStep::Write(position) ==> position == before.written() && position
            < before.size(),
        step is Flush ==> before.written() == before.size(),
        !(step is SetDeadline),
        step is Write || step is Flush <==> now < deadline && open.phase == Phase::Open,
        now >= deadline ==> step == WriteStep::Done(Err(ErrorKind::TimedOut)),
        now < deadline && open.phase != Phase::Open ==> step == WriteStep::Done(
            Err(ErrorKind::NotConnected),
        ),
        after.written() == before.written(),
{
}

/// Every byte that the adapter takes is counted once. A write that takes none fails, an
/// interrupted one is retried from the same place, and any other failure is the result.
pub proof fn law_write_counts_bytes(
    before: WriteHalf,
    after: WriteHalf,
    open: Lifecycle,
    left: Lifecycle,
    result: Result<usize, ErrorKind>,
)
    requires
        write_returns(before, after, open, left, result),
        before.stage() is Writing,
    ensures
        after.written() - before.written() == (match result {
            Ok(taken) => taken as int,
            Err(_) => 0,
        }),
        result == Ok::<usize, ErrorKind>(0) ==> after.stage() == WriteStage::Done(
            Err(ErrorKind::WriteZero),
        ),
        result matches Ok(taken) && taken > 0 ==> after.stage() is Ready,
        result matches Err(kind) ==> if kind == ErrorKind::Interrupted {
            after.stage() is Ready
        } else {
            after.stage() == WriteStage::Done(Err(kind))
        },
        after.size() == before.size(),
        left.active == open.active - 1,
{
}

/// A write succeeds only by a flush that did, and fails by one that failed. It never counts
/// bytes that the flush reports.
pub proof fn law_flush_decides(
    before: WriteHalf,
    after: WriteHalf,
    open: Lifecycle,
    left: Lifecycle,
    result: Result<usize, ErrorKind>,
)
    requires
        write_returns(before, after, open, left, result),
        before.stage() is Flushing || before.stage() is Setting,
    ensures
        (after.stage() matches WriteStage::Done(Ok(_))) <==> before.stage() is Flushing && result
            is Ok,
        result matches Err(kind) ==> after.stage() == WriteStage::Done(Err(kind)),
        before.stage() is Setting && result is Ok ==> after.stage() is Ready,
        after.written() == before.written(),
{
}

/// A frame is out only if its flush came back in time: late success is a timeout.
pub proof fn law_late_flush_fails(
    half: WriteHalf,
    now: u64,
    deadline: u64,
    outcome: Option<Result<(), ErrorKind>>,
)
    requires
        call_ensures(WriteHalf::outcome, (&half, now, deadline), outcome),
    ensures
        outcome is Some && outcome->0 is Ok ==> {
            &&& half.stage() matches WriteStage::Done(Ok(_))
            &&& half.written() == half.size()
            &&& now < deadline
        },
        half.stage() matches WriteStage::Done(Ok(_)) && now >= deadline ==> outcome == Some(
            Err::<(), ErrorKind>(ErrorKind::TimedOut),
        ),
        half.stage() matches WriteStage::Done(Err(kind)) ==> outcome == Some(
            Err::<(), ErrorKind>(kind),
        ),
        !(half.stage() is Done) ==> outcome is None,
{
}

/// A frame outside of a handshake has ten seconds by default, from when its output starts.
pub proof fn law_default_write_budget(now: u64, deadline: u64)
    requires
        call_ensures(frame_deadline, (now, DEFAULT_WRITE_TIMEOUT, None), deadline),
    ensures
        deadline == now + 10_000_000_000,
{
}

/// How many calls a series of happenings admits: those that ask while the stream is open.
pub open spec fn admissions(state: Lifecycle, ops: Seq<Op>) -> nat
    decreases ops.len(),
{
    if ops.len() == 0 {
        0
    } else {
        let open = history(state, ops.drop_last()).phase == Phase::Open;
        admissions(state, ops.drop_last()) + if ops.last() is Enter && open {
            1nat
        } else {
            0nat
        }
    }
}

/// How many calls return in a series of happenings.
pub open spec fn departures(ops: Seq<Op>) -> nat
    decreases ops.len(),
{
    if ops.len() == 0 {
        0
    } else {
        departures(ops.drop_last()) + if ops.last() is Leave {
            1nat
        } else {
            0nat
        }
    }
}

/// Every call admitted counts as active until it returns, however many there are.
pub proof fn law_calls_are_counted(state: Lifecycle, ops: Seq<Op>)
    ensures
        history(state, ops).active == state.active + admissions(state, ops) - departures(ops),
    decreases ops.len(),
{
    if ops.len() > 0 {
        law_calls_are_counted(state, ops.drop_last());
    }
}

/// A close goes on as soon as it can: the first closer begins it, and it is over once no
/// call is active, and not before.
pub proof fn law_close_goes_on(state: Lifecycle)
    ensures
        state.phase == Phase::Open ==> happened(state, Op::BeginClose).phase == Phase::Closing,
        state.phase == Phase::Closing ==> (happened(state, Op::FinishClose).phase
            == Phase::Closed <==> state.active == 0),
        state.phase == Phase::Open ==> happened(state, Op::FinishClose).phase == Phase::Open,
        happened(state, Op::Leave).phase == state.phase,
        happened(state, Op::Enter).phase == state.phase,
{
}

/// The closer that begins closing is the one told to run the shutdown action, and no other.
/// Nobody waits for a stream that is closed.
pub proof fn law_first_closer_runs(state: Lifecycle)
    ensures
        told(state.phase) == Close::Run <==> happened(state, Op::BeginClose) != state,
        told(state.phase) == Close::Done <==> state.phase == Phase::Closed,
        told(happened(state, Op::BeginClose).phase) != Close::Run,
{
}

} // verus!
