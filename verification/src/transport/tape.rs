//! Transcripts of a client's calls and I/O, and their playback. Reads follow the
//! transcript, writes take the place of the recorded ones.

use std::collections::VecDeque;

use vstd::prelude::*;
use vstd::slice::{slice_subrange, slice_to_vec};

use super::io::ErrorKind;
use crate::bytes::same_text;

verus! {

/// Longest time that a read of the replay waits for recorded output, in
/// nanoseconds. Quiet polls need not spend the deadline of the read.
pub const POLL: u64 = 1_000_000;

/// Way in which a recorded read failed.
#[derive(Clone, Copy, Debug, PartialEq, Eq, Structural)]
pub enum ReadError {
    /// The stream ended.
    Eof,
    /// The read would have had to wait.
    Failed,
    /// A signal cut the read short.
    Interrupted,
    /// The read's deadline expired.
    TimedOut,
}

impl ReadError {
    /// Failure that a name stands for, if it does.
    pub open spec fn named(name: Seq<char>) -> Option<ReadError> {
        if name == "eof"@ {
            Some(ReadError::Eof)
        } else if name == "failed"@ {
            Some(ReadError::Failed)
        } else if name == "interrupted"@ {
            Some(ReadError::Interrupted)
        } else if name == "timed_out"@ {
            Some(ReadError::TimedOut)
        } else {
            None
        }
    }

    /// Reads the name of a failure.
    pub fn parse(name: &str) -> (error: Option<ReadError>)
        ensures
            error == ReadError::named(name@),
    {
        if same_text(name, "eof") {
            Some(ReadError::Eof)
        } else if same_text(name, "failed") {
            Some(ReadError::Failed)
        } else if same_text(name, "interrupted") {
            Some(ReadError::Interrupted)
        } else if same_text(name, "timed_out") {
            Some(ReadError::TimedOut)
        } else {
            None
        }
    }
}

/// One event of a transcript: a call of the client, its result, or I/O that the
/// client does during the call.
#[derive(Debug)]
pub enum Event {
    /// The client is to shake hands, under recorded keys.
    Handshake { xdsa: Vec<u8>, xhpke: Vec<u8> },
    /// The latest sender is to send a message.
    Send { message: Vec<u8> },
    /// The latest sender is kept beyond its session.
    Retain,
    /// The kept sender is to send a message.
    SendRetained { message: Vec<u8> },
    /// The client is to receive a message.
    Recv,
    /// The call succeeded.
    Returned { reply: Option<Vec<u8>> },
    /// The call failed, with an error of the given kind.
    Refused { kind: String },
    /// Whether the latest sender's session is established.
    Session { established: bool },
    /// Input arrived, in pieces of at most `chunk` bytes if that is not zero.
    Read { bytes: Vec<u8>, chunk: usize },
    /// A read failed.
    ReadFailed { error: ReadError },
    /// Output went out, up to a broken pipe if it failed.
    Write { bytes: Vec<u8>, failed: bool },
    /// A flush failed.
    FlushFailed,
    /// Output went out until its deadline expired.
    WriteTimedOut { bytes: Vec<u8> },
    /// The deadline of a flush expired.
    FlushTimedOut,
}

/// A recorded output and the one that took its place.
#[derive(Debug)]
pub struct Written {
    pub recorded: Vec<u8>,
    pub actual: Vec<u8>,
    pub failed: bool,  // Whether the recorded output failed
}

/// What a read of the replay comes to.
#[derive(Debug)]
pub enum Input {
    /// Bytes were read, none of them at the end of the stream.
    Bytes(Vec<u8>),
    /// The read failed.
    Failed(ErrorKind),
    /// Recorded output has to go out first. The read is retried until a time.
    Wait(u64),
    /// The transcript has something else than a read.
    Diverged,
}

/// What a write or a flush of the replay comes to.
#[derive(Clone, Copy, Debug, PartialEq, Eq, Structural)]
pub enum Output {
    /// The output was accepted, that many bytes of it.
    Accepted(usize),
    /// The output failed.
    Failed(ErrorKind),
    /// The transcript has something else than output.
    Diverged,
}

/// Whether an event is output of the client.
pub open spec fn is_output(event: Event) -> bool {
    event is Write || event is WriteTimedOut || event is FlushFailed || event is FlushTimedOut
}

/// Whether a read has to wait for an event to pass. After an output failed the
/// event can be the call's own failure, ahead of which the client may still read.
pub open spec fn awaited(event: Event, output_failed: bool) -> bool {
    is_output(event) || output_failed && event is Refused
}

/// Whether an event is input of no bytes.
pub open spec fn is_empty_read(event: Event) -> bool {
    event matches Event::Read { bytes, .. } && bytes@.len() == 0
}

/// Events behind leading input of no bytes.
pub open spec fn past_empty(events: Seq<Event>) -> Seq<Event>
    decreases events.len(),
{
    if events.len() > 0 && is_empty_read(events[0]) {
        past_empty(events.skip(1))
    } else {
        events
    }
}

/// Number of bytes that one read takes out of recorded input.
pub open spec fn portion(available: nat, chunk: nat, room: nat) -> nat {
    let fitting = if room < available {
        room
    } else {
        available
    };
    if 0 < chunk < fitting {
        chunk
    } else {
        fitting
    }
}

/// What a recorded output holds and how it failed, if it did.
pub open spec fn output_of(event: Event) -> Option<(Seq<u8>, Option<ErrorKind>)> {
    match event {
        Event::Write { bytes, failed } => Some(
            (
                bytes@,
                if failed {
                    Some(ErrorKind::BrokenPipe)
                } else {
                    None
                },
            ),
        ),
        Event::WriteTimedOut { bytes } => Some((bytes@, Some(ErrorKind::TimedOut))),
        _ => None,
    }
}

/// How a recorded flush failed.
pub open spec fn flush_of(event: Event) -> Option<ErrorKind> {
    match event {
        Event::FlushFailed => Some(ErrorKind::BrokenPipe),
        Event::FlushTimedOut => Some(ErrorKind::TimedOut),
        _ => None,
    }
}

/// Number of bytes of an output that are accepted in place of a recorded one.
/// Fresh encryption can change the length of a frame, so a failed output accepts
/// up to the recorded number of bytes, and a successful one all of them. A lone
/// recorded delimiter accepts only the delimiter that an output starts with.
pub open spec fn acceptable(recorded: Seq<u8>, failed: bool, output: Seq<u8>) -> nat {
    if failed {
        if recorded.len() < output.len() {
            recorded.len()
        } else {
            output.len()
        }
    } else if recorded.len() == 1 && recorded[0] == 0 && output.len() > 0 && output[0] == 0 {
        1
    } else {
        output.len()
    }
}

/// Recorded events and the input and output under way.
pub struct Tape {
    events: VecDeque<Event>,  // Events still to play
    pending: Vec<u8>,  // Input of the latest read event
    offset: usize,  // Bytes of it that were delivered
    chunk: usize,  // Maximum read size, zero for no limit
    writes: Vec<Written>,  // Outputs of the call in progress
    output_failed: bool,  // Whether one of them failed
}

impl Tape {
    /// Events still to play.
    pub closed spec fn remaining(self) -> Seq<Event> {
        self.events@
    }

    /// Input not delivered yet.
    pub closed spec fn buffered(self) -> Seq<u8> {
        self.pending@.skip(self.offset as int)
    }

    /// Maximum read size of that input, zero for no limit.
    pub closed spec fn chunk(self) -> nat {
        self.chunk as nat
    }

    /// Outputs of the call in progress.
    pub closed spec fn writes(self) -> Seq<Written> {
        self.writes@
    }

    /// Whether an output of the call in progress failed.
    pub closed spec fn output_failed(self) -> bool {
        self.output_failed
    }

    #[verifier::type_invariant]
    spec fn wf(self) -> bool {
        self.offset <= self.pending@.len()
    }

    /// Starts playback at the first event, with no I/O under way.
    pub fn new(trace: Vec<Event>) -> (tape: Tape)
        ensures
            tape.remaining() == trace@,
            tape.buffered() == Seq::<u8>::empty(),
            tape.writes() == Seq::<Written>::empty(),
            !tape.output_failed(),
    {
        let ghost recorded = trace@;
        let mut trace = trace;
        let mut events: VecDeque<Event> = VecDeque::new();
        while trace.len() > 0
            invariant
                trace@ + events@ == recorded,
            decreases trace.len(),
        {
            let ghost rest = trace@;
            if let Some(event) = trace.pop() {
                let ghost played = events@;
                events.push_front(event);
                assert(events@ =~= seq![event] + played);
                assert(trace@ + events@ =~= rest + played);
            }
        }
        assert(events@ =~= recorded);
        let pending: Vec<u8> = Vec::new();
        assert(pending@.skip(0) =~= Seq::<u8>::empty());
        Tape {
            events,
            pending,
            offset: 0,
            chunk: 0,
            writes: Vec::new(),
            output_failed: false,
        }
    }

    /// Whether every event has been played.
    pub fn done(&self) -> (done: bool)
        ensures
            done == (self.remaining().len() == 0),
    {
        self.events.len() == 0
    }

    /// Plays the next event, if there is one.
    pub fn next(&mut self) -> (event: Option<Event>)
        ensures
            match event {
                Some(event) => {
                    &&& old(self).remaining().len() > 0
                    &&& event == old(self).remaining()[0]
                    &&& final(self).remaining() == old(self).remaining().skip(1)
                },
                None => {
                    &&& old(self).remaining().len() == 0
                    &&& final(self).remaining() == old(self).remaining()
                },
            },
            same_but_events(*old(self), *final(self)),
    {
        proof {
            use_type_invariant(&*self);
        }
        let mut events: VecDeque<Event> = VecDeque::new();
        std::mem::swap(&mut self.events, &mut events);
        let event = events.pop_front();
        assert(event is Some ==> events@ =~= old(self).events@.skip(1));
        self.events = events;
        event
    }

    /// Starts a call, none of whose outputs failed yet.
    pub fn begin_call(&mut self)
        ensures
            final(self).remaining() == old(self).remaining(),
            final(self).buffered() == old(self).buffered(),
            final(self).chunk() == old(self).chunk(),
            final(self).writes() == old(self).writes(),
            !final(self).output_failed(),
    {
        proof {
            use_type_invariant(&*self);
        }
        self.output_failed = false;
    }

    /// Takes the outputs of the call in progress.
    pub fn take_writes(&mut self) -> (writes: Vec<Written>)
        ensures
            writes@ == old(self).writes(),
            final(self).writes() == Seq::<Written>::empty(),
            final(self).remaining() == old(self).remaining(),
            final(self).buffered() == old(self).buffered(),
            final(self).chunk() == old(self).chunk(),
            final(self).output_failed() == old(self).output_failed(),
    {
        proof {
            use_type_invariant(&*self);
        }
        let mut writes: Vec<Written> = Vec::new();
        std::mem::swap(&mut self.writes, &mut writes);
        writes
    }

    /// Delivers as much of the pending input as one read takes.
    fn deliver(&mut self, room: usize) -> (bytes: Vec<u8>)
        ensures
            delivers(old(self).buffered(), old(self).chunk(), room as nat, *final(self), bytes@),
            final(self).remaining() == old(self).remaining(),
            final(self).writes() == old(self).writes(),
            final(self).output_failed() == old(self).output_failed(),
    {
        proof {
            use_type_invariant(&*self);
        }
        let available: usize = self.pending.len() - self.offset;
        let fitting: usize = if room < available {
            room
        } else {
            available
        };
        let size: usize = if 0 < self.chunk && self.chunk < fitting {
            self.chunk
        } else {
            fitting
        };
        let end: usize = self.offset + size;
        let bytes = slice_to_vec(slice_subrange(self.pending.as_slice(), self.offset, end));
        assert(bytes@ =~= self.buffered().take(size as int));
        assert(self.pending@.skip(end as int) =~= self.buffered().skip(size as int));
        self.offset = end;
        bytes
    }

    /// Reads what the transcript has next, for a buffer with the given room.
    /// `None` if recorded output has to go out first.
    pub fn read(&mut self, room: usize) -> (input: Option<Input>)
        ensures
            reads(*old(self), *final(self), room as nat, input),
    {
        proof {
            use_type_invariant(&*self);
        }
        if self.offset < self.pending.len() {
            return Some(Input::Bytes(self.deliver(room)));
        }
        while self.events.len() > 0
            invariant
                self.buffered().len() == 0,
                past_empty(self.remaining()) == past_empty(old(self).remaining()),
                old(self).buffered().len() == 0,
                self.writes() == old(self).writes(),
                self.output_failed() == old(self).output_failed(),
            decreases self.remaining().len(),
        {
            match &self.events[0] {
                Event::Write { .. } => return None,
                Event::WriteTimedOut { .. } => return None,
                Event::FlushFailed => return None,
                Event::FlushTimedOut => return None,
                Event::Refused { .. } => if self.output_failed {
                    return None;
                },
                _ => {},
            }
            match self.next() {
                Some(Event::Read { bytes, chunk }) => if bytes.len() > 0 {
                    self.offset = 0;
                    self.pending = bytes;
                    self.chunk = chunk;
                    assert(self.buffered() =~= bytes@);
                    return Some(Input::Bytes(self.deliver(room)));
                },
                Some(Event::ReadFailed { error }) => return Some(read_failure(error)),
                _ => return Some(Input::Diverged),
            }
        }
        Some(Input::Diverged)
    }
}

/// Input that a failed read comes to.
fn read_failure(error: ReadError) -> (input: Input)
    ensures
        match error {
            ReadError::Eof => input matches Input::Bytes(bytes) && bytes@.len() == 0,
            ReadError::Failed => input == Input::Failed(ErrorKind::WouldBlock),
            ReadError::Interrupted => input == Input::Failed(ErrorKind::Interrupted),
            ReadError::TimedOut => input == Input::Failed(ErrorKind::TimedOut),
        },
{
    match error {
        ReadError::Eof => Input::Bytes(Vec::new()),
        ReadError::Failed => Input::Failed(ErrorKind::WouldBlock),
        ReadError::Interrupted => Input::Failed(ErrorKind::Interrupted),
        ReadError::TimedOut => Input::Failed(ErrorKind::TimedOut),
    }
}

/// Whether only the events of a tape may have changed.
pub open spec fn same_but_events(before: Tape, after: Tape) -> bool {
    &&& after.buffered() == before.buffered()
    &&& after.chunk() == before.chunk()
    &&& after.writes() == before.writes()
    &&& after.output_failed() == before.output_failed()
}

/// What one read delivers of recorded input, and what is left of it.
pub open spec fn delivers(
    available: Seq<u8>,
    chunk: nat,
    room: nat,
    after: Tape,
    bytes: Seq<u8>,
) -> bool {
    let size = portion(available.len(), chunk, room) as int;
    &&& bytes == available.take(size)
    &&& after.buffered() == available.skip(size)
    &&& after.chunk() == chunk
}

/// What a read does to a tape, and what it comes to.
pub open spec fn reads(before: Tape, after: Tape, room: nat, input: Option<Input>) -> bool {
    let events = past_empty(before.remaining());
    &&& after.writes() == before.writes()
    &&& after.output_failed() == before.output_failed()
    &&& if before.buffered().len() > 0 {
        &&& after.remaining() == before.remaining()
        &&& input matches Some(Input::Bytes(bytes))
        &&& delivers(before.buffered(), before.chunk(), room, after, bytes@)
    } else if events.len() == 0 {
        &&& after.remaining() == events
        &&& after.buffered().len() == 0
        &&& input == Some(Input::Diverged)
    } else if awaited(events[0], before.output_failed()) {
        &&& after.remaining() == events
        &&& after.buffered().len() == 0
        &&& input is None
    } else {
        &&& after.remaining() == events.skip(1)
        &&& match events[0] {
            Event::Read { bytes, chunk } => {
                &&& input matches Some(Input::Bytes(delivered))
                &&& delivers(bytes@, chunk as nat, room, after, delivered@)
            },
            Event::ReadFailed { error } => {
                &&& after.buffered().len() == 0
                &&& match error {
                    ReadError::Eof => input matches Some(Input::Bytes(bytes)) && bytes@.len() == 0,
                    ReadError::Failed => input == Some(Input::Failed(ErrorKind::WouldBlock)),
                    ReadError::Interrupted => input == Some(Input::Failed(ErrorKind::Interrupted)),
                    ReadError::TimedOut => input == Some(Input::Failed(ErrorKind::TimedOut)),
                }
            },
            _ => {
                &&& after.buffered().len() == 0
                &&& input == Some(Input::Diverged)
            },
        }
    }
}

/// Delivers the input of a transcript to the client.
pub struct Reader {
    pub deadline: u64,  // Deadline for waiting on output
}

impl Reader {
    /// Bounds the reads that follow.
    pub fn set_read_deadline(&mut self, deadline: u64)
        ensures
            final(self).deadline == deadline,
    {
        self.deadline = deadline;
    }

    /// Reads what the transcript has next, for a buffer with the given room. While
    /// recorded output has to go out first the read waits, up to its deadline or
    /// for a short poll since it started.
    pub fn read(&self, tape: &mut Tape, room: usize, started: u64, now: u64) -> (input: Input)
        ensures
            exists|played: Option<Input>|
                {
                    &&& #[trigger] reads(*old(tape), *final(tape), room as nat, played)
                    &&& match played {
                        Some(played) => input == played,
                        None => input == polled(self.deadline, started, now),
                    }
                },
    {
        let played = tape.read(room);
        let ghost result = played;
        assert(reads(*old(tape), *tape, room as nat, result));
        match played {
            Some(input) => input,
            None => {
                let poll: u64 = started.saturating_add(POLL);
                let limit: u64 = if self.deadline < poll {
                    self.deadline
                } else {
                    poll
                };
                if now > limit {
                    Input::Failed(ErrorKind::TimedOut)
                } else {
                    Input::Wait(limit)
                }
            },
        }
    }
}

/// What a read that waits for output comes to.
pub open spec fn polled(deadline: u64, started: u64, now: u64) -> Input {
    let limit = if deadline < started + POLL {
        deadline as int
    } else {
        started + POLL
    };
    if now > limit {
        Input::Failed(ErrorKind::TimedOut)
    } else if limit <= u64::MAX {
        Input::Wait(limit as u64)
    } else {
        Input::Wait(u64::MAX)
    }
}

/// Captures the client's output and injects the failures of a transcript.
pub struct Writer {
    pub pending_error: Option<ErrorKind>,  // Failure behind a prefix that was accepted
}

/// What a write does to a tape and to the pending failure, and what it comes to.
pub open spec fn captures(
    before: Tape,
    after: Tape,
    pending: Option<ErrorKind>,
    left: Option<ErrorKind>,
    bytes: Seq<u8>,
    output: Output,
) -> bool {
    match pending {
        Some(kind) => {
            &&& output == Output::Failed(kind)
            &&& left is None
            &&& after == before
        },
        None => if before.remaining().len() > 0 && output_of(before.remaining()[0]) is Some {
            let (recorded, failure) = output_of(before.remaining()[0])->0;
            let size = acceptable(recorded, failure is Some, bytes);
            &&& after.remaining() == before.remaining().skip(1)
            &&& after.buffered() == before.buffered()
            &&& after.chunk() == before.chunk()
            &&& after.writes().len() == before.writes().len() + 1
            &&& after.writes().drop_last() == before.writes()
            &&& after.writes().last().recorded@ == recorded
            &&& after.writes().last().actual@ == bytes.take(size as int)
            &&& after.writes().last().failed == (failure is Some)
            &&& after.output_failed() == (before.output_failed() || failure is Some)
            &&& match failure {
                Some(kind) => if size > 0 {
                    output == Output::Accepted(size as usize) && left == failure
                } else {
                    output == Output::Failed(kind) && left is None
                },
                None => output == Output::Accepted(size as usize) && left is None,
            }
        } else {
            &&& output == Output::Diverged
            &&& left is None
            &&& after.remaining() == (if before.remaining().len() > 0 {
                before.remaining().skip(1)
            } else {
                before.remaining()
            })
            &&& same_but_events(before, after)
        },
    }
}

/// What a flush does to a tape and to the pending failure, and what it comes to.
pub open spec fn flushes(
    before: Tape,
    after: Tape,
    pending: Option<ErrorKind>,
    left: Option<ErrorKind>,
    output: Output,
) -> bool {
    &&& left is None
    &&& match pending {
        Some(kind) => output == Output::Failed(kind) && after == before,
        None => if before.remaining().len() > 0 && flush_of(before.remaining()[0]) is Some {
            &&& output == Output::Failed(flush_of(before.remaining()[0])->0)
            &&& after.remaining() == before.remaining().skip(1)
            &&& after.buffered() == before.buffered()
            &&& after.chunk() == before.chunk()
            &&& after.writes() == before.writes()
            &&& after.output_failed()
        } else {
            output == Output::Accepted(0) && after == before
        },
    }
}

impl Tape {
    /// Records an output in place of the recorded one.
    fn capture(&mut self, written: Written)
        ensures
            final(self).remaining() == old(self).remaining(),
            final(self).buffered() == old(self).buffered(),
            final(self).chunk() == old(self).chunk(),
            final(self).writes() == old(self).writes().push(written),
            final(self).output_failed() == (old(self).output_failed() || written.failed),
    {
        proof {
            use_type_invariant(&*self);
        }
        if written.failed {
            self.output_failed = true;
        }
        let mut writes: Vec<Written> = Vec::new();
        std::mem::swap(&mut self.writes, &mut writes);
        writes.push(written);
        self.writes = writes;
    }

    /// Fails a flush if the transcript does next.
    fn fail_flush(&mut self) -> (failure: Option<ErrorKind>)
        ensures
            if old(self).remaining().len() > 0 && flush_of(old(self).remaining()[0]) is Some {
                &&& failure == flush_of(old(self).remaining()[0])
                &&& final(self).remaining() == old(self).remaining().skip(1)
                &&& final(self).buffered() == old(self).buffered()
                &&& final(self).chunk() == old(self).chunk()
                &&& final(self).writes() == old(self).writes()
                &&& final(self).output_failed()
            } else {
                failure is None && *final(self) == *old(self)
            },
    {
        proof {
            use_type_invariant(&*self);
        }
        if self.events.len() == 0 {
            return None;
        }
        let kind = match &self.events[0] {
            Event::FlushFailed => ErrorKind::BrokenPipe,
            Event::FlushTimedOut => ErrorKind::TimedOut,
            _ => return None,
        };
        let _ = self.next();
        proof {
            use_type_invariant(&*self);
        }
        self.output_failed = true;
        Some(kind)
    }
}

impl Writer {
    /// Starts out without a pending failure.
    pub fn new() -> (writer: Writer)
        ensures
            writer.pending_error is None,
    {
        Writer { pending_error: None }
    }

    /// Starts new output, which discards a failure left by an abandoned write. The
    /// recorded outcomes determine expiry.
    pub fn set_write_deadline(&mut self)
        ensures
            final(self).pending_error is None,
    {
        self.pending_error = None;
    }

    /// Writes output in place of the recorded one, accepting as much of it.
    pub fn write(&mut self, tape: &mut Tape, bytes: &[u8]) -> (output: Output)
        ensures
            captures(
                *old(tape),
                *final(tape),
                old(self).pending_error,
                final(self).pending_error,
                bytes@,
                output,
            ),
    {
        if let Some(kind) = self.pending_error {
            self.pending_error = None;
            return Output::Failed(kind);
        }
        let (recorded, failure) = match tape.next() {
            Some(Event::Write { bytes, failed }) => (
                bytes,
                if failed {
                    Some(ErrorKind::BrokenPipe)
                } else {
                    None
                },
            ),
            Some(Event::WriteTimedOut { bytes }) => (bytes, Some(ErrorKind::TimedOut)),
            _ => return Output::Diverged,
        };
        let size: usize = match failure {
            Some(_) => if recorded.len() < bytes.len() {
                recorded.len()
            } else {
                bytes.len()
            },
            None => if recorded.len() == 1 && recorded[0] == 0 && bytes.len() > 0 && bytes[0]
                == 0 {
                1
            } else {
                bytes.len()
            },
        };
        let actual = slice_to_vec(slice_subrange(bytes, 0, size));
        assert(actual@ =~= bytes@.take(size as int));
        let ghost played = *tape;
        tape.capture(Written { recorded, actual, failed: failure.is_some() });
        assert(tape.writes().drop_last() =~= played.writes());
        match failure {
            Some(kind) => if size > 0 {
                self.pending_error = Some(kind);
                Output::Accepted(size)
            } else {
                Output::Failed(kind)
            },
            None => Output::Accepted(size),
        }
    }

    /// Flushes the output. A recorded failure whose prefix covered the whole output
    /// surfaces here.
    pub fn flush(&mut self, tape: &mut Tape) -> (output: Output)
        ensures
            flushes(
                *old(tape),
                *final(tape),
                old(self).pending_error,
                final(self).pending_error,
                output,
            ),
    {
        if let Some(kind) = self.pending_error {
            self.pending_error = None;
            return Output::Failed(kind);
        }
        match tape.fail_flush() {
            Some(kind) => Output::Failed(kind),
            None => Output::Accepted(0),
        }
    }
}

/// An output whose recording failed fails on replay too: at once if none of it is
/// accepted, or else at the flush that follows, which plays no further event.
pub proof fn law_failure_surfaces(
    before: Tape,
    written: Tape,
    flushed: Tape,
    pending: Option<ErrorKind>,
    left: Option<ErrorKind>,
    bytes: Seq<u8>,
    write: Output,
    flush: Output,
)
    requires
        captures(before, written, None, pending, bytes, write),
        flushes(written, flushed, pending, left, flush),
        before.remaining().len() > 0,
        output_of(before.remaining()[0]) matches Some(output) && output.1 is Some,
    ensures
        output_of(before.remaining()[0]) matches Some(output) && {
            ||| write == Output::Failed(output.1->0)
            ||| flush == Output::Failed(output.1->0) && flushed.remaining()
                == before.remaining().skip(1)
        },
{
}

/// Input that events bring, one after the other.
pub open spec fn brought(events: Seq<Event>) -> Seq<u8>
    decreases events.len(),
{
    if events.len() == 0 {
        Seq::empty()
    } else {
        (match events[0] {
            Event::Read { bytes, .. } => bytes@,
            _ => Seq::empty(),
        }) + brought(events.skip(1))
    }
}

/// Input that a tape has left to deliver.
pub open spec fn unread(tape: Tape) -> Seq<u8> {
    tape.buffered() + brought(tape.remaining())
}

/// Input of no bytes brings nothing.
proof fn lemma_past_empty(events: Seq<Event>)
    ensures
        brought(past_empty(events)) == brought(events),
        past_empty(events).len() > 0 ==> !is_empty_read(past_empty(events)[0]),
    decreases events.len(),
{
    if events.len() > 0 && is_empty_read(events[0]) {
        lemma_past_empty(events.skip(1));
        assert(brought(events) =~= brought(events.skip(1)));
    }
}

/// No recorded input is lost, repeated or put out of order: what a read delivers and what
/// the tape has left behind it is what the tape had left before.
pub proof fn law_input_is_kept(before: Tape, after: Tape, room: nat, input: Option<Input>)
    requires
        reads(before, after, room, input),
    ensures
        match input {
            Some(Input::Bytes(bytes)) => unread(before) == bytes@ + unread(after),
            _ => unread(before) == unread(after),
        },
{
    let events = past_empty(before.remaining());
    lemma_past_empty(before.remaining());
    if let Some(Input::Bytes(bytes)) = input {
        if before.buffered().len() > 0 {
            assert(before.buffered() =~= bytes@ + after.buffered());
        } else if events[0] is Read {
            assert(events[0]->Read_bytes@ =~= bytes@ + after.buffered());
        }
        assert(unread(before) =~= bytes@ + unread(after));
    } else {
        assert(unread(before) =~= unread(after));
    }
}

/// A read of input that is under way takes as many bytes as there are, up to the room it
/// has and the size of the recorded pieces, and never none if it has room.
pub proof fn law_read_fills(before: Tape, after: Tape, room: nat, input: Option<Input>)
    requires
        reads(before, after, room, input),
        before.buffered().len() > 0,
    ensures
        input matches Some(Input::Bytes(bytes)) && {
            &&& bytes@.len() <= room
            &&& bytes@.len() <= before.buffered().len()
            &&& before.chunk() > 0 ==> bytes@.len() <= before.chunk()
            &&& {
                ||| bytes@.len() == room
                ||| bytes@.len() == before.buffered().len()
                ||| bytes@.len() == before.chunk()
            }
            &&& room > 0 ==> bytes@.len() > 0
        },
        after.remaining() == before.remaining(),
        after.chunk() == before.chunk(),
{
}

/// A read of new input starts with the bytes of the event that brings it, under the same
/// limits, with the size of that event's pieces.
pub proof fn law_read_starts(
    before: Tape,
    after: Tape,
    room: nat,
    input: Option<Input>,
    recorded: Seq<u8>,
    chunk: usize,
)
    requires
        reads(before, after, room, input),
        before.buffered().len() == 0,
        before.remaining().len() > 0,
        before.remaining()[0] matches Event::Read { bytes, chunk: size } && bytes@ == recorded
            && size == chunk,
        recorded.len() > 0,
    ensures
        input matches Some(Input::Bytes(bytes)) && {
            &&& recorded == bytes@ + after.buffered()
            &&& bytes@.len() <= room
            &&& chunk > 0 ==> bytes@.len() <= chunk
            &&& {
                ||| bytes@.len() == room
                ||| bytes@.len() == recorded.len()
                ||| bytes@.len() == chunk
            }
            &&& room > 0 ==> bytes@.len() > 0
        },
        after.remaining() == before.remaining().skip(1),
        after.chunk() == chunk,
{
    if let Some(Input::Bytes(bytes)) = input {
        assert(recorded =~= bytes@ + after.buffered());
    }
}

/// A wait for recorded output ends by the deadline and by the end of the poll, whichever
/// is first, and the read times out only once that time has passed.
pub proof fn law_poll_is_bounded(deadline: u64, started: u64, now: u64)
    ensures
        match polled(deadline, started, now) {
            Input::Wait(until) => {
                &&& now <= until
                &&& until <= deadline
                &&& until <= started + 1_000_000
                &&& until == deadline || until == started + 1_000_000
            },
            Input::Failed(kind) => kind == ErrorKind::TimedOut && (now > deadline || now > started
                + 1_000_000),
            _ => false,
        },
{
}

/// An output that succeeded when it was recorded is accepted whole in its place, but for
/// the delimiter that an output starts with where only that was recorded. One that failed
/// is accepted up to as many bytes as were recorded. What was accepted is what is kept for
/// the comparison, along with the recorded bytes.
pub proof fn law_output_is_captured(
    before: Tape,
    after: Tape,
    left: Option<ErrorKind>,
    bytes: Seq<u8>,
    output: Output,
    recorded: Seq<u8>,
    failed: bool,
)
    requires
        captures(before, after, None, left, bytes, output),
        bytes.len() <= usize::MAX,
        before.remaining().len() > 0,
        match before.remaining()[0] {
            Event::Write { bytes, failed: fails } => recorded == bytes@ && failed == fails,
            Event::WriteTimedOut { bytes } => recorded == bytes@ && failed,
            _ => false,
        },
    ensures
        after.remaining() == before.remaining().skip(1),
        after.writes().len() == before.writes().len() + 1,
        forall|i: int|
            0 <= i < before.writes().len() ==> #[trigger] after.writes()[i] == before.writes()[i],
        ({
            let written = after.writes().last();
            let size = written.actual@.len();
            &&& written.recorded@ == recorded
            &&& written.failed == failed
            &&& written.actual@.is_prefix_of(bytes)
            &&& !failed && (recorded != seq![0u8] || bytes.len() == 0 || bytes[0] != 0) ==> size
                == bytes.len()
            &&& !failed && recorded == seq![0u8] && bytes.len() > 0 && bytes[0] == 0 ==> size == 1
            &&& failed ==> size <= recorded.len() && (size == bytes.len() || size
                == recorded.len())
            &&& size > 0 || !failed ==> output == Output::Accepted(size as usize)
            &&& size == 0 && failed ==> output is Failed
            &&& left is Some <==> failed && size > 0
        }),
        failed ==> after.output_failed(),
{
    let written = after.writes().last();
    assert(forall|i: int|
        0 <= i < before.writes().len() ==> #[trigger] after.writes()[i]
            == after.writes().drop_last()[i]);
    if recorded.len() == 1 && recorded[0] == 0 {
        assert(recorded =~= seq![0u8]);
    }
}

/// A read waits exactly where recorded output has to go out first, or behind output that
/// failed for the call's own failure. It takes no event then.
pub proof fn law_read_waits(before: Tape, after: Tape, room: nat, input: Option<Input>)
    requires
        reads(before, after, room, input),
        before.buffered().len() == 0,
        before.remaining().len() > 0,
        match before.remaining()[0] {
            Event::Read { bytes, .. } => bytes@.len() > 0,
            _ => true,
        },
    ensures
        input is None <==> match before.remaining()[0] {
            Event::Write { .. } | Event::WriteTimedOut { .. } => true,
            Event::FlushFailed | Event::FlushTimedOut => true,
            Event::Refused { .. } => before.output_failed(),
            _ => false,
        },
        input is None ==> after.remaining() == before.remaining(),
{
}

/// A read fails as it did when recorded: at the end of the stream it gets no bytes, and
/// otherwise the error that the recorded one stands for. The event is then played.
pub proof fn law_read_fails_as_recorded(
    before: Tape,
    after: Tape,
    room: nat,
    input: Option<Input>,
    error: ReadError,
)
    requires
        reads(before, after, room, input),
        before.buffered().len() == 0,
        before.remaining().len() > 0,
        before.remaining()[0] == (Event::ReadFailed { error }),
    ensures
        error == ReadError::Eof ==> (input matches Some(Input::Bytes(bytes)) && bytes@.len() == 0),
        error == ReadError::Failed ==> input == Some(Input::Failed(ErrorKind::WouldBlock)),
        error == ReadError::Interrupted ==> input == Some(Input::Failed(ErrorKind::Interrupted)),
        error == ReadError::TimedOut ==> input == Some(Input::Failed(ErrorKind::TimedOut)),
        after.remaining() == before.remaining().skip(1),
{
}

/// A flush fails exactly if a failure is pending or recorded next, with that failure, and
/// plays no event but the recorded failure.
pub proof fn law_flush_fails_as_recorded(
    before: Tape,
    after: Tape,
    pending: Option<ErrorKind>,
    left: Option<ErrorKind>,
    output: Output,
)
    requires
        flushes(before, after, pending, left, output),
    ensures
        pending matches Some(kind) ==> output == Output::Failed(kind) && after == before,
        pending is None && before.remaining().len() > 0 && before.remaining()[0] is FlushFailed
            ==> output == Output::Failed(ErrorKind::BrokenPipe) && after.remaining()
            == before.remaining().skip(1),
        pending is None && before.remaining().len() > 0 && before.remaining()[0] is FlushTimedOut
            ==> output == Output::Failed(ErrorKind::TimedOut) && after.remaining()
            == before.remaining().skip(1),
        output is Failed <==> pending is Some || (before.remaining().len() > 0 && (
        before.remaining()[0] is FlushFailed || before.remaining()[0] is FlushTimedOut)),
        !(output is Failed) ==> output == Output::Accepted(0) && after == before,
        left is None,
{
}

/// The names of failures tell them apart, and no other text is one.
pub proof fn law_failures_are_named(name: Seq<char>)
    ensures
        ReadError::named(name) is Some <==> name == "eof"@ || name == "failed"@ || name
            == "interrupted"@ || name == "timed_out"@,
        name == "eof"@ ==> ReadError::named(name) == Some(ReadError::Eof),
        name == "failed"@ ==> ReadError::named(name) == Some(ReadError::Failed),
        name == "interrupted"@ ==> ReadError::named(name) == Some(ReadError::Interrupted),
        name == "timed_out"@ ==> ReadError::named(name) == Some(ReadError::TimedOut),
{
    reveal_strlit("eof");
    reveal_strlit("failed");
    reveal_strlit("interrupted");
    reveal_strlit("timed_out");
    assert("eof"@.len() == 3);
    assert("failed"@.len() == 6);
    assert("interrupted"@.len() == 11);
    assert("timed_out"@.len() == 9);
}

/// Output where the transcript has something else diverges, and nothing of it is kept.
pub proof fn law_stray_output_diverges(
    before: Tape,
    after: Tape,
    left: Option<ErrorKind>,
    bytes: Seq<u8>,
    output: Output,
)
    requires
        captures(before, after, None, left, bytes, output),
    ensures
        output == Output::Diverged <==> before.remaining().len() == 0 || !(
        before.remaining()[0] is Write || before.remaining()[0] is WriteTimedOut),
        output == Output::Diverged ==> after.writes() == before.writes() && after.buffered()
            == before.buffered(),
{
}

/// A failure that is pending comes out once, before anything else is played.
pub proof fn law_pending_failure_comes_out(
    before: Tape,
    after: Tape,
    kind: ErrorKind,
    left: Option<ErrorKind>,
    bytes: Seq<u8>,
    output: Output,
)
    requires
        captures(before, after, Some(kind), left, bytes, output),
    ensures
        output == Output::Failed(kind),
        left is None,
        after == before,
{
}

} // verus!
